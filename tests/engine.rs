use irrc::error::Response as ServerResponse;
use irrc::{
    AutNum, Error, IrrClient, ItemContent, ItemOrYield, Pipeline, Query, ResponseItem, Responses,
    Step,
};

fn walk<T: ItemContent>(p: &mut Pipeline) -> Vec<Result<ResponseItem<T>, Error>> {
    let mut w = Responses::new();
    let mut out = Vec::new();
    loop {
        match w.next::<T>(p) {
            Step::NeedData => panic!("the script holds too few bytes"),
            Step::Ready(None) => break,
            Step::Ready(Some(x)) => out.push(x),
        }
    }
    out
}

fn asn(n: u32) -> AutNum {
    AutNum::from(n)
}

#[test]
fn version_scenario() {
    let mut p = Pipeline::new(1024);
    p.push(Query::Version);
    assert_eq!(p.take_outgoing(), vec!["!v\n".to_string()]);
    p.feed(b"A15\nIRRd - version 1\nC\n");
    let mut resp = match p.pop() {
        Step::Ready(Some(Ok(r))) => r,
        _ => panic!("expected a response"),
    };
    assert_eq!(resp.query(), &Query::Version);
    match resp.next_or_yield::<String>(&mut p) {
        Step::Ready(ItemOrYield::Item(Ok(item))) => {
            assert_eq!(item.content(), "IRRd - version 1");
            assert_eq!(item.query(), &Query::Version);
        }
        _ => panic!("expected an item"),
    }
    assert!(matches!(resp.drain(&mut p), Step::Ready(())));
    assert_eq!(p.free_space(), 1024);
}

#[test]
fn key_not_found_scenario() {
    let query = Query::AsSetMembers("AS-XYZ".parse().unwrap());
    let mut p = Pipeline::new(1024);
    p.push(query.clone());
    assert_eq!(p.take_outgoing(), vec!["!iAS-XYZ\n".to_string()]);
    p.feed(b"D\n");
    match p.pop() {
        Step::Ready(Some(Err(e))) => {
            assert_eq!(e, Error::ResponseErr(query, ServerResponse::KeyNotFound))
        }
        _ => panic!("expected a server error"),
    }
    assert!(matches!(p.pop(), Step::Ready(None)));
}

#[test]
fn pipelined_two_queries_scenario() {
    let v4 = Query::Ipv4Routes(asn(65000));
    let v6 = Query::Ipv6Routes(asn(65000));
    let mut p = Pipeline::new(1024);
    p.push(v4.clone());
    p.push(v6.clone());
    assert_eq!(p.take_outgoing(), vec!["!gAS65000\n".to_string(), "!6AS65000\n".to_string()]);
    p.feed(b"A21\n10.0.0.0/24 10.0.1.0/24\nC\nA15\n2001:db8::/32\nC\n");
    let items: Vec<(String, Query)> = walk::<String>(&mut p)
        .into_iter()
        .filter_map(Result::ok)
        .map(|i| (i.content().clone(), i.query().clone()))
        .collect();
    assert_eq!(
        items,
        vec![
            ("10.0.0.0/24".to_string(), v4.clone()),
            ("10.0.1.0/24".to_string(), v4),
            ("2001:db8::/32".to_string(), v6),
        ]
    );
}

#[test]
fn pipelined_two_queries_with_exact_lengths() {
    let v4 = Query::Ipv4Routes(asn(65000));
    let v6 = Query::Ipv6Routes(asn(65000));
    let mut p = Pipeline::new(1024);
    p.push(v4.clone());
    p.push(v6.clone());
    p.feed(b"A24\n10.0.0.0/24 10.0.1.0/24\nC\nA14\n2001:db8::/32\nC\n");
    let items = walk::<String>(&mut p);
    assert_eq!(items.len(), 3);
    let items: Vec<ResponseItem<String>> = items.into_iter().map(|r| r.unwrap()).collect();
    assert_eq!(items[0].query(), &v4);
    assert_eq!(items[1].query(), &v4);
    assert_eq!(items[2].query(), &v6);
    assert_eq!(items[2].content(), "2001:db8::/32");
}

#[test]
fn underrun_scenario() {
    let mut p = Pipeline::new(1024);
    p.push(Query::Ipv4Routes(asn(1)));
    p.feed(b"A10\nabc\nC\n");
    let items = walk::<String>(&mut p);
    assert_eq!(items.len(), 2);
    assert_eq!(items[0].as_ref().unwrap().content(), "abc");
    assert_eq!(items[1].as_ref().err(), Some(&Error::ResponseDataUnderrun(3, 10)));
}

#[test]
fn overrun_is_reported() {
    let mut p = Pipeline::new(1024);
    p.push(Query::Ipv4Routes(asn(1)));
    p.feed(b"A1\nabc def\nC\n");
    let items = walk::<String>(&mut p);
    assert_eq!(items[0].as_ref().unwrap().content(), "abc");
    assert_eq!(items[1].as_ref().err(), Some(&Error::ResponseDataOverrun(4, 1)));
}

#[test]
fn fan_out_from_initial_scenario() {
    let initial = Query::AsSetMembersRecursive("AS-CUSTOMERS".parse().unwrap());
    let mut p = Pipeline::new(1 << 16);
    p.push(initial.clone());
    assert_eq!(p.take_outgoing(), vec!["!iAS-CUSTOMERS,1\n".to_string()]);
    p.feed(b"A16\nAS65001 AS65002\nC\n");
    let mut resp = match p.pop() {
        Step::Ready(Some(Ok(r))) => r,
        _ => panic!("expected a response"),
    };
    let mut pushed = Vec::new();
    loop {
        match resp.next_or_yield::<AutNum>(&mut p) {
            Step::Ready(ItemOrYield::Item(Ok(item))) => {
                let a = item.into_content();
                for q in [Query::Ipv4Routes(a), Query::Ipv6Routes(a)] {
                    pushed.push(q.clone());
                    p.push(q);
                }
            }
            Step::Ready(ItemOrYield::Yield) => break,
            _ => panic!("unexpected step"),
        }
    }
    assert_eq!(pushed.len(), 4);
    let sent = p.take_outgoing();
    assert_eq!(sent, vec!["!gAS65001\n", "!6AS65001\n", "!gAS65002\n", "!6AS65002\n"]);
    p.feed(b"A13\n192.0.2.0/24\nC\nA14\n2001:db8::/32\nC\nA15\n203.0.113.0/24\nC\nA16\n2001:db8:1::/48\nC\n");
    let items: Vec<ResponseItem<String>> =
        walk::<String>(&mut p).into_iter().map(|r| r.unwrap()).collect();
    let queries: Vec<Query> = items.iter().map(|i| i.query().clone()).collect();
    assert_eq!(queries.len(), 2 * 2);
    assert_eq!(queries, pushed);
}

#[test]
fn clear_then_reuse_scenario() {
    let mut p = Pipeline::new(1024);
    p.push(Query::Ipv4Routes(asn(1)));
    p.push(Query::Ipv4Routes(asn(2)));
    p.push(Query::Ipv4Routes(asn(3)));
    p.feed(b"A8\n1.0.0.0\nC\nA8\n2.0.0.0\nC\nA8\n3.0.0.0\nC\n");
    let mut first = match p.pop() {
        Step::Ready(Some(Ok(r))) => r,
        _ => panic!("expected a response"),
    };
    match first.next_or_yield::<String>(&mut p) {
        Step::Ready(ItemOrYield::Item(Ok(item))) => assert_eq!(item.content(), "1.0.0.0"),
        _ => panic!("expected an item"),
    }
    assert!(matches!(first.drain(&mut p), Step::Ready(())));
    let mut rest = Responses::new();
    assert!(matches!(rest.drain(&mut p), Step::Ready(())));
    assert_eq!(p.free_space(), 1024);
    let fresh = Query::Ipv6Routes(asn(9));
    p.push(fresh.clone());
    p.feed(b"A9\n2001:db8\nC\n");
    let items = walk::<String>(&mut p);
    assert_eq!(items.len(), 1);
    let item = items.into_iter().next().unwrap().unwrap();
    assert_eq!(item.query(), &fresh);
    assert_eq!(item.into_content(), "2001:db8");
}

#[test]
fn drain_waits_for_missing_bytes() {
    let mut p = Pipeline::new(1024);
    p.push(Query::Ipv4Routes(asn(1)));
    p.push(Query::Ipv4Routes(asn(2)));
    p.feed(b"A8\n1.0.0.0\nC\nA8\n2.0");
    let mut w = Responses::new();
    assert!(matches!(w.drain(&mut p), Step::NeedData));
    p.feed(b".0.0\nC\n");
    assert!(matches!(w.drain(&mut p), Step::Ready(())));
    assert!(matches!(p.pop(), Step::Ready(None)));
}

#[test]
fn items_follow_push_order() {
    let mut p = Pipeline::new(4096);
    let queries: Vec<Query> = (1..=5).map(|n| Query::Ipv4Routes(asn(n))).collect();
    for q in &queries {
        p.push(q.clone());
    }
    for n in 1..=5 {
        let body = format!("A8\n{n}.0.0.0\nC\n");
        p.feed(body.as_bytes());
    }
    let items: Vec<ResponseItem<String>> =
        walk::<String>(&mut p).into_iter().map(|r| r.unwrap()).collect();
    for (i, item) in items.iter().enumerate() {
        assert_eq!(item.query(), &queries[i]);
        assert_eq!(item.content(), &format!("{}.0.0.0", i + 1));
    }
}

#[test]
fn dropping_a_response_leaves_the_next_preamble() {
    let mut p = Pipeline::new(1024);
    p.push(Query::MntBy("MAINT-X".parse().unwrap()));
    p.push(Query::Version);
    p.feed(b"A24\nmntner: MAINT-X\n\nfoo: 1\nC\nA3\nv1\nC\n");
    let mut first = match p.pop() {
        Step::Ready(Some(Ok(r))) => r,
        _ => panic!("expected a response"),
    };
    assert!(matches!(first.drain(&mut p), Step::Ready(())));
    let mut second = match p.pop() {
        Step::Ready(Some(Ok(r))) => r,
        _ => panic!("expected a second response"),
    };
    assert_eq!(second.query(), &Query::Version);
    match second.next_or_yield::<String>(&mut p) {
        Step::Ready(ItemOrYield::Item(Ok(item))) => assert_eq!(item.content(), "v1"),
        _ => panic!("expected an item"),
    }
}

#[test]
fn paragraph_items() {
    let mut p = Pipeline::new(1024);
    p.push(Query::MntBy("MAINT-X".parse().unwrap()));
    p.feed(b"A24\nmntner: MAINT-X\n\nfoo: 1\nC\n");
    let items: Vec<String> =
        walk::<String>(&mut p).into_iter().map(|r| r.unwrap().into_content()).collect();
    assert_eq!(items, vec!["mntner: MAINT-X".to_string(), "foo: 1".to_string()]);
}

#[test]
fn need_data_until_fed() {
    let mut p = Pipeline::new(1024);
    p.push(Query::Version);
    assert!(matches!(p.pop(), Step::NeedData));
    p.feed(b"A3");
    assert!(matches!(p.pop(), Step::NeedData));
    p.feed(b"\nv1");
    let mut resp = match p.pop() {
        Step::Ready(Some(Ok(r))) => r,
        _ => panic!("expected a response"),
    };
    assert!(matches!(resp.next_or_yield::<String>(&mut p), Step::NeedData));
    p.feed(b"\nC\n");
    match resp.next_or_yield::<String>(&mut p) {
        Step::Ready(ItemOrYield::Item(Ok(item))) => assert_eq!(item.content(), "v1"),
        _ => panic!("expected an item"),
    }
    assert!(matches!(resp.next_or_yield::<String>(&mut p), Step::Ready(ItemOrYield::Yield)));
    assert!(matches!(resp.next_or_yield::<String>(&mut p), Step::Ready(ItemOrYield::Finished)));
}

#[test]
fn errors_of_preambles() {
    let mut p = Pipeline::new(1024);
    let id = Query::SetClientId("me".to_string());
    p.push(id.clone());
    p.feed(b"A5\n");
    match p.pop() {
        Step::Ready(Some(Err(e))) => assert_eq!(e, Error::UnexpectedData(id, 5)),
        _ => panic!("expected unexpected data"),
    }
    let mut p = Pipeline::new(1024);
    p.push(Query::Version);
    p.feed(b"Z\n");
    assert!(matches!(p.pop(), Step::Ready(Some(Err(Error::ParseErr)))));
    let mut p = Pipeline::new(1024);
    let q = Query::GetSources;
    p.push(q.clone());
    p.feed(b"F no such thing\n");
    match p.pop() {
        Step::Ready(Some(Err(e))) => assert_eq!(
            e,
            Error::ResponseErr(q, ServerResponse::Other("no such thing".to_string()))
        ),
        _ => panic!("expected a server error"),
    }
    let mut p = Pipeline::new(1024);
    p.push(Query::UnsetSources);
    p.feed(b"E\n");
    assert!(matches!(
        p.pop(),
        Step::Ready(Some(Err(Error::ResponseErr(_, ServerResponse::KeyNotUnique))))
    ));
}

#[test]
fn item_parse_errors_do_not_end_the_response() {
    let mut p = Pipeline::new(1024);
    p.push(Query::AsSetMembers("AS-X".parse().unwrap()));
    p.feed(b"A21\nAS1 foo AS2 AS-Y AS3\nC\n");
    let items = walk::<AutNum>(&mut p);
    assert_eq!(items.len(), 5);
    assert_eq!(items[0].as_ref().unwrap().content(), &asn(1));
    assert_eq!(items[1].as_ref().err(), Some(&Error::ParseItem(4)));
    assert_eq!(items[3].as_ref().err(), Some(&Error::ParseItem(5)));
    assert_eq!(items[4].as_ref().unwrap().content(), &asn(3));
}

#[test]
fn zero_length_and_no_data_responses_yield_nothing() {
    let mut p = Pipeline::new(1024);
    p.push(Query::SetClientId("me".to_string()));
    p.push(Query::Ipv4Routes(asn(1)));
    p.push(Query::Version);
    p.feed(b"C\nC\nA3\nv1\nC\n");
    let items = walk::<String>(&mut p);
    assert_eq!(items.len(), 1);
    assert_eq!(items[0].as_ref().unwrap().content(), "v1");
}

#[test]
fn flush_window_and_batches() {
    let mut p = Pipeline::new(1024);
    for n in 0..1001u32 {
        p.push(Query::Ipv4Routes(asn(n)));
    }
    let first = p.take_outgoing();
    assert_eq!(first.len(), 901);
    assert_eq!(first[900], "!gAS900\n");
    p.feed(b"C\n");
    assert!(matches!(p.pop(), Step::Ready(Some(Ok(_)))));
    assert_eq!(p.take_outgoing().len(), 0);
    p.feed(b"C\n");
    assert!(matches!(p.pop(), Step::Ready(Some(Ok(_)))));
    let second = p.take_outgoing();
    assert_eq!(second.len(), 100);
    assert_eq!(second[0], "!gAS901\n");
    assert_eq!(second[99], "!gAS1000\n");
}

#[test]
fn feed_takes_what_fits() {
    let mut p = Pipeline::new(8);
    assert_eq!(p.free_space(), 8);
    assert_eq!(p.feed(b"0123456789"), 8);
    assert_eq!(p.free_space(), 0);
    assert_eq!(p.feed(b"x"), 0);
}

#[test]
fn startup_queries_of_a_client() {
    let mut client = IrrClient::new("whois.example.net:43");
    let qs = client.startup_queries();
    assert_eq!(qs, vec![Query::SetClientId(irrc::DEFAULT_CLIENT_ID.to_string())]);
    client.client_id(Some("tester"));
    client.server_timeout(Some(60));
    let cmds: Vec<String> = client.startup_queries().iter().map(|q| q.cmd()).collect();
    assert_eq!(cmds, vec!["!ntester\n".to_string(), "!t60\n".to_string()]);
    client.client_id(None);
    assert_eq!(client.effective_client_id(), "irrc-0.1.0");
    assert_eq!(client.addr(), &"whois.example.net:43");
}

#[test]
fn abandoned_response_reads_nothing_more() {
    let mut p = Pipeline::new(1024);
    p.push(Query::Ipv4Routes(asn(1)));
    p.feed(b"A8\n1.0.0.0");
    let mut resp = match p.pop() {
        Step::Ready(Some(Ok(r))) => r,
        _ => panic!("expected a response"),
    };
    resp.abandon();
    assert!(matches!(resp.next_or_yield::<String>(&mut p), Step::Ready(ItemOrYield::Finished)));
    assert_eq!(p.free_space(), 1024 - 7);
}

#[test]
fn server_error_then_next_response_items() {
    let q1 = Query::AsSetMembers("AS-ONE".parse().unwrap());
    let q2 = Query::Ipv4Routes(asn(2));
    let mut p = Pipeline::new(1024);
    p.push(q1.clone());
    p.push(q2.clone());
    p.feed(b"D\nA16\n10.0.0.0/8 20.0\nC\n");
    let items = walk::<String>(&mut p);
    assert_eq!(items.len(), 3);
    assert_eq!(items[0].as_ref().err(), Some(&Error::ResponseErr(q1, ServerResponse::KeyNotFound)));
    assert_eq!(items[1].as_ref().unwrap().query(), &q2);
    assert_eq!(items[2].as_ref().unwrap().content(), "20.0");
}

#[test]
fn autnum_from_keeps_the_number() {
    assert_eq!(AutNum::from(65000).asn(), 65000);
}
