use irrc::{AsSet, AutNum, Mntner, Query, RouteSet, RpslObjectClass};

fn all_queries() -> Vec<Query> {
    let as_set: AsSet = "AS65000:AS-FOO".parse().unwrap();
    let route_set: RouteSet = "RS-BAR".parse().unwrap();
    let autnum = AutNum::from(65000);
    let mntner: Mntner = "MAINT-FOO".parse().unwrap();
    vec![
        Query::Version,
        Query::SetClientId("me".to_string()),
        Query::SetTimeout(30),
        Query::GetSources,
        Query::SetSources(vec!["RADB".to_string(), "RIPE".to_string()]),
        Query::UnsetSources,
        Query::AsSetMembers(as_set.clone()),
        Query::AsSetMembersRecursive(as_set),
        Query::RouteSetMembers(route_set.clone()),
        Query::RouteSetMembersRecursive(route_set),
        Query::Ipv4Routes(autnum),
        Query::Ipv6Routes(autnum),
        Query::RpslObject(RpslObjectClass::AutNum, "AS65000".to_string()),
        Query::MntBy(mntner),
        Query::Origins("192.0.2.0/24".to_string()),
        Query::RoutesExact("192.0.2.0/24".to_string()),
        Query::RoutesLess("192.0.2.0/24".to_string()),
        Query::RoutesLessEqual("192.0.2.0/24".to_string()),
        Query::RoutesMore("192.0.2.0/24".to_string()),
    ]
}

#[test]
fn commands_render() {
    let expected = [
        "!v\n",
        "!nme\n",
        "!t30\n",
        "!s-lc\n",
        "!sRADB,RIPE\n",
        "!s-*\n",
        "!iAS65000:AS-FOO\n",
        "!iAS65000:AS-FOO,1\n",
        "!iRS-BAR\n",
        "!iRS-BAR,1\n",
        "!gAS65000\n",
        "!6AS65000\n",
        "!maut-num,AS65000\n",
        "!oMAINT-FOO\n",
        "!r192.0.2.0/24,o\n",
        "!r192.0.2.0/24\n",
        "!r192.0.2.0/24,l\n",
        "!r192.0.2.0/24,L\n",
        "!r192.0.2.0/24,M\n",
    ];
    for (q, e) in all_queries().iter().zip(expected.iter()) {
        assert_eq!(q.cmd(), *e);
    }
}

#[test]
fn commands_begin_with_bang_and_end_with_newline() {
    let mut queries = all_queries();
    queries.push(Query::SetClientId(String::new()));
    queries.push(Query::SetSources(vec![]));
    queries.push(Query::RoutesMore(String::new()));
    for q in queries {
        let c = q.cmd();
        assert!(c.starts_with('!'));
        assert!(c.ends_with('\n'));
    }
}

#[test]
fn rendering_is_stable() {
    for q in all_queries() {
        assert_eq!(q.cmd(), q.clone().cmd());
        assert_eq!(q.cmd(), q.duplicate().cmd());
    }
}

#[test]
fn no_data_queries_frame_nothing() {
    for q in all_queries() {
        if !q.expect_data() {
            assert_eq!(q.frame(b"foo bar\nC\n"), irrc::parse::Outcome::Done(0, (0, 0)));
        }
    }
    let expecting: Vec<bool> = all_queries().iter().map(|q| q.expect_data()).collect();
    assert_eq!(expecting.iter().filter(|e| !**e).count(), 4);
}

#[test]
fn class_tokens() {
    assert_eq!(RpslObjectClass::Mntner.name(), "mntner");
    assert_eq!(RpslObjectClass::AutNum.name(), "aut-num");
    assert_eq!(RpslObjectClass::PeeringSet.name(), "peering-set");
    assert_eq!(RpslObjectClass::Route6.name(), "route6");
}

#[test]
fn query_is_singleton_iterator() {
    let q = Query::Version;
    let mut iter = q.clone().into_iter();
    assert_eq!(iter.next(), Some(q));
    assert_eq!(iter.next(), None);
}

#[test]
fn parse_item_reads_typed_content() {
    let q = Query::Ipv4Routes(AutNum::from(1));
    let r: Result<(usize, String), irrc::Error> = q.parse_item(b"192.0.2.0/24 x\n");
    assert_eq!(r, Ok((13, "192.0.2.0/24".to_string())));
    let members = Query::AsSetMembers("AS-X".parse().unwrap());
    let r: Result<(usize, AutNum), irrc::Error> = members.parse_item(b"AS65001 AS2");
    assert_eq!(r, Ok((8, AutNum::from(65001))));
    let r: Result<(usize, AutNum), irrc::Error> = members.parse_item(b"foo bar");
    assert_eq!(r, Err(irrc::Error::ParseItem(4)));
    let r: Result<(usize, String), irrc::Error> = members.parse_item(b"\xff\xfe x");
    assert_eq!(r, Err(irrc::Error::ParseItem(3)));
    let r: Result<(usize, String), irrc::Error> = members.parse_item(b"foo");
    assert_eq!(r, Err(irrc::Error::Incomplete));
    let r: Result<(usize, String), irrc::Error> = members.parse_item(b" foo");
    assert_eq!(r, Err(irrc::Error::ParseErr));
}
