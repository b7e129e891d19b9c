use irrc::error::Response;
use irrc::parse::{all, end_of_response, noop, paragraph, response_status, word, Outcome};

#[test]
fn eor() {
    assert_eq!(end_of_response(b"\nC\n"), Outcome::Done(3, ()))
}

#[test]
fn eor_with_trailing_input_and_partial() {
    assert_eq!(end_of_response(b"\nC\nA5\n"), Outcome::Done(3, ()));
    assert_eq!(end_of_response(b""), Outcome::Incomplete);
    assert_eq!(end_of_response(b"\nC"), Outcome::Incomplete);
    assert_eq!(end_of_response(b"C"), Outcome::Invalid);
    assert_eq!(end_of_response(b"\n\n"), Outcome::Invalid);
}

#[test]
fn preamble_outcomes() {
    assert_eq!(response_status(b"A0\n"), Outcome::Done(3, Ok(Some(0))));
    assert_eq!(response_status(b"A101\n"), Outcome::Done(5, Ok(Some(101))));
    assert_eq!(response_status(b"C\n"), Outcome::Done(2, Ok(None)));
    assert_eq!(response_status(b"D\n"), Outcome::Done(2, Err(Response::KeyNotFound)));
    assert_eq!(response_status(b"E\n"), Outcome::Done(2, Err(Response::KeyNotUnique)));
    assert_eq!(
        response_status(b"F foo\n"),
        Outcome::Done(6, Err(Response::Other("foo".to_string())))
    );
}

#[test]
fn preamble_incomplete() {
    for input in [&b""[..], b"C", b"D", b"E", b"A", b"A1", b"F", b"F foo"] {
        assert_eq!(response_status(input), Outcome::Incomplete);
    }
}

#[test]
fn preamble_invalid() {
    for input in [&b"\n"[..], b"Z", b"A\n", b"Afoo", b"C1", b"F\n", b"Fmsg", b"F \xc0\n"] {
        assert_eq!(response_status(input), Outcome::Invalid);
    }
    assert_eq!(response_status(b"A99999999999999999999999\n"), Outcome::Invalid);
}

#[test]
fn preamble_consumes_only_itself() {
    assert_eq!(response_status(b"A5\nhello\nC\n"), Outcome::Done(3, Ok(Some(5))));
}

#[test]
fn word_frames() {
    assert_eq!(word(b"foo bar"), Outcome::Done(4, (0, 3)));
    assert_eq!(word(b"foo\n"), Outcome::Done(3, (0, 3)));
    assert_eq!(word(b"foo   bar"), Outcome::Done(6, (0, 3)));
    assert_eq!(word(b""), Outcome::Incomplete);
    assert_eq!(word(b"foo"), Outcome::Incomplete);
    assert_eq!(word(b"foo  "), Outcome::Incomplete);
    assert_eq!(word(b" foo"), Outcome::Invalid);
    assert_eq!(word(b"\nfoo"), Outcome::Invalid);
}

#[test]
fn all_frames() {
    assert_eq!(all(b"foo bar baz\nC\n"), Outcome::Done(11, (0, 11)));
    assert_eq!(all(b""), Outcome::Incomplete);
    assert_eq!(all(b"foo"), Outcome::Incomplete);
}

#[test]
fn noop_frames_nothing() {
    assert_eq!(noop(b""), Outcome::Done(0, (0, 0)));
    assert_eq!(noop(b"foo bar baz\nC\n"), Outcome::Done(0, (0, 0)));
}

#[test]
fn paragraph_frames() {
    assert_eq!(paragraph(b""), Outcome::Incomplete);
    assert_eq!(paragraph(b"foo"), Outcome::Incomplete);
    let input = b"route: 192.0.2.0/24\norigin: AS1\n\nroute: 198.51.100.0/24\n\nC\n";
    assert_eq!(paragraph(input), Outcome::Done(32, (0, 31)));
    let rest = &input[32..];
    assert_eq!(paragraph(rest), Outcome::Done(24, (1, 23)));
    assert_eq!(end_of_response(&rest[24..]), Outcome::Done(3, ()));
    assert_eq!(paragraph(b"\nlast\nC\nA3\nx\n\nC\n"), Outcome::Done(5, (1, 5)));
}
