use redis_rs::resp::{parse_checked, parse_one, parse_resp_msg, ParseResult, Resp};

fn bulk(s: &str) -> Resp {
    Resp::BulkString(s.len() as i64, s.to_string())
}

#[test]
fn trailing_bytes_do_not_change_a_complete_message() {
    let alone = parse_one(b"$5\r\nhello\r\n");
    assert_eq!(alone, ParseResult::Complete(bulk("hello"), 11));
    assert_eq!(parse_one(b"$5\r\nhello\r\n+OK\r\n"), alone);
    assert_eq!(parse_one(b"$5\r\nhello\r\n\xff\xfe"), alone);
}

#[test]
fn trailing_bytes_do_not_change_a_malformed_message() {
    assert_eq!(parse_one(b"#x\r\n"), ParseResult::Malformed);
    assert_eq!(parse_one(b"#x\r\n+OK\r\n"), ParseResult::Malformed);
}

#[test]
fn incomplete_message_completes_when_the_rest_arrives() {
    assert_eq!(parse_one(b"*2\r\n$3\r\nGET\r\n"), ParseResult::Incomplete);
    assert_eq!(
        parse_one(b"*2\r\n$3\r\nGET\r\n$1\r\nk\r\n"),
        ParseResult::Complete(Resp::Array(2, vec![bulk("GET"), bulk("k")]), 20)
    );
}

#[test]
fn negative_array_count_is_refused() {
    assert_eq!(parse_checked(b"*-1\r\n"), None);
    assert_eq!(parse_checked(b"*1\r\n*-2\r\n"), None);
    assert_eq!(parse_checked(b"*-1"), Some(ParseResult::Incomplete));
}

#[test]
fn checked_parse_agrees_with_parse_one() {
    let inputs: [&[u8]; 5] = [b"+OK\r\n", b"", b"*1\r\n", b"!\r\n", b"*0\r\n"];
    for input in inputs {
        assert_eq!(parse_checked(input), Some(parse_one(input)));
        assert_eq!(parse_resp_msg(input), parse_one(input));
    }
    assert_eq!(parse_one(b"*0\r\n"), ParseResult::Complete(Resp::Array(0, vec![]), 4));
}

#[test]
fn integer_edge_cases() {
    assert_eq!(parse_one(b":+5\r\n"), ParseResult::Complete(Resp::Integer(5), 5));
    assert_eq!(parse_one(b":007\r\n"), ParseResult::Complete(Resp::Integer(7), 6));
    assert_eq!(
        parse_one(b":-9223372036854775808\r\n"),
        ParseResult::Complete(Resp::Integer(i64::MIN), 23)
    );
    assert_eq!(
        parse_one(b":9223372036854775807\r\n"),
        ParseResult::Complete(Resp::Integer(i64::MAX), 22)
    );
    assert_eq!(parse_one(b":9223372036854775808\r\n"), ParseResult::Malformed);
    assert_eq!(parse_one(b":-9223372036854775809\r\n"), ParseResult::Malformed);
    assert_eq!(parse_one(b":\r\n"), ParseResult::Malformed);
    assert_eq!(parse_one(b":-\r\n"), ParseResult::Malformed);
    assert_eq!(parse_one(b":+\r\n"), ParseResult::Malformed);
    assert_eq!(parse_one(b":1a\r\n"), ParseResult::Malformed);
    assert_eq!(parse_one(b": 1\r\n"), ParseResult::Malformed);
}

#[test]
fn double_text_is_accepted_exactly_when_std_parses_it() {
    let texts = [
        "3.14", "-0.5", "+2", ".5", "5.", "1e10", "1E-5", "1e+5", "-1.5e3", "inf", "-inf", "+Inf",
        "infinity", "-Infinity", "INFINITY", "nan", "NaN", "-nan", "+NAN", "0", "00.00",
        ".", "e5", "1e", "1e+", "+", "-", "", " 1", "1 ", "0x10", "1_000", "in", "infinit",
        "nana", "1.2.3", "1e5.5", "--1", "+-1", "1e--5",
    ];
    for text in texts {
        let msg = format!(",{text}\r\n");
        let got = parse_one(msg.as_bytes());
        if text.parse::<f64>().is_ok() {
            assert_eq!(
                got,
                ParseResult::Complete(Resp::Double(text.to_string()), msg.len()),
                "text {text:?}"
            );
        } else {
            assert_eq!(got, ParseResult::Malformed, "text {text:?}");
        }
    }
}

#[test]
fn invalid_utf8_is_malformed() {
    assert_eq!(parse_one(b"+\xff\r\n"), ParseResult::Malformed);
    assert_eq!(parse_one(b"-\xc3\r\n"), ParseResult::Malformed);
    assert_eq!(parse_one(b"$2\r\n\xc3\x28\r\n"), ParseResult::Malformed);
    assert_eq!(
        parse_one("+caf\u{e9}\r\n".as_bytes()),
        ParseResult::Complete(Resp::String("caf\u{e9}".to_string()), 8)
    );
}

#[test]
fn bulk_payload_is_byte_counted() {
    assert_eq!(parse_one(b"$2\r\nabcd\r\n"), ParseResult::Malformed);
    assert_eq!(parse_one(b"$3\r\nabcdef\r\n"), ParseResult::Malformed);
    assert_eq!(
        parse_one(b"$4\r\na\r\nb\r\n"),
        ParseResult::Complete(Resp::BulkString(4, "a\r\nb".to_string()), 10)
    );
    assert_eq!(parse_one(b"$3\r\nab"), ParseResult::Incomplete);
    assert_eq!(parse_one(b"$3\r\nabc\r"), ParseResult::Incomplete);
    assert_eq!(parse_one(b"$3\r\nabcX\r\n"), ParseResult::Malformed);
}

#[test]
fn nested_arrays() {
    assert_eq!(
        parse_one(b"*2\r\n*1\r\n:1\r\n#t\r\n"),
        ParseResult::Complete(
            Resp::Array(2, vec![Resp::Array(1, vec![Resp::Integer(1)]), Resp::Boolean(true)]),
            16
        )
    );
}

#[test]
fn every_cut_of_a_message_is_incomplete() {
    let whole: &[u8] = b"*3\r\n$3\r\nSET\r\n$1\r\nk\r\n*2\r\n:-7\r\n#t\r\n";
    let n = whole.len();
    for cut in 0..n {
        assert_eq!(parse_one(&whole[..cut]), ParseResult::Incomplete, "cut at {cut}");
    }
    let read = parse_one(whole);
    let mut longer = whole.to_vec();
    longer.extend_from_slice(b"-ERR\r\n");
    assert_eq!(parse_one(&longer), read);
    assert!(matches!(read, ParseResult::Complete(_, m) if m == n));
}
