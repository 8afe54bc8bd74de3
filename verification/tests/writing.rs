use redis_rs::resp::{parse_one, ParseResult, Resp};

fn encode(r: &Resp) -> Vec<u8> {
    let mut out = Vec::new();
    r.serialize(&mut out);
    out
}

#[test]
fn serializes_each_kind() {
    assert_eq!(encode(&Resp::String("OK".to_string())), b"+OK\r\n".to_vec());
    assert_eq!(encode(&Resp::Error("ERR no".to_string())), b"-ERR no\r\n".to_vec());
    assert_eq!(encode(&Resp::Integer(0)), b":0\r\n".to_vec());
    assert_eq!(encode(&Resp::Integer(-42)), b":-42\r\n".to_vec());
    assert_eq!(encode(&Resp::Integer(i64::MIN)), b":-9223372036854775808\r\n".to_vec());
    assert_eq!(encode(&Resp::Integer(i64::MAX)), b":9223372036854775807\r\n".to_vec());
    assert_eq!(encode(&Resp::BulkString(5, "hello".to_string())), b"$5\r\nhello\r\n".to_vec());
    assert_eq!(encode(&Resp::NullBulkString), b"$-1\r\n".to_vec());
    assert_eq!(encode(&Resp::Boolean(true)), b"#t\r\n".to_vec());
    assert_eq!(encode(&Resp::Boolean(false)), b"#f\r\n".to_vec());
    assert_eq!(encode(&Resp::Double("3.14".to_string())), b",3.14\r\n".to_vec());
    assert_eq!(
        encode(&Resp::Array(2, vec![Resp::Integer(1), Resp::Array(0, vec![])])),
        b"*2\r\n:1\r\n*0\r\n".to_vec()
    );
}

#[test]
fn serialize_appends() {
    let mut out = b"+A\r\n".to_vec();
    Resp::Integer(7).serialize(&mut out);
    assert_eq!(out, b"+A\r\n:7\r\n".to_vec());
}

#[test]
fn written_values_read_back() {
    let values = vec![
        Resp::String("hello world".to_string()),
        Resp::Error("ERR bad".to_string()),
        Resp::Integer(-17),
        Resp::BulkString(6, "a\r\nb\u{e9}".to_string()),
        Resp::NullBulkString,
        Resp::Boolean(false),
        Resp::Double("-1.5e3".to_string()),
        Resp::Array(
            3,
            vec![
                Resp::BulkString(3, "SET".to_string()),
                Resp::Array(1, vec![Resp::NullBulkString]),
                Resp::Integer(9),
            ],
        ),
    ];
    for v in values {
        let bytes = encode(&v);
        let n = bytes.len();
        assert_eq!(parse_one(&bytes), ParseResult::Complete(v, n));
    }
}
