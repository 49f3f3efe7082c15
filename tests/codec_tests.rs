use xredis::{parse_resp, parse_resp_recursive, RespMessage};

fn bulk(s: &str) -> RespMessage {
    RespMessage::BulkString(Some(s.as_bytes().to_vec()))
}

fn round_trip(m: RespMessage) {
    let bytes = m.encode();
    assert_eq!(parse_resp(&bytes), Ok(m));
}

#[test]
fn round_trip_of_each_kind() {
    round_trip(RespMessage::SimpleString("OK".to_string()));
    round_trip(RespMessage::SimpleString(String::new()));
    round_trip(RespMessage::Error("ERR a\rb\nc".to_string()));
    round_trip(RespMessage::Integer(0));
    round_trip(RespMessage::Integer(-42));
    round_trip(RespMessage::Integer(i64::MIN));
    round_trip(RespMessage::Integer(i64::MAX));
    round_trip(RespMessage::BulkString(None));
    round_trip(RespMessage::BulkString(Some(Vec::new())));
    round_trip(bulk("with\r\ninside"));
    round_trip(bulk("héllo"));
    round_trip(RespMessage::Array(vec![]));
    round_trip(RespMessage::Array(vec![
        bulk("SET"),
        RespMessage::Array(vec![RespMessage::Integer(7), RespMessage::BulkString(None)]),
        RespMessage::SimpleString("x".to_string()),
    ]));
}

#[test]
fn encodes_exact_bytes() {
    assert_eq!(RespMessage::Integer(-7).encode(), b":-7\r\n".to_vec());
    assert_eq!(
        RespMessage::Integer(i64::MIN).encode(),
        b":-9223372036854775808\r\n".to_vec()
    );
    assert_eq!(RespMessage::BulkString(None).encode(), b"$-1\r\n".to_vec());
    assert_eq!(
        RespMessage::BulkString(Some(Vec::new())).encode(),
        b"$0\r\n\r\n".to_vec()
    );
    assert_eq!(RespMessage::Array(vec![]).encode(), b"*0\r\n".to_vec());
}

#[test]
fn decode_errors() {
    assert_eq!(parse_resp(b""), Err("Empty input".to_string()));
    assert_eq!(parse_resp(b"?x\r\n"), Err("Invalid message type".to_string()));
    assert_eq!(parse_resp(b"+OK"), Err("Missing CRLF for simple string".to_string()));
    assert_eq!(parse_resp(b"-bad"), Err("Missing CRLF for error message".to_string()));
    assert_eq!(parse_resp(b":12"), Err("Missing CRLF for integer".to_string()));
    assert_eq!(parse_resp(b"$3"), Err("Missing CRLF in bulk string header".to_string()));
    assert_eq!(parse_resp(b"*1"), Err("Missing CRLF in array header".to_string()));
    assert_eq!(parse_resp(b"$5\r\nab\r\n"), Err("Invalid bulk string data".to_string()));
    assert_eq!(parse_resp(b"$2\r\nabc\r\n"), Err("Invalid bulk string data".to_string()));
    assert_eq!(parse_resp(b"$-2\r\n"), Err("Invalid bulk string length".to_string()));
    assert_eq!(parse_resp(b"*-1\r\n"), Err("Invalid array length".to_string()));
    assert_eq!(parse_resp(b"*x\r\n"), Err("Invalid array length".to_string()));
    assert_eq!(parse_resp(b"*2\r\n+a\r\n"), Err("Empty input".to_string()));
    assert_eq!(
        parse_resp(b":99999999999999999999\r\n"),
        Err("Invalid integer".to_string())
    );
}

#[test]
fn text_must_be_utf8() {
    assert_eq!(parse_resp(b"+\xff\r\n"), Err("Invalid UTF-8".to_string()));
    assert_eq!(parse_resp(b"$2\r\n\xff\xfe\r\n"), Err("Invalid UTF-8".to_string()));
    assert_eq!(
        parse_resp(b"+\xc3\xa9\r\n"),
        Ok(RespMessage::SimpleString("é".to_string()))
    );
}

#[test]
fn integers_take_a_sign() {
    assert_eq!(parse_resp(b":+5\r\n"), Ok(RespMessage::Integer(5)));
    assert_eq!(parse_resp(b":-0\r\n"), Ok(RespMessage::Integer(0)));
    assert_eq!(parse_resp(b":-\r\n"), Err("Invalid integer".to_string()));
}

#[test]
fn recursive_parse_hands_back_the_rest() {
    let (m, rest) = parse_resp_recursive(b"+OK\r\n:1\r\n").unwrap();
    assert_eq!(m, RespMessage::SimpleString("OK".to_string()));
    assert_eq!(rest, b":1\r\n");
}
