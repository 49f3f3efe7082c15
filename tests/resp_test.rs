use xredis::RespMessage;

#[test]
fn test_simple_string() {
    let message = RespMessage::SimpleString("OK".to_string());
    assert_eq!(message.encode(), b"+OK\r\n".to_vec());
}

#[test]
fn test_error() {
    let message = RespMessage::Error("Error message".to_string());
    assert_eq!(message.encode(), b"-Error message\r\n".to_vec());
}

#[test]
fn test_integer() {
    let message = RespMessage::Integer(100);
    assert_eq!(message.encode(), b":100\r\n".to_vec());
}

#[test]
fn test_bulk_string() {
    let message = RespMessage::BulkString(Some(vec![104, 101, 108, 108, 111]));
    assert_eq!(message.encode(), b"$5\r\nhello\r\n".to_vec());
}

#[test]
fn test_array() {
    let message = RespMessage::Array(vec![
        RespMessage::SimpleString("ping".to_string()),
        RespMessage::SimpleString("echo".to_string()),
    ]);
    assert_eq!(message.encode(), b"*2\r\n+ping\r\n+echo\r\n".to_vec());
}
