use xredis::{
    handle_array_command, handle_request, handle_simple_string, save_reply, Outcome, RespMessage,
    Store,
};

fn bulk(s: &str) -> RespMessage {
    RespMessage::BulkString(Some(s.as_bytes().to_vec()))
}

fn cmd(parts: &[&str]) -> Vec<RespMessage> {
    parts.iter().map(|p| bulk(p)).collect()
}

fn reply(outcome: Outcome) -> RespMessage {
    match outcome {
        Outcome::Reply(m) => m,
        Outcome::Save(_) => panic!("unexpected snapshot"),
    }
}

fn run(db: &mut Store, parts: &[&str], now: u128) -> RespMessage {
    reply(handle_array_command(cmd(parts), db, now))
}

fn error(s: &str) -> RespMessage {
    RespMessage::Error(s.to_string())
}

fn ok() -> RespMessage {
    RespMessage::SimpleString("OK".to_string())
}

#[test]
fn zero_ttl_key_is_gone_for_every_read() {
    let reads: Vec<Vec<&str>> = vec![
        vec!["GET", "k"],
        vec!["EXISTS", "k"],
        vec!["INCR", "k"],
        vec!["DECR", "k"],
        vec!["LPUSH", "k", "x"],
        vec!["RPUSH", "k", "x"],
        vec!["LRANGE", "k", "0", "1"],
    ];
    let expected = vec![
        RespMessage::BulkString(None),
        RespMessage::Integer(0),
        error("key has expired"),
        error("key has expired"),
        error("key has expired"),
        error("key has expired"),
        error("key has expired"),
    ];
    for (read, want) in reads.iter().zip(expected) {
        let mut db = Store::new();
        assert_eq!(run(&mut db, &["SET", "k", "v", "PX", "0"], 1000), ok());
        assert_eq!(run(&mut db, read, 1000), want);
        // The read removed the key: nothing is left to delete.
        assert_eq!(run(&mut db, &["DEL", "k"], 1000), RespMessage::Integer(0));
    }
}

#[test]
fn incr_and_decr_count() {
    let mut db = Store::new();
    assert_eq!(run(&mut db, &["SET", "k", "10"], 0), ok());
    assert_eq!(run(&mut db, &["INCR", "k"], 0), RespMessage::Integer(11));
    assert_eq!(run(&mut db, &["DECR", "k"], 0), RespMessage::Integer(10));
    assert_eq!(run(&mut db, &["DECR", "k"], 0), RespMessage::Integer(9));
    assert_eq!(run(&mut db, &["GET", "k"], 0), bulk("9"));
}

#[test]
fn incr_errors() {
    let mut db = Store::new();
    assert_eq!(run(&mut db, &["INCR", "nope"], 0), error("key does not exist"));
    run(&mut db, &["SET", "s", "abc"], 0);
    assert_eq!(run(&mut db, &["INCR", "s"], 0), error("value is not an integer"));
    run(&mut db, &["SET", "big", "9223372036854775807"], 0);
    assert_eq!(
        run(&mut db, &["INCR", "big"], 0),
        error("increment or decrement would overflow")
    );
    run(&mut db, &["SET", "small", "-9223372036854775808"], 0);
    assert_eq!(
        run(&mut db, &["DECR", "small"], 0),
        error("increment or decrement would overflow")
    );
    run(&mut db, &["SET", "neg", "-1"], 0);
    assert_eq!(run(&mut db, &["INCR", "neg"], 0), RespMessage::Integer(0));
    assert_eq!(run(&mut db, &["DECR", "neg"], 0), RespMessage::Integer(-1));
}

#[test]
fn list_push_ordering() {
    let mut db = Store::new();
    assert_eq!(run(&mut db, &["RPUSH", "mylist", "a", "b", "c"], 0), RespMessage::Integer(3));
    assert_eq!(
        run(&mut db, &["LRANGE", "mylist", "0", "2"], 0),
        RespMessage::Array(vec![bulk("a"), bulk("b"), bulk("c")])
    );
    assert_eq!(run(&mut db, &["LPUSH", "mylist2", "a", "b", "c"], 0), RespMessage::Integer(3));
    assert_eq!(
        run(&mut db, &["LRANGE", "mylist2", "0", "2"], 0),
        RespMessage::Array(vec![bulk("c"), bulk("b"), bulk("a")])
    );
}

#[test]
fn push_onto_existing_list() {
    let mut db = Store::new();
    run(&mut db, &["RPUSH", "l", "a", "b"], 0);
    assert_eq!(run(&mut db, &["LPUSH", "l", "x", "y"], 0), RespMessage::Integer(4));
    assert_eq!(run(&mut db, &["RPUSH", "l", "z"], 0), RespMessage::Integer(5));
    assert_eq!(
        run(&mut db, &["LRANGE", "l", "0", "10"], 0),
        RespMessage::Array(vec![bulk("y"), bulk("x"), bulk("a"), bulk("b"), bulk("z")])
    );
    assert_eq!(run(&mut db, &["GET", "l"], 0), bulk("y,x,a,b,z"));
}

#[test]
fn lrange_bounds() {
    let mut db = Store::new();
    run(&mut db, &["RPUSH", "l", "a", "b", "c"], 0);
    assert_eq!(
        run(&mut db, &["LRANGE", "l", "1", "1"], 0),
        RespMessage::Array(vec![bulk("b")])
    );
    assert_eq!(run(&mut db, &["LRANGE", "l", "2", "1"], 0), RespMessage::Array(vec![]));
    assert_eq!(run(&mut db, &["LRANGE", "l", "5", "9"], 0), RespMessage::Array(vec![]));
    assert_eq!(
        run(&mut db, &["LRANGE", "l", "x", "0"], 0),
        RespMessage::Array(vec![bulk("a")])
    );
    assert_eq!(run(&mut db, &["LRANGE", "none", "0", "1"], 0), error("key does not exist"));
    assert_eq!(run(&mut db, &["LRANGE", "l", "0"], 0), error("wrong number of arguments"));
}

#[test]
fn push_keeps_expiry() {
    let mut db = Store::new();
    run(&mut db, &["SET", "l", "a", "PX", "100"], 0);
    assert_eq!(run(&mut db, &["RPUSH", "l", "b"], 10), RespMessage::Integer(2));
    assert_eq!(run(&mut db, &["LRANGE", "l", "0", "1"], 99), RespMessage::Array(vec![bulk("a"), bulk("b")]));
    assert_eq!(run(&mut db, &["LRANGE", "l", "0", "1"], 100), error("key has expired"));
}

#[test]
fn exists_and_del_count() {
    let mut db = Store::new();
    run(&mut db, &["SET", "a", "1"], 0);
    run(&mut db, &["SET", "b", "2"], 0);
    assert_eq!(run(&mut db, &["EXISTS", "a", "b", "c"], 0), RespMessage::Integer(2));
    assert_eq!(run(&mut db, &["DEL", "a", "b", "c"], 0), RespMessage::Integer(2));
    assert_eq!(run(&mut db, &["EXISTS", "a", "b", "c"], 0), RespMessage::Integer(0));
}

#[test]
fn exists_counts_repeats_and_drops_expired() {
    let mut db = Store::new();
    run(&mut db, &["SET", "a", "1"], 0);
    run(&mut db, &["SET", "t", "1", "PX", "5"], 0);
    assert_eq!(run(&mut db, &["EXISTS", "a", "a", "t"], 10), RespMessage::Integer(2));
    assert_eq!(run(&mut db, &["DEL", "t"], 10), RespMessage::Integer(0));
}

#[test]
fn unknown_command_then_more_requests() {
    let mut db = Store::new();
    assert_eq!(run(&mut db, &["FROBNICATE"], 0), error("unknown command"));
    assert_eq!(run(&mut db, &["PING"], 0), RespMessage::SimpleString("PONG".to_string()));
    assert_eq!(run(&mut db, &["SET", "k", "v"], 0), ok());
}

#[test]
fn many_increments_add_up() {
    let mut db = Store::new();
    run(&mut db, &["SET", "k", "0"], 0);
    let mut last = RespMessage::Integer(0);
    for _ in 0..100 {
        last = run(&mut db, &["INCR", "k"], 0);
    }
    assert_eq!(last, RespMessage::Integer(100));
    assert_eq!(run(&mut db, &["GET", "k"], 0), bulk("100"));
}

#[test]
fn set_with_expiry_options() {
    let mut db = Store::new();
    run(&mut db, &["SET", "e", "v", "ex", "10"], 1000);
    assert_eq!(run(&mut db, &["GET", "e"], 10999), bulk("v"));
    assert_eq!(run(&mut db, &["GET", "e"], 11000), RespMessage::BulkString(None));
    run(&mut db, &["SET", "a", "v", "EXAT", "5"], 0);
    assert_eq!(run(&mut db, &["GET", "a"], 4999), bulk("v"));
    assert_eq!(run(&mut db, &["GET", "a"], 5000), RespMessage::BulkString(None));
    run(&mut db, &["SET", "p", "v", "PXAT", "70"], 0);
    assert_eq!(run(&mut db, &["GET", "p"], 69), bulk("v"));
    assert_eq!(run(&mut db, &["GET", "p"], 70), RespMessage::BulkString(None));
    run(&mut db, &["SET", "o", "v", "PX", "5", "PX", "50"], 0);
    assert_eq!(run(&mut db, &["GET", "o"], 49), bulk("v"));
    run(&mut db, &["SET", "o", "w"], 100);
    assert_eq!(run(&mut db, &["GET", "o"], 1000), bulk("w"));
}

#[test]
fn set_errors() {
    let mut db = Store::new();
    assert_eq!(run(&mut db, &["SET", "k", "v", "KEEP", "1"], 0), error("syntax error"));
    assert_eq!(run(&mut db, &["SET", "k", "v", "EX"], 0), error("invalid SET arguments"));
    assert_eq!(run(&mut db, &["SET", "k", "v", "EX", "soon"], 0), error("invalid expire time"));
    assert_eq!(run(&mut db, &["SET", "k", "v", "EX", "-1"], 0), error("invalid expire time"));
    assert_eq!(
        run(&mut db, &["SET", "k", "v", "PX", "340282366920938463463374607431768211455"], 1),
        error("invalid expire time")
    );
    let mut v = cmd(&["SET", "k", "v"]);
    v.push(RespMessage::Integer(1));
    v.push(bulk("1"));
    assert_eq!(reply(handle_array_command(v, &mut db, 0)), error("invalid option format"));
    let bad = vec![bulk("SET"), RespMessage::Integer(1), bulk("v")];
    assert_eq!(reply(handle_array_command(bad, &mut db, 0)), error("invalid SET arguments"));
    assert_eq!(run(&mut db, &["SET", "k"], 0), error("wrong number of arguments"));
    // Nothing was stored by the failed requests.
    assert_eq!(run(&mut db, &["GET", "k"], 0), RespMessage::BulkString(None));
}

#[test]
fn command_shape_errors() {
    let mut db = Store::new();
    assert_eq!(reply(handle_array_command(vec![], &mut db, 0)), error("invalid command format"));
    let not_bulk = vec![RespMessage::Integer(1)];
    assert_eq!(reply(handle_array_command(not_bulk, &mut db, 0)), error("invalid command format"));
    let null_name = vec![RespMessage::BulkString(None)];
    assert_eq!(reply(handle_array_command(null_name, &mut db, 0)), error("invalid command format"));
    assert_eq!(run(&mut db, &["GET"], 0), error("wrong number of arguments"));
    assert_eq!(run(&mut db, &["ECHO"], 0), error("wrong number of arguments"));
    assert_eq!(run(&mut db, &["LPUSH", "l"], 0), error("wrong number of arguments"));
    let bad_get = vec![bulk("GET"), RespMessage::Integer(3)];
    assert_eq!(reply(handle_array_command(bad_get, &mut db, 0)), error("invalid GET argument"));
    let bad_exists = vec![bulk("EXISTS"), bulk("a"), RespMessage::BulkString(None)];
    assert_eq!(reply(handle_array_command(bad_exists, &mut db, 0)), error("invalid EXISTS argument"));
    let bad_del = vec![bulk("DEL"), RespMessage::Integer(1)];
    assert_eq!(reply(handle_array_command(bad_del, &mut db, 0)), error("invalid DEL argument"));
    let bad_incr = vec![bulk("INCR"), RespMessage::Integer(1)];
    assert_eq!(reply(handle_array_command(bad_incr, &mut db, 0)), error("invalid INCR or DECR argument"));
    let bad_push = vec![bulk("RPUSH"), bulk("l"), RespMessage::Integer(1)];
    assert_eq!(reply(handle_array_command(bad_push, &mut db, 0)), error("invalid LPUSH or RPUSH argument"));
    let bad_range = vec![bulk("LRANGE"), bulk("l"), RespMessage::Integer(0), bulk("1")];
    assert_eq!(reply(handle_array_command(bad_range, &mut db, 0)), error("invalid LRANGE argument"));
    let bad_echo = vec![bulk("ECHO"), RespMessage::Integer(1)];
    assert_eq!(reply(handle_array_command(bad_echo, &mut db, 0)), error("invalid ECHO argument"));
    let non_text_key = vec![bulk("GET"), RespMessage::BulkString(Some(vec![0xff]))];
    assert_eq!(reply(handle_array_command(non_text_key, &mut db, 0)), error("invalid GET argument"));
}

#[test]
fn echo_ping_and_case() {
    let mut db = Store::new();
    assert_eq!(run(&mut db, &["echo", "hello"], 0), bulk("hello"));
    assert_eq!(run(&mut db, &["PiNg"], 0), RespMessage::SimpleString("PONG".to_string()));
    assert_eq!(run(&mut db, &["set", "k", "v"], 0), ok());
    assert_eq!(run(&mut db, &["Get", "k"], 0), bulk("v"));
    assert_eq!(run(&mut db, &["GET", "missing"], 0), RespMessage::BulkString(None));
}

#[test]
fn simple_string_requests() {
    assert_eq!(
        handle_simple_string("ping".to_string()),
        RespMessage::SimpleString("PONG".to_string())
    );
    assert_eq!(handle_simple_string("PING".to_string()), RespMessage::SimpleString("PONG".to_string()));
    assert_eq!(handle_simple_string("hello".to_string()), error("unknown command"));
}

#[test]
fn requests_from_bytes() {
    let mut db = Store::new();
    assert_eq!(
        reply(handle_request(&mut db, b"+PING\r\n", 0)),
        RespMessage::SimpleString("PONG".to_string())
    );
    assert_eq!(
        reply(handle_request(&mut db, b"*3\r\n$3\r\nSET\r\n$1\r\nk\r\n$2\r\nhi\r\n", 0)),
        ok()
    );
    assert_eq!(
        reply(handle_request(&mut db, b"*2\r\n$3\r\nGET\r\n$1\r\nk\r\n", 0)),
        bulk("hi")
    );
    assert_eq!(reply(handle_request(&mut db, b"garbage", 0)), error("unknown command"));
    assert_eq!(reply(handle_request(&mut db, b":1\r\n", 0)), error("unknown command"));
}

#[test]
fn save_hands_back_json() {
    let mut db = Store::new();
    run(&mut db, &["SET", "a", "1"], 0);
    run(&mut db, &["SET", "b", "x", "PXAT", "5000"], 0);
    match handle_array_command(cmd(&["SAVE"]), &mut db, 0) {
        Outcome::Save(json) => assert_eq!(json, "[[\"a\",\"1\",null],[\"b\",\"x\",5000]]"),
        Outcome::Reply(m) => panic!("unexpected reply {:?}", m),
    }
    // The store is unchanged by the snapshot.
    assert_eq!(run(&mut db, &["GET", "a"], 0), bulk("1"));
    assert_eq!(save_reply(true), ok());
    assert_eq!(save_reply(false), error("snapshot could not be written"));
}
