use redis_clone::cmd::{Command, CommandError};
use redis_clone::db::Db;
use redis_clone::frame::Frame;

fn bulk(s: &str) -> Frame {
    Frame::Bulk(s.as_bytes().to_vec())
}

const T0: u128 = 1_700_000_000_000_000_000;

#[test]
fn test_from_frame_set() {
    let frame = Frame::Array(vec![bulk("SET"), bulk("key"), bulk("value")]);

    let cmd = Command::from_frame(frame).unwrap();
    match cmd {
        Command::SetValue(k, v) => {
            assert_eq!(k, "key");
            assert_eq!(v, b"value".to_vec());
        }
        _ => panic!("Expected Set command"),
    }
}

#[test]
fn test_from_frame_get_case_insensitive() {
    let frame = Frame::Array(vec![
        bulk("gEt"), // Mixed case
        bulk("key"),
    ]);

    let cmd = Command::from_frame(frame).unwrap();
    match cmd {
        Command::Get(k) => assert_eq!(k, "key"),
        _ => panic!("Expected Get command"),
    }
}

#[test]
fn test_invalid_command() {
    let frame = Frame::Simple("NotAnArray".to_string());
    assert!(Command::from_frame(frame).is_err());
}

#[test]
fn from_frame_errors() {
    let cases: Vec<(Frame, CommandError)> = vec![
        (Frame::Integer(1), CommandError::InvalidFormat),
        (Frame::Array(vec![]), CommandError::EmptyCommand),
        (Frame::Array(vec![Frame::Integer(3)]), CommandError::InvalidNameType),
        (Frame::Array(vec![Frame::Bulk(vec![0xff])]), CommandError::InvalidUtf8),
        (Frame::Array(vec![bulk("GET")]), CommandError::GetRequiresKey),
        (Frame::Array(vec![bulk("SET")]), CommandError::SetRequiresKey),
        (Frame::Array(vec![bulk("SET"), bulk("k")]), CommandError::SetRequiresValue),
        (
            Frame::Array(vec![bulk("SET"), bulk("k"), Frame::Integer(1)]),
            CommandError::InvalidValueType,
        ),
        (Frame::Array(vec![bulk("GET"), Frame::Null]), CommandError::InvalidString),
        (Frame::Array(vec![bulk("EXPIRE")]), CommandError::ExpireRequiresKey),
        (Frame::Array(vec![bulk("EXPIRE"), bulk("k")]), CommandError::ExpireRequiresSeconds),
        (
            Frame::Array(vec![bulk("EXPIRE"), bulk("k"), bulk("-1")]),
            CommandError::InvalidSeconds,
        ),
        (Frame::Array(vec![bulk("DEL")]), CommandError::DelRequiresKey),
        (
            Frame::Array(vec![bulk("DEL"), bulk("a"), Frame::Null]),
            CommandError::InvalidString,
        ),
    ];
    for (frame, expected) in cases {
        match Command::from_frame(frame) {
            Err(e) => assert_eq!(e, expected),
            Ok(_) => panic!("expected {:?}", expected),
        }
    }
}

#[test]
fn from_frame_other_commands() {
    match Command::from_frame(Frame::Array(vec![Frame::Simple("ping".to_string())])).unwrap() {
        Command::Ping(None) => {}
        _ => panic!("Expected Ping"),
    }
    match Command::from_frame(Frame::Array(vec![bulk("PING"), bulk("hey")])).unwrap() {
        Command::Ping(Some(m)) => assert_eq!(m, "hey"),
        _ => panic!("Expected Ping with message"),
    }
    match Command::from_frame(Frame::Array(vec![bulk("expire"), bulk("k"), bulk("+30")])).unwrap() {
        Command::Expire(k, s) => {
            assert_eq!(k, "k");
            assert_eq!(s, 30);
        }
        _ => panic!("Expected Expire"),
    }
    match Command::from_frame(Frame::Array(vec![bulk("del"), bulk("a"), Frame::Simple("b".to_string())]))
        .unwrap()
    {
        Command::Del(keys) => assert_eq!(keys, vec!["a".to_string(), "b".to_string()]),
        _ => panic!("Expected Del"),
    }
    match Command::from_frame(Frame::Array(vec![bulk("flushall")])).unwrap() {
        Command::Unknown(name) => assert_eq!(name, "FLUSHALL"),
        _ => panic!("Expected Unknown"),
    }
    match Command::from_frame(Frame::Array(vec![bulk("SET"), bulk("k"), Frame::Simple("v".to_string())]))
        .unwrap()
    {
        Command::SetValue(k, v) => {
            assert_eq!(k, "k");
            assert_eq!(v, b"v".to_vec());
        }
        _ => panic!("Expected Set"),
    }
}

fn run(db: &mut Db, parts: &[&str], now: u128) -> Frame {
    let frame = Frame::Array(parts.iter().map(|p| bulk(p)).collect());
    match Command::from_frame(frame) {
        Ok(cmd) => cmd.apply(db, now),
        Err(e) => Frame::Error(format!("{:?}", e)),
    }
}

#[test]
fn test_ping_pong() {
    let mut db = Db::new();
    assert_eq!(run(&mut db, &["PING"], T0), Frame::Simple("PONG".to_string()));
    assert_eq!(run(&mut db, &["PING", "hello"], T0), bulk("hello"));
}

#[test]
fn test_set_get() {
    let mut db = Db::new();
    assert_eq!(run(&mut db, &["SET", "foo", "bar"], T0), Frame::Simple("OK".to_string()));
    assert_eq!(run(&mut db, &["GET", "foo"], T0), bulk("bar"));
    assert_eq!(run(&mut db, &["GET", "missing"], T0), Frame::Null);
}

#[test]
fn test_expiration_logic() {
    let mut db = Db::new();
    run(&mut db, &["SET", "bomb", "boom"], T0);
    assert_eq!(run(&mut db, &["EXPIRE", "bomb", "1"], T0), Frame::Integer(1));
    assert_eq!(run(&mut db, &["GET", "bomb"], T0), bulk("boom"));
    // 1.1 seconds later
    assert_eq!(run(&mut db, &["GET", "bomb"], T0 + 1_100_000_000), Frame::Null);
}

#[test]
fn test_expire_then_set() {
    let mut db = Db::new();
    run(&mut db, &["SET", "key", "original"], T0);
    assert_eq!(run(&mut db, &["EXPIRE", "key", "1"], T0), Frame::Integer(1));
    let t1 = T0 + 1_100_000_000;
    assert_eq!(run(&mut db, &["GET", "key"], t1), Frame::Null);
    run(&mut db, &["SET", "key", "new_value"], t1);
    assert_eq!(run(&mut db, &["GET", "key"], t1), bulk("new_value"));
    let t2 = t1 + 1_100_000_000;
    assert_eq!(run(&mut db, &["GET", "key"], t2), bulk("new_value"));
}

#[test]
fn test_del_multiple_keys() {
    let mut db = Db::new();
    for i in 1..=5 {
        run(&mut db, &["SET", &format!("key{}", i), &format!("val{}", i)], T0);
    }
    let response = run(&mut db, &["DEL", "key1", "key3", "key5", "nonexistent"], T0);
    assert_eq!(response, Frame::Integer(3));
    for (key, should_exist) in [("key1", false), ("key2", true), ("key3", false), ("key4", true), ("key5", false)] {
        let response = run(&mut db, &["GET", key], T0);
        if should_exist {
            assert!(matches!(response, Frame::Bulk(_)), "Key {} should exist", key);
        } else {
            assert_eq!(response, Frame::Null, "Key {} should not exist", key);
        }
    }
}

#[test]
fn expire_on_missing_key_replies_zero() {
    let mut db = Db::new();
    assert_eq!(run(&mut db, &["EXPIRE", "ghost", "5"], T0), Frame::Integer(0));
    assert!(db.take_log().is_empty());
}

#[test]
fn unknown_command_replies_with_error() {
    let mut db = Db::new();
    assert_eq!(
        run(&mut db, &["hello", "x"], T0),
        Frame::Error("unknown command 'HELLO'".to_string())
    );
}

#[test]
fn replicated_write_payloads() {
    let set = Command::SetValue("key".to_string(), b"value 1".to_vec());
    let payload = set.to_replicated().unwrap();
    assert_eq!(payload, b"*3\r\n$3\r\nSET\r\n$3\r\nkey\r\n$7\r\nvalue 1\r\n".to_vec());
    match Command::from_replicated(&payload) {
        Some(Command::SetValue(k, v)) => {
            assert_eq!(k, "key");
            assert_eq!(v, b"value 1".to_vec());
        }
        _ => panic!("Expected Set"),
    }
    let del = Command::Del(vec!["a".to_string(), "b".to_string()]);
    match Command::from_replicated(&del.to_replicated().unwrap()) {
        Some(Command::Del(keys)) => assert_eq!(keys, vec!["a".to_string(), "b".to_string()]),
        _ => panic!("Expected Del"),
    }
    let expire = Command::Expire("k".to_string(), 30);
    match Command::from_replicated(&expire.to_replicated().unwrap()) {
        Some(Command::Expire(k, s)) => {
            assert_eq!(k, "k");
            assert_eq!(s, 30);
        }
        _ => panic!("Expected Expire"),
    }
    assert!(Command::Get("k".to_string()).to_replicated().is_none());
    assert!(Command::Ping(None).to_replicated().is_none());
    // A read, trailing bytes, or no frame at all is no replicated write.
    assert!(Command::from_replicated(b"*2\r\n$3\r\nGET\r\n$1\r\nk\r\n").is_none());
    assert!(Command::from_replicated(b"*2\r\n$3\r\nDEL\r\n$1\r\nk\r\n+x").is_none());
    assert!(Command::from_replicated(b"SET k v").is_none());
    assert!(Command::from_replicated(b"").is_none());
}
