use bytes::BytesMut;
use redis_clone::codec::{FrameError, RespCodec};
use redis_clone::db::{get_shard_index, Db, DbShard, NANOS_PER_SEC, SHARD_COUNT};
use redis_clone::frame::Frame;
use redis_clone::recovery::RecoverError;
use std::time::{Duration, SystemTime, UNIX_EPOCH};

const T0: u128 = 1_700_000_000_000_000_000;

fn clock() -> u128 {
    SystemTime::now().duration_since(UNIX_EPOCH).unwrap().as_nanos()
}

/// The bytes the append-only file would hold after the records the store made.
fn aof_bytes(db: &mut Db) -> Vec<u8> {
    let mut codec = RespCodec;
    let mut out = BytesMut::new();
    for frame in db.take_log() {
        codec.encode(frame, &mut out);
    }
    out.to_vec()
}

#[test]
fn test_lru_eviction() {
    // 1. Create a tiny shard with capacity 2
    let mut shard = DbShard::new(2);

    // 2. Fill it up
    shard.storage.put("a".to_string(), b"1".to_vec());
    shard.storage.put("b".to_string(), b"2".to_vec());

    // 3. Insert one more -> Should evict "a" (Least Recently Used)
    shard.storage.put("c".to_string(), b"3".to_vec());

    // 4. Assertions
    assert_eq!(shard.storage.get("a"), None); // Gone!
    assert_eq!(shard.storage.get("b"), Some(&b"2".to_vec())); // Still here
    assert_eq!(shard.storage.get("c"), Some(&b"3".to_vec())); // Newest
}

#[test]
fn test_passive_expiration() {
    let mut shard = DbShard::new(10);

    // 1. Set key with 10ms expiration
    let key = "temp".to_string();
    shard.set(key.clone(), b"val".to_vec());
    shard.set_deadline(key.clone(), clock() + Duration::from_millis(10).as_nanos());

    // 2. Access immediately -> Should exist
    assert!(shard.get("temp", clock()).is_some());

    // 3. Read again 20ms later: the key is past its deadline
    assert_eq!(shard.get("temp", clock() + Duration::from_millis(20).as_nanos()), None);

    // 5. Assert it's gone from the cache too
    assert_eq!(shard.storage.get("temp"), None);
}

#[test]
fn shard_get_refreshes_recency() {
    let mut shard = DbShard::new(2);
    shard.set("a".to_string(), b"1".to_vec());
    shard.set("b".to_string(), b"2".to_vec());
    assert_eq!(shard.get("a", T0), Some(b"1".to_vec()));
    shard.set("c".to_string(), b"3".to_vec());
    assert_eq!(shard.get("b", T0), None);
    assert_eq!(shard.get("a", T0), Some(b"1".to_vec()));
}

#[test]
fn test_del_command() {
    let mut db = Db::new();
    db.set("key1".to_string(), b"val1".to_vec());
    db.set("key2".to_string(), b"val2".to_vec());
    db.set("key3".to_string(), b"val3".to_vec());

    let deleted = db.del(
        vec!["key1".to_string(), "key2".to_string(), "nonexistent".to_string()],
        T0,
    );
    assert_eq!(deleted, 2);

    assert_eq!(db.get("key1", T0), None);
    assert_eq!(db.get("key2", T0), None);
    assert_eq!(db.get("key3", T0), Some(b"val3".to_vec()));
}

#[test]
fn del_does_not_count_an_expired_key() {
    let mut db = Db::new();
    db.set("k".to_string(), b"v".to_vec());
    assert!(db.set_expires("k".to_string(), 1, T0));
    assert_eq!(db.del(vec!["k".to_string()], T0 + 2 * NANOS_PER_SEC), 0);
    assert_eq!(db.get("k", T0), None);
}

#[test]
fn records_for_the_append_only_file() {
    let mut db = Db::new();
    db.set("k".to_string(), b"v".to_vec());
    assert!(db.set_expires("k".to_string(), 30, T0));
    assert!(!db.set_expires("missing".to_string(), 30, T0));
    assert_eq!(db.del(vec!["k".to_string()], T0), 1);
    let log = db.take_log();
    assert_eq!(
        log,
        vec![
            Frame::Array(vec![
                Frame::Bulk(b"SET".to_vec()),
                Frame::Bulk(b"k".to_vec()),
                Frame::Bulk(b"v".to_vec()),
            ]),
            Frame::Array(vec![
                Frame::Bulk(b"EXPIRE".to_vec()),
                Frame::Bulk(b"k".to_vec()),
                Frame::Bulk(b"30".to_vec()),
            ]),
            Frame::Array(vec![Frame::Bulk(b"DEL".to_vec()), Frame::Bulk(b"k".to_vec())]),
        ]
    );
    assert!(db.take_log().is_empty());
}

#[test]
fn test_aof_recovery_race_fixed() {
    let mut db = Db::new();
    db.set("key1".to_string(), b"value1".to_vec());
    let bytes = aof_bytes(&mut db);

    let mut recovered = Db::new();
    recovered.recover(&bytes, T0).unwrap();
    assert_eq!(recovered.get("key1", T0), Some(b"value1".to_vec()));
    assert!(recovered.take_log().is_empty());
}

#[test]
fn test_persistence_with_del() {
    let mut db = Db::new();
    db.set("keep1".to_string(), b"value1".to_vec());
    db.set("delete_me".to_string(), b"value2".to_vec());
    db.set("keep2".to_string(), b"value3".to_vec());
    db.del(vec!["delete_me".to_string()], T0);
    let bytes = aof_bytes(&mut db);

    let mut db = Db::new();
    db.recover(&bytes, T0).unwrap();
    assert_eq!(db.get("keep1", T0), Some(b"value1".to_vec()));
    assert_eq!(db.get("delete_me", T0), None);
    assert_eq!(db.get("keep2", T0), Some(b"value3".to_vec()));
}

#[test]
fn test_persistence_with_expiration() {
    let mut db = Db::new();
    db.set("permanent".to_string(), b"forever".to_vec());
    db.set("temporary".to_string(), b"soon_gone".to_vec());
    db.set_expires("temporary".to_string(), 1, T0);

    // 1.5 seconds later the cleaner runs.
    let t1 = T0 + 1_500_000_000;
    db.purge_expired(t1);
    assert_eq!(db.get("permanent", t1), Some(b"forever".to_vec()));
    assert_eq!(db.get("temporary", t1), None);
    let bytes = aof_bytes(&mut db);

    let mut db = Db::new();
    db.recover(&bytes, t1).unwrap();
    assert_eq!(db.get("permanent", t1), Some(b"forever".to_vec()));
    assert_eq!(db.get("temporary", t1), None);
}

#[test]
fn test_lru_eviction_with_expiration() {
    let mut db = Db::new();
    for i in 0..5 {
        let key = format!("test_key_{}", i);
        db.set(key.clone(), format!("value{}", i).into_bytes());
        if i % 2 == 0 {
            db.set_expires(key, 3600, T0);
        }
    }
    db.purge_expired(T0 + 1_500_000_000);
    for i in 0..5 {
        let key = format!("test_key_{}", i);
        assert!(db.get(&key, T0 + 1_500_000_000).is_some(), "Key {} should exist", key);
    }
}

#[test]
fn test_aof_corruption_handling() {
    let mut log = b"*3\r\n$3\r\nSET\r\n$5\r\nvalid\r\n$3\r\n123\r\n".to_vec();
    log.extend_from_slice(b"@@@GARBAGE_DATA###");
    let mut db = Db::new();
    let result = db.recover(&log, T0);
    assert_eq!(result, Err(RecoverError::Corrupt(FrameError::InvalidTypeByte(b'@'))));
    // The frame before the garbage was replayed.
    assert_eq!(db.get("valid", T0), Some(b"123".to_vec()));
}

#[test]
fn test_partial_write_recovery() {
    let mut log = b"*3\r\n$3\r\nSET\r\n$4\r\nsafe\r\n$1\r\n1\r\n".to_vec();
    log.extend_from_slice(b"*3\r\n$3\r\nSET\r\n$6\r\nbroken\r\n");
    let mut db = Db::new();
    assert!(db.recover(&log, T0).is_ok(), "DB should handle truncated logs gracefully");
    assert_eq!(db.get("safe", T0), Some(b"1".to_vec()));
    assert_eq!(db.get("broken", T0), None);
}

#[test]
fn recover_errors() {
    let mut db = Db::new();
    assert_eq!(
        db.recover(b"*3\r\n$6\r\nEXPIRE\r\n$1\r\nk\r\n$2\r\nxx\r\n", T0),
        Err(RecoverError::InvalidInteger)
    );
    let mut db = Db::new();
    assert_eq!(db.recover(b"*1\r\n$1\r\n\xff\r\n", T0), Err(RecoverError::InvalidUtf8));
    let mut db = Db::new();
    assert_eq!(db.recover(b"*-1\r\n", T0), Err(RecoverError::LengthOverflow));
}

#[test]
fn recover_expire_counts_from_recovery_time() {
    let log = b"*3\r\n$3\r\nSET\r\n$1\r\nk\r\n$1\r\nv\r\n*3\r\n$6\r\nexpire\r\n$1\r\nk\r\n$1\r\n2\r\n";
    let mut db = Db::new();
    db.recover(log, T0).unwrap();
    assert_eq!(db.get("k", T0 + NANOS_PER_SEC), Some(b"v".to_vec()));
    assert_eq!(db.get("k", T0 + 3 * NANOS_PER_SEC), None);
}

#[test]
fn shard_index_is_stable_and_in_range() {
    for key in ["", "a", "key1", "a much longer key with spaces"] {
        let i = get_shard_index(key);
        assert!(i < SHARD_COUNT);
        assert_eq!(i, get_shard_index(key));
    }
}

#[test]
fn test_concurrent_operations() {
    // Ten writers of a hundred keys each, their writes interleaved.
    let mut db = Db::new();
    for j in 0..100 {
        for i in 0..10 {
            let key = format!("key_{}_{}", i, j);
            let value = format!("value_{}_{}", i, j);
            db.set(key, value.into_bytes());
        }
    }

    for i in 0..10 {
        for j in 0..100 {
            let key = format!("key_{}_{}", i, j);
            let expected = format!("value_{}_{}", i, j);
            assert_eq!(db.get(&key, T0), Some(expected.into_bytes()));
        }
    }
}

#[test]
fn test_concurrent_read_write() {
    let mut db = Db::new();
    for i in 0..100 {
        db.set(format!("key{}", i), format!("value{}", i).into_bytes());
    }

    // Five readers and five writers, taking turns.
    for round in 0..100 {
        for _ in 0..5 {
            let key = format!("key{}", round);
            let _ = db.get(&key, T0);
        }
        for i in 0..5 {
            let key = format!("newkey_{}_{}", i, round);
            db.set(key, b"newvalue".to_vec());
        }
    }

    for i in 0..100 {
        assert_eq!(db.get(&format!("key{}", i), T0), Some(format!("value{}", i).into_bytes()));
    }
    for i in 0..5 {
        for j in 0..100 {
            assert_eq!(db.get(&format!("newkey_{}_{}", i, j), T0), Some(b"newvalue".to_vec()));
        }
    }
}
