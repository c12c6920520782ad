use std::time::{Duration, Instant};

use hybridkv::engine::{MemoryEngine, TtlStatus};
use hybridkv::error::HkvError;

#[test]
fn set_get_roundtrip() {
    let mut engine = MemoryEngine::with_shard_count(4);
    engine.set(b"alpha".to_vec(), b"value".to_vec()).unwrap();
    let value = engine.get(b"alpha").unwrap().unwrap();
    assert_eq!(&*value, b"value");
}

#[test]
fn delete_removes_key() {
    let mut engine = MemoryEngine::with_shard_count(2);
    engine.set(b"alpha".to_vec(), b"value".to_vec()).unwrap();
    assert!(engine.delete(b"alpha").unwrap());
    assert!(engine.get(b"alpha").unwrap().is_none());
}

#[test]
fn expire_hides_value() {
    let mut engine = MemoryEngine::with_shard_count(2);
    engine.set(b"alpha".to_vec(), b"value".to_vec()).unwrap();
    engine.expire(b"alpha", 1_000_000).unwrap();
    pause(Duration::from_millis(5));
    assert!(engine.get(b"alpha").unwrap().is_none());
}

#[test]
fn purge_expired_removes_entries() {
    let mut engine = MemoryEngine::with_shard_count(2);
    engine.set(b"alpha".to_vec(), b"value".to_vec()).unwrap();
    engine.expire(b"alpha", 1_000_000).unwrap();
    pause(Duration::from_millis(5));

    let removed = engine.purge_expired(Instant::now());
    assert_eq!(removed, 1);
    assert!(engine.get(b"alpha").unwrap().is_none());
}

#[test]
fn evicts_lru_by_bytes() {
    let mut engine = MemoryEngine::with_shard_count_and_capacity(1, 10);
    engine.set(b"a".to_vec(), b"1234".to_vec()).unwrap();
    engine.set(b"b".to_vec(), b"1234".to_vec()).unwrap();
    engine.get(b"a").unwrap();
    engine.set(b"c".to_vec(), b"1234".to_vec()).unwrap();

    assert!(engine.get(b"b").unwrap().is_none());
    assert!(engine.get(b"a").unwrap().is_some());
    assert!(engine.get(b"c").unwrap().is_some());
}

#[test]
fn ttl_reports_missing_or_expiry() {
    let mut engine = MemoryEngine::with_shard_count(2);
    assert_eq!(engine.ttl(b"missing").unwrap(), TtlStatus::Missing);

    engine.set(b"alpha".to_vec(), b"value".to_vec()).unwrap();
    assert_eq!(engine.ttl(b"alpha").unwrap(), TtlStatus::NoExpiry);

    engine.expire(b"alpha", 1_000_000).unwrap();
    pause(Duration::from_millis(5));
    assert_eq!(engine.ttl(b"alpha").unwrap(), TtlStatus::Missing);
}

#[test]
fn lru_scenario_keeps_recently_read_key() {
    let mut engine = MemoryEngine::with_shard_count_and_capacity(1, 10);
    engine.set(b"a".to_vec(), b"1234".to_vec()).unwrap();
    engine.set(b"b".to_vec(), b"1234".to_vec()).unwrap();
    engine.get(b"a").unwrap();
    engine.set(b"c".to_vec(), b"1234".to_vec()).unwrap();
    assert_eq!(engine.get(b"b").unwrap(), None);
    assert_eq!(&*engine.get(b"a").unwrap().unwrap(), b"1234");
    assert_eq!(&*engine.get(b"c").unwrap().unwrap(), b"1234");
}

#[test]
fn ttl_expiry_on_access() {
    let mut engine = MemoryEngine::with_shard_count(4);
    engine.set(b"k".to_vec(), b"v".to_vec()).unwrap();
    engine.expire(b"k", 1_000_000).unwrap();
    pause(Duration::from_millis(5));
    assert!(engine.get(b"k").unwrap().is_none());
    assert_eq!(engine.ttl(b"k").unwrap(), TtlStatus::Missing);
}

#[test]
fn zero_budget_evicts_every_insert() {
    let mut engine = MemoryEngine::with_shard_count_and_capacity(2, 0);
    engine.set(b"a".to_vec(), b"1".to_vec()).unwrap();
    engine.set(b"b".to_vec(), b"2".to_vec()).unwrap();
    assert!(engine.get(b"a").unwrap().is_none());
    assert!(engine.get(b"b").unwrap().is_none());
}

#[test]
fn overwrite_delete_and_expire_semantics() {
    let mut engine = MemoryEngine::with_shard_count(8);
    engine.set(b"k".to_vec(), b"v1".to_vec()).unwrap();
    engine.set(b"k".to_vec(), b"v2".to_vec()).unwrap();
    assert_eq!(&*engine.get(b"k").unwrap().unwrap(), b"v2");
    assert!(engine.delete(b"k").unwrap());
    assert!(!engine.delete(b"k").unwrap());
    assert_eq!(engine.expire(b"k", 1_000_000_000), Err(HkvError::NotFound));
    engine.set(b"k".to_vec(), b"v".to_vec()).unwrap();
    engine.expire(b"k", 0).unwrap();
    assert!(engine.get(b"k").unwrap().is_none());
}

#[test]
fn ttl_after_expire_is_bounded() {
    let mut engine = MemoryEngine::with_shard_count(2);
    engine.set(b"k".to_vec(), b"v".to_vec()).unwrap();
    engine.expire(b"k", 100_000_000_000).unwrap();
    match engine.ttl(b"k").unwrap() {
        TtlStatus::ExpiresIn(d) => assert!(d <= 100_000_000_000 && d > 90_000_000_000),
        other => panic!("unexpected {:?}", other),
    }
    engine.set(b"k".to_vec(), b"w".to_vec()).unwrap();
    assert_eq!(engine.ttl(b"k").unwrap(), TtlStatus::NoExpiry);
}

fn pause(d: std::time::Duration) {
    let start = std::time::Instant::now();
    while start.elapsed() < d {
        std::hint::spin_loop();
    }
}

#[test]
fn zero_budget_evicts_empty_entries_too() {
    let mut engine = MemoryEngine::with_shard_count_and_capacity(1, 0);
    engine.set(Vec::new(), Vec::new()).unwrap();
    assert!(engine.get(b"").unwrap().is_none());
    assert_eq!(engine.used_bytes(), 0);
}

#[test]
fn byte_count_follows_entries() {
    let mut engine = MemoryEngine::with_shard_count(4);
    engine.set(b"ab".to_vec(), b"cde".to_vec()).unwrap();
    engine.set(b"x".to_vec(), b"".to_vec()).unwrap();
    assert_eq!(engine.used_bytes(), 6);
    engine.set(b"ab".to_vec(), b"c".to_vec()).unwrap();
    assert_eq!(engine.used_bytes(), 4);
    engine.delete(b"x").unwrap();
    assert_eq!(engine.used_bytes(), 3);
}

#[test]
fn eviction_removes_only_what_is_needed() {
    let mut engine = MemoryEngine::with_shard_count_and_capacity(1, 6);
    engine.set(b"a".to_vec(), b"1234".to_vec()).unwrap();
    engine.set(b"b".to_vec(), Vec::new()).unwrap();
    engine.set(b"c".to_vec(), b"1234".to_vec()).unwrap();
    assert!(engine.get(b"a").unwrap().is_none());
    assert!(engine.get(b"b").unwrap().is_some());
    assert!(engine.get(b"c").unwrap().is_some());
    assert_eq!(engine.used_bytes(), 6);
}
