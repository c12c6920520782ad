use hybridkv::error::HkvError;
use hybridkv::shard::{ShardInner, ShardTtl};

fn shard() -> ShardInner {
    ShardInner::new(ahash::RandomState::new())
}

#[test]
fn shard_get_touches_and_expired_entries_go() {
    let mut s = shard();
    assert_eq!(s.set_at(b"a".to_vec(), b"1234".to_vec(), 0), (0, 5));
    assert_eq!(s.set_at(b"b".to_vec(), b"12".to_vec(), 0), (0, 3));
    let (v, freed) = s.get_at(b"a", 1);
    assert_eq!(&**v.unwrap(), b"1234");
    assert_eq!(freed, None);
    assert_eq!(s.pop_lru(), Some(3));
    assert_eq!(s.get_at(b"b", 1).0, None);
    assert_eq!(s.expire_at(b"a", 10, 5), (Ok(()), None));
    assert_eq!(s.ttl_at(b"a", 7), (ShardTtl::ExpiresIn(8), None));
    assert_eq!(s.get_at(b"a", 15), (None, Some(5)));
    assert_eq!(s.pop_lru(), None);
}

#[test]
fn shard_set_accounting() {
    let mut s = shard();
    assert_eq!(s.set_at(b"k".to_vec(), b"abc".to_vec(), 0), (0, 4));
    assert_eq!(s.set_at(b"k".to_vec(), b"abcdef".to_vec(), 0), (0, 3));
    assert_eq!(s.set_at(b"k".to_vec(), b"a".to_vec(), 0), (5, 0));
    assert_eq!(s.expire_at(b"k", 0, 3), (Ok(()), None));
    assert_eq!(s.set_at(b"k".to_vec(), b"xy".to_vec(), 4), (2, 3));
    assert_eq!(s.ttl_at(b"k", 100), (ShardTtl::NoExpiry, None));
}

#[test]
fn shard_delete_twice_and_missing_expire() {
    let mut s = shard();
    s.set_at(b"k".to_vec(), b"v".to_vec(), 0);
    assert_eq!(s.delete_at(b"k", 1), (true, Some(2)));
    assert_eq!(s.delete_at(b"k", 1), (false, None));
    assert_eq!(s.expire_at(b"k", 5, 1), (Err(HkvError::NotFound), None));
    assert_eq!(s.ttl_at(b"k", 1), (ShardTtl::Missing, None));
}

#[test]
fn shard_expired_entry_is_never_live() {
    let mut s = shard();
    s.set_at(b"k".to_vec(), b"v".to_vec(), 0);
    s.expire_at(b"k", 10, 0);
    assert_eq!(s.delete_at(b"k", 10), (false, Some(2)));
    s.set_at(b"k".to_vec(), b"v".to_vec(), 0);
    s.expire_at(b"k", 10, 0);
    assert_eq!(s.ttl_at(b"k", 12), (ShardTtl::Missing, Some(2)));
    s.set_at(b"k".to_vec(), b"v".to_vec(), 20);
    s.expire_at(b"k", 1, 20);
    assert_eq!(s.expire_at(b"k", 100, 21), (Err(HkvError::NotFound), Some(2)));
}

#[test]
fn shard_purge_removes_only_expired() {
    let mut s = shard();
    s.set_at(b"a".to_vec(), b"1".to_vec(), 0);
    s.set_at(b"b".to_vec(), b"22".to_vec(), 0);
    s.set_at(b"c".to_vec(), b"333".to_vec(), 0);
    s.expire_at(b"a", 5, 0);
    s.expire_at(b"c", 50, 0);
    let mut sizes = s.purge_expired_at(10);
    sizes.sort();
    assert_eq!(sizes, vec![2]);
    assert!(s.get_at(b"b", 10).0.is_some());
    assert!(s.get_at(b"c", 10).0.is_some());
    assert!(s.get_at(b"a", 10).0.is_none());
}

#[test]
fn shard_reuses_freed_slots() {
    let mut s = shard();
    for round in 0..3u8 {
        for i in 0..10u8 {
            s.set_at(vec![i], vec![round], 0);
        }
        for i in 0..10u8 {
            assert_eq!(s.delete_at(&[i], 0), (true, Some(2)));
        }
    }
    assert_eq!(s.pop_lru(), None);
}
