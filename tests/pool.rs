use hybridkv::pool::{Acquire, PoolState};

#[test]
fn exhausted_pool_fails_fast() {
    let mut pool: PoolState<u32> = PoolState::new(1);
    assert!(matches!(pool.begin_acquire(1), Acquire::Connect));
    assert!(matches!(pool.begin_acquire(1), Acquire::Exhausted));
    assert_eq!(pool.total_count(), 1);
}

#[test]
fn returned_connections_are_reused_in_order() {
    let mut pool: PoolState<u32> = PoolState::new(2);
    assert!(pool.try_reserve(3));
    assert!(pool.try_reserve(3));
    assert!(pool.try_reserve(3));
    assert!(!pool.try_reserve(3));
    pool.finish_release(10, true, 2);
    pool.finish_release(11, true, 2);
    pool.finish_release(12, true, 2);
    assert_eq!(pool.idle_len(), 2);
    assert_eq!(pool.total_count(), 2);
    assert!(matches!(pool.begin_acquire(3), Acquire::Idle(10)));
    pool.finish_release(10, false, 2);
    assert_eq!(pool.total_count(), 1);
    assert_eq!(pool.pop_idle(), Some(11));
    assert_eq!(pool.pop_idle(), None);
    pool.release_slot();
    pool.release_slot();
    assert_eq!(pool.total_count(), 0);
}
