use hybridkv::bench::{build_buffers, default_shard_count, normalize_power_of_two, parse_usize, write_u64_le, XorShift64};
use hybridkv::storage::Key;

#[test]
fn counts_parse_like_std() {
    assert_eq!(parse_usize(Some("42".to_string()), 7), 42);
    assert_eq!(parse_usize(Some("+42".to_string()), 7), 42);
    assert_eq!(parse_usize(Some("-1".to_string()), 7), 7);
    assert_eq!(parse_usize(Some("".to_string()), 7), 7);
    assert_eq!(parse_usize(Some("99999999999999999999999".to_string()), 7), 7);
    assert_eq!(parse_usize(None, 7), 7);
}

#[test]
fn powers_of_two() {
    assert_eq!(normalize_power_of_two(0), 1);
    assert_eq!(normalize_power_of_two(1), 1);
    assert_eq!(normalize_power_of_two(5), 8);
    assert_eq!(normalize_power_of_two(65536), 65536);
    assert_eq!(default_shard_count(Some(3)), 12);
    assert_eq!(default_shard_count(None), 4);
    assert_eq!(default_shard_count(Some(usize::MAX)), usize::MAX);
}

#[test]
fn xorshift_is_deterministic() {
    let mut a = XorShift64::new(0x1234_5678_9ABC_DEF0);
    let mut b = XorShift64::new(0x1234_5678_9ABC_DEF0);
    let x = a.next_u64();
    assert_eq!(x, b.next_u64());
    let mut s: u64 = 0x1234_5678_9ABC_DEF0;
    s ^= s << 13;
    s ^= s >> 7;
    s ^= s << 17;
    assert_eq!(x, s);
    assert!(a.next_index(15) <= 15);
}

#[test]
fn buffers_carry_seeded_counters() {
    let mut buf = vec![0u8; 3];
    write_u64_le(0x0102_0304_0506_0708, &mut buf);
    assert_eq!(buf, vec![8, 7, 6]);
    let bufs = build_buffers(3, 10, 0xFF);
    assert_eq!(bufs.len(), 3);
    assert_eq!(bufs[2], vec![0xFD, 0, 0, 0, 0, 0, 0, 0, 0, 0]);
}

#[test]
fn storage_keys() {
    let k = Key::new(b"hello");
    assert_eq!(k.to_vec(), b"hello".to_vec());
    assert_eq!(k.to_string(), "hello");
}
