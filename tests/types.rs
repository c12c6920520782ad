use hybridkv::error::HkvError;
use hybridkv::types::{Entry, EntryFlags, EntryMetadata, Key, Ttl, Value, Version, MAX_KEY_SIZE, MAX_VALUE_SIZE};

#[test]
fn test_key_creation() {
    let data = b"test_key";
    let key = Key::new(data).unwrap();
    assert_eq!(key.as_bytes(), data);
    assert_eq!(key.len(), 8);
    assert!(!key.is_empty());
}

#[test]
fn test_key_max_size() {
    let data = vec![b'x'; MAX_KEY_SIZE];
    let key = Key::new(&data).unwrap();
    assert_eq!(key.len(), MAX_KEY_SIZE);

    let data = vec![b'x'; MAX_KEY_SIZE + 1];
    assert!(matches!(Key::new(&data), Err(HkvError::KeyTooLong)));
}

#[test]
fn test_value_creation() {
    let data = b"test_value";
    let value = Value::new(data).unwrap();
    assert_eq!(value.as_bytes(), data);
    assert_eq!(value.len(), 10);
    assert!(!value.is_empty());
}

#[test]
fn test_value_max_size() {
    let data = vec![b'x'; MAX_VALUE_SIZE];
    let value = Value::new(&data).unwrap();
    assert_eq!(value.len(), MAX_VALUE_SIZE);

    let data = vec![b'x'; MAX_VALUE_SIZE + 1];
    assert!(matches!(Value::new(&data), Err(HkvError::ValueTooLong)));
}

#[test]
fn empty_key_and_value_are_accepted() {
    let key = Key::new(b"").unwrap();
    assert!(key.is_empty());
    assert_eq!(key.as_bytes(), b"");
    let value = Value::new(b"").unwrap();
    assert!(value.is_empty());
}

#[test]
fn test_version() {
    let mut v = Version::zero();
    assert_eq!(v.get(), 0);

    v.increment();
    assert_eq!(v.get(), 1);

    let next = v.next();
    assert_eq!(next.get(), 2);
    assert_eq!(v.get(), 1);
}

#[test]
fn version_wraps_at_max() {
    let mut v = Version::new(u64::MAX);
    assert_eq!(v.next().get(), 0);
    assert_eq!(v.increment(), Version::new(0));
}

#[test]
fn test_ttl() {
    let ttl = Ttl::infinite();
    assert!(ttl.is_infinite());
    assert!(!ttl.is_expired(u64::MAX - 1));

    let ttl = Ttl::from_nanos(1000);
    assert!(!ttl.is_infinite());
    assert!(ttl.is_expired(1001));
    assert!(!ttl.is_expired(999));
}

#[test]
fn test_entry_flags() {
    let mut flags = EntryFlags::empty();
    assert!(!flags.is_valid());

    flags.set(EntryFlags::VALID);
    assert!(flags.is_valid());

    flags.set(EntryFlags::INVALIDATED);
    assert!(flags.is_invalidated());
    assert!(flags.is_valid());

    flags.clear(EntryFlags::VALID);
    assert!(!flags.is_valid());
    assert!(flags.is_invalidated());
}

#[test]
fn test_entry_creation() {
    let key = Key::new(b"key1").unwrap();
    let value = Value::new(b"value1").unwrap();
    let entry = Entry::new(key.clone(), value.clone(), Version::zero(), Ttl::infinite());

    assert_eq!(entry.key, key);
    assert_eq!(entry.value, value);
    assert_eq!(entry.metadata.version, Version::zero());
    assert!(entry.is_valid());
}

#[test]
fn test_entry_metadata() {
    let mut metadata = EntryMetadata::new(Version::new(5), Ttl::infinite(), 10, 20);

    assert_eq!(metadata.version.get(), 5);
    assert_eq!(metadata.key_len, 10);
    assert_eq!(metadata.value_len, 20);
    assert!(metadata.flags.is_valid());

    let accessed_before = metadata.accessed_at;
    pause(std::time::Duration::from_millis(1));
    metadata.touch();
    assert!(metadata.accessed_at > accessed_before);
}

#[test]
fn metadata_at_fixed_times() {
    let mut metadata = EntryMetadata::new_at(Version::new(1), Ttl::from_nanos(500), 3, 4, 100);
    assert_eq!(metadata.created_at, 100);
    assert_eq!(metadata.age_nanos_at(350), 250);
    assert_eq!(metadata.age_nanos_at(50), 0);
    assert!(!metadata.is_expired_at(499));
    assert!(metadata.is_expired_at(500));
    metadata.touch_at(420);
    assert_eq!(metadata.accessed_at, 420);
    assert_eq!(metadata.created_at, 100);
}

#[test]
fn entry_validity_at_fixed_times() {
    let key = Key::new(b"k").unwrap();
    let value = Value::new(b"v").unwrap();
    let mut entry = Entry::new_at(key, value, Version::zero(), Ttl::from_nanos(1000), 10);
    assert_eq!(entry.metadata.key_len, 1);
    assert!(entry.is_valid_at(999));
    assert!(!entry.is_valid_at(1000));
    entry.metadata.flags.set(EntryFlags::INVALIDATED);
    assert!(!entry.is_valid_at(0));
}

#[test]
fn test_entry_size() {
    let key = Key::new(b"k").unwrap();
    let value = Value::new(b"v").unwrap();
    let entry = Entry::new(key, value, Version::zero(), Ttl::infinite());
    let size = entry.size();
    assert_eq!(size, 1328);
}

#[test]
fn test_struct_sizes() {
    assert_eq!(std::mem::size_of::<Key>(), 258);
    assert_eq!(std::mem::size_of::<Value>(), 1026);
    assert_eq!(std::mem::size_of::<EntryMetadata>(), 40);
    assert_eq!(std::mem::size_of::<Entry>(), 1328);
}

fn pause(d: std::time::Duration) {
    let start = std::time::Instant::now();
    while start.elapsed() < d {
        std::hint::spin_loop();
    }
}
