//! Fixed-capacity key and value buffers, versions, deadlines, entry flags
//! and entry metadata, laid out for the kernel sidecar's frozen ABI.
use vstd::prelude::*;
use crate::clock::wall_clock_nanos;
use crate::error::{HkvError, HkvResult};

verus! {

/// Largest key, in bytes.
pub const MAX_KEY_SIZE: usize = 256;

/// Largest value, in bytes.
pub const MAX_VALUE_SIZE: usize = 1024;

/// A key of at most `MAX_KEY_SIZE` bytes: a length and a fixed buffer of
/// which only the first `len` bytes are defined.
#[derive(Debug, Clone, Copy, PartialEq, Eq, Hash)]
pub struct Key {
    len: u16,
    data: [u8; MAX_KEY_SIZE],
}

impl View for Key {
    type V = Seq<u8>;

    closed spec fn view(&self) -> Seq<u8> {
        self.data@.take(self.len as int)
    }
}

impl Key {
    #[verifier::type_invariant]
    spec fn inv(&self) -> bool {
        self.len as usize <= MAX_KEY_SIZE
    }

    /// A key holding `data`; `KeyTooLong` past `MAX_KEY_SIZE` bytes.
    pub fn new(data: &[u8]) -> (r: HkvResult<Key>)
        ensures
            data@.len() > MAX_KEY_SIZE ==> r == Err::<Key, HkvError>(HkvError::KeyTooLong),
            data@.len() <= MAX_KEY_SIZE ==> (r matches Ok(k) && k@ == data@),
    {
        if data.len() > MAX_KEY_SIZE {
            return Err(HkvError::KeyTooLong);
        }
        let mut buf = [0u8; MAX_KEY_SIZE];
        let mut i: usize = 0;
        while i < data.len()
            invariant
                i <= data@.len() <= MAX_KEY_SIZE,
                buf@.len() == MAX_KEY_SIZE,
                buf@.take(i as int) == data@.take(i as int),
            decreases data@.len() - i,
        {
            buf[i] = data[i];
            i = i + 1;
            assert(buf@.take(i as int) =~= data@.take(i as int));
        }
        assert(data@.take(i as int) == data@);
        Ok(Key { len: data.len() as u16, data: buf })
    }

    /// The key's bytes.
    pub fn as_bytes(&self) -> (r: &[u8])
        ensures
            r@ == self@,
    {
        proof {
            use_type_invariant(self);
        }
        let s = self.data.as_slice();
        &s[0..self.len as usize]
    }

    /// The key's length.
    pub fn len(&self) -> (r: usize)
        ensures
            r == self@.len(),
    {
        proof {
            use_type_invariant(self);
        }
        self.len as usize
    }

    /// True for the empty key.
    pub fn is_empty(&self) -> (r: bool)
        ensures
            r == (self@.len() == 0),
    {
        proof {
            use_type_invariant(self);
        }
        self.len == 0
    }
}

/// A value of at most `MAX_VALUE_SIZE` bytes: a length and a fixed buffer
/// of which only the first `len` bytes are defined.
#[derive(Debug, Clone, Copy, PartialEq, Eq, Hash)]
pub struct Value {
    len: u16,
    data: [u8; MAX_VALUE_SIZE],
}

impl View for Value {
    type V = Seq<u8>;

    closed spec fn view(&self) -> Seq<u8> {
        self.data@.take(self.len as int)
    }
}

impl Value {
    #[verifier::type_invariant]
    spec fn inv(&self) -> bool {
        self.len as usize <= MAX_VALUE_SIZE
    }

    /// A value holding `data`; `ValueTooLong` past `MAX_VALUE_SIZE` bytes.
    pub fn new(data: &[u8]) -> (r: HkvResult<Value>)
        ensures
            data@.len() > MAX_VALUE_SIZE ==> r == Err::<Value, HkvError>(HkvError::ValueTooLong),
            data@.len() <= MAX_VALUE_SIZE ==> (r matches Ok(v) && v@ == data@),
    {
        if data.len() > MAX_VALUE_SIZE {
            return Err(HkvError::ValueTooLong);
        }
        let mut buf = [0u8; MAX_VALUE_SIZE];
        let mut i: usize = 0;
        while i < data.len()
            invariant
                i <= data@.len() <= MAX_VALUE_SIZE,
                buf@.len() == MAX_VALUE_SIZE,
                buf@.take(i as int) == data@.take(i as int),
            decreases data@.len() - i,
        {
            buf[i] = data[i];
            i = i + 1;
            assert(buf@.take(i as int) =~= data@.take(i as int));
        }
        assert(data@.take(i as int) == data@);
        Ok(Value { len: data.len() as u16, data: buf })
    }

    /// The value's bytes.
    pub fn as_bytes(&self) -> (r: &[u8])
        ensures
            r@ == self@,
    {
        proof {
            use_type_invariant(self);
        }
        let s = self.data.as_slice();
        &s[0..self.len as usize]
    }

    /// The value's length.
    pub fn len(&self) -> (r: usize)
        ensures
            r == self@.len(),
    {
        proof {
            use_type_invariant(self);
        }
        self.len as usize
    }

    /// True for the empty value.
    pub fn is_empty(&self) -> (r: bool)
        ensures
            r == (self@.len() == 0),
    {
        proof {
            use_type_invariant(self);
        }
        self.len == 0
    }
}

/// A monotonic version counter, bumped on every write.
#[derive(Debug, Clone, Copy, PartialEq, Eq, PartialOrd, Ord, Hash, Structural)]
pub struct Version(pub u64);

impl Version {
    /// The version of a new entry.
    pub fn zero() -> (r: Version)
        ensures
            r.0 == 0,
    {
        Version(0)
    }

    pub fn new(v: u64) -> (r: Version)
        ensures
            r.0 == v,
    {
        Version(v)
    }

    pub fn get(&self) -> (r: u64)
        ensures
            r == self.0,
    {
        self.0
    }

    /// Advances the version, wrapping at `u64::MAX`, and returns the new one.
    pub fn increment(&mut self) -> (r: Version)
        ensures
            final(self).0 == (if old(self).0 == u64::MAX { 0 } else { (old(self).0 + 1) as u64 }),
            r == *final(self),
    {
        self.0 = self.0.wrapping_add(1);
        *self
    }

    /// The following version, wrapping at `u64::MAX`.
    pub fn next(&self) -> (r: Version)
        ensures
            r.0 == (if self.0 == u64::MAX { 0 } else { (self.0 + 1) as u64 }),
    {
        Version(self.0.wrapping_add(1))
    }
}

/// An absolute deadline in nanoseconds; `u64::MAX` never expires.
#[derive(Debug, Clone, Copy, PartialEq, Eq, PartialOrd, Ord, Structural)]
pub struct Ttl(pub u64);

impl Ttl {
    /// The deadline that never comes.
    pub fn infinite() -> (r: Ttl)
        ensures
            r.0 == u64::MAX,
    {
        Ttl(u64::MAX)
    }

    pub fn from_nanos(nanos: u64) -> (r: Ttl)
        ensures
            r.0 == nanos,
    {
        Ttl(nanos)
    }

    /// The deadline `duration` after the current wall-clock time.
    pub fn from_duration(duration: core::time::Duration) -> Ttl {
        let now = wall_clock_nanos() as u128;
        let span = crate::clock::duration_nanos(&duration);
        let at = now + if span > u64::MAX as u128 { u64::MAX as u128 } else { span };
        Ttl(at as u64)
    }

    pub fn as_nanos(&self) -> (r: u64)
        ensures
            r == self.0,
    {
        self.0
    }

    /// True for the deadline that never comes.
    pub fn is_infinite(&self) -> (r: bool)
        ensures
            r == (self.0 == u64::MAX),
    {
        self.0 == u64::MAX
    }

    /// True when the deadline is finite and `current_nanos` has reached it.
    pub fn is_expired(&self, current_nanos: u64) -> (r: bool)
        ensures
            r == (self.0 != u64::MAX && current_nanos >= self.0),
    {
        !self.is_infinite() && current_nanos >= self.0
    }
}

/// Entry flag bits.
#[derive(Debug, Clone, Copy, PartialEq, Eq, Structural)]
pub struct EntryFlags(pub u8);

impl EntryFlags {
    /// The entry is valid and can be read.
    pub const VALID: u8 = 1;

    /// The entry is marked for eviction.
    pub const EVICTING: u8 = 2;

    /// The entry has been invalidated by a write.
    pub const INVALIDATED: u8 = 4;

    pub fn empty() -> (r: EntryFlags)
        ensures
            r.0 == 0,
    {
        EntryFlags(0)
    }

    pub fn valid() -> (r: EntryFlags)
        ensures
            r.0 == Self::VALID,
    {
        EntryFlags(Self::VALID)
    }

    pub fn is_valid(&self) -> (r: bool)
        ensures
            r == (self.0 & Self::VALID != 0),
    {
        (self.0 & Self::VALID) != 0
    }

    pub fn is_evicting(&self) -> (r: bool)
        ensures
            r == (self.0 & Self::EVICTING != 0),
    {
        (self.0 & Self::EVICTING) != 0
    }

    pub fn is_invalidated(&self) -> (r: bool)
        ensures
            r == (self.0 & Self::INVALIDATED != 0),
    {
        (self.0 & Self::INVALIDATED) != 0
    }

    /// Sets the bits of `flag`.
    pub fn set(&mut self, flag: u8)
        ensures
            final(self).0 == old(self).0 | flag,
    {
        self.0 = self.0 | flag;
    }

    /// Clears the bits of `flag`.
    pub fn clear(&mut self, flag: u8)
        ensures
            final(self).0 == old(self).0 & !flag,
    {
        self.0 = self.0 & !flag;
    }
}

/// An entry's metadata, without its key and value.
#[derive(Debug, Clone, Copy, PartialEq, Eq, Structural)]
pub struct EntryMetadata {
    /// Version for consistency checks.
    pub version: Version,
    /// Expiration deadline.
    pub ttl: Ttl,
    /// Creation time, nanoseconds.
    pub created_at: u64,
    /// Last access time, nanoseconds.
    pub accessed_at: u64,
    /// Flag bits.
    pub flags: EntryFlags,
    /// Key length.
    pub key_len: u16,
    /// Value length.
    pub value_len: u16,
}

impl EntryMetadata {
    /// Metadata of a valid entry created and last accessed at `now`.
    pub fn new_at(version: Version, ttl: Ttl, key_len: u16, value_len: u16, now: u64) -> (r: EntryMetadata)
        ensures
            r == (EntryMetadata {
                version,
                ttl,
                created_at: now,
                accessed_at: now,
                flags: EntryFlags(EntryFlags::VALID),
                key_len,
                value_len,
            }),
    {
        EntryMetadata {
            version,
            ttl,
            created_at: now,
            accessed_at: now,
            flags: EntryFlags::valid(),
            key_len,
            value_len,
        }
    }

    /// Metadata of a valid entry created now, by the wall clock.
    pub fn new(version: Version, ttl: Ttl, key_len: u16, value_len: u16) -> (r: EntryMetadata)
        ensures
            r.version == version && r.ttl == ttl && r.key_len == key_len && r.value_len == value_len,
            r.flags.0 == EntryFlags::VALID,
            r.created_at == r.accessed_at,
    {
        Self::new_at(version, ttl, key_len, value_len, wall_clock_nanos())
    }

    /// Records an access at `now`.
    pub fn touch_at(&mut self, now: u64)
        ensures
            *final(self) == (EntryMetadata { accessed_at: now, ..*old(self) }),
    {
        self.accessed_at = now;
    }

    /// Records an access now, by the wall clock.
    pub fn touch(&mut self)
        ensures
            *final(self) == (EntryMetadata { accessed_at: final(self).accessed_at, ..*old(self) }),
    {
        self.touch_at(wall_clock_nanos());
    }

    /// True when the deadline is finite and `now` has reached it.
    pub fn is_expired_at(&self, now: u64) -> (r: bool)
        ensures
            r == (self.ttl.0 != u64::MAX && now >= self.ttl.0),
    {
        self.ttl.is_expired(now)
    }

    /// True when the deadline has passed by the wall clock.
    pub fn is_expired(&self) -> bool {
        self.is_expired_at(wall_clock_nanos())
    }

    /// Nanoseconds from creation to `now`; zero if `now` is earlier.
    pub fn age_nanos_at(&self, now: u64) -> (r: u64)
        ensures
            r == (if now >= self.created_at { (now - self.created_at) as u64 } else { 0 }),
    {
        now.saturating_sub(self.created_at)
    }

    /// Nanoseconds since creation, by the wall clock.
    pub fn age_nanos(&self) -> u64 {
        self.age_nanos_at(wall_clock_nanos())
    }
}

/// A complete cache entry: key, value and metadata.
#[derive(Debug, Clone, Copy, PartialEq, Eq)]
pub struct Entry {
    pub key: Key,
    pub value: Value,
    pub metadata: EntryMetadata,
}

impl Entry {
    /// An entry created at `now`.
    pub fn new_at(key: Key, value: Value, version: Version, ttl: Ttl, now: u64) -> (r: Entry)
        ensures
            r.key == key && r.value == value,
            r.metadata == (EntryMetadata {
                version,
                ttl,
                created_at: now,
                accessed_at: now,
                flags: EntryFlags(EntryFlags::VALID),
                key_len: key@.len() as u16,
                value_len: value@.len() as u16,
            }),
    {
        let metadata = EntryMetadata::new_at(version, ttl, key.len() as u16, value.len() as u16, now);
        Entry { key, value, metadata }
    }

    /// An entry created now, by the wall clock.
    pub fn new(key: Key, value: Value, version: Version, ttl: Ttl) -> (r: Entry)
        ensures
            r.key == key && r.value == value,
            r.metadata.version == version && r.metadata.ttl == ttl,
            r.metadata.key_len == key@.len() && r.metadata.value_len == value@.len(),
            r.metadata.flags.0 == EntryFlags::VALID,
    {
        proof {
            use_type_invariant(&key);
            use_type_invariant(&value);
        }
        Self::new_at(key, value, version, ttl, wall_clock_nanos())
    }

    /// True when the entry is flagged valid, not invalidated, and not
    /// expired at `now`.
    pub fn is_valid_at(&self, now: u64) -> (r: bool)
        ensures
            r == (self.metadata.flags.0 & EntryFlags::VALID != 0 && !(self.metadata.ttl.0 != u64::MAX && now
                >= self.metadata.ttl.0) && self.metadata.flags.0 & EntryFlags::INVALIDATED == 0),
    {
        self.metadata.flags.is_valid() && !self.metadata.is_expired_at(now) && !self.metadata.flags.is_invalidated()
    }

    /// `is_valid_at` the current wall-clock time.
    pub fn is_valid(&self) -> bool {
        self.is_valid_at(wall_clock_nanos())
    }

    /// Records an access now, by the wall clock.
    pub fn touch(&mut self)
        ensures
            final(self).key == old(self).key && final(self).value == old(self).value,
    {
        self.metadata.touch();
    }

    /// The entry's size in bytes, padding included.
    pub fn size(&self) -> (r: usize)
        ensures
            r as nat == vstd::layout::size_of::<Entry>(),
    {
        core::mem::size_of::<Entry>()
    }
}

} // verus!
