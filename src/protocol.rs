//! Request and response payloads of the kernel sidecar's ioctl interface:
//! a four-byte header, then fixed-size fields.
use vstd::prelude::*;
use crate::ioctl::{IoctlCommand, IOCTL_MAGIC};
use crate::types::{Key, Ttl, Value, Version};

verus! {

/// Protocol version of the user/kernel ABI.
pub const PROTOCOL_VERSION: u8 = 1;

/// Status of a successful response.
pub const STATUS_OK: u16 = 0;

/// Most entries in one batch promote request.
pub const MAX_BATCH_SIZE: usize = 1000;

/// Bytes of the batch result bitmap: one bit per entry.
pub const BATCH_RESULT_BYTES: usize = (MAX_BATCH_SIZE + 7) / 8;

/// Header of every request and response.
#[derive(Debug, Clone, Copy, PartialEq, Eq, Hash, Structural)]
pub struct IoctlHeader {
    /// Device magic, `IOCTL_MAGIC`.
    pub magic: u8,
    /// ABI version, `PROTOCOL_VERSION`.
    pub version: u8,
    /// Command number.
    pub command: u8,
    /// Reserved, zero.
    pub reserved: u8,
}

/// The header that every payload of `command` carries.
pub open spec fn header_of(command: IoctlCommand) -> IoctlHeader {
    IoctlHeader { magic: IOCTL_MAGIC, version: PROTOCOL_VERSION, command: command.code(), reserved: 0 }
}

impl IoctlHeader {
    /// The header for `command`.
    pub fn new(command: IoctlCommand) -> (r: IoctlHeader)
        ensures
            r == header_of(command),
    {
        IoctlHeader { magic: IOCTL_MAGIC, version: PROTOCOL_VERSION, command: command.as_u8(), reserved: 0 }
    }
}

/// Looks a key up.
#[derive(Debug, Clone, PartialEq, Eq)]
pub struct ReadRequest {
    pub header: IoctlHeader,
    pub key: Key,
}

impl ReadRequest {
    pub fn new(key: Key) -> (r: ReadRequest)
        ensures
            r.header == header_of(IoctlCommand::Read),
            r.key == key,
    {
        ReadRequest { header: IoctlHeader::new(IoctlCommand::Read), key }
    }
}

/// Answer to a read: a status, and the value when the status is OK.
#[derive(Debug, Clone, PartialEq, Eq)]
pub struct ReadResponse {
    pub header: IoctlHeader,
    pub status: u16,
    pub value: Value,
}

impl ReadResponse {
    pub fn new(status: u16, value: Value) -> (r: ReadResponse)
        ensures
            r.header == header_of(IoctlCommand::Read),
            r.status == status,
            r.value == value,
    {
        ReadResponse { header: IoctlHeader::new(IoctlCommand::Read), status, value }
    }
}

/// Inserts one entry.
#[derive(Debug, Clone, PartialEq, Eq)]
pub struct PromoteRequest {
    pub header: IoctlHeader,
    pub key: Key,
    pub value: Value,
    pub version: Version,
    pub ttl: Ttl,
}

impl PromoteRequest {
    pub fn new(key: Key, value: Value, version: Version, ttl: Ttl) -> (r: PromoteRequest)
        ensures
            r.header == header_of(IoctlCommand::Promote),
            r.key == key && r.value == value && r.version == version && r.ttl == ttl,
    {
        PromoteRequest { header: IoctlHeader::new(IoctlCommand::Promote), key, value, version, ttl }
    }
}

/// Answer to a promote.
#[derive(Debug, Clone, PartialEq, Eq)]
pub struct PromoteResponse {
    pub header: IoctlHeader,
    pub status: u16,
    pub reserved: u16,
}

impl PromoteResponse {
    pub fn new(status: u16) -> (r: PromoteResponse)
        ensures
            r.header == header_of(IoctlCommand::Promote),
            r.status == status,
            r.reserved == 0,
    {
        PromoteResponse { header: IoctlHeader::new(IoctlCommand::Promote), status, reserved: 0 }
    }
}

/// One entry of a batch promote, without a header.
#[derive(Debug, Clone, Copy, PartialEq, Eq)]
pub struct BatchPromoteEntry {
    pub key: Key,
    pub value: Value,
    pub version: Version,
    pub ttl: Ttl,
}

impl BatchPromoteEntry {
    pub fn new(key: Key, value: Value, version: Version, ttl: Ttl) -> (r: BatchPromoteEntry)
        ensures
            r.key == key && r.value == value && r.version == version && r.ttl == ttl,
    {
        BatchPromoteEntry { key, value, version, ttl }
    }
}

/// Inserts up to `MAX_BATCH_SIZE` entries; the first `count` are defined.
#[derive(Debug, Clone, PartialEq, Eq)]
pub struct BatchPromoteRequest {
    pub header: IoctlHeader,
    pub count: u16,
    pub reserved: u16,
    pub entries: [BatchPromoteEntry; MAX_BATCH_SIZE],
}

impl BatchPromoteRequest {
    pub fn new(entries: [BatchPromoteEntry; MAX_BATCH_SIZE], count: u16) -> (r: BatchPromoteRequest)
        requires
            count as usize <= MAX_BATCH_SIZE,
        ensures
            r.header == header_of(IoctlCommand::BatchPromote),
            r.count == count && r.reserved == 0 && r.entries == entries,
    {
        BatchPromoteRequest { header: IoctlHeader::new(IoctlCommand::BatchPromote), count, reserved: 0, entries }
    }
}

/// Answer to a batch promote: bit `i` (LSB first) is set when entry `i` was
/// promoted.
#[derive(Debug, Clone, PartialEq, Eq)]
pub struct BatchPromoteResponse {
    pub header: IoctlHeader,
    pub count: u16,
    pub reserved: u16,
    pub results: [u8; BATCH_RESULT_BYTES],
}

impl BatchPromoteResponse {
    /// A response for `count` entries with no success recorded yet.
    pub fn new(count: u16) -> (r: BatchPromoteResponse)
        requires
            count as usize <= MAX_BATCH_SIZE,
        ensures
            r.header == header_of(IoctlCommand::BatchPromote),
            r.count == count && r.reserved == 0,
            r.results@ == Seq::new(BATCH_RESULT_BYTES as nat, |i: int| 0u8),
    {
        let r = BatchPromoteResponse {
            header: IoctlHeader::new(IoctlCommand::BatchPromote),
            count,
            reserved: 0,
            results: [0u8; BATCH_RESULT_BYTES],
        };
        assert(r.results@ =~= Seq::new(BATCH_RESULT_BYTES as nat, |i: int| 0u8));
        r
    }
}

/// Removes a key.
#[derive(Debug, Clone, PartialEq, Eq)]
pub struct DemoteRequest {
    pub header: IoctlHeader,
    pub key: Key,
}

impl DemoteRequest {
    pub fn new(key: Key) -> (r: DemoteRequest)
        ensures
            r.header == header_of(IoctlCommand::Demote),
            r.key == key,
    {
        DemoteRequest { header: IoctlHeader::new(IoctlCommand::Demote), key }
    }
}

/// Marks a key stale after a write, with its new version.
#[derive(Debug, Clone, PartialEq, Eq)]
pub struct InvalidateRequest {
    pub header: IoctlHeader,
    pub key: Key,
    pub version: Version,
}

impl InvalidateRequest {
    pub fn new(key: Key, version: Version) -> (r: InvalidateRequest)
        ensures
            r.header == header_of(IoctlCommand::Invalidate),
            r.key == key && r.version == version,
    {
        InvalidateRequest { header: IoctlHeader::new(IoctlCommand::Invalidate), key, version }
    }
}

/// Counters and gauges of the kernel cache.
#[derive(Debug, Clone, Copy, PartialEq, Eq, Structural)]
pub struct CacheStats {
    pub lookups: u64,
    pub hits: u64,
    pub misses: u64,
    pub stale_hits: u64,
    pub promotions: u64,
    pub demotions: u64,
    pub evictions: u64,
    pub invalidations: u64,
    pub used_bytes: u64,
    pub max_bytes: u64,
    pub entry_count: u64,
    pub lock_contentions: u64,
    pub rcu_grace_periods: u64,
}

/// Asks for statistics.
#[derive(Debug, Clone, Copy, PartialEq, Eq, Structural)]
pub struct StatsRequest {
    pub header: IoctlHeader,
}

impl StatsRequest {
    pub fn new() -> (r: StatsRequest)
        ensures
            r.header == header_of(IoctlCommand::Stats),
    {
        StatsRequest { header: IoctlHeader::new(IoctlCommand::Stats) }
    }
}

/// Statistics, with a status.
#[derive(Debug, Clone, Copy, PartialEq, Eq, Structural)]
pub struct StatsResponse {
    pub header: IoctlHeader,
    pub status: u16,
    pub reserved: u16,
    pub stats: CacheStats,
}

impl StatsResponse {
    pub fn new(status: u16, stats: CacheStats) -> (r: StatsResponse)
        ensures
            r.header == header_of(IoctlCommand::Stats),
            r.status == status && r.reserved == 0 && r.stats == stats,
    {
        StatsResponse { header: IoctlHeader::new(IoctlCommand::Stats), status, reserved: 0, stats }
    }
}

/// New limits and watermarks for the kernel cache.
#[derive(Debug, Clone, Copy, PartialEq, Eq, Structural)]
pub struct ConfigRequest {
    pub header: IoctlHeader,
    pub max_bytes: u64,
    pub max_entries: u64,
    pub high_watermark: u32,
    pub low_watermark: u32,
    pub reserved: u64,
}

impl ConfigRequest {
    pub fn new(max_bytes: u64, max_entries: u64, high_watermark: u32, low_watermark: u32) -> (r: ConfigRequest)
        ensures
            r.header == header_of(IoctlCommand::Config),
            r.max_bytes == max_bytes && r.max_entries == max_entries,
            r.high_watermark == high_watermark && r.low_watermark == low_watermark,
            r.reserved == 0,
    {
        ConfigRequest {
            header: IoctlHeader::new(IoctlCommand::Config),
            max_bytes,
            max_entries,
            high_watermark,
            low_watermark,
            reserved: 0,
        }
    }
}

/// Drops every entry of the kernel cache.
#[derive(Debug, Clone, Copy, PartialEq, Eq, Structural)]
pub struct FlushRequest {
    pub header: IoctlHeader,
}

impl FlushRequest {
    pub fn new() -> (r: FlushRequest)
        ensures
            r.header == header_of(IoctlCommand::Flush),
    {
        FlushRequest { header: IoctlHeader::new(IoctlCommand::Flush) }
    }
}

} // verus!
