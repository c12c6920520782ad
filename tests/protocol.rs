use hybridkv::ioctl::{IoctlCommand, IOCTL_MAGIC};
use hybridkv::protocol::{
    BatchPromoteEntry, BatchPromoteRequest, BatchPromoteResponse, CacheStats, ConfigRequest, DemoteRequest,
    FlushRequest, InvalidateRequest, IoctlHeader, PromoteRequest, PromoteResponse, ReadRequest, ReadResponse,
    StatsRequest, StatsResponse, BATCH_RESULT_BYTES, PROTOCOL_VERSION, STATUS_OK,
};
use hybridkv::types::{Key, Ttl, Value, Version};

#[test]
fn test_ioctl_header_new() {
    let header = IoctlHeader::new(IoctlCommand::Read);
    assert_eq!(header.magic, IOCTL_MAGIC);
    assert_eq!(header.version, PROTOCOL_VERSION);
    assert_eq!(header.command, IoctlCommand::Read.as_u8());
    assert_eq!(header.reserved, 0);
}

#[test]
fn test_ioctl_header_size() {
    assert_eq!(std::mem::size_of::<IoctlHeader>(), 4);
}

#[test]
fn test_read_request_new() {
    let key = Key::new(b"alpha").unwrap();
    let request = ReadRequest::new(key.clone());
    assert_eq!(request.header, IoctlHeader::new(IoctlCommand::Read));
    assert_eq!(request.key, key);
}

#[test]
fn test_read_response_new() {
    let value = Value::new(b"beta").unwrap();
    let response = ReadResponse::new(STATUS_OK, value.clone());
    assert_eq!(response.header, IoctlHeader::new(IoctlCommand::Read));
    assert_eq!(response.status, STATUS_OK);
    assert_eq!(response.value, value);
}

#[test]
fn test_read_struct_sizes() {
    assert_eq!(std::mem::size_of::<ReadRequest>(), 262);
    assert_eq!(std::mem::size_of::<ReadResponse>(), 1032);
}

#[test]
fn test_promote_request_new() {
    let key = Key::new(b"alpha").unwrap();
    let value = Value::new(b"beta").unwrap();
    let request = PromoteRequest::new(key.clone(), value.clone(), Version::zero(), Ttl::infinite());
    assert_eq!(request.header, IoctlHeader::new(IoctlCommand::Promote));
    assert_eq!(request.key, key);
    assert_eq!(request.value, value);
    assert_eq!(request.version, Version::zero());
    assert_eq!(request.ttl, Ttl::infinite());
}

#[test]
fn test_promote_response_new() {
    let response = PromoteResponse::new(STATUS_OK);
    assert_eq!(response.header, IoctlHeader::new(IoctlCommand::Promote));
    assert_eq!(response.status, STATUS_OK);
    assert_eq!(response.reserved, 0);
}

#[test]
fn test_promote_struct_sizes() {
    assert_eq!(std::mem::size_of::<PromoteRequest>(), 1304);
    assert_eq!(std::mem::size_of::<PromoteResponse>(), 8);
}

#[test]
fn test_batch_promote_entry_size() {
    assert_eq!(std::mem::size_of::<BatchPromoteEntry>(), 1304);
}

#[test]
fn test_batch_promote_response_new() {
    let response = BatchPromoteResponse::new(10);
    assert_eq!(response.header, IoctlHeader::new(IoctlCommand::BatchPromote));
    assert_eq!(response.count, 10);
    assert_eq!(response.reserved, 0);
    assert_eq!(response.results.len(), BATCH_RESULT_BYTES);
}

#[test]
fn test_batch_promote_struct_sizes() {
    assert_eq!(std::mem::size_of::<BatchPromoteRequest>(), 1_304_008);
    assert_eq!(std::mem::size_of::<BatchPromoteResponse>(), 134);
}

#[test]
fn test_demote_request_new() {
    let key = Key::new(b"alpha").unwrap();
    let request = DemoteRequest::new(key.clone());
    assert_eq!(request.header, IoctlHeader::new(IoctlCommand::Demote));
    assert_eq!(request.key, key);
}

#[test]
fn test_invalidate_request_new() {
    let key = Key::new(b"alpha").unwrap();
    let request = InvalidateRequest::new(key.clone(), Version::new(42));
    assert_eq!(request.header, IoctlHeader::new(IoctlCommand::Invalidate));
    assert_eq!(request.key, key);
    assert_eq!(request.version, Version::new(42));
}

#[test]
fn test_demote_invalidate_sizes() {
    assert_eq!(std::mem::size_of::<DemoteRequest>(), 262);
    assert_eq!(std::mem::size_of::<InvalidateRequest>(), 272);
}

#[test]
fn test_stats_request_new() {
    let request = StatsRequest::new();
    assert_eq!(request.header, IoctlHeader::new(IoctlCommand::Stats));
}

#[test]
fn test_stats_response_new() {
    let stats = CacheStats {
        lookups: 1,
        hits: 2,
        misses: 3,
        stale_hits: 4,
        promotions: 5,
        demotions: 6,
        evictions: 7,
        invalidations: 8,
        used_bytes: 9,
        max_bytes: 10,
        entry_count: 11,
        lock_contentions: 12,
        rcu_grace_periods: 13,
    };
    let response = StatsResponse::new(STATUS_OK, stats);
    assert_eq!(response.header, IoctlHeader::new(IoctlCommand::Stats));
    assert_eq!(response.status, STATUS_OK);
    assert_eq!(response.reserved, 0);
    assert_eq!(response.stats, stats);
}

#[test]
fn test_stats_struct_sizes() {
    assert_eq!(std::mem::size_of::<CacheStats>(), 104);
    assert_eq!(std::mem::size_of::<StatsRequest>(), 4);
    assert_eq!(std::mem::size_of::<StatsResponse>(), 112);
}

#[test]
fn test_config_request_new() {
    let request = ConfigRequest::new(256, 100, 80, 70);
    assert_eq!(request.header, IoctlHeader::new(IoctlCommand::Config));
    assert_eq!(request.max_bytes, 256);
    assert_eq!(request.max_entries, 100);
    assert_eq!(request.high_watermark, 80);
    assert_eq!(request.low_watermark, 70);
    assert_eq!(request.reserved, 0);
}

#[test]
fn test_flush_request_new() {
    let request = FlushRequest::new();
    assert_eq!(request.header, IoctlHeader::new(IoctlCommand::Flush));
}

#[test]
fn test_config_flush_sizes() {
    assert_eq!(std::mem::size_of::<ConfigRequest>(), 40);
    assert_eq!(std::mem::size_of::<FlushRequest>(), 4);
}
