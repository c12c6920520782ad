//! A RESP2-speaking in-memory key/value cache: the sharded LRU storage
//! engine, the RESP2 codec, the command dispatcher, connection-pool
//! bookkeeping, metrics, and the fixed-layout kernel sidecar structures.

pub mod clock;
pub mod error;
pub mod ioctl;
pub mod resp;
pub mod client;
pub mod types;
pub mod protocol;
pub mod shard;
pub mod engine;
pub mod server;
pub mod metrics;
pub mod pool;
pub mod storage;
pub mod bench;
