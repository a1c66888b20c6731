pub mod encoding;
pub mod checksum;
pub mod block;
pub mod wal;
pub mod active_block;
pub mod query;
pub mod index;
pub mod state;
pub mod compaction;
pub mod ttl;
