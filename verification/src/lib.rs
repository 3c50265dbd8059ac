//! Storage kernel of a single-node database engine: fixed-size pages with
//! big-endian typed accessors, a block-addressed file store, a write-ahead
//! log manager with reverse-chronological iteration, and a pinned buffer
//! pool that enforces the write-ahead rule.

pub mod block_id;
pub mod buffer;
pub mod buffer_manager;
pub mod db;
pub mod file_manager;
pub mod log_iterator;
pub mod log_manager;
pub mod log_records;
pub mod page;
