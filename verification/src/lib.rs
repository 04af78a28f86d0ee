//! Storage and transaction-log building blocks: fixed-size pages, a page
//! cache keyed by page id, and the framing of write-ahead log records.

pub mod storage;
pub mod transaction;
