//! Write-ahead log records and the byte layout of the log.

pub mod wal;
