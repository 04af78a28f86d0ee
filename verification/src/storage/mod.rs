//! Pages and the buffer pool that caches them.

pub mod buffer_pool;
pub mod page;
