//! Storage layer: on-disk format, page I/O, caching, and durability.

pub mod buffer_pool;
pub mod bytes;
pub mod checksum;
pub mod disk;
pub mod file_header;
pub mod file_op;
pub mod page;
pub mod page_map;
pub mod recovery;
pub mod wal;
