//! Building blocks of an embedded key-value store: a borrowed byte view, a
//! bump arena, a handle-based LRU list and the capacity-bounded cache built on
//! it, a CRC-32C checksum with its storage mask, and a small deterministic
//! random generator.

pub mod arena;
pub mod cache;
pub mod crc32;
pub mod lru;
pub mod random;
pub mod result;
pub mod slice;
