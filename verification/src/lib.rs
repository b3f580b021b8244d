//! Deduplicated backups: the chunk index, the chunk format, the archive entry tree and the rules
//! that a repository follows when it writes, deletes, rebuilds and restores.
pub mod chunks;
pub mod entries;
pub mod error;
pub mod migrate;
pub mod repository;
pub mod text;
pub mod tree;
pub mod varint;
