//! Chunks: pieces of files, named by their hash, and the index that counts who uses them.
pub mod cdc;
pub mod chunk;
pub mod codec;
pub mod counting;
pub mod detect;
pub mod hash;
pub mod header;
pub mod index;
pub mod settling;
pub mod table;

pub use crate::chunks::codec::CompressionFormat;
pub use crate::chunks::hash::{hex, ChunkHash, HashAlgorithm};
pub use crate::chunks::header::IndexHeader;
pub use crate::chunks::index::ChunkIndex;
pub use crate::entries::entry_hashes;
