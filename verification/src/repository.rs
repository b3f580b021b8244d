//! The rules that a repository follows. They take what was read from disk and give back what has
//! to change there, step by step; carrying the steps out is left to the caller.
pub mod backup;
pub mod deletion;
pub mod inflight;
pub mod markers;
pub mod migration;
pub mod names;
pub mod opening;
pub mod paths;
pub mod plan;
pub mod restore;
pub mod roundtrip;
pub mod settings;
pub mod survey;
pub mod world;

pub use crate::repository::settings::Repository;
