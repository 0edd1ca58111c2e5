//! A persistent, multi-tier key/value cache engine.
//!
//! Keys are strings, values are opaque byte strings with an optional
//! deadline and tag labels. Small values live in memory only; larger ones
//! are kept in one file each, found again through an index that survives
//! restarts. File and clock access stay with the caller: every operation
//! here is a step from a state and an input to the next state and the disk
//! operations that the caller must carry out.

pub mod batcher;
pub mod cache;
pub mod clock;
pub mod codec;
pub mod error;
pub mod eviction;
pub mod laws;
pub mod layout;
pub mod ranked;
pub mod serialization;
pub mod storage;
pub mod tiers;
pub mod utils;
