//! A bounded key-value accumulator.
//!
//! Values are collected under a shared key inside a size- or time-bounded
//! cache; once a configurable quorum count of contributions has been reached
//! for a key, operations report the full accumulated collection for it.

pub mod cache;
pub mod clock;
pub mod laws;
pub mod quorum;

pub use crate::cache::Bound;
pub use crate::cache::Cache;
pub use crate::cache::CacheEntry;
pub use crate::quorum::Accumulator;
pub use crate::quorum::Policy;
