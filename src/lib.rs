//! Lazy-loading node cache for a disk-backed index engine: file-index keys,
//! a chunked on-disk layout, deduplicating registries, and a recursive loader
//! bounded by a load budget and a cycle-skip set.
//!
//! Every cache method takes `&mut self`: a cache serves one load at a time, so
//! each key is read at most once while it stays registered. Handles are `Arc`s,
//! which outlive their registry entries.

pub mod bytes;
pub mod chunked;
pub mod dense;
pub mod file_index;
pub mod inverted;
pub mod keyed;
pub mod lazy;
pub mod node_registry;
pub mod props;
