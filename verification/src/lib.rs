//! Hot/cold storage engine for a consensus node: a column key-value layer with
//! per-column accounting, binary state diffs, bounded caches, and the
//! reconstruction of historical states from snapshots, diffs and blocks.

pub mod cache;
pub mod chain;
pub mod codec;
pub mod column;
pub mod column_store;
pub mod diff_format;
pub mod error;
pub mod freeze;
pub mod hdiff;
pub mod hot_cold_store;
pub mod kv;
pub mod metrics;
pub mod reconstruct;
pub mod replay;
pub mod stored;
pub mod types;
pub mod wire;
