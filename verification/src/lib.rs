//! Block trace, event and state-diff export for the debank pipeline:
//! identifiers, validation hashes, trace-tree flattening and state diffs.

pub mod hexfmt;
pub mod hashing;
pub mod debank;
pub mod bytes;
pub mod state_diff;
pub mod parity;
pub mod arena;
pub mod quantity;
pub mod block;
pub mod trace_api;
