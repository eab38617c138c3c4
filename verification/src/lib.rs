//! An expiring, collision-aware, prefix-indexed clipboard store.
//!
//! Blobs are addressed by the lowercase hex digest of their contents. The
//! store keeps every live hash in a byte trie, so that a lookup may use any
//! unambiguous prefix of a hash, and reports for each insertion the shortest
//! prefix that still uniquely addresses the new entry.

use vstd::prelude::*;

pub mod clipboard;
pub mod config;
pub mod digest;
pub mod error;
pub mod hash_trie;
pub mod html;
pub mod resp;
pub mod laws;
pub mod tracker;
pub mod trie;

verus! {

/// A prefix must have at least this many characters before the store
/// will resolve it.
pub const MIN_PREFIX_LEN: usize = 4;

} // verus!
