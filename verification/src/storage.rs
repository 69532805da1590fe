//! The fixed-size record that the arena keeps for each node.

use vstd::prelude::*;

verus! {

/// The metadata of one node: where its content lies in the heap, and the
/// usage figures that its life score is computed from.
#[derive(Debug, Clone, Copy)]
pub struct NodeHeader {
    /// The node's id: its position in the arena.
    pub id: u64,
    /// Where the content starts in the data heap.
    pub data_offset: u64,
    /// The length of the content, in bytes.
    pub data_len: u32,
    /// When the node was last read, in seconds since the epoch.
    pub last_access_ts: u64,
    /// How many times the node was read; it stops at `u32::MAX`.
    pub access_count: u32,
    /// The importance that the caller gave the node.
    pub significance: u8,
}

} // verus!
