//! The trie proper: the recursive node, its ordered double-ended cursors,
//! and the map and set facades over a shared branching factor.

pub mod map;
pub mod node;
pub mod set;

use vstd::prelude::*;

verus! {

/// The branching factor shared by the map and set facades.
pub const B: usize = 32;

} // verus!
