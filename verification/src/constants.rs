//! Depth threshold that decides which table stores a trie node.

use vstd::prelude::*;

verus! {

/// Maximum nibble path length for nodes stored in the shallow trie tables.
///
/// Nodes whose path holds at most this many nibbles go to the shallow
/// account / storage tables; all longer paths go to the deep tables.
pub const SHALLOW_TRIE_DEPTH: usize = 5;

/// A path belongs to the shallow tables exactly when its nibble count is at
/// most [`SHALLOW_TRIE_DEPTH`].
pub open spec fn spec_is_shallow(p: Seq<u8>) -> bool {
    p.len() <= SHALLOW_TRIE_DEPTH
}

} // verus!
