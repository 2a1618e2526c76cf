//! Value types stored in the trie tables: account hashes and compact branch
//! nodes.

use vstd::prelude::*;
use crate::nibbles::{lex_lt, lemma_lex_lt_irrefl};

verus! {

/// A fixed 32-byte identifier that scopes one per-account storage trie.
#[derive(Clone, Copy, Debug, PartialEq, Eq)]
pub struct HashedAddress {
    bytes: [u8; 32],
}

impl View for HashedAddress {
    type V = Seq<u8>;

    closed spec fn view(&self) -> Seq<u8> {
        self.bytes@
    }
}

impl HashedAddress {
    /// Build an identifier from its 32 bytes.
    pub fn new(bytes: [u8; 32]) -> (r: Self)
        ensures
            r@ == bytes@,
    {
        HashedAddress { bytes }
    }
}

/// Decide equality of two account hashes.
pub fn hash_eq(a: &HashedAddress, b: &HashedAddress) -> (r: bool)
    ensures
        r == (a@ == b@),
{
    let mut i: usize = 0;
    while i < 32
        invariant
            i <= 32,
            a@.len() == 32,
            b@.len() == 32,
            forall|k: int| 0 <= k < i ==> a@[k] == b@[k],
        decreases 32 - i,
    {
        if a.bytes[i] != b.bytes[i] {
            return false;
        }
        i = i + 1;
    }
    proof {
        assert(a@ =~= b@);
    }
    true
}

/// Reduces the order of two equal-length sequences to the order of their
/// suffixes while the prefixes agree.
proof fn lemma_hash_lt_step(a: Seq<u8>, b: Seq<u8>, i: int)
    requires
        a.len() == b.len(),
        0 <= i <= a.len(),
        forall|k: int| 0 <= k < i ==> a[k] == b[k],
    ensures
        lex_lt(a, b) == lex_lt(a.skip(i), b.skip(i)),
    decreases i,
{
    if i == 0 {
        assert(a.skip(0) =~= a);
        assert(b.skip(0) =~= b);
    } else {
        lemma_hash_lt_step(a.skip(1), b.skip(1), i - 1);
        assert(a.skip(1).skip(i - 1) =~= a.skip(i));
        assert(b.skip(1).skip(i - 1) =~= b.skip(i));
    }
}

/// Decide the strict lexicographic order of two account hashes.
pub fn hash_lt(a: &HashedAddress, b: &HashedAddress) -> (r: bool)
    ensures
        r == lex_lt(a@, b@),
{
    let mut i: usize = 0;
    while i < 32
        invariant
            i <= 32,
            a@.len() == 32,
            b@.len() == 32,
            forall|k: int| 0 <= k < i ==> a@[k] == b@[k],
        decreases 32 - i,
    {
        let x = a.bytes[i];
        let y = b.bytes[i];
        if x < y {
            proof {
                lemma_hash_lt_step(a@, b@, i as int);
            }
            return true;
        }
        if y < x {
            proof {
                lemma_hash_lt_step(a@, b@, i as int);
            }
            return false;
        }
        i = i + 1;
    }
    proof {
        assert(a@ =~= b@);
        lemma_lex_lt_irrefl(a@);
    }
    false
}

/// Mathematical value of a [`BranchNodeCompact`].
pub ghost struct BranchNodeView {
    pub state_mask: u16,
    pub tree_mask: u16,
    pub hash_mask: u16,
    pub hashes: Seq<HashedAddress>,
    pub root_hash: Option<HashedAddress>,
}

/// Compact representation of a Merkle-Patricia branch node: the value
/// payload of every trie table.  The cursors and the write router treat it
/// as opaque.
#[derive(Debug, PartialEq, Eq)]
pub struct BranchNodeCompact {
    state_mask: u16,
    tree_mask: u16,
    hash_mask: u16,
    hashes: Vec<HashedAddress>,
    root_hash: Option<HashedAddress>,
}

impl View for BranchNodeCompact {
    type V = BranchNodeView;

    closed spec fn view(&self) -> BranchNodeView {
        BranchNodeView {
            state_mask: self.state_mask,
            tree_mask: self.tree_mask,
            hash_mask: self.hash_mask,
            hashes: self.hashes@,
            root_hash: self.root_hash,
        }
    }
}

impl BranchNodeCompact {
    /// Build a branch node from its parts.
    pub fn new(
        state_mask: u16,
        tree_mask: u16,
        hash_mask: u16,
        hashes: Vec<HashedAddress>,
        root_hash: Option<HashedAddress>,
    ) -> (r: Self)
        ensures
            r@ == (BranchNodeView {
                state_mask,
                tree_mask,
                hash_mask,
                hashes: hashes@,
                root_hash,
            }),
    {
        BranchNodeCompact { state_mask, tree_mask, hash_mask, hashes, root_hash }
    }
}

impl Clone for BranchNodeCompact {
    fn clone(&self) -> (r: Self)
        ensures
            r@ == self@,
    {
        let hashes = self.hashes.clone();
        proof {
            assert(hashes@ =~= self.hashes@);
        }
        BranchNodeCompact {
            state_mask: self.state_mask,
            tree_mask: self.tree_mask,
            hash_mask: self.hash_mask,
            hashes,
            root_hash: self.root_hash,
        }
    }
}

} // verus!
