//! Nibble paths and their lexicographic order.
//!
//! A trie path is a sequence of 4-bit values of length at most 64.
//! Lexicographic order on paths is the canonical order for every cursor
//! operation of this crate.

use vstd::prelude::*;

verus! {

/// Longest path that can address a node in a 32-byte-keyed trie.
pub const MAX_NIBBLE_PATH_LEN: usize = 64;

/// A well-formed path: every element is a 4-bit value and the length is
/// bounded by [`MAX_NIBBLE_PATH_LEN`].
pub open spec fn path_wf(p: Seq<u8>) -> bool {
    &&& p.len() <= MAX_NIBBLE_PATH_LEN
    &&& forall|i: int| 0 <= i < p.len() ==> p[i] < 16
}

/// Strict lexicographic order on nibble sequences: a proper prefix comes
/// first, otherwise the first differing element decides.
pub open spec fn lex_lt(a: Seq<u8>, b: Seq<u8>) -> bool
    decreases a.len(),
{
    if b.len() == 0 {
        false
    } else if a.len() == 0 {
        true
    } else if a[0] < b[0] {
        true
    } else if b[0] < a[0] {
        false
    } else {
        lex_lt(a.skip(1), b.skip(1))
    }
}

/// Reflexive closure of [`lex_lt`].
pub open spec fn lex_le(a: Seq<u8>, b: Seq<u8>) -> bool {
    a == b || lex_lt(a, b)
}

/// The order is irreflexive.
pub proof fn lemma_lex_lt_irrefl(a: Seq<u8>)
    ensures
        !lex_lt(a, a),
    decreases a.len(),
{
    if a.len() > 0 {
        lemma_lex_lt_irrefl(a.skip(1));
    }
}

/// Two sequences that order neither way are equal.
pub proof fn lemma_lex_connex(a: Seq<u8>, b: Seq<u8>)
    requires
        !lex_lt(a, b),
        !lex_lt(b, a),
    ensures
        a == b,
    decreases a.len(),
{
    if a.len() == 0 || b.len() == 0 {
        assert(a =~= b);
    } else {
        lemma_lex_connex(a.skip(1), b.skip(1));
        assert(a =~= seq![a[0]] + a.skip(1));
        assert(b =~= seq![b[0]] + b.skip(1));
    }
}

/// At most one direction of the strict order can hold.
pub proof fn lemma_lex_lt_asym(a: Seq<u8>, b: Seq<u8>)
    requires
        lex_lt(a, b),
    ensures
        !lex_lt(b, a),
        a != b,
    decreases a.len(),
{
    lemma_lex_lt_irrefl(a);
    if a.len() > 0 && b.len() > 0 && a[0] == b[0] {
        lemma_lex_lt_asym(a.skip(1), b.skip(1));
        if a == b {
            assert(a.skip(1) == b.skip(1));
        }
    }
}

/// The strict order is transitive.
pub proof fn lemma_lex_lt_trans(a: Seq<u8>, b: Seq<u8>, c: Seq<u8>)
    requires
        lex_lt(a, b),
        lex_lt(b, c),
    ensures
        lex_lt(a, c),
    decreases a.len() + b.len() + c.len(),
{
    if b.len() == 0 || c.len() == 0 {
        // lex_lt(b, c) forces c.len() > 0; lex_lt(a, b) forces b.len() > 0.
    } else if a.len() == 0 {
    } else {
        if a[0] == b[0] && b[0] == c[0] {
            lemma_lex_lt_trans(a.skip(1), b.skip(1), c.skip(1));
        }
    }
}

/// `lex_le` then `lex_lt` chains to `lex_lt`.
pub proof fn lemma_lex_le_lt_trans(a: Seq<u8>, b: Seq<u8>, c: Seq<u8>)
    requires
        lex_le(a, b),
        lex_lt(b, c),
    ensures
        lex_lt(a, c),
{
    if a != b {
        lemma_lex_lt_trans(a, b, c);
    }
}

/// A nibble path: the key type of every trie table in this crate.
#[derive(Debug, PartialEq, Eq)]
pub struct Nibbles {
    nibbles: Vec<u8>,
}

impl View for Nibbles {
    type V = Seq<u8>;

    closed spec fn view(&self) -> Seq<u8> {
        self.nibbles@
    }
}

impl Nibbles {
    /// Build a path from its nibble values.
    pub fn from_nibbles(nibbles: Vec<u8>) -> (r: Self)
        requires
            path_wf(nibbles@),
        ensures
            r@ == nibbles@,
    {
        Nibbles { nibbles }
    }

    /// Number of nibbles in the path.
    pub fn len(&self) -> (r: usize)
        ensures
            r == self@.len(),
    {
        self.nibbles.len()
    }

    /// True on the zero-length path.
    pub fn is_empty(&self) -> (r: bool)
        ensures
            r == (self@.len() == 0),
    {
        self.nibbles.len() == 0
    }

    /// The nibble values of the path.
    pub fn to_vec(&self) -> (r: Vec<u8>)
        ensures
            r@ == self@,
    {
        let r = self.nibbles.clone();
        proof {
            assert(r@ =~= self.nibbles@);
        }
        r
    }
}

impl Clone for Nibbles {
    fn clone(&self) -> (r: Self)
        ensures
            r@ == self@,
    {
        Nibbles { nibbles: self.to_vec() }
    }
}

impl Default for Nibbles {
    /// The empty path.
    fn default() -> (r: Self)
        ensures
            r@ == Seq::<u8>::empty(),
    {
        let r = Nibbles { nibbles: Vec::new() };
        proof {
            assert(r@ =~= Seq::<u8>::empty());
        }
        r
    }
}

/// Reduces the order of two sequences to the order of their suffixes while
/// the prefixes agree.
proof fn lemma_lex_lt_step(a: Seq<u8>, b: Seq<u8>, i: int)
    requires
        0 <= i <= a.len(),
        0 <= i <= b.len(),
        forall|k: int| 0 <= k < i ==> a[k] == b[k],
    ensures
        lex_lt(a, b) == lex_lt(a.skip(i), b.skip(i)),
    decreases i,
{
    if i == 0 {
        assert(a.skip(0) =~= a);
        assert(b.skip(0) =~= b);
    } else {
        lemma_lex_lt_step(a.skip(1), b.skip(1), i - 1);
        assert(a.skip(1).skip(i - 1) =~= a.skip(i));
        assert(b.skip(1).skip(i - 1) =~= b.skip(i));
    }
}

/// Decide the strict lexicographic order of two paths.
pub fn nibbles_lt(a: &Nibbles, b: &Nibbles) -> (r: bool)
    ensures
        r == lex_lt(a@, b@),
{
    let a_len = a.nibbles.len();
    let b_len = b.nibbles.len();
    let mut i: usize = 0;
    while i < a_len && i < b_len
        invariant
            a_len == a@.len(),
            b_len == b@.len(),
            i <= a_len,
            i <= b_len,
            forall|k: int| 0 <= k < i ==> a@[k] == b@[k],
        decreases a_len - i,
    {
        let x = a.nibbles[i];
        let y = b.nibbles[i];
        if x < y {
            proof {
                lemma_lex_lt_step(a@, b@, i as int);
            }
            return true;
        }
        if y < x {
            proof {
                lemma_lex_lt_step(a@, b@, i as int);
            }
            return false;
        }
        i = i + 1;
    }
    proof {
        if i < b_len {
            lemma_lex_lt_step(a@, b@, i as int);
            assert(a@.skip(i as int).len() == 0);
        } else if i < a_len {
            lemma_lex_lt_step(a@, b@, i as int);
            assert(b@.skip(i as int).len() == 0);
        } else {
            assert(a@ =~= b@);
            lemma_lex_lt_irrefl(a@);
        }
    }
    i < b_len
}

/// Decide the reflexive lexicographic order of two paths.
pub fn nibbles_le(a: &Nibbles, b: &Nibbles) -> (r: bool)
    ensures
        r == lex_le(a@, b@),
{
    let r = !nibbles_lt(b, a);
    proof {
        if r {
            if !lex_lt(a@, b@) {
                lemma_lex_connex(a@, b@);
            }
        } else {
            lemma_lex_lt_asym(b@, a@);
        }
    }
    r
}

/// Decide equality of two paths.
pub fn nibbles_eq(a: &Nibbles, b: &Nibbles) -> (r: bool)
    ensures
        r == (a@ == b@),
{
    if a.nibbles.len() != b.nibbles.len() {
        return false;
    }
    let n = a.nibbles.len();
    let mut i: usize = 0;
    while i < n
        invariant
            n == a@.len(),
            n == b@.len(),
            i <= n,
            forall|k: int| 0 <= k < i ==> a@[k] == b@[k],
        decreases n - i,
    {
        if a.nibbles[i] != b.nibbles[i] {
            return false;
        }
        i = i + 1;
    }
    proof {
        assert(a@ =~= b@);
    }
    true
}

} // verus!
