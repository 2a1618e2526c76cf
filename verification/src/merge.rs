//! Specification of the two-way sorted merge that the split cursors
//! implement, and its correctness properties.

use vstd::prelude::*;
use crate::nibbles::{lex_le, lex_lt, lemma_lex_connex, lemma_lex_lt_trans};
use crate::table::{entries_contain, entries_sorted, TrieEntryV};

verus! {

/// Sorted merge of two entry streams.  On equal paths the first stream
/// wins; a consistent store never has equal paths on both sides.
pub open spec fn merge_entries(a: Seq<TrieEntryV>, b: Seq<TrieEntryV>) -> Seq<TrieEntryV>
    decreases a.len() + b.len(),
{
    if a.len() == 0 {
        b
    } else if b.len() == 0 {
        a
    } else if lex_le(a[0].path, b[0].path) {
        seq![a[0]] + merge_entries(a.skip(1), b)
    } else {
        seq![b[0]] + merge_entries(a, b.skip(1))
    }
}

/// Some entry of `s` equals `e`.
pub open spec fn contains_entry(s: Seq<TrieEntryV>, e: TrieEntryV) -> bool {
    exists|i: int| 0 <= i < s.len() && s[i] == e
}

/// No path is stored on both sides.
pub open spec fn paths_disjoint(a: Seq<TrieEntryV>, b: Seq<TrieEntryV>) -> bool {
    forall|p: Seq<u8>| !(#[trigger] entries_contain(a, p) && #[trigger] entries_contain(b, p))
}

/// The merge of two sorted, path-disjoint streams is sorted and holds
/// exactly the entries of both.
pub proof fn lemma_merge_props(a: Seq<TrieEntryV>, b: Seq<TrieEntryV>)
    requires
        entries_sorted(a),
        entries_sorted(b),
        paths_disjoint(a, b),
    ensures
        merge_entries(a, b).len() == a.len() + b.len(),
        entries_sorted(merge_entries(a, b)),
        forall|e: TrieEntryV| #[trigger]
            contains_entry(merge_entries(a, b), e) <==> contains_entry(a, e) || contains_entry(
                b,
                e,
            ),
        forall|p: Seq<u8>| #[trigger]
            entries_contain(merge_entries(a, b), p) <==> entries_contain(a, p)
                || entries_contain(b, p),
    decreases a.len() + b.len(),
{
    let m = merge_entries(a, b);
    if a.len() == 0 || b.len() == 0 {
        // the merge is the other operand
    } else {
        // the heads carry distinct paths
        assert(entries_contain(a, a[0].path));
        assert(entries_contain(b, b[0].path));
        assert(a[0].path != b[0].path);
        if lex_le(a[0].path, b[0].path) {
            let a1 = a.skip(1);
            assert(forall|k: int| 0 <= k < a1.len() ==> #[trigger] a1[k] == a[k + 1]);
            assert forall|p: Seq<u8>|
                !(#[trigger] entries_contain(a1, p) && #[trigger] entries_contain(b, p)) by {
                if entries_contain(a1, p) {
                    let w = choose|i: int| 0 <= i < a1.len() && a1[i].path == p;
                    assert(a[w + 1].path == p);
                    assert(entries_contain(a, p));
                }
            }
            lemma_merge_props(a1, b);
            let m1 = merge_entries(a1, b);
            assert(m == seq![a[0]] + m1);
            assert(m[0] == a[0]);
            assert(forall|k: int| 1 <= k < m.len() ==> #[trigger] m[k] == m1[k - 1]);
            // the head is strictly below every merged entry
            assert forall|k: int| 1 <= k < m.len() implies lex_lt(a[0].path, m[k].path) by {
                let e = m1[k - 1];
                assert(contains_entry(m1, e));
                if contains_entry(a1, e) {
                    let w = choose|i: int| 0 <= i < a1.len() && a1[i] == e;
                    assert(a[w + 1] == e);
                    assert(lex_lt(a[0].path, a[w + 1].path));
                } else {
                    let w = choose|i: int| 0 <= i < b.len() && b[i] == e;
                    if !lex_lt(a[0].path, b[0].path) {
                        lemma_lex_connex(a[0].path, b[0].path);
                    }
                    if w > 0 {
                        lemma_lex_lt_trans(a[0].path, b[0].path, b[w].path);
                    }
                }
            }
            assert forall|i: int, j: int| 0 <= i < j < m.len() implies lex_lt(
                m[i].path,
                m[j].path,
            ) by {
                if i > 0 {
                    assert(m[i] == m1[i - 1]);
                    assert(m[j] == m1[j - 1]);
                }
            }
            assert forall|e: TrieEntryV| #[trigger]
                contains_entry(m, e) <==> contains_entry(a, e) || contains_entry(b, e) by {
                if contains_entry(m, e) {
                    let w = choose|i: int| 0 <= i < m.len() && m[i] == e;
                    if w == 0 {
                        assert(contains_entry(a, e));
                    } else {
                        assert(contains_entry(m1, e));
                        if contains_entry(a1, e) {
                            let v = choose|i: int| 0 <= i < a1.len() && a1[i] == e;
                            assert(a[v + 1] == e);
                            assert(contains_entry(a, e));
                        }
                    }
                }
                if contains_entry(a, e) {
                    let w = choose|i: int| 0 <= i < a.len() && a[i] == e;
                    if w == 0 {
                        assert(m[0] == e);
                        assert(contains_entry(m, e));
                    } else {
                        assert(a1[w - 1] == e);
                        assert(contains_entry(a1, e));
                        assert(contains_entry(m1, e));
                        let v = choose|i: int| 0 <= i < m1.len() && m1[i] == e;
                        assert(m[v + 1] == e);
                        assert(contains_entry(m, e));
                    }
                }
                if contains_entry(b, e) {
                    assert(contains_entry(m1, e));
                    let v = choose|i: int| 0 <= i < m1.len() && m1[i] == e;
                    assert(m[v + 1] == e);
                    assert(contains_entry(m, e));
                }
            }
            lemma_contains_from_entries(a, b, m);
        } else {
            let b1 = b.skip(1);
            assert(forall|k: int| 0 <= k < b1.len() ==> #[trigger] b1[k] == b[k + 1]);
            assert forall|p: Seq<u8>|
                !(#[trigger] entries_contain(a, p) && #[trigger] entries_contain(b1, p)) by {
                if entries_contain(b1, p) {
                    let w = choose|i: int| 0 <= i < b1.len() && b1[i].path == p;
                    assert(b[w + 1].path == p);
                    assert(entries_contain(b, p));
                }
            }
            lemma_merge_props(a, b1);
            let m1 = merge_entries(a, b1);
            assert(m == seq![b[0]] + m1);
            assert(m[0] == b[0]);
            assert(forall|k: int| 1 <= k < m.len() ==> #[trigger] m[k] == m1[k - 1]);
            if !lex_lt(b[0].path, a[0].path) {
                lemma_lex_connex(a[0].path, b[0].path);
            }
            assert(lex_lt(b[0].path, a[0].path));
            assert forall|k: int| 1 <= k < m.len() implies lex_lt(b[0].path, m[k].path) by {
                let e = m1[k - 1];
                assert(contains_entry(m1, e));
                if contains_entry(b1, e) {
                    let w = choose|i: int| 0 <= i < b1.len() && b1[i] == e;
                    assert(b[w + 1] == e);
                    assert(lex_lt(b[0].path, b[w + 1].path));
                } else {
                    let w = choose|i: int| 0 <= i < a.len() && a[i] == e;
                    if w > 0 {
                        lemma_lex_lt_trans(b[0].path, a[0].path, a[w].path);
                    }
                }
            }
            assert forall|i: int, j: int| 0 <= i < j < m.len() implies lex_lt(
                m[i].path,
                m[j].path,
            ) by {
                if i > 0 {
                    assert(m[i] == m1[i - 1]);
                    assert(m[j] == m1[j - 1]);
                }
            }
            assert forall|e: TrieEntryV| #[trigger]
                contains_entry(m, e) <==> contains_entry(a, e) || contains_entry(b, e) by {
                if contains_entry(m, e) {
                    let w = choose|i: int| 0 <= i < m.len() && m[i] == e;
                    if w == 0 {
                        assert(contains_entry(b, e));
                    } else {
                        assert(contains_entry(m1, e));
                        if contains_entry(b1, e) {
                            let v = choose|i: int| 0 <= i < b1.len() && b1[i] == e;
                            assert(b[v + 1] == e);
                            assert(contains_entry(b, e));
                        }
                    }
                }
                if contains_entry(b, e) {
                    let w = choose|i: int| 0 <= i < b.len() && b[i] == e;
                    if w == 0 {
                        assert(m[0] == e);
                        assert(contains_entry(m, e));
                    } else {
                        assert(b1[w - 1] == e);
                        assert(contains_entry(b1, e));
                        assert(contains_entry(m1, e));
                        let v = choose|i: int| 0 <= i < m1.len() && m1[i] == e;
                        assert(m[v + 1] == e);
                        assert(contains_entry(m, e));
                    }
                }
                if contains_entry(a, e) {
                    assert(contains_entry(m1, e));
                    let v = choose|i: int| 0 <= i < m1.len() && m1[i] == e;
                    assert(m[v + 1] == e);
                    assert(contains_entry(m, e));
                }
            }
            lemma_contains_from_entries(a, b, m);
        }
    }
}

/// Path-level containment follows from entry-level containment.
proof fn lemma_contains_from_entries(a: Seq<TrieEntryV>, b: Seq<TrieEntryV>, m: Seq<TrieEntryV>)
    requires
        forall|e: TrieEntryV| #[trigger]
            contains_entry(m, e) <==> contains_entry(a, e) || contains_entry(b, e),
    ensures
        forall|p: Seq<u8>| #[trigger]
            entries_contain(m, p) <==> entries_contain(a, p) || entries_contain(b, p),
{
    assert forall|p: Seq<u8>| #[trigger]
        entries_contain(m, p) <==> entries_contain(a, p) || entries_contain(b, p) by {
        if entries_contain(m, p) {
            let w = choose|i: int| 0 <= i < m.len() && m[i].path == p;
            assert(contains_entry(m, m[w]));
            if contains_entry(a, m[w]) {
                let v = choose|i: int| 0 <= i < a.len() && a[i] == m[w];
                assert(a[v].path == p);
                assert(entries_contain(a, p));
            } else {
                let v = choose|i: int| 0 <= i < b.len() && b[i] == m[w];
                assert(b[v].path == p);
                assert(entries_contain(b, p));
            }
        }
        if entries_contain(a, p) {
            let w = choose|i: int| 0 <= i < a.len() && a[i].path == p;
            assert(contains_entry(a, a[w]));
            assert(contains_entry(m, a[w]));
            let v = choose|i: int| 0 <= i < m.len() && m[i] == a[w];
            assert(m[v].path == p);
            assert(entries_contain(m, p));
        }
        if entries_contain(b, p) {
            let w = choose|i: int| 0 <= i < b.len() && b[i].path == p;
            assert(contains_entry(b, b[w]));
            assert(contains_entry(m, b[w]));
            let v = choose|i: int| 0 <= i < m.len() && m[i] == b[w];
            assert(m[v].path == p);
            assert(entries_contain(m, p));
        }
    }
}

} // verus!

verus! {

/// A pending slot as a stream prefix.
pub open spec fn opt_entry_seq(o: Option<TrieEntryV>) -> Seq<TrieEntryV> {
    match o {
        Some(e) => seq![e],
        None => Seq::empty(),
    }
}

/// Every entry is shallow.
pub open spec fn shallow_only(s: Seq<TrieEntryV>) -> bool {
    forall|i: int| 0 <= i < s.len() ==> crate::constants::spec_is_shallow((#[trigger] s[i]).path)
}

/// Every entry is deep.
pub open spec fn deep_only(s: Seq<TrieEntryV>) -> bool {
    forall|i: int| 0 <= i < s.len() ==> !crate::constants::spec_is_shallow((#[trigger] s[i]).path)
}

/// Streams partitioned by depth never share a path.
pub proof fn lemma_partition_disjoint(a: Seq<TrieEntryV>, b: Seq<TrieEntryV>)
    requires
        shallow_only(a),
        deep_only(b),
    ensures
        paths_disjoint(a, b),
{
    assert forall|p: Seq<u8>|
        !(#[trigger] entries_contain(a, p) && #[trigger] entries_contain(b, p)) by {
        if entries_contain(a, p) && entries_contain(b, p) {
            let i = choose|i: int| 0 <= i < a.len() && a[i].path == p;
            let j = choose|j: int| 0 <= j < b.len() && b[j].path == p;
            assert(crate::constants::spec_is_shallow(a[i].path));
            assert(!crate::constants::spec_is_shallow(b[j].path));
        }
    }
}

} // verus!
