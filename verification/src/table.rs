//! In-memory model of one plain trie table: a vector of entries held in
//! strictly ascending path order, and a positioned cursor over it.

use vstd::prelude::*;
use crate::nibbles::{
    lex_lt, lemma_lex_connex, lemma_lex_lt_asym, lemma_lex_lt_irrefl, lemma_lex_lt_trans,
    nibbles_eq, nibbles_lt, path_wf, Nibbles,
};
use crate::node::{BranchNodeCompact, BranchNodeView};

verus! {

/// Opaque error of the storage engine.  The in-memory engine model is
/// total, so no operation of this crate ever returns it; the cursor and
/// router signatures keep the error channel that callers expect.
#[derive(Clone, Copy, Debug, PartialEq, Eq)]
pub struct DatabaseError;

/// Mathematical value of one table entry.
pub ghost struct TrieEntryV {
    pub path: Seq<u8>,
    pub node: BranchNodeView,
}

/// One entry of a plain trie table: a path and its branch node.
#[derive(Debug, PartialEq, Eq)]
pub struct TrieNodeEntry {
    pub path: Nibbles,
    pub node: BranchNodeCompact,
}

impl View for TrieNodeEntry {
    type V = TrieEntryV;

    open spec fn view(&self) -> TrieEntryV {
        TrieEntryV { path: self.path@, node: self.node@ }
    }
}

impl Clone for TrieNodeEntry {
    fn clone(&self) -> (r: Self)
        ensures
            r@ == self@,
    {
        TrieNodeEntry { path: self.path.clone(), node: self.node.clone() }
    }
}

/// Mathematical contents of a vector of entries.
pub open spec fn entries_view(s: Seq<TrieNodeEntry>) -> Seq<TrieEntryV> {
    Seq::new(s.len(), |i: int| s[i]@)
}

/// The entries are in strictly ascending path order.
pub open spec fn entries_sorted(s: Seq<TrieEntryV>) -> bool {
    forall|i: int, j: int| 0 <= i < j < s.len() ==> lex_lt(s[i].path, s[j].path)
}

/// Well-formed table contents: sorted, with well-formed paths.
pub open spec fn entries_wf(s: Seq<TrieEntryV>) -> bool {
    &&& entries_sorted(s)
    &&& forall|i: int| 0 <= i < s.len() ==> path_wf(#[trigger] s[i].path)
}

/// Some entry holds the path `p`.
pub open spec fn entries_contain(s: Seq<TrieEntryV>, p: Seq<u8>) -> bool {
    exists|i: int| 0 <= i < s.len() && s[i].path == p
}

/// The node stored at path `p` (meaningful only when `p` is present).
pub open spec fn entry_node(s: Seq<TrieEntryV>, p: Seq<u8>) -> BranchNodeView {
    s[choose|i: int| 0 <= i < s.len() && s[i].path == p].node
}

/// The node stored at path `p`, or `None` when `p` is absent.
pub open spec fn entry_lookup(s: Seq<TrieEntryV>, p: Seq<u8>) -> Option<BranchNodeView> {
    if entries_contain(s, p) {
        Some(entry_node(s, p))
    } else {
        None
    }
}

/// The table contents as a finite map from path to node.
pub open spec fn table_map(s: Seq<TrieEntryV>) -> Map<Seq<u8>, BranchNodeView> {
    Map::new(|p: Seq<u8>| entries_contain(s, p), |p: Seq<u8>| entry_node(s, p))
}

/// Index of the first entry whose path is at least `p` (the length of `s`
/// when every entry is smaller).
pub open spec fn lower_bound(s: Seq<TrieEntryV>, p: Seq<u8>) -> int
    decreases s.len(),
{
    if s.len() == 0 {
        0
    } else if !lex_lt(s[0].path, p) {
        0
    } else {
        1 + lower_bound(s.skip(1), p)
    }
}

pub proof fn lemma_lower_bound_props(s: Seq<TrieEntryV>, p: Seq<u8>)
    ensures
        0 <= lower_bound(s, p) <= s.len(),
        forall|k: int| 0 <= k < lower_bound(s, p) ==> lex_lt(#[trigger] s[k].path, p),
        lower_bound(s, p) < s.len() ==> !lex_lt(s[lower_bound(s, p)].path, p),
    decreases s.len(),
{
    if s.len() > 0 && lex_lt(s[0].path, p) {
        lemma_lower_bound_props(s.skip(1), p);
        assert forall|k: int| 0 <= k < lower_bound(s, p) implies lex_lt(
            #[trigger] s[k].path,
            p,
        ) by {
            if k > 0 {
                assert(s.skip(1)[k - 1] == s[k]);
            }
        }
        if lower_bound(s, p) < s.len() {
            assert(s.skip(1)[lower_bound(s, p) - 1] == s[lower_bound(s, p)]);
        }
    }
}

/// In a sorted table no path occurs twice.
pub proof fn lemma_sorted_distinct(s: Seq<TrieEntryV>)
    requires
        entries_sorted(s),
    ensures
        forall|i: int, j: int|
            0 <= i < s.len() && 0 <= j < s.len() && i != j ==> (#[trigger] s[i].path)
                != (#[trigger] s[j].path),
{
    assert forall|i: int, j: int|
        0 <= i < s.len() && 0 <= j < s.len() && i != j implies (#[trigger] s[i].path) != (
    #[trigger] s[j].path) by {
        if i < j {
            lemma_lex_lt_asym(s[i].path, s[j].path);
        } else {
            lemma_lex_lt_asym(s[j].path, s[i].path);
        }
    }
}

/// In a sorted table, the entry found at the unique index holding `p` is the
/// one `entry_node` denotes.
pub proof fn lemma_entry_node_at(s: Seq<TrieEntryV>, i: int)
    requires
        entries_sorted(s),
        0 <= i < s.len(),
    ensures
        entries_contain(s, s[i].path),
        entry_node(s, s[i].path) == s[i].node,
{
    lemma_sorted_distinct(s);
    let p = s[i].path;
    assert(0 <= i < s.len() && s[i].path == p);
    let c = choose|k: int| 0 <= k < s.len() && s[k].path == p;
    assert(c == i);
}

/// Find the lower-bound index of `key` in a sorted entry vector.
fn find_lower_bound(entries: &Vec<TrieNodeEntry>, key: &Nibbles) -> (i: usize)
    requires
        entries_sorted(entries_view(entries@)),
    ensures
        i == lower_bound(entries_view(entries@), key@),
        i <= entries@.len(),
{
    let ghost s = entries_view(entries@);
    proof {
        lemma_lower_bound_props(s, key@);
    }
    let n = entries.len();
    let mut i: usize = 0;
    while i < n && nibbles_lt(&entries[i].path, key)
        invariant
            n == entries@.len(),
            s == entries_view(entries@),
            entries_sorted(s),
            i <= n,
            forall|k: int| 0 <= k < i ==> lex_lt(#[trigger] s[k].path, key@),
        decreases n - i,
    {
        i = i + 1;
    }
    proof {
        let j = lower_bound(s, key@);
        if i < j {
            assert(lex_lt(s[i as int].path, key@));
        }
        if j < i {
            assert(lex_lt(s[j].path, key@));
        }
    }
    i
}

/// Replace the node stored at `key`, or insert a new entry, keeping the
/// table sorted.
pub fn table_upsert(entries: &mut Vec<TrieNodeEntry>, key: &Nibbles, node: &BranchNodeCompact)
    requires
        entries_wf(entries_view(old(entries)@)),
        path_wf(key@),
    ensures
        entries_wf(entries_view(final(entries)@)),
        table_map(entries_view(final(entries)@)) == table_map(
            entries_view(old(entries)@),
        ).insert(key@, node@),
        entries_contain(entries_view(final(entries)@), key@),
        final(entries)@.len() == old(entries)@.len() + (if entries_contain(
            entries_view(old(entries)@),
            key@,
        ) {
            0int
        } else {
            1int
        }),
{
    let ghost s0 = entries_view(old(entries)@);
    let i = find_lower_bound(entries, key);
    proof {
        lemma_lower_bound_props(s0, key@);
        lemma_sorted_distinct(s0);
    }
    let entry = TrieNodeEntry { path: key.clone(), node: node.clone() };
    if i < entries.len() && nibbles_eq(&entries[i].path, key) {
        entries.remove(i);
        entries.insert(i, entry);
        proof {
            let s1 = entries_view(entries@);
            assert(s1 =~= s0.update(i as int, TrieEntryV { path: key@, node: node@ }));
            lemma_upsert_replace_ok(s0, i as int, key@, node@);
        }
    } else {
        entries.insert(i, entry);
        proof {
            let s1 = entries_view(entries@);
            assert(s1 =~= s0.insert(i as int, TrieEntryV { path: key@, node: node@ }));
            lemma_upsert_insert_ok(s0, i as int, key@, node@);
        }
    }
}

/// After replacing the entry at the index holding `p`, the table maps `p` to
/// the new node and every other path as before.
proof fn lemma_upsert_replace_ok(s: Seq<TrieEntryV>, i: int, p: Seq<u8>, n: BranchNodeView)
    requires
        entries_wf(s),
        path_wf(p),
        0 <= i < s.len(),
        s[i].path == p,
    ensures
        entries_wf(s.update(i, TrieEntryV { path: p, node: n })),
        table_map(s.update(i, TrieEntryV { path: p, node: n })) == table_map(s).insert(p, n),
        entries_contain(s.update(i, TrieEntryV { path: p, node: n }), p),
        entries_contain(s, p),
{
    let e = TrieEntryV { path: p, node: n };
    let t = s.update(i, e);
    assert(forall|k: int| 0 <= k < t.len() ==> (#[trigger] t[k].path) == s[k].path);
    lemma_sorted_distinct(t);
    assert(0 <= i < t.len() && t[i].path == p);
    assert(entries_contain(t, p));
    assert(entries_contain(s, p));
    assert forall|q: Seq<u8>| true implies #[trigger] entries_contain(t, q) == entries_contain(
        s,
        q,
    ) by {
        if entries_contain(t, q) {
            let w = choose|k: int| 0 <= k < t.len() && t[k].path == q;
            assert(s[w].path == q);
        }
        if entries_contain(s, q) {
            let w = choose|k: int| 0 <= k < s.len() && s[k].path == q;
            assert(t[w].path == q);
        }
    }
    assert forall|q: Seq<u8>| entries_contain(t, q) && q != p implies entry_node(t, q)
        == entry_node(s, q) by {
        let w = choose|k: int| 0 <= k < t.len() && t[k].path == q;
        lemma_entry_node_at(t, w);
        lemma_entry_node_at(s, w);
    }
    lemma_entry_node_at(t, i);
    assert(table_map(t) =~= table_map(s).insert(p, n));
}

/// After inserting a fresh entry at the lower-bound index of `p`, the table
/// maps `p` to the new node and every other path as before.
proof fn lemma_upsert_insert_ok(s: Seq<TrieEntryV>, i: int, p: Seq<u8>, n: BranchNodeView)
    requires
        entries_wf(s),
        path_wf(p),
        i == lower_bound(s, p),
        !(i < s.len() && s[i].path == p),
    ensures
        entries_wf(s.insert(i, TrieEntryV { path: p, node: n })),
        table_map(s.insert(i, TrieEntryV { path: p, node: n })) == table_map(s).insert(p, n),
        entries_contain(s.insert(i, TrieEntryV { path: p, node: n }), p),
        !entries_contain(s, p),
{
    lemma_lower_bound_props(s, p);
    lemma_lex_lt_irrefl(p);
    let e = TrieEntryV { path: p, node: n };
    let t = s.insert(i, e);
    assert(t.len() == s.len() + 1);
    assert(forall|k: int| 0 <= k < i ==> #[trigger] t[k] == s[k]);
    assert(t[i] == e);
    assert(forall|k: int| i < k < t.len() ==> #[trigger] t[k] == s[k - 1]);
    // every entry at or past the lower bound is strictly above p
    assert forall|k: int| i <= k < s.len() implies lex_lt(p, #[trigger] s[k].path) by {
        if !lex_lt(p, s[i].path) {
            lemma_lex_connex(s[i].path, p);
        }
        assert(s[i].path != p);
        if k > i {
            lemma_lex_lt_trans(p, s[i].path, s[k].path);
        }
    }
    if entries_contain(s, p) {
        let w = choose|k: int| 0 <= k < s.len() && s[k].path == p;
        if w < i {
            assert(lex_lt(s[w].path, p));
        } else {
            assert(lex_lt(p, s[w].path));
        }
    }
    // sortedness of t
    assert forall|a: int, b: int| 0 <= a < b < t.len() implies lex_lt(t[a].path, t[b].path) by {
        if a == i {
            assert(t[b] == s[b - 1]);
            assert(lex_lt(p, s[b - 1].path));
        } else if b == i {
            assert(lex_lt(s[a].path, p));
        } else if a < i && b > i {
            assert(t[a] == s[a]);
            assert(t[b] == s[b - 1]);
            if b - 1 == i {
                lemma_lex_lt_trans(s[a].path, p, s[i].path);
            } else {
                assert(lex_lt(s[a].path, s[b - 1].path));
            }
        } else {
        }
    }
    lemma_sorted_distinct(t);
    assert(0 <= i < t.len() && t[i].path == p);
    assert(entries_contain(t, p));
    assert forall|q: Seq<u8>| q != p implies #[trigger] entries_contain(t, q) == entries_contain(
        s,
        q,
    ) by {
        if entries_contain(t, q) {
            let w = choose|k: int| 0 <= k < t.len() && t[k].path == q;
            if w < i {
                assert(s[w].path == q);
            } else {
                assert(s[w - 1].path == q);
            }
        }
        if entries_contain(s, q) {
            let w = choose|k: int| 0 <= k < s.len() && s[k].path == q;
            if w < i {
                assert(t[w].path == q);
            } else {
                assert(t[w + 1].path == q);
            }
        }
    }
    assert forall|q: Seq<u8>| entries_contain(t, q) && q != p implies entry_node(t, q)
        == entry_node(s, q) by {
        let w = choose|k: int| 0 <= k < t.len() && t[k].path == q;
        lemma_entry_node_at(t, w);
        if w < i {
            lemma_entry_node_at(s, w);
        } else {
            lemma_entry_node_at(s, w - 1);
        }
    }
    lemma_entry_node_at(t, i);
    assert(table_map(t) =~= table_map(s).insert(p, n));
}

/// Delete the entry stored at `key`, if present.
pub fn table_remove(entries: &mut Vec<TrieNodeEntry>, key: &Nibbles)
    requires
        entries_wf(entries_view(old(entries)@)),
    ensures
        entries_wf(entries_view(final(entries)@)),
        table_map(entries_view(final(entries)@)) == table_map(
            entries_view(old(entries)@),
        ).remove(key@),
        !entries_contain(entries_view(final(entries)@), key@),
        final(entries)@.len() == old(entries)@.len() - (if entries_contain(
            entries_view(old(entries)@),
            key@,
        ) {
            1int
        } else {
            0int
        }),
{
    let ghost s0 = entries_view(old(entries)@);
    let i = find_lower_bound(entries, key);
    proof {
        lemma_lower_bound_props(s0, key@);
        lemma_sorted_distinct(s0);
    }
    if i < entries.len() && nibbles_eq(&entries[i].path, key) {
        entries.remove(i);
        proof {
            let s1 = entries_view(entries@);
            assert(s1 =~= s0.remove(i as int));
            lemma_remove_ok(s0, i as int, key@);
        }
    } else {
        proof {
            if entries_contain(s0, key@) {
                let w = choose|k: int| 0 <= k < s0.len() && s0[k].path == key@;
                lemma_lex_lt_irrefl(key@);
                if w < i {
                    assert(lex_lt(s0[w].path, key@));
                } else if w > i {
                    assert(i < s0.len());
                    assert(!lex_lt(s0[i as int].path, key@));
                    assert(lex_lt(s0[i as int].path, s0[w].path));
                } else {
                    assert(i < s0.len() && s0[i as int].path == key@);
                }
            }
            assert(!entries_contain(s0, key@));
            assert(table_map(entries_view(entries@)) =~= table_map(s0).remove(key@));
        }
    }
}

/// After removing the entry at the index holding `p`, the table no longer
/// contains `p` and maps every other path as before.
proof fn lemma_remove_ok(s: Seq<TrieEntryV>, i: int, p: Seq<u8>)
    requires
        entries_wf(s),
        0 <= i < s.len(),
        s[i].path == p,
    ensures
        entries_wf(s.remove(i)),
        table_map(s.remove(i)) == table_map(s).remove(p),
        !entries_contain(s.remove(i), p),
{
    lemma_sorted_distinct(s);
    let t = s.remove(i);
    assert(t.len() == s.len() - 1);
    assert(forall|k: int| 0 <= k < i ==> #[trigger] t[k] == s[k]);
    assert(forall|k: int| i <= k < t.len() ==> #[trigger] t[k] == s[k + 1]);
    assert forall|a: int, b: int| 0 <= a < b < t.len() implies lex_lt(t[a].path, t[b].path) by {
        let sa: int = if a < i { a } else { a + 1 };
        let sb: int = if b < i { b } else { b + 1 };
        assert(t[a] == s[sa]);
        assert(t[b] == s[sb]);
    }
    if entries_contain(t, p) {
        let w = choose|k: int| 0 <= k < t.len() && t[k].path == p;
        let sw: int = if w < i { w } else { w + 1 };
        assert(s[sw].path == p);
        assert(s[i].path == p);
    }
    assert forall|q: Seq<u8>| q != p implies #[trigger] entries_contain(t, q) == entries_contain(
        s,
        q,
    ) by {
        if entries_contain(t, q) {
            let w = choose|k: int| 0 <= k < t.len() && t[k].path == q;
            let sw: int = if w < i { w } else { w + 1 };
            assert(s[sw].path == q);
        }
        if entries_contain(s, q) {
            let w = choose|k: int| 0 <= k < s.len() && s[k].path == q;
            if w < i {
                assert(t[w].path == q);
            } else {
                assert(w != i);
                assert(t[w - 1].path == q);
            }
        }
    }
    assert forall|q: Seq<u8>| entries_contain(t, q) && q != p implies entry_node(t, q)
        == entry_node(s, q) by {
        let w = choose|k: int| 0 <= k < t.len() && t[k].path == q;
        lemma_entry_node_at(t, w);
        let sw: int = if w < i { w } else { w + 1 };
        lemma_entry_node_at(s, sw);
    }
    assert(table_map(t) =~= table_map(s).remove(p));
}

} // verus!


verus! {

/// A positioned read/write cursor over one plain table, modelling the
/// storage engine's cursor primitives: lower-bound seek, exact seek,
/// forward advance and current-position query.
#[derive(Debug)]
pub struct AccountTableCursor {
    entries: Vec<TrieNodeEntry>,
    position: Option<usize>,
    next_index: usize,
}

impl AccountTableCursor {
    /// The table contents the cursor ranges over.
    pub closed spec fn rows(self) -> Seq<TrieEntryV> {
        entries_view(self.entries@)
    }

    /// Index of the entry the cursor currently stands on, if any.
    pub closed spec fn pos(self) -> Option<int> {
        match self.position {
            Some(i) => Some(i as int),
            None => None,
        }
    }

    /// Index of the entry the next `next` call yields.
    pub closed spec fn nxt(self) -> int {
        self.next_index as int
    }

    /// Structural well-formedness: a sorted table and a consistent position.
    pub open spec fn wf(self) -> bool {
        &&& entries_wf(self.rows())
        &&& 0 <= self.nxt() <= self.rows().len()
        &&& match self.pos() {
            Some(i) => 0 <= i < self.rows().len() && self.nxt() == i + 1,
            None => true,
        }
    }

    /// Entries still ahead of the cursor.
    pub open spec fn suffix(self) -> Seq<TrieEntryV> {
        self.rows().skip(self.nxt())
    }

    /// Path of the entry the cursor stands on.
    pub open spec fn current_path(self) -> Option<Seq<u8>> {
        match self.pos() {
            Some(i) => Some(self.rows()[i].path),
            None => None,
        }
    }

    /// A fresh, unpositioned cursor over the given sorted table.
    pub fn new(entries: Vec<TrieNodeEntry>) -> (r: Self)
        requires
            entries_wf(entries_view(entries@)),
        ensures
            r.wf(),
            r.rows() == entries_view(entries@),
            r.pos() is None,
            r.nxt() == 0,
    {
        AccountTableCursor { entries, position: None, next_index: 0 }
    }

    /// Position at the first entry whose path is at least `key` and return
    /// it; return `None` and exhaust the cursor when every entry is below
    /// `key`.
    pub fn seek(&mut self, key: &Nibbles) -> (r: Option<(Nibbles, BranchNodeCompact)>)
        requires
            old(self).wf(),
        ensures
            final(self).wf(),
            final(self).rows() == old(self).rows(),
            ({
                let s = old(self).rows();
                let j = lower_bound(s, key@);
                &&& j < s.len() ==> {
                    &&& r matches Some(p) && p.0@ == s[j].path && p.1@ == s[j].node
                    &&& final(self).pos() == Some(j)
                    &&& final(self).nxt() == j + 1
                }
                &&& j == s.len() ==> {
                    &&& r is None
                    &&& final(self).pos() is None
                    &&& final(self).nxt() == s.len()
                }
            }),
    {
        let i = find_lower_bound(&self.entries, key);
        if i < self.entries.len() {
            self.position = Some(i);
            self.next_index = i + 1;
            Some((self.entries[i].path.clone(), self.entries[i].node.clone()))
        } else {
            self.position = None;
            self.next_index = i;
            None
        }
    }

    /// Position at the entry whose path equals `key` and return it, else
    /// return `None` and stand just before the first larger entry.
    pub fn seek_exact(&mut self, key: &Nibbles) -> (r: Option<(Nibbles, BranchNodeCompact)>)
        requires
            old(self).wf(),
        ensures
            final(self).wf(),
            final(self).rows() == old(self).rows(),
            ({
                let s = old(self).rows();
                let j = lower_bound(s, key@);
                &&& entries_contain(s, key@) ==> {
                    &&& r matches Some(p) && p.0@ == key@ && entry_lookup(s, key@) == Some(p.1@)
                    &&& j < s.len() && s[j].path == key@
                    &&& final(self).pos() == Some(j)
                    &&& final(self).nxt() == j + 1
                }
                &&& !entries_contain(s, key@) ==> {
                    &&& r is None
                    &&& final(self).pos() is None
                    &&& final(self).nxt() == j
                }
            }),
    {
        let ghost s = self.rows();
        let i = find_lower_bound(&self.entries, key);
        proof {
            lemma_lower_bound_props(s, key@);
            lemma_lex_lt_irrefl(key@);
        }
        if i < self.entries.len() && nibbles_eq(&self.entries[i].path, key) {
            self.position = Some(i);
            self.next_index = i + 1;
            proof {
                lemma_entry_node_at(s, i as int);
            }
            Some((self.entries[i].path.clone(), self.entries[i].node.clone()))
        } else {
            self.position = None;
            self.next_index = i;
            proof {
                if entries_contain(s, key@) {
                    let w = choose|k: int| 0 <= k < s.len() && s[k].path == key@;
                    if w < i as int {
                        assert(lex_lt(s[w].path, key@));
                    } else if w > i as int {
                        assert(!lex_lt(s[i as int].path, key@));
                        assert(lex_lt(s[i as int].path, s[w].path));
                    }
                }
            }
            None
        }
    }

    /// Advance to and return the next entry; `None` once the table is
    /// exhausted.
    pub fn next(&mut self) -> (r: Option<(Nibbles, BranchNodeCompact)>)
        requires
            old(self).wf(),
        ensures
            final(self).wf(),
            final(self).rows() == old(self).rows(),
            ({
                let s = old(self).rows();
                let j = old(self).nxt();
                &&& j < s.len() ==> {
                    &&& r matches Some(p) && p.0@ == s[j].path && p.1@ == s[j].node
                    &&& final(self).pos() == Some(j)
                    &&& final(self).nxt() == j + 1
                }
                &&& j == s.len() ==> {
                    &&& r is None
                    &&& final(self).pos() is None
                    &&& final(self).nxt() == s.len()
                }
            }),
    {
        if self.next_index < self.entries.len() {
            let i = self.next_index;
            self.position = Some(i);
            self.next_index = i + 1;
            Some((self.entries[i].path.clone(), self.entries[i].node.clone()))
        } else {
            self.position = None;
            None
        }
    }

    /// Path of the entry the cursor stands on, if any.
    pub fn current(&self) -> (r: Option<Nibbles>)
        requires
            self.wf(),
        ensures
            r is Some <==> self.current_path() is Some,
            r matches Some(p) ==> self.current_path() == Some(p@),
    {
        match &self.position {
            Some(i) => Some(self.entries[*i].path.clone()),
            None => None,
        }
    }

    /// Write `(key, node)` into the table, replacing any entry at `key`,
    /// and unposition the cursor.
    pub fn upsert(&mut self, key: &Nibbles, node: &BranchNodeCompact)
        requires
            old(self).wf(),
            path_wf(key@),
        ensures
            final(self).wf(),
            table_map(final(self).rows()) == table_map(old(self).rows()).insert(key@, node@),
            entries_contain(final(self).rows(), key@),
            final(self).pos() is None,
            final(self).nxt() == 0,
    {
        table_upsert(&mut self.entries, key, node);
        self.position = None;
        self.next_index = 0;
    }
}

} // verus!

verus! {

/// A suffix of a well-formed table is well formed.
pub proof fn lemma_wf_skip(s: Seq<TrieEntryV>, n: int)
    requires
        entries_wf(s),
        0 <= n <= s.len(),
    ensures
        entries_wf(s.skip(n)),
{
    let t = s.skip(n);
    assert(forall|k: int| 0 <= k < t.len() ==> #[trigger] t[k] == s[k + n]);
}

} // verus!
