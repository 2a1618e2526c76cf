//! In-memory model of one duplicate-key storage-trie table: rows grouped by
//! account hash and sorted by (hash, path), with a positioned duplicate
//! cursor over them.

use vstd::prelude::*;
use crate::nibbles::{
    lex_lt, lemma_lex_connex, lemma_lex_lt_asym, lemma_lex_lt_irrefl, lemma_lex_lt_trans,
    nibbles_eq, nibbles_lt, path_wf, Nibbles,
};
use crate::node::{hash_eq, hash_lt, BranchNodeCompact, BranchNodeView, HashedAddress};
use crate::table::{
    entries_contain, entries_sorted, entries_wf, entry_lookup, lower_bound, lemma_entry_node_at,
    lemma_lower_bound_props, TrieEntryV,
};
use crate::merge::contains_entry;

verus! {

/// The value payload of a storage-trie table: the duplicate sub-key (a
/// path) and its branch node.
#[derive(Debug, PartialEq, Eq)]
pub struct StorageTrieEntry {
    pub nibbles: Nibbles,
    pub node: BranchNodeCompact,
}

impl View for StorageTrieEntry {
    type V = TrieEntryV;

    open spec fn view(&self) -> TrieEntryV {
        TrieEntryV { path: self.nibbles@, node: self.node@ }
    }
}

impl Clone for StorageTrieEntry {
    fn clone(&self) -> (r: Self)
        ensures
            r@ == self@,
    {
        StorageTrieEntry { nibbles: self.nibbles.clone(), node: self.node.clone() }
    }
}

/// Mathematical value of one storage-table row.
pub ghost struct StorageRowV {
    pub hash: Seq<u8>,
    pub entry: TrieEntryV,
}

/// One row of a storage-trie table: the scoping account hash and the entry.
#[derive(Debug, PartialEq, Eq)]
pub struct StorageRow {
    pub hashed_address: HashedAddress,
    pub entry: StorageTrieEntry,
}

impl View for StorageRow {
    type V = StorageRowV;

    open spec fn view(&self) -> StorageRowV {
        StorageRowV { hash: self.hashed_address@, entry: self.entry@ }
    }
}

impl Clone for StorageRow {
    fn clone(&self) -> (r: Self)
        ensures
            r@ == self@,
    {
        StorageRow { hashed_address: self.hashed_address, entry: self.entry.clone() }
    }
}

/// Mathematical contents of a vector of rows.
pub open spec fn rows_view(s: Seq<StorageRow>) -> Seq<StorageRowV> {
    Seq::new(s.len(), |i: int| s[i]@)
}

/// Order of two rows: by hash, then by path within one hash.
pub open spec fn row_before(a: StorageRowV, b: StorageRowV) -> bool {
    lex_lt(a.hash, b.hash) || (a.hash == b.hash && lex_lt(a.entry.path, b.entry.path))
}

/// A row comes before the key `(h, p)`.
pub open spec fn row_key_lt(a: StorageRowV, h: Seq<u8>, p: Seq<u8>) -> bool {
    lex_lt(a.hash, h) || (a.hash == h && lex_lt(a.entry.path, p))
}

/// The rows are in strictly ascending (hash, path) order.
pub open spec fn rows_sorted(s: Seq<StorageRowV>) -> bool {
    forall|i: int, j: int| 0 <= i < j < s.len() ==> row_before(#[trigger] s[i], #[trigger] s[j])
}

/// Well-formed storage table contents: sorted, with well-formed paths.
pub open spec fn rows_wf(s: Seq<StorageRowV>) -> bool {
    &&& rows_sorted(s)
    &&& forall|i: int| 0 <= i < s.len() ==> path_wf((#[trigger] s[i]).entry.path)
}

/// Some row is keyed `(h, p)`.
pub open spec fn rows_contain(s: Seq<StorageRowV>, h: Seq<u8>, p: Seq<u8>) -> bool {
    exists|i: int| 0 <= i < s.len() && (#[trigger] s[i]).hash == h && s[i].entry.path == p
}

/// The node stored under `(h, p)` (meaningful only when present).
pub open spec fn row_node(s: Seq<StorageRowV>, h: Seq<u8>, p: Seq<u8>) -> BranchNodeView {
    s[choose|i: int| 0 <= i < s.len() && (#[trigger] s[i]).hash == h && s[i].entry.path == p].entry.node
}

/// The node stored under `(h, p)`, or `None` when absent.
pub open spec fn row_lookup(s: Seq<StorageRowV>, h: Seq<u8>, p: Seq<u8>) -> Option<
    BranchNodeView,
> {
    if rows_contain(s, h, p) {
        Some(row_node(s, h, p))
    } else {
        None
    }
}

/// The table contents as a finite map from (hash, path) to node.
pub open spec fn rows_map(s: Seq<StorageRowV>) -> Map<(Seq<u8>, Seq<u8>), BranchNodeView> {
    Map::new(
        |k: (Seq<u8>, Seq<u8>)| rows_contain(s, k.0, k.1),
        |k: (Seq<u8>, Seq<u8>)| row_node(s, k.0, k.1),
    )
}

/// The entries of one account's storage trie, in ascending path order.
pub open spec fn scope(s: Seq<StorageRowV>, h: Seq<u8>) -> Seq<TrieEntryV>
    decreases s.len(),
{
    if s.len() == 0 {
        Seq::empty()
    } else if s[0].hash == h {
        seq![s[0].entry] + scope(s.skip(1), h)
    } else {
        scope(s.skip(1), h)
    }
}

/// The scope holds exactly the entries of rows keyed by `h`.
pub proof fn lemma_scope_elem(s: Seq<StorageRowV>, h: Seq<u8>)
    ensures
        forall|e: TrieEntryV| #[trigger]
            contains_entry(scope(s, h), e) <==> exists|k: int|
                0 <= k < s.len() && (#[trigger] s[k]).hash == h && s[k].entry == e,
        forall|p: Seq<u8>| #[trigger]
            entries_contain(scope(s, h), p) <==> rows_contain(s, h, p),
        scope(s, h).len() <= s.len(),
    decreases s.len(),
{
    let m = scope(s, h);
    if s.len() == 0 {
    } else {
        let s1 = s.skip(1);
        lemma_scope_elem(s1, h);
        let m1 = scope(s1, h);
        assert(forall|k: int| 0 <= k < s1.len() ==> #[trigger] s1[k] == s[k + 1]);
        assert forall|e: TrieEntryV| #[trigger]
            contains_entry(m, e) <==> exists|k: int|
                0 <= k < s.len() && (#[trigger] s[k]).hash == h && s[k].entry == e by {
            if s[0].hash == h {
                assert(m == seq![s[0].entry] + m1);
                assert(m[0] == s[0].entry);
                assert(forall|j: int| 1 <= j < m.len() ==> #[trigger] m[j] == m1[j - 1]);
                if contains_entry(m, e) {
                    let w = choose|i: int| 0 <= i < m.len() && m[i] == e;
                    if w == 0 {
                        assert(s[0].hash == h && s[0].entry == e);
                    } else {
                        assert(contains_entry(m1, e));
                        let k = choose|k: int|
                            0 <= k < s1.len() && (#[trigger] s1[k]).hash == h && s1[k].entry == e;
                        assert(s[k + 1].hash == h && s[k + 1].entry == e);
                    }
                }
                if exists|k: int| 0 <= k < s.len() && (#[trigger] s[k]).hash == h && s[k].entry == e {
                    let k = choose|k: int|
                        0 <= k < s.len() && (#[trigger] s[k]).hash == h && s[k].entry == e;
                    if k == 0 {
                        assert(m[0] == e);
                        assert(contains_entry(m, e));
                    } else {
                        assert(s1[k - 1].hash == h && s1[k - 1].entry == e);
                        assert(contains_entry(m1, e));
                        let v = choose|i: int| 0 <= i < m1.len() && m1[i] == e;
                        assert(m[v + 1] == e);
                        assert(contains_entry(m, e));
                    }
                }
            } else {
                assert(m == m1);
                if contains_entry(m, e) {
                    let k = choose|k: int|
                        0 <= k < s1.len() && (#[trigger] s1[k]).hash == h && s1[k].entry == e;
                    assert(s[k + 1].hash == h && s[k + 1].entry == e);
                }
                if exists|k: int| 0 <= k < s.len() && (#[trigger] s[k]).hash == h && s[k].entry == e {
                    let k = choose|k: int|
                        0 <= k < s.len() && (#[trigger] s[k]).hash == h && s[k].entry == e;
                    assert(k != 0);
                    assert(s1[k - 1].hash == h && s1[k - 1].entry == e);
                    assert(contains_entry(m1, e));
                }
            }
        }
        assert forall|p: Seq<u8>| #[trigger]
            entries_contain(m, p) <==> rows_contain(s, h, p) by {
            if entries_contain(m, p) {
                let w = choose|i: int| 0 <= i < m.len() && m[i].path == p;
                assert(contains_entry(m, m[w]));
                let k = choose|k: int|
                    0 <= k < s.len() && (#[trigger] s[k]).hash == h && s[k].entry == m[w];
                assert(s[k].hash == h && s[k].entry.path == p);
            }
            if rows_contain(s, h, p) {
                let k = choose|i: int|
                    0 <= i < s.len() && (#[trigger] s[i]).hash == h && s[i].entry.path == p;
                assert(contains_entry(m, s[k].entry));
                let w = choose|i: int| 0 <= i < m.len() && m[i] == s[k].entry;
                assert(m[w].path == p);
            }
        }
    }
}

/// A hash with no rows has an empty scope.
pub proof fn lemma_scope_empty(s: Seq<StorageRowV>, h: Seq<u8>)
    requires
        forall|k: int| 0 <= k < s.len() ==> (#[trigger] s[k]).hash != h,
    ensures
        scope(s, h).len() == 0,
{
    lemma_scope_elem(s, h);
    let m = scope(s, h);
    if m.len() > 0 {
        assert(contains_entry(m, m[0]));
    }
}

/// The scope splits over concatenation.
pub proof fn lemma_scope_concat(a: Seq<StorageRowV>, b: Seq<StorageRowV>, h: Seq<u8>)
    ensures
        scope(a + b, h) == scope(a, h) + scope(b, h),
    decreases a.len(),
{
    if a.len() == 0 {
        assert(a + b =~= b);
        assert(scope(a, h) + scope(b, h) =~= scope(b, h));
    } else {
        lemma_scope_concat(a.skip(1), b, h);
        assert((a + b).skip(1) =~= a.skip(1) + b);
        assert((a + b)[0] == a[0]);
        if a[0].hash == h {
            assert(scope(a + b, h) == seq![a[0].entry] + (scope(a.skip(1), h) + scope(b, h)));
            assert(seq![a[0].entry] + (scope(a.skip(1), h) + scope(b, h)) =~= (seq![a[0].entry]
                + scope(a.skip(1), h)) + scope(b, h));
        }
    }
}

/// The scope of a sorted table is sorted, with well-formed paths when the
/// table has them.
pub proof fn lemma_scope_sorted(s: Seq<StorageRowV>, h: Seq<u8>)
    requires
        rows_sorted(s),
    ensures
        entries_sorted(scope(s, h)),
        rows_wf(s) ==> entries_wf(scope(s, h)),
    decreases s.len(),
{
    let m = scope(s, h);
    if s.len() == 0 {
    } else {
        let s1 = s.skip(1);
        assert(forall|k: int| 0 <= k < s1.len() ==> #[trigger] s1[k] == s[k + 1]);
        lemma_scope_sorted(s1, h);
        lemma_scope_elem(s1, h);
        let m1 = scope(s1, h);
        if s[0].hash == h {
            assert(m == seq![s[0].entry] + m1);
            assert(forall|j: int| 1 <= j < m.len() ==> #[trigger] m[j] == m1[j - 1]);
            assert forall|j: int| 1 <= j < m.len() implies lex_lt(m[0].path, m[j].path) by {
                let e = m1[j - 1];
                assert(contains_entry(m1, e));
                let k = choose|k: int|
                    0 <= k < s1.len() && (#[trigger] s1[k]).hash == h && s1[k].entry == e;
                assert(row_before(s[0], s[k + 1]));
                lemma_lex_lt_irrefl(h);
            }
            assert forall|i: int, j: int| 0 <= i < j < m.len() implies lex_lt(
                m[i].path,
                m[j].path,
            ) by {
                if i > 0 {
                    assert(m[i] == m1[i - 1]);
                    assert(m[j] == m1[j - 1]);
                }
            }
            if rows_wf(s) {
                assert forall|i: int| 0 <= i < m.len() implies path_wf(
                    (#[trigger] m[i]).path,
                ) by {
                    if i == 0 {
                        assert(path_wf(s[0].entry.path));
                    }
                }
            }
        } else {
            assert(m == m1);
        }
    }
}

/// Looking a path up in the scope agrees with looking the pair up in the
/// table.
pub proof fn lemma_scope_lookup(s: Seq<StorageRowV>, h: Seq<u8>)
    requires
        rows_sorted(s),
    ensures
        forall|p: Seq<u8>| #[trigger]
            entry_lookup(scope(s, h), p) == row_lookup(s, h, p),
{
    lemma_scope_elem(s, h);
    lemma_scope_sorted(s, h);
    lemma_rows_distinct(s);
    let m = scope(s, h);
    assert forall|p: Seq<u8>| #[trigger] entry_lookup(m, p) == row_lookup(s, h, p) by {
        if entries_contain(m, p) {
            let w = choose|i: int| 0 <= i < m.len() && m[i].path == p;
            lemma_entry_node_at(m, w);
            assert(contains_entry(m, m[w]));
            let k = choose|k: int|
                0 <= k < s.len() && (#[trigger] s[k]).hash == h && s[k].entry == m[w];
            let c = choose|i: int|
                0 <= i < s.len() && (#[trigger] s[i]).hash == h && s[i].entry.path == p;
            assert(c == k);
        }
    }
}

/// In a sorted storage table no (hash, path) pair occurs twice.
pub proof fn lemma_rows_distinct(s: Seq<StorageRowV>)
    requires
        rows_sorted(s),
    ensures
        forall|i: int, j: int|
            0 <= i < s.len() && 0 <= j < s.len() && i != j ==> !((#[trigger] s[i]).hash == (
            #[trigger] s[j]).hash && s[i].entry.path == s[j].entry.path),
{
    assert forall|i: int, j: int|
        0 <= i < s.len() && 0 <= j < s.len() && i != j implies !((#[trigger] s[i]).hash == (
    #[trigger] s[j]).hash && s[i].entry.path == s[j].entry.path) by {
        if s[i].hash == s[j].hash && s[i].entry.path == s[j].entry.path {
            if i < j {
                assert(row_before(s[i], s[j]));
                lemma_lex_lt_irrefl(s[i].hash);
                lemma_lex_lt_irrefl(s[i].entry.path);
            } else {
                assert(row_before(s[j], s[i]));
                lemma_lex_lt_irrefl(s[i].hash);
                lemma_lex_lt_irrefl(s[i].entry.path);
            }
        }
    }
}

/// The row at a sorted index is the one `row_node` denotes for its key.
pub proof fn lemma_row_node_at(s: Seq<StorageRowV>, i: int)
    requires
        rows_sorted(s),
        0 <= i < s.len(),
    ensures
        rows_contain(s, s[i].hash, s[i].entry.path),
        row_node(s, s[i].hash, s[i].entry.path) == s[i].entry.node,
{
    lemma_rows_distinct(s);
    let h = s[i].hash;
    let p = s[i].entry.path;
    assert(0 <= i < s.len() && s[i].hash == h && s[i].entry.path == p);
    let c = choose|k: int| 0 <= k < s.len() && (#[trigger] s[k]).hash == h && s[k].entry.path == p;
    assert(c == i);
}

} // verus!

verus! {

/// Index of the first row whose (hash, path) key is at least `(h, p)`.
pub open spec fn row_lower_bound(s: Seq<StorageRowV>, h: Seq<u8>, p: Seq<u8>) -> int
    decreases s.len(),
{
    if s.len() == 0 {
        0
    } else if !row_key_lt(s[0], h, p) {
        0
    } else {
        1 + row_lower_bound(s.skip(1), h, p)
    }
}

pub proof fn lemma_row_lower_bound_props(s: Seq<StorageRowV>, h: Seq<u8>, p: Seq<u8>)
    ensures
        0 <= row_lower_bound(s, h, p) <= s.len(),
        forall|k: int| 0 <= k < row_lower_bound(s, h, p) ==> row_key_lt(#[trigger] s[k], h, p),
        row_lower_bound(s, h, p) < s.len() ==> !row_key_lt(s[row_lower_bound(s, h, p)], h, p),
    decreases s.len(),
{
    if s.len() > 0 && row_key_lt(s[0], h, p) {
        lemma_row_lower_bound_props(s.skip(1), h, p);
        let j = row_lower_bound(s, h, p);
        assert forall|k: int| 0 <= k < j implies row_key_lt(#[trigger] s[k], h, p) by {
            if k > 0 {
                assert(s.skip(1)[k - 1] == s[k]);
            }
        }
        if j < s.len() {
            assert(s.skip(1)[j - 1] == s[j]);
        }
    }
}

/// Decide whether a row's key comes before `(h, p)`.
fn row_key_lt_exec(row: &StorageRow, h: &HashedAddress, p: &Nibbles) -> (r: bool)
    ensures
        r == row_key_lt(row@, h@, p@),
{
    if hash_lt(&row.hashed_address, h) {
        true
    } else if hash_eq(&row.hashed_address, h) {
        nibbles_lt(&row.entry.nibbles, p)
    } else {
        false
    }
}

/// Find the lower-bound index of `(h, p)` in a sorted row vector.
fn find_row_lower_bound(rows: &Vec<StorageRow>, h: &HashedAddress, p: &Nibbles) -> (i: usize)
    requires
        rows_sorted(rows_view(rows@)),
    ensures
        i == row_lower_bound(rows_view(rows@), h@, p@),
        i <= rows@.len(),
{
    let ghost s = rows_view(rows@);
    proof {
        lemma_row_lower_bound_props(s, h@, p@);
    }
    let n = rows.len();
    let mut i: usize = 0;
    while i < n && row_key_lt_exec(&rows[i], h, p)
        invariant
            n == rows@.len(),
            s == rows_view(rows@),
            rows_sorted(s),
            i <= n,
            forall|k: int| 0 <= k < i ==> row_key_lt(#[trigger] s[k], h@, p@),
        decreases n - i,
    {
        i = i + 1;
    }
    proof {
        let j = row_lower_bound(s, h@, p@);
        if i < j {
            assert(row_key_lt(s[i as int], h@, p@));
        }
        if j < i {
            assert(row_key_lt(s[j], h@, p@));
        }
    }
    i
}

/// A positioned read/write cursor over one duplicate-key storage table,
/// modelling the engine's duplicate-cursor primitives: duplicate seek,
/// next-duplicate advance, current query and upsert.
#[derive(Debug)]
pub struct StorageTableCursor {
    rows: Vec<StorageRow>,
    position: Option<usize>,
    next_index: usize,
}

impl StorageTableCursor {
    /// The table contents the cursor ranges over.
    pub closed spec fn all_rows(self) -> Seq<StorageRowV> {
        rows_view(self.rows@)
    }

    /// Index of the row the cursor currently stands on, if any.
    pub closed spec fn pos(self) -> Option<int> {
        match self.position {
            Some(i) => Some(i as int),
            None => None,
        }
    }

    /// Index of the row the next `next_dup` call considers.
    pub closed spec fn nxt(self) -> int {
        self.next_index as int
    }

    /// Structural well-formedness: a sorted table and a consistent position.
    pub open spec fn wf(self) -> bool {
        &&& rows_wf(self.all_rows())
        &&& 0 <= self.nxt() <= self.all_rows().len()
        &&& match self.pos() {
            Some(i) => 0 <= i < self.all_rows().len() && self.nxt() == i + 1,
            None => true,
        }
    }

    /// Hash of the row the cursor stands on.
    pub open spec fn current_hash(self) -> Option<Seq<u8>> {
        match self.pos() {
            Some(i) => Some(self.all_rows()[i].hash),
            None => None,
        }
    }

    /// Path of the row the cursor stands on.
    pub open spec fn current_path(self) -> Option<Seq<u8>> {
        match self.pos() {
            Some(i) => Some(self.all_rows()[i].entry.path),
            None => None,
        }
    }

    /// Duplicates still ahead of the cursor within the current hash.
    pub open spec fn dup_suffix(self) -> Seq<TrieEntryV> {
        match self.pos() {
            Some(i) => scope(self.all_rows().skip(self.nxt()), self.all_rows()[i].hash),
            None => Seq::empty(),
        }
    }

    /// A fresh, unpositioned cursor over the given sorted table.
    pub fn new(rows: Vec<StorageRow>) -> (r: Self)
        requires
            rows_wf(rows_view(rows@)),
        ensures
            r.wf(),
            r.all_rows() == rows_view(rows@),
            r.pos() is None,
            r.nxt() == 0,
    {
        StorageTableCursor { rows, position: None, next_index: 0 }
    }

    /// Position at the first duplicate under `h` whose path is at least
    /// `subkey` and return it; `None` when `h` holds no such duplicate.
    pub fn seek_by_key_subkey(&mut self, h: &HashedAddress, subkey: &Nibbles) -> (r: Option<
        (Nibbles, BranchNodeCompact),
    >)
        requires
            old(self).wf(),
        ensures
            final(self).wf(),
            final(self).all_rows() == old(self).all_rows(),
            ({
                let sc = scope(old(self).all_rows(), h@);
                let j = lower_bound(sc, subkey@);
                &&& j < sc.len() ==> {
                    &&& r matches Some(pr) && pr.0@ == sc[j].path && pr.1@ == sc[j].node
                    &&& final(self).pos() is Some
                    &&& final(self).current_hash() == Some(h@)
                    &&& final(self).current_path() == Some(sc[j].path)
                    &&& final(self).dup_suffix() == sc.skip(j + 1)
                }
                &&& j == sc.len() ==> {
                    &&& r is None
                    &&& final(self).pos() is None
                    &&& final(self).dup_suffix() == Seq::<TrieEntryV>::empty()
                }
            }),
    {
        let ghost s = self.all_rows();
        let ghost sc = scope(s, h@);
        let i = find_row_lower_bound(&self.rows, h, subkey);
        proof {
            lemma_row_lower_bound_props(s, h@, subkey@);
            lemma_lower_bound_props(sc, subkey@);
            lemma_scope_elem(s, h@);
            lemma_scope_sorted(s, h@);
            // split the table at i and relate the pieces to the scope
            assert(s =~= s.take(i as int) + s.skip(i as int));
            lemma_scope_concat(s.take(i as int), s.skip(i as int), h@);
            lemma_scope_elem(s.take(i as int), h@);
            // every scoped entry before the split point is below subkey
            assert forall|q: int|
                0 <= q < scope(s.take(i as int), h@).len() implies lex_lt(
                scope(s.take(i as int), h@)[q].path,
                subkey@,
            ) by {
                let a = scope(s.take(i as int), h@);
                assert(contains_entry(a, a[q]));
                let k = choose|k: int|
                    0 <= k < s.take(i as int).len() && (#[trigger] s.take(i as int)[k]).hash == h@
                        && s.take(i as int)[k].entry == a[q];
                assert(s.take(i as int)[k] == s[k]);
                assert(row_key_lt(s[k], h@, subkey@));
                lemma_lex_lt_irrefl(h@);
            }
        }
        if i < self.rows.len() && hash_eq(&self.rows[i].hashed_address, h) {
            self.position = Some(i);
            self.next_index = i + 1;
            let ghost a = scope(s.take(i as int), h@);
            proof {
                // the row at i is the scope's lower bound for subkey
                assert(s.skip(i as int)[0] == s[i as int]);
                assert(scope(s.skip(i as int), h@) == seq![s[i as int].entry] + scope(
                    s.skip(i as int).skip(1),
                    h@,
                ));
                assert(s.skip(i as int).skip(1) =~= s.skip(i as int + 1));
                assert(sc == a + (seq![s[i as int].entry] + scope(s.skip(i as int + 1), h@)));
                assert(sc[a.len() as int] == s[i as int].entry);
                assert(!row_key_lt(s[i as int], h@, subkey@));
                assert(!lex_lt(s[i as int].entry.path, subkey@));
                let j = lower_bound(sc, subkey@);
                if j < a.len() {
                    assert(!lex_lt(sc[j].path, subkey@));
                    assert(sc[j] == a[j]);
                }
                if j > a.len() {
                    assert(lex_lt(sc[a.len() as int].path, subkey@));
                }
                assert(j == a.len());
                assert(sc.skip(j + 1) =~= scope(s.skip(i as int + 1), h@));
            }
            Some((self.rows[i].entry.nibbles.clone(), self.rows[i].entry.node.clone()))
        } else {
            self.position = None;
            self.next_index = self.rows.len();
            proof {
                // no scoped row at or past i: the scope holds nothing >= subkey
                let tail = s.skip(i as int);
                assert forall|k: int| 0 <= k < tail.len() implies (#[trigger] tail[k]).hash
                    != h@ by {
                    assert(tail[k] == s[i as int + k]);
                    assert(!row_key_lt(s[i as int], h@, subkey@));
                    if i as int + k > i as int {
                        assert(row_before(s[i as int], s[i as int + k]));
                    }
                    if s[i as int + k].hash == h@ {
                        if i < s.len() {
                            // row i itself is not scoped, so its hash exceeds h
                            if k == 0 {
                            } else {
                                assert(!lex_lt(s[i as int].hash, h@));
                                if s[i as int].hash == h@ {
                                } else {
                                    lemma_lex_connex(s[i as int].hash, h@);
                                    lemma_lex_lt_trans(h@, s[i as int].hash, s[i as int + k].hash);
                                    lemma_lex_lt_irrefl(h@);
                                    assert(lex_lt(s[i as int].hash, s[i as int + k].hash) || (s[i
                                        as int].hash == s[i as int + k].hash && lex_lt(
                                        s[i as int].entry.path,
                                        s[i as int + k].entry.path,
                                    )));
                                }
                            }
                        }
                    }
                }
                lemma_scope_empty(tail, h@);
                let j = lower_bound(sc, subkey@);
                if j < sc.len() {
                    assert(sc =~= scope(s.take(i as int), h@));
                    assert(lex_lt(sc[j].path, subkey@));
                }
            }
            None
        }
    }

    /// Advance to and return the next duplicate under the current hash;
    /// `None` at the boundary to the next account or at the end.
    pub fn next_dup(&mut self) -> (r: Option<(Nibbles, BranchNodeCompact)>)
        requires
            old(self).wf(),
        ensures
            final(self).wf(),
            final(self).all_rows() == old(self).all_rows(),
            ({
                let d = old(self).dup_suffix();
                &&& d.len() > 0 ==> {
                    &&& r matches Some(pr) && pr.0@ == d[0].path && pr.1@ == d[0].node
                    &&& final(self).pos() is Some
                    &&& final(self).current_hash() == old(self).current_hash()
                    &&& final(self).current_path() == Some(d[0].path)
                    &&& final(self).dup_suffix() == d.skip(1)
                }
                &&& d.len() == 0 ==> {
                    &&& r is None
                    &&& final(self).pos() is None
                    &&& final(self).dup_suffix() == Seq::<TrieEntryV>::empty()
                }
            }),
    {
        let ghost s = self.all_rows();
        match self.position {
            None => None,
            Some(i) => {
                let ghost d = old(self).dup_suffix();
                if self.next_index < self.rows.len() && hash_eq(
                    &self.rows[self.next_index].hashed_address,
                    &self.rows[i].hashed_address,
                ) {
                    let k = self.next_index;
                    self.position = Some(k);
                    self.next_index = k + 1;
                    proof {
                        let h = s[i as int].hash;
                        assert(s.skip(k as int)[0] == s[k as int]);
                        assert(d == scope(s.skip(k as int), h));
                        assert(d == seq![s[k as int].entry] + scope(s.skip(k as int).skip(1), h));
                        assert(s.skip(k as int).skip(1) =~= s.skip(k as int + 1));
                        assert(d.skip(1) =~= scope(s.skip(k as int + 1), h));
                    }
                    Some((self.rows[k].entry.nibbles.clone(), self.rows[k].entry.node.clone()))
                } else {
                    self.position = None;
                    proof {
                        let h = s[i as int].hash;
                        let tail = s.skip(self.next_index as int);
                        assert forall|k: int| 0 <= k < tail.len() implies (#[trigger] tail[k]).hash
                            != h by {
                            let n0 = self.next_index as int;
                            assert(tail[k] == s[n0 + k]);
                            assert(row_before(s[i as int], s[n0]));
                            if k > 0 {
                                assert(row_before(s[n0], s[n0 + k]));
                            }
                            if s[n0 + k].hash == h {
                                if k == 0 {
                                } else {
                                    if s[n0].hash == h {
                                    } else {
                                        // hash order: h <= s[n0].hash <= s[n0+k].hash == h
                                        lemma_lex_lt_asym(s[n0].hash, s[n0 + k].hash);
                                        if lex_lt(s[n0].hash, s[n0 + k].hash) {
                                            if lex_lt(s[i as int].hash, s[n0].hash) {
                                                lemma_lex_lt_trans(
                                                    s[i as int].hash,
                                                    s[n0].hash,
                                                    s[n0 + k].hash,
                                                );
                                                lemma_lex_lt_irrefl(h);
                                            }
                                        }
                                    }
                                }
                            }
                        }
                        lemma_scope_empty(tail, h);
                        assert(d =~= Seq::<TrieEntryV>::empty());
                    }
                    None
                }
            },
        }
    }

    /// Path of the row the cursor stands on, if any.
    pub fn current(&self) -> (r: Option<Nibbles>)
        requires
            self.wf(),
        ensures
            r is Some <==> self.current_path() is Some,
            r matches Some(p) ==> self.current_path() == Some(p@),
    {
        match &self.position {
            Some(i) => Some(self.rows[*i].entry.nibbles.clone()),
            None => None,
        }
    }
}

} // verus!

verus! {

/// After replacing the row at the index keyed `(h, p)`, the table maps
/// `(h, p)` to the new node and every other key as before.
proof fn lemma_rows_replace_ok(s: Seq<StorageRowV>, i: int, h: Seq<u8>, p: Seq<u8>, n: BranchNodeView)
    requires
        rows_wf(s),
        path_wf(p),
        0 <= i < s.len(),
        s[i].hash == h,
        s[i].entry.path == p,
    ensures
        rows_wf(s.update(i, StorageRowV { hash: h, entry: TrieEntryV { path: p, node: n } })),
        rows_map(s.update(i, StorageRowV { hash: h, entry: TrieEntryV { path: p, node: n } }))
            == rows_map(s).insert((h, p), n),
        rows_contain(s, h, p),
{
    let e = StorageRowV { hash: h, entry: TrieEntryV { path: p, node: n } };
    let t = s.update(i, e);
    assert(forall|k: int| 0 <= k < t.len() ==> (#[trigger] t[k]).hash == s[k].hash
        && t[k].entry.path == s[k].entry.path);
    assert forall|a: int, b: int| 0 <= a < b < t.len() implies row_before(
        #[trigger] t[a],
        #[trigger] t[b],
    ) by {
        assert(row_before(s[a], s[b]));
    }
    lemma_rows_distinct(t);
    assert(0 <= i < t.len() && t[i].hash == h && t[i].entry.path == p);
    assert forall|h2: Seq<u8>, p2: Seq<u8>| true implies #[trigger] rows_contain(t, h2, p2)
        == rows_contain(s, h2, p2) by {
        if rows_contain(t, h2, p2) {
            let w = choose|k: int|
                0 <= k < t.len() && (#[trigger] t[k]).hash == h2 && t[k].entry.path == p2;
            assert(s[w].hash == h2 && s[w].entry.path == p2);
        }
        if rows_contain(s, h2, p2) {
            let w = choose|k: int|
                0 <= k < s.len() && (#[trigger] s[k]).hash == h2 && s[k].entry.path == p2;
            assert(t[w].hash == h2 && t[w].entry.path == p2);
        }
    }
    assert forall|h2: Seq<u8>, p2: Seq<u8>|
        rows_contain(t, h2, p2) && !(h2 == h && p2 == p) implies #[trigger] row_node(t, h2, p2)
        == row_node(s, h2, p2) by {
        let w = choose|k: int|
            0 <= k < t.len() && (#[trigger] t[k]).hash == h2 && t[k].entry.path == p2;
        lemma_row_node_at(t, w);
        lemma_row_node_at(s, w);
        assert(w != i);
    }
    lemma_row_node_at(t, i);
    assert(rows_map(t) =~= rows_map(s).insert((h, p), n));
}

/// After inserting a fresh row at the lower-bound index of `(h, p)`, the
/// table maps `(h, p)` to the new node and every other key as before.
proof fn lemma_rows_insert_ok(s: Seq<StorageRowV>, i: int, h: Seq<u8>, p: Seq<u8>, n: BranchNodeView)
    requires
        rows_wf(s),
        path_wf(p),
        i == row_lower_bound(s, h, p),
        !(i < s.len() && s[i].hash == h && s[i].entry.path == p),
    ensures
        rows_wf(s.insert(i, StorageRowV { hash: h, entry: TrieEntryV { path: p, node: n } })),
        rows_map(s.insert(i, StorageRowV { hash: h, entry: TrieEntryV { path: p, node: n } }))
            == rows_map(s).insert((h, p), n),
        !rows_contain(s, h, p),
{
    lemma_row_lower_bound_props(s, h, p);
    lemma_lex_lt_irrefl(h);
    lemma_lex_lt_irrefl(p);
    let e = StorageRowV { hash: h, entry: TrieEntryV { path: p, node: n } };
    let t = s.insert(i, e);
    assert(t.len() == s.len() + 1);
    assert(forall|k: int| 0 <= k < i ==> #[trigger] t[k] == s[k]);
    assert(t[i] == e);
    assert(forall|k: int| i < k < t.len() ==> #[trigger] t[k] == s[k - 1]);
    // the key (h, p) comes strictly before every row at or past the bound
    assert forall|k: int| i <= k < s.len() implies row_key_lt(e, s[k].hash, s[k].entry.path) by {
        let rk = s[k];
        assert(!row_key_lt(s[i], h, p));
        if k == i {
            // not below (h, p) and not equal to (h, p)
            if s[i].hash == h {
                if !lex_lt(p, s[i].entry.path) {
                    lemma_lex_connex(s[i].entry.path, p);
                }
            } else {
                if !lex_lt(h, s[i].hash) {
                    lemma_lex_connex(s[i].hash, h);
                }
            }
        } else {
            assert(row_before(s[i], s[k]));
            if s[i].hash == h {
                if !lex_lt(p, s[i].entry.path) {
                    lemma_lex_connex(s[i].entry.path, p);
                }
                if s[i].entry.path == p {
                    // s[i] is exactly (h, p): excluded
                } else {
                    // p < s[i].path; s[i] <= s[k] in row order
                    if lex_lt(s[i].hash, s[k].hash) {
                        assert(row_key_lt(e, s[k].hash, s[k].entry.path));
                    } else {
                        lemma_lex_lt_trans(p, s[i].entry.path, s[k].entry.path);
                    }
                }
            } else {
                if !lex_lt(h, s[i].hash) {
                    lemma_lex_connex(s[i].hash, h);
                }
                if lex_lt(s[i].hash, s[k].hash) {
                    lemma_lex_lt_trans(h, s[i].hash, s[k].hash);
                } else {
                }
            }
        }
    }
    if rows_contain(s, h, p) {
        let w = choose|k: int|
            0 <= k < s.len() && (#[trigger] s[k]).hash == h && s[k].entry.path == p;
        if w < i {
            assert(row_key_lt(s[w], h, p));
        } else {
            assert(row_key_lt(e, s[w].hash, s[w].entry.path));
        }
    }
    assert forall|a: int, b: int| 0 <= a < b < t.len() implies row_before(
        #[trigger] t[a],
        #[trigger] t[b],
    ) by {
        if a == i {
            assert(t[b] == s[b - 1]);
            assert(row_key_lt(e, s[b - 1].hash, s[b - 1].entry.path));
        } else if b == i {
            assert(t[a] == s[a]);
            assert(row_key_lt(s[a], h, p));
        } else if a < i && b > i {
            assert(t[a] == s[a]);
            assert(t[b] == s[b - 1]);
            if b - 1 == a {
            } else if b - 1 == i {
                assert(row_key_lt(s[a], h, p));
                assert(row_key_lt(e, s[i].hash, s[i].entry.path));
                // chain through (h, p)
                if lex_lt(s[a].hash, h) {
                    if lex_lt(h, s[i].hash) {
                        lemma_lex_lt_trans(s[a].hash, h, s[i].hash);
                    }
                } else {
                    if lex_lt(h, s[i].hash) {
                    } else {
                        lemma_lex_lt_trans(s[a].entry.path, p, s[i].entry.path);
                    }
                }
            } else {
                assert(row_before(s[a], s[b - 1]));
            }
        } else {
        }
    }
    lemma_rows_distinct(t);
    assert(0 <= i < t.len() && t[i].hash == h && t[i].entry.path == p);
    assert(rows_contain(t, h, p));
    assert forall|h2: Seq<u8>, p2: Seq<u8>| !(h2 == h && p2 == p) implies #[trigger] rows_contain(
        t,
        h2,
        p2,
    ) == rows_contain(s, h2, p2) by {
        if rows_contain(t, h2, p2) {
            let w = choose|k: int|
                0 <= k < t.len() && (#[trigger] t[k]).hash == h2 && t[k].entry.path == p2;
            if w < i {
                assert(s[w].hash == h2 && s[w].entry.path == p2);
            } else {
                assert(w != i);
                assert(s[w - 1].hash == h2 && s[w - 1].entry.path == p2);
            }
        }
        if rows_contain(s, h2, p2) {
            let w = choose|k: int|
                0 <= k < s.len() && (#[trigger] s[k]).hash == h2 && s[k].entry.path == p2;
            if w < i {
                assert(t[w].hash == h2 && t[w].entry.path == p2);
            } else {
                assert(t[w + 1].hash == h2 && t[w + 1].entry.path == p2);
            }
        }
    }
    assert forall|h2: Seq<u8>, p2: Seq<u8>|
        rows_contain(t, h2, p2) && !(h2 == h && p2 == p) implies #[trigger] row_node(t, h2, p2)
        == row_node(s, h2, p2) by {
        let w = choose|k: int|
            0 <= k < t.len() && (#[trigger] t[k]).hash == h2 && t[k].entry.path == p2;
        lemma_row_node_at(t, w);
        if w < i {
            lemma_row_node_at(s, w);
        } else {
            lemma_row_node_at(s, w - 1);
        }
    }
    lemma_row_node_at(t, i);
    assert(rows_map(t) =~= rows_map(s).insert((h, p), n));
}

/// Write `(h, p, node)` into a sorted row vector, replacing any row at that
/// key.
pub fn storage_upsert(
    rows: &mut Vec<StorageRow>,
    h: &HashedAddress,
    p: &Nibbles,
    node: &BranchNodeCompact,
)
    requires
        rows_wf(rows_view(old(rows)@)),
        path_wf(p@),
    ensures
        rows_wf(rows_view(final(rows)@)),
        rows_map(rows_view(final(rows)@)) == rows_map(rows_view(old(rows)@)).insert(
            (h@, p@),
            node@,
        ),
        rows_contain(rows_view(final(rows)@), h@, p@),
{
    let ghost s0 = rows_view(old(rows)@);
    let i = find_row_lower_bound(rows, h, p);
    proof {
        lemma_row_lower_bound_props(s0, h@, p@);
    }
    let row = StorageRow {
        hashed_address: *h,
        entry: StorageTrieEntry { nibbles: p.clone(), node: node.clone() },
    };
    if i < rows.len() && hash_eq(&rows[i].hashed_address, h) && nibbles_eq(
        &rows[i].entry.nibbles,
        p,
    ) {
        rows.remove(i);
        rows.insert(i, row);
        proof {
            let s1 = rows_view(rows@);
            assert(s1 =~= s0.update(
                i as int,
                StorageRowV { hash: h@, entry: TrieEntryV { path: p@, node: node@ } },
            ));
            lemma_rows_replace_ok(s0, i as int, h@, p@, node@);
            lemma_rows_distinct(s1);
            assert(0 <= i < s1.len() && s1[i as int].hash == h@ && s1[i as int].entry.path == p@);
        }
    } else {
        rows.insert(i, row);
        proof {
            let s1 = rows_view(rows@);
            assert(s1 =~= s0.insert(
                i as int,
                StorageRowV { hash: h@, entry: TrieEntryV { path: p@, node: node@ } },
            ));
            lemma_rows_insert_ok(s0, i as int, h@, p@, node@);
            assert(0 <= i < s1.len() && s1[i as int].hash == h@ && s1[i as int].entry.path == p@);
        }
    }
}

/// After removing the row at the index keyed `(h, p)`, the table no longer
/// holds `(h, p)` and maps every other key as before.
proof fn lemma_rows_remove_ok(s: Seq<StorageRowV>, i: int, h: Seq<u8>, p: Seq<u8>)
    requires
        rows_wf(s),
        0 <= i < s.len(),
        s[i].hash == h,
        s[i].entry.path == p,
    ensures
        rows_wf(s.remove(i)),
        rows_map(s.remove(i)) == rows_map(s).remove((h, p)),
        !rows_contain(s.remove(i), h, p),
{
    lemma_rows_distinct(s);
    let t = s.remove(i);
    assert(t.len() == s.len() - 1);
    assert(forall|k: int| 0 <= k < i ==> #[trigger] t[k] == s[k]);
    assert(forall|k: int| i <= k < t.len() ==> #[trigger] t[k] == s[k + 1]);
    assert forall|a: int, b: int| 0 <= a < b < t.len() implies row_before(
        #[trigger] t[a],
        #[trigger] t[b],
    ) by {
        let sa: int = if a < i { a } else { a + 1 };
        let sb: int = if b < i { b } else { b + 1 };
        assert(t[a] == s[sa]);
        assert(t[b] == s[sb]);
    }
    if rows_contain(t, h, p) {
        let w = choose|k: int|
            0 <= k < t.len() && (#[trigger] t[k]).hash == h && t[k].entry.path == p;
        let sw: int = if w < i { w } else { w + 1 };
        assert(s[sw].hash == h && s[sw].entry.path == p);
    }
    assert forall|h2: Seq<u8>, p2: Seq<u8>| !(h2 == h && p2 == p) implies #[trigger] rows_contain(
        t,
        h2,
        p2,
    ) == rows_contain(s, h2, p2) by {
        if rows_contain(t, h2, p2) {
            let w = choose|k: int|
                0 <= k < t.len() && (#[trigger] t[k]).hash == h2 && t[k].entry.path == p2;
            let sw: int = if w < i { w } else { w + 1 };
            assert(s[sw].hash == h2 && s[sw].entry.path == p2);
        }
        if rows_contain(s, h2, p2) {
            let w = choose|k: int|
                0 <= k < s.len() && (#[trigger] s[k]).hash == h2 && s[k].entry.path == p2;
            if w < i {
                assert(t[w].hash == h2 && t[w].entry.path == p2);
            } else {
                assert(w != i);
                assert(t[w - 1].hash == h2 && t[w - 1].entry.path == p2);
            }
        }
    }
    assert forall|h2: Seq<u8>, p2: Seq<u8>|
        rows_contain(t, h2, p2) && !(h2 == h && p2 == p) implies #[trigger] row_node(t, h2, p2)
        == row_node(s, h2, p2) by {
        let w = choose|k: int|
            0 <= k < t.len() && (#[trigger] t[k]).hash == h2 && t[k].entry.path == p2;
        lemma_row_node_at(t, w);
        let sw: int = if w < i { w } else { w + 1 };
        lemma_row_node_at(s, sw);
    }
    assert(rows_map(t) =~= rows_map(s).remove((h, p)));
}

/// Delete the row keyed `(h, p)`, if present.
pub fn storage_remove(rows: &mut Vec<StorageRow>, h: &HashedAddress, p: &Nibbles)
    requires
        rows_wf(rows_view(old(rows)@)),
    ensures
        rows_wf(rows_view(final(rows)@)),
        rows_map(rows_view(final(rows)@)) == rows_map(rows_view(old(rows)@)).remove((h@, p@)),
        !rows_contain(rows_view(final(rows)@), h@, p@),
{
    let ghost s0 = rows_view(old(rows)@);
    let i = find_row_lower_bound(rows, h, p);
    proof {
        lemma_row_lower_bound_props(s0, h@, p@);
        lemma_lex_lt_irrefl(h@);
        lemma_lex_lt_irrefl(p@);
    }
    if i < rows.len() && hash_eq(&rows[i].hashed_address, h) && nibbles_eq(
        &rows[i].entry.nibbles,
        p,
    ) {
        rows.remove(i);
        proof {
            let s1 = rows_view(rows@);
            assert(s1 =~= s0.remove(i as int));
            lemma_rows_remove_ok(s0, i as int, h@, p@);
        }
    } else {
        proof {
            if rows_contain(s0, h@, p@) {
                let w = choose|k: int|
                    0 <= k < s0.len() && (#[trigger] s0[k]).hash == h@ && s0[k].entry.path == p@;
                if w < i {
                    assert(row_key_lt(s0[w], h@, p@));
                } else if w > i {
                    assert(!row_key_lt(s0[i as int], h@, p@));
                    assert(row_before(s0[i as int], s0[w]));
                    if s0[i as int].hash == h@ {
                        if lex_lt(s0[i as int].hash, s0[w].hash) {
                        } else {
                            lemma_lex_lt_asym(s0[i as int].entry.path, s0[w].entry.path);
                            lemma_lex_connex(s0[i as int].entry.path, p@);
                        }
                    } else {
                        lemma_lex_connex(s0[i as int].hash, h@);
                        if lex_lt(s0[i as int].hash, s0[w].hash) {
                            lemma_lex_lt_trans(h@, s0[i as int].hash, s0[w].hash);
                        }
                    }
                } else {
                    assert(i < s0.len() && s0[i as int].hash == h@ && s0[i as int].entry.path
                        == p@);
                }
            }
            assert(!rows_contain(s0, h@, p@));
            assert(rows_map(rows_view(rows@)) =~= rows_map(s0).remove((h@, p@)));
        }
    }
}

/// The map of a table with every row under `h` removed.
pub open spec fn map_clear_hash(
    m: Map<(Seq<u8>, Seq<u8>), BranchNodeView>,
    h: Seq<u8>,
) -> Map<(Seq<u8>, Seq<u8>), BranchNodeView> {
    Map::new(|k: (Seq<u8>, Seq<u8>)| m.dom().contains(k) && k.0 != h, |k: (Seq<u8>, Seq<u8>)| m[k])
}

/// Rows with the scoping hash `h` dropped.
pub open spec fn rows_drop_hash(s: Seq<StorageRowV>, h: Seq<u8>) -> Seq<StorageRowV>
    decreases s.len(),
{
    if s.len() == 0 {
        Seq::empty()
    } else if s.last().hash == h {
        rows_drop_hash(s.drop_last(), h)
    } else {
        rows_drop_hash(s.drop_last(), h).push(s.last())
    }
}

/// Dropping a hash keeps exactly the rows of the other hashes, in order.
proof fn lemma_rows_drop_hash_props(s: Seq<StorageRowV>, h: Seq<u8>)
    ensures
        forall|e: StorageRowV| #[trigger]
            row_present(rows_drop_hash(s, h), e) <==> row_present(s, e) && e.hash != h,
        rows_wf(s) ==> rows_wf(rows_drop_hash(s, h)),
    decreases s.len(),
{
    let t = rows_drop_hash(s, h);
    if s.len() == 0 {
    } else {
        let s1 = s.drop_last();
        lemma_rows_drop_hash_props(s1, h);
        let t1 = rows_drop_hash(s1, h);
        assert(forall|k: int| 0 <= k < s1.len() ==> #[trigger] s1[k] == s[k]);
        if rows_wf(s) {
            assert(rows_wf(s1));
        }
        assert forall|e: StorageRowV| #[trigger]
            row_present(t, e) <==> row_present(s, e) && e.hash != h by {
            if s.last().hash == h {
                assert(t == t1);
                if row_present(s, e) && e.hash != h {
                    let w = choose|i: int| 0 <= i < s.len() && s[i] == e;
                    assert(s[w] == e);
                    if w < s.len() - 1 {
                        assert(s1[w] == e);
                        assert(row_present(s1, e));
                        assert(row_present(t1, e));
                    } else {
                        assert(e == s.last());
                    }
                }
                if row_present(t1, e) {
                    assert(row_present(s1, e) && e.hash != h);
                    let w = choose|i: int| 0 <= i < s1.len() && s1[i] == e;
                    assert(s[w] == e);
                    assert(row_present(s, e));
                }
            } else {
                assert(t == t1.push(s.last()));
                assert(forall|k: int| 0 <= k < t1.len() ==> #[trigger] t[k] == t1[k]);
                assert(t[t.len() - 1] == s.last());
                if row_present(t, e) {
                    let w = choose|i: int| 0 <= i < t.len() && t[i] == e;
                    if w < t.len() - 1 {
                        assert(t1[w] == e);
                        assert(row_present(t1, e));
                        assert(row_present(s1, e) && e.hash != h);
                        let v = choose|i: int| 0 <= i < s1.len() && s1[i] == e;
                        assert(s[v] == e);
                        assert(row_present(s, e));
                    } else {
                        assert(e == s.last());
                        assert(s[s.len() - 1] == e);
                        assert(row_present(s, e));
                    }
                }
                if row_present(s, e) && e.hash != h {
                    let w = choose|i: int| 0 <= i < s.len() && s[i] == e;
                    if w < s.len() - 1 {
                        assert(s1[w] == e);
                        assert(row_present(s1, e));
                        assert(row_present(t1, e));
                        let v = choose|i: int| 0 <= i < t1.len() && t1[i] == e;
                        assert(t[v] == e);
                        assert(row_present(t, e));
                    } else {
                        assert(t[t.len() - 1] == e);
                        assert(row_present(t, e));
                    }
                }
            }
        }
        if rows_wf(s) {
            if s.last().hash == h {
            } else {
                assert forall|a: int, b: int| 0 <= a < b < t.len() implies row_before(
                    #[trigger] t[a],
                    #[trigger] t[b],
                ) by {
                    if b == t.len() - 1 {
                        // t[a] is a row of s1, all of which come before the last row
                        assert(row_present(t1, t[a]));
                        let v = choose|i: int| 0 <= i < s1.len() && s1[i] == t[a];
                        assert(row_before(s[v], s[s.len() - 1]));
                    } else {
                        assert(t[a] == t1[a]);
                        assert(t[b] == t1[b]);
                    }
                }
                assert forall|i: int| 0 <= i < t.len() implies path_wf(
                    (#[trigger] t[i]).entry.path,
                ) by {
                    assert(row_present(t, t[i]));
                    let v = choose|k: int| 0 <= k < s.len() && s[k] == t[i];
                }
            }
        }
    }
}

/// Some row of `s` equals `e`.
pub open spec fn row_present(s: Seq<StorageRowV>, e: StorageRowV) -> bool {
    exists|i: int| 0 <= i < s.len() && s[i] == e
}

/// Delete every row under the hash `h`.
pub fn storage_clear_hash(rows: &mut Vec<StorageRow>, h: &HashedAddress)
    requires
        rows_wf(rows_view(old(rows)@)),
    ensures
        rows_wf(rows_view(final(rows)@)),
        rows_map(rows_view(final(rows)@)) == map_clear_hash(rows_map(rows_view(old(rows)@)), h@),
        forall|p: Seq<u8>| !(#[trigger] rows_contain(rows_view(final(rows)@), h@, p)),
{
    let ghost s0 = rows_view(old(rows)@);
    let mut kept: Vec<StorageRow> = Vec::new();
    let n = rows.len();
    let mut i: usize = 0;
    while i < n
        invariant
            n == rows@.len(),
            s0 == rows_view(rows@),
            rows_wf(s0),
            i <= n,
            rows_view(kept@) == rows_drop_hash(s0.take(i as int), h@),
        decreases n - i,
    {
        proof {
            assert(s0.take(i as int + 1).drop_last() =~= s0.take(i as int));
            assert(s0.take(i as int + 1).last() == s0[i as int]);
        }
        if !hash_eq(&rows[i].hashed_address, h) {
            let row = rows[i].clone();
            kept.push(row);
            proof {
                assert(rows_view(kept@) =~= rows_drop_hash(s0.take(i as int + 1), h@));
            }
        } else {
            proof {
                assert(rows_view(kept@) =~= rows_drop_hash(s0.take(i as int + 1), h@));
            }
        }
        i = i + 1;
    }
    *rows = kept;
    proof {
        assert(s0.take(n as int) =~= s0);
        let s1 = rows_view(rows@);
        assert(s1 == rows_drop_hash(s0, h@));
        lemma_rows_drop_hash_props(s0, h@);
        lemma_rows_distinct(s0);
        lemma_rows_distinct(s1);
        assert forall|p: Seq<u8>| !(#[trigger] rows_contain(s1, h@, p)) by {
            if rows_contain(s1, h@, p) {
                let w = choose|k: int|
                    0 <= k < s1.len() && (#[trigger] s1[k]).hash == h@ && s1[k].entry.path == p;
                assert(row_present(s1, s1[w]));
            }
        }
        assert forall|h2: Seq<u8>, p2: Seq<u8>| h2 != h@ implies #[trigger] rows_contain(
            s1,
            h2,
            p2,
        ) == rows_contain(s0, h2, p2) by {
            if rows_contain(s1, h2, p2) {
                let w = choose|k: int|
                    0 <= k < s1.len() && (#[trigger] s1[k]).hash == h2 && s1[k].entry.path == p2;
                assert(row_present(s1, s1[w]));
                let v = choose|i2: int| 0 <= i2 < s0.len() && s0[i2] == s1[w];
                assert(s0[v].hash == h2 && s0[v].entry.path == p2);
            }
            if rows_contain(s0, h2, p2) {
                let w = choose|k: int|
                    0 <= k < s0.len() && (#[trigger] s0[k]).hash == h2 && s0[k].entry.path == p2;
                assert(row_present(s0, s0[w]));
                assert(row_present(s1, s0[w]));
                let v = choose|i2: int| 0 <= i2 < s1.len() && s1[i2] == s0[w];
                assert(s1[v].hash == h2 && s1[v].entry.path == p2);
            }
        }
        assert forall|h2: Seq<u8>, p2: Seq<u8>|
            h2 != h@ && rows_contain(s1, h2, p2) implies #[trigger] row_node(s1, h2, p2)
            == row_node(s0, h2, p2) by {
            let w = choose|k: int|
                0 <= k < s1.len() && (#[trigger] s1[k]).hash == h2 && s1[k].entry.path == p2;
            lemma_row_node_at(s1, w);
            assert(row_present(s1, s1[w]));
            let v = choose|i2: int| 0 <= i2 < s0.len() && s0[i2] == s1[w];
            lemma_row_node_at(s0, v);
        }
        assert(rows_map(s1) =~= map_clear_hash(rows_map(s0), h@));
    }
}

impl StorageTableCursor {
    /// Write `(h, entry)` into the table, replacing any row at that key,
    /// and unposition the cursor.
    pub fn upsert(&mut self, h: &HashedAddress, entry: &StorageTrieEntry)
        requires
            old(self).wf(),
            path_wf(entry.nibbles@),
        ensures
            final(self).wf(),
            rows_map(final(self).all_rows()) == rows_map(old(self).all_rows()).insert(
                (h@, entry.nibbles@),
                entry.node@,
            ),
            final(self).pos() is None,
            final(self).nxt() == 0,
    {
        storage_upsert(&mut self.rows, h, &entry.nibbles, &entry.node);
        self.position = None;
        self.next_index = 0;
    }

    /// Delete the row keyed `(h, p)`, if present, and unposition the
    /// cursor.
    pub fn remove(&mut self, h: &HashedAddress, p: &Nibbles)
        requires
            old(self).wf(),
        ensures
            final(self).wf(),
            rows_map(final(self).all_rows()) == rows_map(old(self).all_rows()).remove((h@, p@)),
            final(self).pos() is None,
            final(self).nxt() == 0,
    {
        storage_remove(&mut self.rows, h, p);
        self.position = None;
        self.next_index = 0;
    }

    /// Delete every row under the hash `h` and unposition the cursor.
    pub fn clear_duplicates(&mut self, h: &HashedAddress)
        requires
            old(self).wf(),
        ensures
            final(self).wf(),
            rows_map(final(self).all_rows()) == map_clear_hash(
                rows_map(old(self).all_rows()),
                h@,
            ),
            forall|p: Seq<u8>| !(#[trigger] rows_contain(final(self).all_rows(), h@, p)),
            final(self).pos() is None,
            final(self).nxt() == 0,
    {
        storage_clear_hash(&mut self.rows, h);
        self.position = None;
        self.next_index = 0;
    }
}

} // verus!

use crate::constants::spec_is_shallow;
use crate::merge::{deep_only, shallow_only};

verus! {

/// Every row's path is shallow.
pub open spec fn rows_shallow_only(s: Seq<StorageRowV>) -> bool {
    forall|i: int| 0 <= i < s.len() ==> spec_is_shallow((#[trigger] s[i]).entry.path)
}

/// Every row's path is deep.
pub open spec fn rows_deep_only(s: Seq<StorageRowV>) -> bool {
    forall|i: int| 0 <= i < s.len() ==> !spec_is_shallow((#[trigger] s[i]).entry.path)
}

/// A suffix of a well-formed row table is well formed.
pub proof fn lemma_rows_wf_skip(s: Seq<StorageRowV>, n: int)
    requires
        rows_wf(s),
        0 <= n <= s.len(),
    ensures
        rows_wf(s.skip(n)),
{
    let t = s.skip(n);
    assert(forall|k: int| 0 <= k < t.len() ==> #[trigger] t[k] == s[k + n]);
}

/// The duplicates ahead of a well-formed cursor form a well-formed entry
/// stream.
pub proof fn lemma_dup_suffix_wf(c: StorageTableCursor)
    requires
        c.wf(),
    ensures
        entries_wf(c.dup_suffix()),
{
    match c.pos() {
        Some(i) => {
            lemma_rows_wf_skip(c.all_rows(), c.nxt());
            lemma_scope_sorted(c.all_rows().skip(c.nxt()), c.all_rows()[i].hash);
        },
        None => {},
    }
}

/// The duplicates ahead of a cursor keep the table's depth kind.
pub proof fn lemma_dup_suffix_kind(c: StorageTableCursor)
    requires
        c.wf(),
    ensures
        rows_shallow_only(c.all_rows()) ==> shallow_only(c.dup_suffix()),
        rows_deep_only(c.all_rows()) ==> deep_only(c.dup_suffix()),
{
    match c.pos() {
        Some(i) => {
            let t = c.all_rows().skip(c.nxt());
            let h = c.all_rows()[i].hash;
            lemma_scope_elem(t, h);
            assert(forall|k: int| 0 <= k < t.len() ==> #[trigger] t[k] == c.all_rows()[k
                + c.nxt()]);
            let m = scope(t, h);
            if rows_shallow_only(c.all_rows()) {
                assert forall|q: int| 0 <= q < m.len() implies spec_is_shallow(
                    (#[trigger] m[q]).path,
                ) by {
                    assert(crate::merge::contains_entry(m, m[q]));
                    let k = choose|k: int|
                        0 <= k < t.len() && (#[trigger] t[k]).hash == h && t[k].entry == m[q];
                    assert(t[k] == c.all_rows()[k + c.nxt()]);
                }
            }
            if rows_deep_only(c.all_rows()) {
                assert forall|q: int| 0 <= q < m.len() implies !spec_is_shallow(
                    (#[trigger] m[q]).path,
                ) by {
                    assert(crate::merge::contains_entry(m, m[q]));
                    let k = choose|k: int|
                        0 <= k < t.len() && (#[trigger] t[k]).hash == h && t[k].entry == m[q];
                    assert(t[k] == c.all_rows()[k + c.nxt()]);
                }
            }
        },
        None => {},
    }
}

/// A scope of a depth-restricted table keeps the restriction.
pub proof fn lemma_scope_kind(s: Seq<StorageRowV>, h: Seq<u8>)
    ensures
        rows_shallow_only(s) ==> shallow_only(scope(s, h)),
        rows_deep_only(s) ==> deep_only(scope(s, h)),
{
    lemma_scope_elem(s, h);
    let m = scope(s, h);
    if rows_shallow_only(s) {
        assert forall|q: int| 0 <= q < m.len() implies spec_is_shallow(
            (#[trigger] m[q]).path,
        ) by {
            assert(crate::merge::contains_entry(m, m[q]));
            let k = choose|k: int| 0 <= k < s.len() && (#[trigger] s[k]).hash == h && s[k].entry
                == m[q];
        }
    }
    if rows_deep_only(s) {
        assert forall|q: int| 0 <= q < m.len() implies !spec_is_shallow(
            (#[trigger] m[q]).path,
        ) by {
            assert(crate::merge::contains_entry(m, m[q]));
            let k = choose|k: int| 0 <= k < s.len() && (#[trigger] s[k]).hash == h && s[k].entry
                == m[q];
        }
    }
}

} // verus!
