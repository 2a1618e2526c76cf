//! Storage-trie cursors: duplicate-key single-table adapters scoped by an
//! account hash, and the split cursor that merges the shallow and the deep
//! storage table into one sorted stream per account.

use vstd::prelude::*;
use crate::constants::{spec_is_shallow, SHALLOW_TRIE_DEPTH};
use crate::merge::{
    deep_only, lemma_merge_props, lemma_partition_disjoint, merge_entries, opt_entry_seq,
    shallow_only,
};
use crate::nibbles::{
    lex_le, lex_lt, lemma_lex_connex, lemma_lex_le_lt_trans, lemma_lex_lt_irrefl,
    lemma_lex_lt_trans, nibbles_le, Nibbles,
};
use crate::node::{BranchNodeCompact, HashedAddress};
use crate::storage_table::{
    lemma_dup_suffix_kind, lemma_dup_suffix_wf, lemma_scope_kind, lemma_scope_sorted,
    rows_deep_only, rows_shallow_only, scope, StorageRowV, StorageTableCursor,
};
use crate::table::{
    entries_contain, entries_wf, entry_lookup, lemma_entry_node_at, lemma_lower_bound_props,
    lemma_sorted_distinct, lemma_wf_skip, lower_bound, DatabaseError, TrieEntryV,
};
use crate::trie_cursor::CursorSource;

verus! {

/// A cursor over one duplicate-key storage trie table, scoped to one
/// account hash.
#[derive(Debug)]
pub struct DatabaseStorageTrieCursor {
    /// The underlying cursor.
    pub cursor: StorageTableCursor,
    /// Hashed address used for cursor positioning.
    hashed_address: HashedAddress,
}

impl DatabaseStorageTrieCursor {
    /// Contents of the whole table under the cursor.
    pub closed spec fn rows(self) -> Seq<StorageRowV> {
        self.cursor.all_rows()
    }

    /// The account hash the cursor is bound to.
    pub closed spec fn bound(self) -> Seq<u8> {
        self.hashed_address@
    }

    /// The entries of the bound account, in ascending path order.
    pub open spec fn sc(self) -> Seq<TrieEntryV> {
        scope(self.rows(), self.bound())
    }

    /// Duplicates still ahead of the cursor within its current hash.
    pub closed spec fn suffix(self) -> Seq<TrieEntryV> {
        self.cursor.dup_suffix()
    }

    /// Path of the row the cursor stands on.
    pub closed spec fn current_path(self) -> Option<Seq<u8>> {
        self.cursor.current_path()
    }

    pub closed spec fn wf(self) -> bool {
        self.cursor.wf()
    }

    /// Create a new storage trie cursor.
    pub fn new(cursor: StorageTableCursor, hashed_address: HashedAddress) -> (r: Self)
        ensures
            cursor.wf() ==> r.wf(),
            r.rows() == cursor.all_rows(),
            r.bound() == hashed_address@,
            r.suffix() == cursor.dup_suffix(),
            r.current_path() == cursor.current_path(),
    {
        DatabaseStorageTrieCursor { cursor, hashed_address }
    }

    /// Exact lookup of `key` within the bound account: a duplicate seek
    /// whose candidate is accepted only on an exact sub-key match.
    pub fn seek_exact(&mut self, key: Nibbles) -> (r: Result<
        Option<(Nibbles, BranchNodeCompact)>,
        DatabaseError,
    >)
        requires
            old(self).wf(),
        ensures
            final(self).wf(),
            final(self).rows() == old(self).rows(),
            final(self).bound() == old(self).bound(),
            r is Ok,
            ({
                let s = old(self).sc();
                let j = lower_bound(s, key@);
                &&& entries_contain(s, key@) ==> {
                    &&& r matches Ok(Some(p)) && p.0@ == key@ && entry_lookup(s, key@) == Some(
                        p.1@,
                    )
                    &&& j < s.len() && s[j].path == key@
                    &&& final(self).suffix() == s.skip(j + 1)
                    &&& final(self).current_path() == Some(key@)
                }
                &&& !entries_contain(s, key@) ==> {
                    &&& r matches Ok(x) && x is None
                    &&& j < s.len() ==> final(self).suffix() == s.skip(j + 1)
                        && final(self).current_path() == Some(s[j].path)
                    &&& j == s.len() ==> final(self).suffix() == Seq::<TrieEntryV>::empty()
                        && final(self).current_path() is None
                }
            }),
    {
        let ghost s = old(self).sc();
        let h = self.hashed_address;
        let out = self.cursor.seek_by_key_subkey(&h, &key);
        proof {
            lemma_lower_bound_props(s, key@);
            lemma_scope_sorted(old(self).rows(), old(self).bound());
            lemma_sorted_distinct(s);
            lemma_lex_lt_irrefl(key@);
            let j = lower_bound(s, key@);
            if entries_contain(s, key@) {
                let w = choose|i: int| 0 <= i < s.len() && s[i].path == key@;
                if w < j {
                    assert(lex_lt(s[w].path, key@));
                } else if w > j {
                    assert(j < s.len());
                    assert(!lex_lt(s[j].path, key@));
                    assert(lex_lt(s[j].path, s[w].path));
                }
                assert(w == j);
                lemma_entry_node_at(s, j);
            }
        }
        match out {
            Some(p) => {
                if p.0.len() == key.len() && crate::nibbles::nibbles_eq(&p.0, &key) {
                    Ok(Some(p))
                } else {
                    Ok(None)
                }
            },
            None => Ok(None),
        }
    }

    /// Lower-bound duplicate seek within the bound account.
    pub fn seek(&mut self, key: Nibbles) -> (r: Result<
        Option<(Nibbles, BranchNodeCompact)>,
        DatabaseError,
    >)
        requires
            old(self).wf(),
        ensures
            final(self).wf(),
            final(self).rows() == old(self).rows(),
            final(self).bound() == old(self).bound(),
            r is Ok,
            ({
                let s = old(self).sc();
                let j = lower_bound(s, key@);
                &&& j < s.len() ==> {
                    &&& r matches Ok(Some(p)) && p.0@ == s[j].path && p.1@ == s[j].node
                    &&& final(self).suffix() == s.skip(j + 1)
                    &&& final(self).current_path() == Some(s[j].path)
                }
                &&& j == s.len() ==> {
                    &&& r matches Ok(x) && x is None
                    &&& final(self).suffix() == Seq::<TrieEntryV>::empty()
                    &&& final(self).current_path() is None
                }
            }),
    {
        let h = self.hashed_address;
        let out = self.cursor.seek_by_key_subkey(&h, &key);
        proof {
            lemma_lower_bound_props(old(self).sc(), key@);
        }
        Ok(out)
    }

    /// The next duplicate of the current account in ascending path order.
    pub fn next(&mut self) -> (r: Result<Option<(Nibbles, BranchNodeCompact)>, DatabaseError>)
        requires
            old(self).wf(),
        ensures
            final(self).wf(),
            final(self).rows() == old(self).rows(),
            final(self).bound() == old(self).bound(),
            r is Ok,
            ({
                let d = old(self).suffix();
                &&& d.len() > 0 ==> {
                    &&& r matches Ok(Some(p)) && p.0@ == d[0].path && p.1@ == d[0].node
                    &&& final(self).suffix() == d.skip(1)
                    &&& final(self).current_path() == Some(d[0].path)
                }
                &&& d.len() == 0 ==> {
                    &&& r matches Ok(x) && x is None
                    &&& final(self).suffix() == Seq::<TrieEntryV>::empty()
                    &&& final(self).current_path() is None
                }
            }),
    {
        Ok(self.cursor.next_dup())
    }

    /// Path of the cursor's current position.
    pub fn current(&mut self) -> (r: Result<Option<Nibbles>, DatabaseError>)
        requires
            old(self).wf(),
        ensures
            *final(self) == *old(self),
            r matches Ok(x) && (x is Some <==> old(self).current_path() is Some),
            r matches Ok(x) ==> (x matches Some(p) ==> old(self).current_path() == Some(p@)),
    {
        Ok(self.cursor.current())
    }

    /// Database cursors hold no merge state; nothing to clear.
    pub fn reset(&mut self)
        ensures
            *final(self) == *old(self),
    {
    }

    /// Re-bind the cursor to another account hash.  The cursor position is
    /// untouched; the next duplicate seek positions within the new account.
    pub fn set_hashed_address(&mut self, hashed_address: HashedAddress)
        requires
            old(self).wf(),
        ensures
            final(self).wf(),
            final(self).rows() == old(self).rows(),
            final(self).bound() == hashed_address@,
            final(self).suffix() == old(self).suffix(),
            final(self).current_path() == old(self).current_path(),
    {
        self.hashed_address = hashed_address;
    }
}

/// Cursor over the shallow storage trie table, scoped to one account hash.
#[derive(Debug)]
struct ShallowStorageTrieCursor {
    cursor: StorageTableCursor,
    hashed_address: HashedAddress,
}

impl ShallowStorageTrieCursor {
    spec fn rows(self) -> Seq<StorageRowV> {
        self.cursor.all_rows()
    }

    spec fn bound(self) -> Seq<u8> {
        self.hashed_address@
    }

    spec fn sc(self) -> Seq<TrieEntryV> {
        scope(self.rows(), self.bound())
    }

    spec fn suffix(self) -> Seq<TrieEntryV> {
        self.cursor.dup_suffix()
    }

    spec fn current_path(self) -> Option<Seq<u8>> {
        self.cursor.current_path()
    }

    spec fn wf(self) -> bool {
        self.cursor.wf()
    }

    fn seek_exact(&mut self, key: Nibbles) -> (r: Result<
        Option<(Nibbles, BranchNodeCompact)>,
        DatabaseError,
    >)
        requires
            old(self).wf(),
        ensures
            final(self).wf(),
            final(self).rows() == old(self).rows(),
            final(self).bound() == old(self).bound(),
            r is Ok,
            ({
                let s = old(self).sc();
                let j = lower_bound(s, key@);
                &&& entries_contain(s, key@) ==> {
                    &&& r matches Ok(Some(p)) && p.0@ == key@ && entry_lookup(s, key@) == Some(
                        p.1@,
                    )
                    &&& j < s.len() && s[j].path == key@
                    &&& final(self).suffix() == s.skip(j + 1)
                    &&& final(self).current_path() == Some(key@)
                }
                &&& !entries_contain(s, key@) ==> {
                    &&& r matches Ok(x) && x is None
                    &&& j < s.len() ==> final(self).suffix() == s.skip(j + 1)
                        && final(self).current_path() == Some(s[j].path)
                    &&& j == s.len() ==> final(self).suffix() == Seq::<TrieEntryV>::empty()
                        && final(self).current_path() is None
                }
            }),
    {
        let ghost s = old(self).sc();
        let h = self.hashed_address;
        let out = self.cursor.seek_by_key_subkey(&h, &key);
        proof {
            lemma_lower_bound_props(s, key@);
            lemma_scope_sorted(old(self).rows(), old(self).bound());
            lemma_sorted_distinct(s);
            lemma_lex_lt_irrefl(key@);
            let j = lower_bound(s, key@);
            if entries_contain(s, key@) {
                let w = choose|i: int| 0 <= i < s.len() && s[i].path == key@;
                if w < j {
                    assert(lex_lt(s[w].path, key@));
                } else if w > j {
                    assert(j < s.len());
                    assert(!lex_lt(s[j].path, key@));
                    assert(lex_lt(s[j].path, s[w].path));
                }
                assert(w == j);
                lemma_entry_node_at(s, j);
            }
        }
        match out {
            Some(p) => {
                if p.0.len() == key.len() && crate::nibbles::nibbles_eq(&p.0, &key) {
                    Ok(Some(p))
                } else {
                    Ok(None)
                }
            },
            None => Ok(None),
        }
    }

    fn seek(&mut self, key: Nibbles) -> (r: Result<
        Option<(Nibbles, BranchNodeCompact)>,
        DatabaseError,
    >)
        requires
            old(self).wf(),
        ensures
            final(self).wf(),
            final(self).rows() == old(self).rows(),
            final(self).bound() == old(self).bound(),
            r is Ok,
            ({
                let s = old(self).sc();
                let j = lower_bound(s, key@);
                &&& j < s.len() ==> {
                    &&& r matches Ok(Some(p)) && p.0@ == s[j].path && p.1@ == s[j].node
                    &&& final(self).suffix() == s.skip(j + 1)
                    &&& final(self).current_path() == Some(s[j].path)
                }
                &&& j == s.len() ==> {
                    &&& r matches Ok(x) && x is None
                    &&& final(self).suffix() == Seq::<TrieEntryV>::empty()
                    &&& final(self).current_path() is None
                }
            }),
    {
        let h = self.hashed_address;
        let out = self.cursor.seek_by_key_subkey(&h, &key);
        proof {
            lemma_lower_bound_props(old(self).sc(), key@);
        }
        Ok(out)
    }

    fn next(&mut self) -> (r: Result<Option<(Nibbles, BranchNodeCompact)>, DatabaseError>)
        requires
            old(self).wf(),
        ensures
            final(self).wf(),
            final(self).rows() == old(self).rows(),
            final(self).bound() == old(self).bound(),
            r is Ok,
            ({
                let d = old(self).suffix();
                &&& d.len() > 0 ==> {
                    &&& r matches Ok(Some(p)) && p.0@ == d[0].path && p.1@ == d[0].node
                    &&& final(self).suffix() == d.skip(1)
                    &&& final(self).current_path() == Some(d[0].path)
                }
                &&& d.len() == 0 ==> {
                    &&& r matches Ok(x) && x is None
                    &&& final(self).suffix() == Seq::<TrieEntryV>::empty()
                    &&& final(self).current_path() is None
                }
            }),
    {
        Ok(self.cursor.next_dup())
    }

    fn current(&mut self) -> (r: Result<Option<Nibbles>, DatabaseError>)
        requires
            old(self).wf(),
        ensures
            *final(self) == *old(self),
            r matches Ok(x) && (x is Some <==> old(self).current_path() is Some),
            r matches Ok(x) ==> (x matches Some(p) ==> old(self).current_path() == Some(p@)),
    {
        Ok(self.cursor.current())
    }

    fn set_hashed_address(&mut self, hashed_address: HashedAddress)
        requires
            old(self).wf(),
        ensures
            final(self).wf(),
            final(self).rows() == old(self).rows(),
            final(self).bound() == hashed_address@,
            final(self).suffix() == old(self).suffix(),
            final(self).current_path() == old(self).current_path(),
    {
        self.hashed_address = hashed_address;
    }
}

} // verus!

verus! {

/// Storage trie cursor that merges the shallow and the deep storage table
/// for one account into one logically sorted stream, with the same
/// two-way merge as the account split cursor.
#[derive(Debug)]
pub struct SplitStorageTrieCursor {
    shallow: ShallowStorageTrieCursor,
    deep: DatabaseStorageTrieCursor,
    pending_shallow: Option<(Nibbles, BranchNodeCompact)>,
    pending_deep: Option<(Nibbles, BranchNodeCompact)>,
    last_consumed: Option<CursorSource>,
}

impl SplitStorageTrieCursor {
    /// Rows of the whole shallow storage table.
    pub closed spec fn shallow_rows(self) -> Seq<StorageRowV> {
        self.shallow.rows()
    }

    /// Rows of the whole deep storage table.
    pub closed spec fn deep_rows(self) -> Seq<StorageRowV> {
        self.deep.rows()
    }

    /// The account hash both sides are bound to.
    pub closed spec fn bound(self) -> Seq<u8> {
        self.shallow.bound()
    }

    /// Shallow entries of the bound account.
    pub open spec fn shallow_scope(self) -> Seq<TrieEntryV> {
        scope(self.shallow_rows(), self.bound())
    }

    /// Deep entries of the bound account.
    pub open spec fn deep_scope(self) -> Seq<TrieEntryV> {
        scope(self.deep_rows(), self.bound())
    }

    /// Duplicates still ahead of the shallow cursor (pending excluded).
    pub closed spec fn shallow_suffix(self) -> Seq<TrieEntryV> {
        self.shallow.suffix()
    }

    /// Duplicates still ahead of the deep cursor (pending excluded).
    pub closed spec fn deep_suffix(self) -> Seq<TrieEntryV> {
        self.deep.suffix()
    }

    /// The buffered shallow entry.
    pub closed spec fn pend_s(self) -> Option<TrieEntryV> {
        match self.pending_shallow {
            Some(p) => Some(TrieEntryV { path: p.0@, node: p.1@ }),
            None => None,
        }
    }

    /// The buffered deep entry.
    pub closed spec fn pend_d(self) -> Option<TrieEntryV> {
        match self.pending_deep {
            Some(p) => Some(TrieEntryV { path: p.0@, node: p.1@ }),
            None => None,
        }
    }

    /// The shallow entries the merge has not yet returned.
    pub open spec fn shallow_upcoming(self) -> Seq<TrieEntryV> {
        opt_entry_seq(self.pend_s()) + self.shallow_suffix()
    }

    /// The deep entries the merge has not yet returned.
    pub open spec fn deep_upcoming(self) -> Seq<TrieEntryV> {
        opt_entry_seq(self.pend_d()) + self.deep_suffix()
    }

    /// The stream of entries that repeated `next` calls will yield from a
    /// streaming state.
    pub open spec fn upcoming(self) -> Seq<TrieEntryV> {
        merge_entries(self.shallow_upcoming(), self.deep_upcoming())
    }

    /// Path of the entry returned last.
    pub closed spec fn current_path(self) -> Option<Seq<u8>> {
        match self.last_consumed {
            Some(CursorSource::Shallow) => self.shallow.current_path(),
            Some(CursorSource::Deep) => self.deep.current_path(),
            None => None,
        }
    }

    /// Some table holds the path `p` under the bound account.
    pub open spec fn union_contains(self, p: Seq<u8>) -> bool {
        entries_contain(self.shallow_scope(), p) || entries_contain(self.deep_scope(), p)
    }

    /// The node stored at `p` under the bound account, across both tables.
    pub open spec fn union_lookup(self, p: Seq<u8>) -> Option<crate::node::BranchNodeView> {
        if entries_contain(self.shallow_scope(), p) {
            entry_lookup(self.shallow_scope(), p)
        } else {
            entry_lookup(self.deep_scope(), p)
        }
    }

    pub closed spec fn wf(self) -> bool {
        &&& self.shallow.wf()
        &&& self.deep.wf()
        &&& self.shallow.bound() == self.deep.bound()
        &&& rows_shallow_only(self.shallow.rows())
        &&& rows_deep_only(self.deep.rows())
        &&& shallow_only(self.shallow_upcoming())
        &&& deep_only(self.deep_upcoming())
        &&& (self.last_consumed matches Some(CursorSource::Shallow) ==> self.pend_s() is None)
        &&& (self.last_consumed matches Some(CursorSource::Deep) ==> self.pend_d() is None)
        &&& (self.last_consumed is None ==> self.pend_s() is None && self.pend_d() is None)
        &&& (self.pend_s() matches Some(x) ==> self.shallow.current_path() == Some(x.path))
        &&& (self.pend_d() matches Some(x) ==> self.deep.current_path() == Some(x.path))
        &&& entries_wf(self.shallow_upcoming())
        &&& entries_wf(self.deep_upcoming())
    }

    /// States in which `upcoming` is exactly the future output stream.
    pub closed spec fn streaming(self) -> bool {
        &&& self.wf()
        &&& (self.last_consumed matches Some(CursorSource::Shallow) && self.pend_d() is None
            ==> self.deep_upcoming().len() == 0)
        &&& (self.last_consumed matches Some(CursorSource::Deep) && self.pend_s() is None
            ==> self.shallow_upcoming().len() == 0)
    }

    /// State left by `seek_exact` on a shallow key.
    pub closed spec fn after_exact_shallow(self) -> bool {
        &&& self.last_consumed matches Some(CursorSource::Shallow)
        &&& self.pend_s() is None
        &&& self.pend_d() is None
    }

    /// State left by `seek_exact` on a deep key.
    pub closed spec fn after_exact_deep(self) -> bool {
        &&& self.last_consumed matches Some(CursorSource::Deep)
        &&& self.pend_s() is None
        &&& self.pend_d() is None
    }

    /// Create a new split storage trie cursor bound to `hashed_address`.
    pub fn new(
        shallow: StorageTableCursor,
        deep: StorageTableCursor,
        hashed_address: HashedAddress,
    ) -> (r: Self)
        requires
            shallow.wf(),
            deep.wf(),
            rows_shallow_only(shallow.all_rows()),
            rows_deep_only(deep.all_rows()),
        ensures
            r.wf(),
            r.streaming(),
            r.shallow_rows() == shallow.all_rows(),
            r.deep_rows() == deep.all_rows(),
            r.bound() == hashed_address@,
            r.shallow_suffix() == shallow.dup_suffix(),
            r.deep_suffix() == deep.dup_suffix(),
            r.upcoming() == merge_entries(shallow.dup_suffix(), deep.dup_suffix()),
            r.current_path() is None,
    {
        let r = SplitStorageTrieCursor {
            shallow: ShallowStorageTrieCursor { cursor: shallow, hashed_address },
            deep: DatabaseStorageTrieCursor::new(deep, hashed_address),
            pending_shallow: None,
            pending_deep: None,
            last_consumed: None,
        };
        proof {
            assert(r.shallow_upcoming() =~= shallow.dup_suffix());
            assert(r.deep_upcoming() =~= deep.dup_suffix());
            lemma_dup_suffix_wf(shallow);
            lemma_dup_suffix_wf(deep);
            lemma_dup_suffix_kind(shallow);
            lemma_dup_suffix_kind(deep);
        }
        r
    }

    /// Compare the two pending slots and consume (return) the smaller
    /// entry; the other stays buffered.
    fn consume_smaller(&mut self) -> (r: Option<(Nibbles, BranchNodeCompact)>)
        ensures
            final(self).shallow == old(self).shallow,
            final(self).deep == old(self).deep,
            match (old(self).pending_shallow, old(self).pending_deep) {
                (Some(s), Some(d)) => if lex_le(s.0@, d.0@) {
                    &&& r == Some(s)
                    &&& final(self).pending_shallow is None
                    &&& final(self).pending_deep == old(self).pending_deep
                    &&& final(self).last_consumed matches Some(CursorSource::Shallow)
                } else {
                    &&& r == Some(d)
                    &&& final(self).pending_deep is None
                    &&& final(self).pending_shallow == old(self).pending_shallow
                    &&& final(self).last_consumed matches Some(CursorSource::Deep)
                },
                (Some(s), None) => {
                    &&& r == Some(s)
                    &&& final(self).pending_shallow is None
                    &&& final(self).pending_deep is None
                    &&& final(self).last_consumed matches Some(CursorSource::Shallow)
                },
                (None, Some(d)) => {
                    &&& r == Some(d)
                    &&& final(self).pending_shallow is None
                    &&& final(self).pending_deep is None
                    &&& final(self).last_consumed matches Some(CursorSource::Deep)
                },
                (None, None) => {
                    &&& r is None
                    &&& final(self).pending_shallow is None
                    &&& final(self).pending_deep is None
                    &&& final(self).last_consumed is None
                },
            },
    {
        match (&self.pending_shallow, &self.pending_deep) {
            (Some(s), Some(d)) => {
                if nibbles_le(&s.0, &d.0) {
                    self.last_consumed = Some(CursorSource::Shallow);
                    self.pending_shallow.take()
                } else {
                    self.last_consumed = Some(CursorSource::Deep);
                    self.pending_deep.take()
                }
            },
            (Some(_), None) => {
                self.last_consumed = Some(CursorSource::Shallow);
                self.pending_shallow.take()
            },
            (None, Some(_)) => {
                self.last_consumed = Some(CursorSource::Deep);
                self.pending_deep.take()
            },
            (None, None) => {
                self.last_consumed = None;
                None
            },
        }
    }
}

/// Effect of `consume_smaller` on a split storage cursor whose empty
/// pending slots have exhausted streams behind them.
proof fn lemma_consume_effect_storage(
    pre: SplitStorageTrieCursor,
    post: SplitStorageTrieCursor,
    r: Option<(Nibbles, BranchNodeCompact)>,
)
    requires
        post.shallow == pre.shallow,
        post.deep == pre.deep,
        match (pre.pending_shallow, pre.pending_deep) {
            (Some(s), Some(d)) => if lex_le(s.0@, d.0@) {
                &&& r == Some(s)
                &&& post.pending_shallow is None
                &&& post.pending_deep == pre.pending_deep
                &&& post.last_consumed matches Some(CursorSource::Shallow)
            } else {
                &&& r == Some(d)
                &&& post.pending_deep is None
                &&& post.pending_shallow == pre.pending_shallow
                &&& post.last_consumed matches Some(CursorSource::Deep)
            },
            (Some(s), None) => {
                &&& r == Some(s)
                &&& post.pending_shallow is None
                &&& post.pending_deep is None
                &&& post.last_consumed matches Some(CursorSource::Shallow)
            },
            (None, Some(d)) => {
                &&& r == Some(d)
                &&& post.pending_shallow is None
                &&& post.pending_deep is None
                &&& post.last_consumed matches Some(CursorSource::Deep)
            },
            (None, None) => {
                &&& r is None
                &&& post.pending_shallow is None
                &&& post.pending_deep is None
                &&& post.last_consumed is None
            },
        },
        pre.pend_s() is None ==> pre.shallow_upcoming().len() == 0,
        pre.pend_d() is None ==> pre.deep_upcoming().len() == 0,
        entries_wf(pre.shallow_upcoming()),
        entries_wf(pre.deep_upcoming()),
        shallow_only(pre.shallow_upcoming()),
        deep_only(pre.deep_upcoming()),
        pre.pend_s() matches Some(x) ==> pre.shallow.current_path() == Some(x.path),
        pre.pend_d() matches Some(x) ==> pre.deep.current_path() == Some(x.path),
    ensures
        ({
            let m = merge_entries(pre.shallow_upcoming(), pre.deep_upcoming());
            &&& m.len() > 0 ==> {
                &&& r matches Some(p) && p.0@ == m[0].path && p.1@ == m[0].node
                &&& post.upcoming() == m.skip(1)
                &&& post.current_path() == Some(m[0].path)
            }
            &&& m.len() == 0 ==> {
                &&& r is None
                &&& post.upcoming().len() == 0
                &&& post.current_path() is None
                &&& post.last_consumed is None
            }
        }),
        entries_wf(post.shallow_upcoming()),
        entries_wf(post.deep_upcoming()),
        shallow_only(post.shallow_upcoming()),
        deep_only(post.deep_upcoming()),
        post.pend_s() matches Some(x) ==> post.shallow.current_path() == Some(x.path),
        post.pend_d() matches Some(x) ==> post.deep.current_path() == Some(x.path),
        post.last_consumed matches Some(CursorSource::Shallow) ==> {
            &&& post.pend_s() is None
            &&& post.shallow_upcoming() == pre.shallow_upcoming().skip(1)
            &&& post.deep_upcoming() == pre.deep_upcoming()
            &&& post.pending_deep == pre.pending_deep
        },
        post.last_consumed matches Some(CursorSource::Deep) ==> {
            &&& post.pend_d() is None
            &&& post.deep_upcoming() == pre.deep_upcoming().skip(1)
            &&& post.shallow_upcoming() == pre.shallow_upcoming()
            &&& post.pending_shallow == pre.pending_shallow
        },
        post.last_consumed is None ==> {
            &&& post.pend_s() is None && post.pend_d() is None
            &&& post.shallow_upcoming().len() == 0
            &&& post.deep_upcoming().len() == 0
        },
{
    let a = pre.shallow_upcoming();
    let b = pre.deep_upcoming();
    let m = merge_entries(a, b);
    match (pre.pending_shallow, pre.pending_deep) {
        (Some(s), Some(d)) => {
            assert(a[0] == TrieEntryV { path: s.0@, node: s.1@ });
            assert(b[0] == TrieEntryV { path: d.0@, node: d.1@ });
            if lex_le(s.0@, d.0@) {
                assert(m == seq![a[0]] + merge_entries(a.skip(1), b));
                assert(m[0] == a[0]);
                assert(m.skip(1) =~= merge_entries(a.skip(1), b));
                assert(post.shallow_upcoming() =~= a.skip(1));
                assert(post.deep_upcoming() =~= b);
                lemma_wf_skip(a, 1);
                assert forall|i: int| 0 <= i < a.skip(1).len() implies spec_is_shallow(
                    (#[trigger] a.skip(1)[i]).path,
                ) by {
                    assert(a.skip(1)[i] == a[i + 1]);
                }
            } else {
                assert(m == seq![b[0]] + merge_entries(a, b.skip(1)));
                assert(m[0] == b[0]);
                assert(m.skip(1) =~= merge_entries(a, b.skip(1)));
                assert(post.deep_upcoming() =~= b.skip(1));
                assert(post.shallow_upcoming() =~= a);
                lemma_wf_skip(b, 1);
                assert forall|i: int| 0 <= i < b.skip(1).len() implies !spec_is_shallow(
                    (#[trigger] b.skip(1)[i]).path,
                ) by {
                    assert(b.skip(1)[i] == b[i + 1]);
                }
            }
        },
        (Some(s), None) => {
            assert(b.len() == 0);
            assert(a[0] == TrieEntryV { path: s.0@, node: s.1@ });
            assert(m == a);
            assert(post.shallow_upcoming() =~= a.skip(1));
            assert(post.deep_upcoming() =~= b);
            assert(m.skip(1) =~= a.skip(1));
            assert(post.upcoming() == merge_entries(a.skip(1), b));
            if a.skip(1).len() == 0 {
                assert(merge_entries(a.skip(1), b) =~= a.skip(1));
            }
            assert(post.upcoming() =~= a.skip(1));
            lemma_wf_skip(a, 1);
            assert forall|i: int| 0 <= i < a.skip(1).len() implies spec_is_shallow(
                (#[trigger] a.skip(1)[i]).path,
            ) by {
                assert(a.skip(1)[i] == a[i + 1]);
            }
        },
        (None, Some(d)) => {
            assert(a.len() == 0);
            assert(b[0] == TrieEntryV { path: d.0@, node: d.1@ });
            assert(m == b);
            assert(post.deep_upcoming() =~= b.skip(1));
            assert(post.shallow_upcoming() =~= a);
            assert(post.upcoming() == merge_entries(a, b.skip(1)));
            assert(post.upcoming() =~= b.skip(1));
            assert(m.skip(1) =~= b.skip(1));
            lemma_wf_skip(b, 1);
            assert forall|i: int| 0 <= i < b.skip(1).len() implies !spec_is_shallow(
                (#[trigger] b.skip(1)[i]).path,
            ) by {
                assert(b.skip(1)[i] == b[i + 1]);
            }
        },
        (None, None) => {
            assert(a.len() == 0);
            assert(b.len() == 0);
            assert(m.len() == 0);
            assert(post.shallow_upcoming() =~= a);
            assert(post.deep_upcoming() =~= b);
            assert(post.upcoming().len() == 0);
        },
    }
}

} // verus!

verus! {

impl SplitStorageTrieCursor {
    /// Exact lookup within the bound account, dispatched to the one table
    /// that can hold `key`.  Clears both pending slots.
    pub fn seek_exact(&mut self, key: Nibbles) -> (r: Result<
        Option<(Nibbles, BranchNodeCompact)>,
        DatabaseError,
    >)
        requires
            old(self).wf(),
        ensures
            final(self).wf(),
            final(self).shallow_rows() == old(self).shallow_rows(),
            final(self).deep_rows() == old(self).deep_rows(),
            final(self).bound() == old(self).bound(),
            r is Ok,
            (r matches Ok(x) && x is Some) <==> old(self).union_contains(key@),
            r matches Ok(Some(p)) ==> p.0@ == key@ && old(self).union_lookup(key@) == Some(p.1@)
                && final(self).current_path() == Some(key@),
            spec_is_shallow(key@) ==> final(self).after_exact_shallow() && final(self).deep_suffix()
                == old(self).deep_suffix(),
            !spec_is_shallow(key@) ==> final(self).after_exact_deep()
                && final(self).shallow_suffix() == old(self).shallow_suffix(),
    {
        self.pending_shallow = None;
        self.pending_deep = None;

        if key.len() <= SHALLOW_TRIE_DEPTH {
            self.last_consumed = Some(CursorSource::Shallow);
            let ghost sE = old(self).shallow_scope();
            let out = self.shallow.seek_exact(key);
            proof {
                lemma_lower_bound_props(sE, key@);
                lemma_scope_kind(old(self).shallow_rows(), old(self).bound());
                lemma_scope_kind(old(self).deep_rows(), old(self).bound());
                if entries_contain(old(self).deep_scope(), key@) {
                    let w = choose|i: int|
                        0 <= i < old(self).deep_scope().len() && old(self).deep_scope()[i].path
                            == key@;
                }
                lemma_scope_sorted(old(self).shallow_rows(), old(self).bound());
                let j = lower_bound(sE, key@);
                assert(final(self).shallow_upcoming() =~= final(self).shallow_suffix());
                if entries_contain(sE, key@) || j < sE.len() {
                    lemma_wf_skip(sE, j + 1);
                }
                assert(entries_wf(final(self).shallow_upcoming()));
                assert forall|i: int| 0 <= i < final(self).shallow_upcoming().len()
                    implies spec_is_shallow((#[trigger] final(self).shallow_upcoming()[i]).path) by {
                    if j < sE.len() {
                        assert(final(self).shallow_upcoming()[i] == sE[i + j + 1]);
                    }
                }
                assert(final(self).deep_upcoming() =~= old(self).deep_upcoming().skip(
                    if old(self).pend_d() is Some {
                        1int
                    } else {
                        0int
                    },
                ));
                lemma_wf_skip(
                    old(self).deep_upcoming(),
                    if old(self).pend_d() is Some {
                        1int
                    } else {
                        0int
                    },
                );
                assert forall|i: int| 0 <= i < final(self).deep_upcoming().len()
                    implies !spec_is_shallow((#[trigger] final(self).deep_upcoming()[i]).path) by {
                    let off: int = if old(self).pend_d() is Some {
                        1int
                    } else {
                        0int
                    };
                    assert(final(self).deep_upcoming()[i] == old(self).deep_upcoming()[i + off]);
                }
            }
            out
        } else {
            self.last_consumed = Some(CursorSource::Deep);
            let ghost dE = old(self).deep_scope();
            let out = self.deep.seek_exact(key);
            proof {
                lemma_lower_bound_props(dE, key@);
                lemma_scope_kind(old(self).shallow_rows(), old(self).bound());
                lemma_scope_kind(old(self).deep_rows(), old(self).bound());
                if entries_contain(old(self).shallow_scope(), key@) {
                    let w = choose|i: int|
                        0 <= i < old(self).shallow_scope().len() && old(self).shallow_scope()[
                            i
                        ].path == key@;
                }
                lemma_scope_sorted(old(self).deep_rows(), old(self).bound());
                let j = lower_bound(dE, key@);
                assert(final(self).deep_upcoming() =~= final(self).deep_suffix());
                if entries_contain(dE, key@) || j < dE.len() {
                    lemma_wf_skip(dE, j + 1);
                }
                assert(entries_wf(final(self).deep_upcoming()));
                assert forall|i: int| 0 <= i < final(self).deep_upcoming().len()
                    implies !spec_is_shallow((#[trigger] final(self).deep_upcoming()[i]).path) by {
                    if j < dE.len() {
                        assert(final(self).deep_upcoming()[i] == dE[i + j + 1]);
                    }
                }
                assert(final(self).shallow_upcoming() =~= old(self).shallow_upcoming().skip(
                    if old(self).pend_s() is Some {
                        1int
                    } else {
                        0int
                    },
                ));
                lemma_wf_skip(
                    old(self).shallow_upcoming(),
                    if old(self).pend_s() is Some {
                        1int
                    } else {
                        0int
                    },
                );
                assert forall|i: int| 0 <= i < final(self).shallow_upcoming().len()
                    implies spec_is_shallow((#[trigger] final(self).shallow_upcoming()[i]).path) by {
                    let off: int = if old(self).pend_s() is Some {
                        1int
                    } else {
                        0int
                    };
                    assert(final(self).shallow_upcoming()[i] == old(self).shallow_upcoming()[i
                        + off]);
                }
            }
            out
        }
    }

    /// Lower-bound seek over the union of both tables within the bound
    /// account.
    pub fn seek(&mut self, key: Nibbles) -> (r: Result<
        Option<(Nibbles, BranchNodeCompact)>,
        DatabaseError,
    >)
        requires
            old(self).wf(),
        ensures
            final(self).wf(),
            final(self).streaming(),
            final(self).shallow_rows() == old(self).shallow_rows(),
            final(self).deep_rows() == old(self).deep_rows(),
            final(self).bound() == old(self).bound(),
            r is Ok,
            ({
                let m = merge_entries(
                    old(self).shallow_scope().skip(lower_bound(old(self).shallow_scope(), key@)),
                    old(self).deep_scope().skip(lower_bound(old(self).deep_scope(), key@)),
                );
                &&& m.len() > 0 ==> {
                    &&& r matches Ok(Some(p)) && p.0@ == m[0].path && p.1@ == m[0].node
                    &&& final(self).upcoming() == m.skip(1)
                    &&& final(self).current_path() == Some(m[0].path)
                }
                &&& m.len() == 0 ==> {
                    &&& r matches Ok(x) && x is None
                    &&& final(self).upcoming().len() == 0
                    &&& final(self).current_path() is None
                }
            }),
            r matches Ok(Some(p)) ==> lex_le(key@, p.0@) && old(self).union_contains(p.0@) && (
            forall|q: Seq<u8>|
                old(self).union_contains(q) && lex_le(key@, q) ==> lex_le(p.0@, q)),
            (r matches Ok(x) && x is None) ==> (forall|q: Seq<u8>|
                old(self).union_contains(q) ==> lex_lt(q, key@)),
    {
        let ghost sE = old(self).shallow_scope();
        let ghost dE = old(self).deep_scope();
        let ghost js = lower_bound(sE, key@);
        let ghost jd = lower_bound(dE, key@);

        let vs = self.shallow.seek(key.clone())?;
        self.pending_shallow = vs;
        let vd = self.deep.seek(key)?;
        self.pending_deep = vd;

        let ghost mid = *self;
        proof {
            lemma_lower_bound_props(sE, key@);
            lemma_lower_bound_props(dE, key@);
            lemma_scope_sorted(old(self).shallow_rows(), old(self).bound());
            lemma_scope_sorted(old(self).deep_rows(), old(self).bound());
            lemma_scope_kind(old(self).shallow_rows(), old(self).bound());
            lemma_scope_kind(old(self).deep_rows(), old(self).bound());
            assert(mid.shallow_upcoming() =~= sE.skip(js));
            assert(mid.deep_upcoming() =~= dE.skip(jd));
            lemma_wf_skip(sE, js);
            lemma_wf_skip(dE, jd);
            assert forall|i: int| 0 <= i < mid.shallow_upcoming().len() implies spec_is_shallow(
                (#[trigger] mid.shallow_upcoming()[i]).path,
            ) by {
                assert(mid.shallow_upcoming()[i] == sE[i + js]);
            }
            assert forall|i: int| 0 <= i < mid.deep_upcoming().len() implies !spec_is_shallow(
                (#[trigger] mid.deep_upcoming()[i]).path,
            ) by {
                assert(mid.deep_upcoming()[i] == dE[i + jd]);
            }
        }
        let out = self.consume_smaller();
        proof {
            let a = mid.shallow_upcoming();
            let b = mid.deep_upcoming();
            lemma_consume_effect_storage(mid, *self, out);
            lemma_partition_disjoint(a, b);
            lemma_merge_props(a, b);
            let m = merge_entries(a, b);
            lemma_lex_lt_irrefl(key@);
            if m.len() > 0 {
                assert(entries_contain(m, m[0].path));
                if entries_contain(a, m[0].path) {
                    let w = choose|i: int| 0 <= i < a.len() && a[i].path == m[0].path;
                    assert(a[w] == sE[w + js]);
                    assert(entries_contain(sE, m[0].path));
                    assert(!lex_lt(sE[js].path, key@));
                    if w > 0 {
                        assert(lex_lt(a[0].path, a[w].path));
                    }
                    if lex_lt(m[0].path, key@) {
                        if w == 0 {
                        } else {
                            lemma_lex_lt_trans(sE[js].path, a[w].path, key@);
                        }
                    }
                } else {
                    let w = choose|i: int| 0 <= i < b.len() && b[i].path == m[0].path;
                    assert(b[w] == dE[w + jd]);
                    assert(entries_contain(dE, m[0].path));
                    assert(!lex_lt(dE[jd].path, key@));
                    if w > 0 {
                        assert(lex_lt(b[0].path, b[w].path));
                    }
                    if lex_lt(m[0].path, key@) {
                        if w == 0 {
                        } else {
                            lemma_lex_lt_trans(dE[jd].path, b[w].path, key@);
                        }
                    }
                }
                if !lex_lt(m[0].path, key@) && !lex_lt(key@, m[0].path) {
                    lemma_lex_connex(m[0].path, key@);
                }
                assert(lex_le(key@, m[0].path));
                assert forall|q: Seq<u8>|
                    old(self).union_contains(q) && lex_le(key@, q) implies lex_le(
                    m[0].path,
                    q,
                ) by {
                    if entries_contain(sE, q) {
                        let w = choose|i: int| 0 <= i < sE.len() && sE[i].path == q;
                        if w < js {
                            lemma_lex_le_lt_trans(key@, q, key@);
                        } else {
                            assert(a[w - js].path == q);
                            assert(entries_contain(a, q));
                            assert(entries_contain(m, q));
                            let v = choose|i: int| 0 <= i < m.len() && m[i].path == q;
                            if v > 0 {
                                assert(lex_lt(m[0].path, m[v].path));
                            }
                        }
                    } else {
                        let w = choose|i: int| 0 <= i < dE.len() && dE[i].path == q;
                        if w < jd {
                            lemma_lex_le_lt_trans(key@, q, key@);
                        } else {
                            assert(b[w - jd].path == q);
                            assert(entries_contain(b, q));
                            assert(entries_contain(m, q));
                            let v = choose|i: int| 0 <= i < m.len() && m[i].path == q;
                            if v > 0 {
                                assert(lex_lt(m[0].path, m[v].path));
                            }
                        }
                    }
                }
            } else {
                assert(a.len() == 0 && b.len() == 0);
                assert(js == sE.len() && jd == dE.len());
                assert forall|q: Seq<u8>| old(self).union_contains(q) implies lex_lt(
                    q,
                    key@,
                ) by {
                    if entries_contain(sE, q) {
                        let w = choose|i: int| 0 <= i < sE.len() && sE[i].path == q;
                    } else {
                        let w = choose|i: int| 0 <= i < dE.len() && dE[i].path == q;
                    }
                }
            }
        }
        Ok(out)
    }

    /// Refill the slot consumed last (both on the first call) and return
    /// the smaller buffered entry.
    pub fn next(&mut self) -> (r: Result<Option<(Nibbles, BranchNodeCompact)>, DatabaseError>)
        requires
            old(self).wf(),
        ensures
            final(self).wf(),
            final(self).shallow_rows() == old(self).shallow_rows(),
            final(self).deep_rows() == old(self).deep_rows(),
            final(self).bound() == old(self).bound(),
            r is Ok,
            old(self).streaming() ==> {
                let u = old(self).upcoming();
                &&& u.len() > 0 ==> {
                    &&& r matches Ok(Some(p)) && p.0@ == u[0].path && p.1@ == u[0].node
                    &&& final(self).streaming()
                    &&& final(self).upcoming() == u.skip(1)
                    &&& final(self).current_path() == Some(u[0].path)
                }
                &&& u.len() == 0 ==> {
                    &&& r matches Ok(x) && x is None
                    &&& final(self).streaming()
                    &&& final(self).upcoming().len() == 0
                    &&& final(self).current_path() is None
                }
            },
            old(self).after_exact_shallow() ==> {
                let u = old(self).shallow_suffix();
                &&& u.len() > 0 ==> {
                    &&& r matches Ok(Some(p)) && p.0@ == u[0].path && p.1@ == u[0].node
                    &&& final(self).after_exact_shallow()
                    &&& final(self).shallow_suffix() == u.skip(1)
                    &&& final(self).deep_suffix() == old(self).deep_suffix()
                    &&& final(self).current_path() == Some(u[0].path)
                }
                &&& u.len() == 0 ==> {
                    &&& r matches Ok(x) && x is None
                    &&& final(self).streaming()
                    &&& final(self).upcoming() == old(self).deep_suffix()
                    &&& final(self).current_path() is None
                }
            },
            old(self).after_exact_deep() ==> {
                let u = old(self).deep_suffix();
                &&& u.len() > 0 ==> {
                    &&& r matches Ok(Some(p)) && p.0@ == u[0].path && p.1@ == u[0].node
                    &&& final(self).after_exact_deep()
                    &&& final(self).deep_suffix() == u.skip(1)
                    &&& final(self).shallow_suffix() == old(self).shallow_suffix()
                    &&& final(self).current_path() == Some(u[0].path)
                }
                &&& u.len() == 0 ==> {
                    &&& r matches Ok(x) && x is None
                    &&& final(self).streaming()
                    &&& final(self).upcoming() == old(self).shallow_suffix()
                    &&& final(self).current_path() is None
                }
            },
    {
        match self.last_consumed {
            Some(CursorSource::Shallow) => {
                let v = self.shallow.next()?;
                self.pending_shallow = v;
            },
            Some(CursorSource::Deep) => {
                let v = self.deep.next()?;
                self.pending_deep = v;
            },
            None => {
                if self.pending_shallow.is_none() {
                    let v = self.shallow.next()?;
                    self.pending_shallow = v;
                }
                if self.pending_deep.is_none() {
                    let v = self.deep.next()?;
                    self.pending_deep = v;
                }
            },
        }

        let ghost mid = *self;
        proof {
            match old(self).last_consumed {
                Some(CursorSource::Shallow) => {
                    assert(mid.shallow_upcoming() =~= old(self).shallow_upcoming());
                    assert(mid.deep_upcoming() =~= old(self).deep_upcoming());
                },
                Some(CursorSource::Deep) => {
                    assert(mid.shallow_upcoming() =~= old(self).shallow_upcoming());
                    assert(mid.deep_upcoming() =~= old(self).deep_upcoming());
                },
                None => {
                    assert(mid.shallow_upcoming() =~= old(self).shallow_upcoming());
                    assert(mid.deep_upcoming() =~= old(self).deep_upcoming());
                },
            }
        }
        let out = self.consume_smaller();
        proof {
            if old(self).streaming() {
                lemma_consume_effect_storage(mid, *self, out);
                let a = mid.shallow_upcoming();
                let b = mid.deep_upcoming();
                lemma_partition_disjoint(a, b);
                lemma_merge_props(a, b);
                assert(old(self).upcoming() == merge_entries(a, b));
            } else {
                if old(self).after_exact_shallow() {
                    let u = old(self).shallow_suffix();
                    if u.len() > 0 {
                        assert(mid.pending_deep is None);
                        assert(final(self).shallow_upcoming() =~= u.skip(1));
                        assert(final(self).shallow_suffix() =~= u.skip(1));
                        lemma_wf_skip(u, 1);
                        assert forall|i: int| 0 <= i < u.skip(1).len() implies spec_is_shallow(
                            (#[trigger] u.skip(1)[i]).path,
                        ) by {
                            assert(u.skip(1)[i] == mid.shallow_upcoming()[i + 1]);
                        }
                    } else {
                        assert(mid.pend_s() is None && mid.pend_d() is None);
                        assert(final(self).shallow_upcoming() =~= u);
                        assert(final(self).deep_upcoming() =~= old(self).deep_suffix());
                        assert(final(self).upcoming() =~= old(self).deep_suffix());
                    }
                } else {
                    let u = old(self).deep_suffix();
                    if u.len() > 0 {
                        assert(mid.pending_shallow is None);
                        assert(final(self).deep_upcoming() =~= u.skip(1));
                        assert(final(self).deep_suffix() =~= u.skip(1));
                        lemma_wf_skip(u, 1);
                        assert forall|i: int| 0 <= i < u.skip(1).len() implies !spec_is_shallow(
                            (#[trigger] u.skip(1)[i]).path,
                        ) by {
                            assert(u.skip(1)[i] == mid.deep_upcoming()[i + 1]);
                        }
                    } else {
                        assert(mid.pend_s() is None && mid.pend_d() is None);
                        assert(final(self).deep_upcoming() =~= u);
                        assert(final(self).shallow_upcoming() =~= old(self).shallow_suffix());
                        assert(final(self).upcoming() =~= old(self).shallow_suffix());
                    }
                }
            }
        }
        Ok(out)
    }

    /// Path of the entry returned last, `None` before the first hit.
    pub fn current(&mut self) -> (r: Result<Option<Nibbles>, DatabaseError>)
        requires
            old(self).wf(),
        ensures
            *final(self) == *old(self),
            r matches Ok(x) && (x is Some <==> old(self).current_path() is Some),
            r matches Ok(x) ==> (x matches Some(p) ==> old(self).current_path() == Some(p@)),
    {
        match self.last_consumed {
            Some(CursorSource::Shallow) => self.shallow.current(),
            Some(CursorSource::Deep) => self.deep.current(),
            None => Ok(None),
        }
    }

    /// Clear the merge state; the underlying cursor positions are
    /// untouched.
    pub fn reset(&mut self)
        requires
            old(self).wf(),
        ensures
            final(self).wf(),
            final(self).streaming(),
            final(self).shallow_rows() == old(self).shallow_rows(),
            final(self).deep_rows() == old(self).deep_rows(),
            final(self).bound() == old(self).bound(),
            final(self).shallow_suffix() == old(self).shallow_suffix(),
            final(self).deep_suffix() == old(self).deep_suffix(),
            final(self).upcoming() == merge_entries(
                old(self).shallow_suffix(),
                old(self).deep_suffix(),
            ),
            final(self).current_path() is None,
    {
        self.pending_shallow = None;
        self.pending_deep = None;
        self.last_consumed = None;
        proof {
            assert(final(self).shallow_upcoming() =~= old(self).shallow_suffix());
            assert(final(self).deep_upcoming() =~= old(self).deep_suffix());
            let offs: int = if old(self).pend_s() is Some {
                1int
            } else {
                0int
            };
            let offd: int = if old(self).pend_d() is Some {
                1int
            } else {
                0int
            };
            assert(final(self).shallow_upcoming() =~= old(self).shallow_upcoming().skip(offs));
            assert(final(self).deep_upcoming() =~= old(self).deep_upcoming().skip(offd));
            lemma_wf_skip(old(self).shallow_upcoming(), offs);
            lemma_wf_skip(old(self).deep_upcoming(), offd);
            assert forall|i: int| 0 <= i < final(self).shallow_upcoming().len()
                implies spec_is_shallow((#[trigger] final(self).shallow_upcoming()[i]).path) by {
                assert(final(self).shallow_upcoming()[i] == old(self).shallow_upcoming()[i + offs]);
            }
            assert forall|i: int| 0 <= i < final(self).deep_upcoming().len()
                implies !spec_is_shallow((#[trigger] final(self).deep_upcoming()[i]).path) by {
                assert(final(self).deep_upcoming()[i] == old(self).deep_upcoming()[i + offd]);
            }
        }
    }

    /// Re-bind both sides to another account hash and clear the merge
    /// state.  Without the clearing, stale entries of the prior account
    /// would surface.
    pub fn set_hashed_address(&mut self, hashed_address: HashedAddress)
        requires
            old(self).wf(),
        ensures
            final(self).wf(),
            final(self).streaming(),
            final(self).shallow_rows() == old(self).shallow_rows(),
            final(self).deep_rows() == old(self).deep_rows(),
            final(self).bound() == hashed_address@,
            final(self).shallow_suffix() == old(self).shallow_suffix(),
            final(self).deep_suffix() == old(self).deep_suffix(),
            final(self).current_path() is None,
    {
        self.shallow.set_hashed_address(hashed_address);
        self.deep.set_hashed_address(hashed_address);
        // Clear pending entries since we're switching to a different account.
        self.pending_shallow = None;
        self.pending_deep = None;
        self.last_consumed = None;
        proof {
            assert(final(self).shallow_upcoming() =~= old(self).shallow_suffix());
            assert(final(self).deep_upcoming() =~= old(self).deep_suffix());
            let offs: int = if old(self).pend_s() is Some {
                1int
            } else {
                0int
            };
            let offd: int = if old(self).pend_d() is Some {
                1int
            } else {
                0int
            };
            assert(final(self).shallow_upcoming() =~= old(self).shallow_upcoming().skip(offs));
            assert(final(self).deep_upcoming() =~= old(self).deep_upcoming().skip(offd));
            lemma_wf_skip(old(self).shallow_upcoming(), offs);
            lemma_wf_skip(old(self).deep_upcoming(), offd);
            assert forall|i: int| 0 <= i < final(self).shallow_upcoming().len()
                implies spec_is_shallow((#[trigger] final(self).shallow_upcoming()[i]).path) by {
                assert(final(self).shallow_upcoming()[i] == old(self).shallow_upcoming()[i + offs]);
            }
            assert forall|i: int| 0 <= i < final(self).deep_upcoming().len()
                implies !spec_is_shallow((#[trigger] final(self).deep_upcoming()[i]).path) by {
                assert(final(self).deep_upcoming()[i] == old(self).deep_upcoming()[i + offd]);
            }
        }
    }
}

} // verus!

use crate::storage_table::{lemma_scope_elem, lemma_scope_lookup, map_clear_hash, rows_map};
use crate::table::entries_sorted;
use crate::write_routing::{
    apply_storage_updates_table, count_nonempty, routed_storage_lookup, updates_view, updates_wf,
    StorageTrieUpdatesSorted,
};
use crate::storage_table::StorageTrieEntry;

verus! {

impl DatabaseStorageTrieCursor {
    /// Writes storage updates that are already sorted to this one table,
    /// without depth routing: delete-then-upsert per non-empty path, after
    /// clearing the whole account when the batch is marked deleted.
    pub fn write_storage_trie_updates_sorted(&mut self, updates: &StorageTrieUpdatesSorted) -> (r:
        Result<usize, DatabaseError>)
        requires
            old(self).wf(),
            updates_wf(updates_view(updates.storage_nodes@)),
        ensures
            final(self).wf(),
            final(self).bound() == old(self).bound(),
            r is Ok,
            ({
                let base = if updates.is_deleted {
                    map_clear_hash(rows_map(old(self).rows()), old(self).bound())
                } else {
                    rows_map(old(self).rows())
                };
                rows_map(final(self).rows()) == apply_storage_updates_table(
                    base,
                    old(self).bound(),
                    updates_view(updates.storage_nodes@),
                )
            }),
            r matches Ok(c) ==> c as int == count_nonempty(updates_view(updates.storage_nodes@)),
    {
        let ghost uv = updates_view(updates.storage_nodes@);
        let h = self.hashed_address;
        if updates.is_deleted() {
            self.cursor.clear_duplicates(&h);
        }
        let ghost m0 = rows_map(self.cursor.all_rows());

        let n = updates.storage_nodes.len();
        let mut num_entries: usize = 0;
        let mut i: usize = 0;
        while i < n
            invariant
                n == updates.storage_nodes@.len(),
                uv == updates_view(updates.storage_nodes@),
                updates_wf(uv),
                i <= n,
                num_entries <= i,
                num_entries as int == count_nonempty(uv.take(i as int)),
                self.cursor.wf(),
                self.hashed_address == h,
                rows_map(self.cursor.all_rows()) == apply_storage_updates_table(
                    m0,
                    h@,
                    uv.take(i as int),
                ),
            decreases n - i,
        {
            proof {
                assert(uv.take(i as int + 1).drop_last() =~= uv.take(i as int));
                assert(uv.take(i as int + 1).last() == uv[i as int]);
            }
            let up = &updates.storage_nodes[i];
            if up.0.is_empty() {
                // Empty paths are never stored: skip without counting.
            } else {
                num_entries = num_entries + 1;
                let ghost pre = rows_map(self.cursor.all_rows());
                self.cursor.remove(&h, &up.0);
                match &up.1 {
                    Some(node) => {
                        let entry = StorageTrieEntry {
                            nibbles: up.0.clone(),
                            node: node.clone(),
                        };
                        self.cursor.upsert(&h, &entry);
                        proof {
                            assert(rows_map(self.cursor.all_rows()) =~= pre.insert(
                                (h@, up.0@),
                                uv[i as int].1->0,
                            ));
                        }
                    },
                    None => {},
                }
            }
            i = i + 1;
        }
        proof {
            assert(uv.take(n as int) =~= uv);
        }
        Ok(num_entries)
    }
}

/// The node a split storage cursor's exact seek returns is the
/// depth-routed lookup in the two row maps: what the write router's
/// round-trip law speaks about.
pub proof fn lemma_union_lookup_is_routed_storage(c: SplitStorageTrieCursor, p: Seq<u8>)
    requires
        c.wf(),
    ensures
        c.union_lookup(p) == routed_storage_lookup(
            rows_map(c.shallow_rows()),
            rows_map(c.deep_rows()),
            c.bound(),
            p,
        ),
        c.union_contains(p) == (rows_map(c.shallow_rows()).dom().contains((c.bound(), p))
            || rows_map(c.deep_rows()).dom().contains((c.bound(), p))),
{
    lemma_scope_lookup(c.shallow_rows(), c.bound());
    lemma_scope_lookup(c.deep_rows(), c.bound());
    lemma_scope_elem(c.shallow_rows(), c.bound());
    lemma_scope_elem(c.deep_rows(), c.bound());
    if entries_contain(c.shallow_scope(), p) {
        let w = choose|i: int| 0 <= i < c.shallow_scope().len() && c.shallow_scope()[i].path == p;
        assert(crate::merge::contains_entry(c.shallow_scope(), c.shallow_scope()[w]));
        let k = choose|k: int|
            0 <= k < c.shallow_rows().len() && (#[trigger] c.shallow_rows()[k]).hash == c.bound()
                && c.shallow_rows()[k].entry == c.shallow_scope()[w];
        assert(spec_is_shallow(p));
    }
    if entries_contain(c.deep_scope(), p) {
        let w = choose|i: int| 0 <= i < c.deep_scope().len() && c.deep_scope()[i].path == p;
        assert(crate::merge::contains_entry(c.deep_scope(), c.deep_scope()[w]));
        let k = choose|k: int|
            0 <= k < c.deep_rows().len() && (#[trigger] c.deep_rows()[k]).hash == c.bound()
                && c.deep_rows()[k].entry == c.deep_scope()[w];
        assert(!spec_is_shallow(p));
    }
}

/// Traversal is scoped to the bound account: the stream a seek sets up is
/// drawn from the bound hash's entries alone, so after re-binding the
/// cursor, no entry of the prior account is yielded by seek and next.
pub proof fn lemma_traversal_scoped_to_bound(c: SplitStorageTrieCursor, key: Seq<u8>)
    requires
        c.wf(),
    ensures
        ({
            let m = merge_entries(
                c.shallow_scope().skip(lower_bound(c.shallow_scope(), key)),
                c.deep_scope().skip(lower_bound(c.deep_scope(), key)),
            );
            forall|k: int| 0 <= k < m.len() ==> c.union_contains((#[trigger] m[k]).path)
        }),
{
    lemma_scope_sorted(c.shallow_rows(), c.bound());
    lemma_scope_sorted(c.deep_rows(), c.bound());
    lemma_scope_kind(c.shallow_rows(), c.bound());
    lemma_scope_kind(c.deep_rows(), c.bound());
    lemma_lower_bound_props(c.shallow_scope(), key);
    lemma_lower_bound_props(c.deep_scope(), key);
    let js = lower_bound(c.shallow_scope(), key);
    let jd = lower_bound(c.deep_scope(), key);
    let a = c.shallow_scope().skip(js);
    let b = c.deep_scope().skip(jd);
    crate::table::lemma_wf_skip(c.shallow_scope(), js);
    crate::table::lemma_wf_skip(c.deep_scope(), jd);
    assert forall|i: int| 0 <= i < a.len() implies spec_is_shallow((#[trigger] a[i]).path) by {
        assert(a[i] == c.shallow_scope()[i + js]);
    }
    assert forall|i: int| 0 <= i < b.len() implies !spec_is_shallow((#[trigger] b[i]).path) by {
        assert(b[i] == c.deep_scope()[i + jd]);
    }
    lemma_partition_disjoint(a, b);
    lemma_merge_props(a, b);
    let m = merge_entries(a, b);
    assert forall|k: int| 0 <= k < m.len() implies c.union_contains((#[trigger] m[k]).path) by {
        assert(entries_contain(m, m[k].path));
        if entries_contain(a, m[k].path) {
            let w = choose|i: int| 0 <= i < a.len() && a[i].path == m[k].path;
            assert(a[w] == c.shallow_scope()[w + js]);
            assert(entries_contain(c.shallow_scope(), m[k].path));
        } else {
            let w = choose|i: int| 0 <= i < b.len() && b[i].path == m[k].path;
            assert(b[w] == c.deep_scope()[w + jd]);
            assert(entries_contain(c.deep_scope(), m[k].path));
        }
    }
}

} // verus!

verus! {

/// Full forward traversal within one account yields the sorted union of
/// its shallow and deep entries, each exactly once.
pub proof fn lemma_full_scope_traversal_is_sorted_union(c: SplitStorageTrieCursor)
    requires
        c.wf(),
    ensures
        lower_bound(c.shallow_scope(), Seq::<u8>::empty()) == 0,
        lower_bound(c.deep_scope(), Seq::<u8>::empty()) == 0,
        c.shallow_scope().skip(0) == c.shallow_scope(),
        c.deep_scope().skip(0) == c.deep_scope(),
        entries_sorted(merge_entries(c.shallow_scope(), c.deep_scope())),
        merge_entries(c.shallow_scope(), c.deep_scope()).len() == c.shallow_scope().len()
            + c.deep_scope().len(),
        forall|p: Seq<u8>| #[trigger]
            entries_contain(merge_entries(c.shallow_scope(), c.deep_scope()), p)
                <==> c.union_contains(p),
{
    assert(c.shallow_scope().skip(0) =~= c.shallow_scope());
    assert(c.deep_scope().skip(0) =~= c.deep_scope());
    lemma_scope_sorted(c.shallow_rows(), c.bound());
    lemma_scope_sorted(c.deep_rows(), c.bound());
    lemma_scope_kind(c.shallow_rows(), c.bound());
    lemma_scope_kind(c.deep_rows(), c.bound());
    lemma_partition_disjoint(c.shallow_scope(), c.deep_scope());
    lemma_merge_props(c.shallow_scope(), c.deep_scope());
}

} // verus!

verus! {

/// `reset` and re-binding behave as a fresh cursor for the repositioning
/// operations: the outcome of `seek` and `seek_exact` is a function of the
/// table contents, the bound account hash and the key alone, so two
/// cursors over the same tables and hash — one freshly built, one just
/// reset — get the same results, and both answer `current` with `None`.
pub proof fn lemma_reset_is_fresh_for_storage_seeks(
    c1: SplitStorageTrieCursor,
    c2: SplitStorageTrieCursor,
    key: Seq<u8>,
)
    requires
        c1.shallow_rows() == c2.shallow_rows(),
        c1.deep_rows() == c2.deep_rows(),
        c1.bound() == c2.bound(),
    ensures
        merge_entries(
            c1.shallow_scope().skip(lower_bound(c1.shallow_scope(), key)),
            c1.deep_scope().skip(lower_bound(c1.deep_scope(), key)),
        ) == merge_entries(
            c2.shallow_scope().skip(lower_bound(c2.shallow_scope(), key)),
            c2.deep_scope().skip(lower_bound(c2.deep_scope(), key)),
        ),
        c1.union_contains(key) == c2.union_contains(key),
        c1.union_lookup(key) == c2.union_lookup(key),
{
}

} // verus!
