//! Account-trie cursors: single-table adapters and the split cursor that
//! merges the shallow and the deep table into one sorted stream.

use vstd::prelude::*;
use crate::constants::{spec_is_shallow, SHALLOW_TRIE_DEPTH};
use crate::merge::{
    deep_only, lemma_merge_props, lemma_partition_disjoint, merge_entries, opt_entry_seq,
    shallow_only,
};
use crate::nibbles::{
    lex_le, lex_lt, lemma_lex_le_lt_trans, lemma_lex_lt_irrefl, nibbles_le, Nibbles,
};
use crate::node::BranchNodeCompact;
use crate::table::{
    entries_contain, entries_wf, entry_lookup, lemma_lower_bound_props, lemma_wf_skip,
    lower_bound, AccountTableCursor, DatabaseError, TrieEntryV,
};

verus! {

/// Which side of the split produced the entry consumed last.
#[derive(Debug, Clone, Copy)]
pub(crate) enum CursorSource {
    Shallow,
    Deep,
}

/// A cursor over one plain account trie table.
#[derive(Debug)]
pub struct DatabaseAccountTrieCursor(pub(crate) AccountTableCursor);

impl DatabaseAccountTrieCursor {
    /// Contents of the table under the cursor.
    pub closed spec fn rows(self) -> Seq<TrieEntryV> {
        self.0.rows()
    }

    /// Entries still ahead of the cursor.
    pub closed spec fn suffix(self) -> Seq<TrieEntryV> {
        self.0.suffix()
    }

    /// Path of the entry the cursor stands on.
    pub closed spec fn current_path(self) -> Option<Seq<u8>> {
        self.0.current_path()
    }

    pub closed spec fn wf(self) -> bool {
        self.0.wf()
    }

    /// Create a new account trie cursor.
    pub fn new(cursor: AccountTableCursor) -> (r: Self)
        ensures
            cursor.wf() ==> r.wf(),
            r.rows() == cursor.rows(),
            r.suffix() == cursor.suffix(),
            r.current_path() == cursor.current_path(),
    {
        DatabaseAccountTrieCursor(cursor)
    }

    /// Exact lookup of `key`; positions the cursor at the hit.
    pub fn seek_exact(&mut self, key: Nibbles) -> (r: Result<
        Option<(Nibbles, BranchNodeCompact)>,
        DatabaseError,
    >)
        requires
            old(self).wf(),
        ensures
            final(self).wf(),
            final(self).rows() == old(self).rows(),
            r is Ok,
            ({
                let s = old(self).rows();
                let j = lower_bound(s, key@);
                &&& entries_contain(s, key@) ==> {
                    &&& r matches Ok(Some(p)) && p.0@ == key@ && entry_lookup(s, key@) == Some(
                        p.1@,
                    )
                    &&& j < s.len() && s[j].path == key@
                    &&& final(self).suffix() == s.skip(j + 1)
                    &&& final(self).current_path() == Some(key@)
                }
                &&& !entries_contain(s, key@) ==> {
                    &&& r matches Ok(x) && x is None
                    &&& final(self).suffix() == s.skip(j)
                    &&& final(self).current_path() is None
                }
            }),
    {
        Ok(self.0.seek_exact(&key))
    }

    /// Lower-bound seek: the first entry whose path is at least `key`.
    pub fn seek(&mut self, key: Nibbles) -> (r: Result<
        Option<(Nibbles, BranchNodeCompact)>,
        DatabaseError,
    >)
        requires
            old(self).wf(),
        ensures
            final(self).wf(),
            final(self).rows() == old(self).rows(),
            r is Ok,
            ({
                let s = old(self).rows();
                let j = lower_bound(s, key@);
                &&& j < s.len() ==> {
                    &&& r matches Ok(Some(p)) && p.0@ == s[j].path && p.1@ == s[j].node
                    &&& final(self).suffix() == s.skip(j + 1)
                    &&& final(self).current_path() == Some(s[j].path)
                }
                &&& j == s.len() ==> {
                    &&& r matches Ok(x) && x is None
                    &&& final(self).suffix() == Seq::<TrieEntryV>::empty()
                    &&& final(self).current_path() is None
                }
            }),
    {
        let out = self.0.seek(&key);
        proof {
            let s = old(self).rows();
            let j = lower_bound(s, key@);
            lemma_lower_bound_props(s, key@);
            if j == s.len() {
                assert(final(self).suffix() =~= Seq::<TrieEntryV>::empty());
            }
        }
        Ok(out)
    }

    /// The next entry in ascending order from the cursor's position.
    pub fn next(&mut self) -> (r: Result<Option<(Nibbles, BranchNodeCompact)>, DatabaseError>)
        requires
            old(self).wf(),
        ensures
            final(self).wf(),
            final(self).rows() == old(self).rows(),
            r is Ok,
            ({
                let d = old(self).suffix();
                &&& d.len() > 0 ==> {
                    &&& r matches Ok(Some(p)) && p.0@ == d[0].path && p.1@ == d[0].node
                    &&& final(self).suffix() == d.skip(1)
                    &&& final(self).current_path() == Some(d[0].path)
                }
                &&& d.len() == 0 ==> {
                    &&& r matches Ok(x) && x is None
                    &&& final(self).suffix() == Seq::<TrieEntryV>::empty()
                    &&& final(self).current_path() is None
                }
            }),
    {
        let out = self.0.next();
        proof {
            let s = old(self).rows();
            let j = old(self).0.nxt();
            if j < s.len() {
                assert(old(self).suffix()[0] == s[j]);
                assert(final(self).suffix() =~= old(self).suffix().skip(1));
            } else {
                assert(old(self).suffix().len() == 0);
                assert(final(self).suffix() =~= Seq::<TrieEntryV>::empty());
            }
        }
        Ok(out)
    }

    /// Path of the cursor's current position.
    pub fn current(&mut self) -> (r: Result<Option<Nibbles>, DatabaseError>)
        requires
            old(self).wf(),
        ensures
            *final(self) == *old(self),
            r matches Ok(x) && (x is Some <==> old(self).current_path() is Some),
            r matches Ok(x) ==> (x matches Some(p) ==> old(self).current_path() == Some(p@)),
    {
        Ok(self.0.current())
    }

    /// Database cursors hold no merge state; nothing to clear.
    pub fn reset(&mut self)
        ensures
            *final(self) == *old(self),
    {
    }
}

/// Cursor over the shallow account trie table.
#[derive(Debug)]
struct ShallowAccountTrieCursor(AccountTableCursor);

impl ShallowAccountTrieCursor {
    spec fn rows(self) -> Seq<TrieEntryV> {
        self.0.rows()
    }

    spec fn suffix(self) -> Seq<TrieEntryV> {
        self.0.suffix()
    }

    spec fn current_path(self) -> Option<Seq<u8>> {
        self.0.current_path()
    }

    spec fn wf(self) -> bool {
        self.0.wf()
    }

    fn seek_exact(&mut self, key: Nibbles) -> (r: Result<
        Option<(Nibbles, BranchNodeCompact)>,
        DatabaseError,
    >)
        requires
            old(self).wf(),
        ensures
            final(self).wf(),
            final(self).rows() == old(self).rows(),
            r is Ok,
            ({
                let s = old(self).rows();
                let j = lower_bound(s, key@);
                &&& entries_contain(s, key@) ==> {
                    &&& r matches Ok(Some(p)) && p.0@ == key@ && entry_lookup(s, key@) == Some(
                        p.1@,
                    )
                    &&& j < s.len() && s[j].path == key@
                    &&& final(self).suffix() == s.skip(j + 1)
                    &&& final(self).current_path() == Some(key@)
                }
                &&& !entries_contain(s, key@) ==> {
                    &&& r matches Ok(x) && x is None
                    &&& final(self).suffix() == s.skip(j)
                    &&& final(self).current_path() is None
                }
            }),
    {
        Ok(self.0.seek_exact(&key))
    }

    fn seek(&mut self, key: Nibbles) -> (r: Result<
        Option<(Nibbles, BranchNodeCompact)>,
        DatabaseError,
    >)
        requires
            old(self).wf(),
        ensures
            final(self).wf(),
            final(self).rows() == old(self).rows(),
            r is Ok,
            ({
                let s = old(self).rows();
                let j = lower_bound(s, key@);
                &&& j < s.len() ==> {
                    &&& r matches Ok(Some(p)) && p.0@ == s[j].path && p.1@ == s[j].node
                    &&& final(self).suffix() == s.skip(j + 1)
                    &&& final(self).current_path() == Some(s[j].path)
                }
                &&& j == s.len() ==> {
                    &&& r matches Ok(x) && x is None
                    &&& final(self).suffix() == Seq::<TrieEntryV>::empty()
                    &&& final(self).current_path() is None
                }
            }),
    {
        let out = self.0.seek(&key);
        proof {
            let s = old(self).rows();
            let j = lower_bound(s, key@);
            lemma_lower_bound_props(s, key@);
            if j == s.len() {
                assert(final(self).suffix() =~= Seq::<TrieEntryV>::empty());
            }
        }
        Ok(out)
    }

    fn next(&mut self) -> (r: Result<Option<(Nibbles, BranchNodeCompact)>, DatabaseError>)
        requires
            old(self).wf(),
        ensures
            final(self).wf(),
            final(self).rows() == old(self).rows(),
            r is Ok,
            ({
                let d = old(self).suffix();
                &&& d.len() > 0 ==> {
                    &&& r matches Ok(Some(p)) && p.0@ == d[0].path && p.1@ == d[0].node
                    &&& final(self).suffix() == d.skip(1)
                    &&& final(self).current_path() == Some(d[0].path)
                }
                &&& d.len() == 0 ==> {
                    &&& r matches Ok(x) && x is None
                    &&& final(self).suffix() == Seq::<TrieEntryV>::empty()
                    &&& final(self).current_path() is None
                }
            }),
    {
        let out = self.0.next();
        proof {
            let s = old(self).rows();
            let j = old(self).0.nxt();
            if j < s.len() {
                assert(old(self).suffix()[0] == s[j]);
                assert(final(self).suffix() =~= old(self).suffix().skip(1));
            } else {
                assert(old(self).suffix().len() == 0);
                assert(final(self).suffix() =~= Seq::<TrieEntryV>::empty());
            }
        }
        Ok(out)
    }

    fn current(&mut self) -> (r: Result<Option<Nibbles>, DatabaseError>)
        requires
            old(self).wf(),
        ensures
            *final(self) == *old(self),
            r matches Ok(x) && (x is Some <==> old(self).current_path() is Some),
            r matches Ok(x) ==> (x matches Some(p) ==> old(self).current_path() == Some(p@)),
    {
        Ok(self.0.current())
    }
}

} // verus!

verus! {

/// Account trie cursor that presents the shallow table (paths of at most
/// [`SHALLOW_TRIE_DEPTH`] nibbles) and the deep table as one logically
/// sorted stream.
///
/// Each underlying cursor has a "pending" slot; every `seek`/`next` refills
/// the slot that was consumed and returns the entry with the smaller path,
/// leaving the other buffered.
#[derive(Debug)]
pub struct SplitAccountTrieCursor {
    shallow: ShallowAccountTrieCursor,
    deep: DatabaseAccountTrieCursor,
    /// Buffered entry from the shallow cursor (not yet returned).
    pending_shallow: Option<(Nibbles, BranchNodeCompact)>,
    /// Buffered entry from the deep cursor (not yet returned).
    pending_deep: Option<(Nibbles, BranchNodeCompact)>,
    /// Which cursor was consumed on the last call (used by `current`).
    last_consumed: Option<CursorSource>,
}

impl SplitAccountTrieCursor {
    /// Contents of the shallow table.
    pub closed spec fn shallow_rows(self) -> Seq<TrieEntryV> {
        self.shallow.rows()
    }

    /// Contents of the deep table.
    pub closed spec fn deep_rows(self) -> Seq<TrieEntryV> {
        self.deep.rows()
    }

    /// Entries still ahead of the shallow cursor (pending slot excluded).
    pub closed spec fn shallow_suffix(self) -> Seq<TrieEntryV> {
        self.shallow.suffix()
    }

    /// Entries still ahead of the deep cursor (pending slot excluded).
    pub closed spec fn deep_suffix(self) -> Seq<TrieEntryV> {
        self.deep.suffix()
    }

    /// The buffered shallow entry.
    pub closed spec fn pend_s(self) -> Option<TrieEntryV> {
        match self.pending_shallow {
            Some(p) => Some(TrieEntryV { path: p.0@, node: p.1@ }),
            None => None,
        }
    }

    /// The buffered deep entry.
    pub closed spec fn pend_d(self) -> Option<TrieEntryV> {
        match self.pending_deep {
            Some(p) => Some(TrieEntryV { path: p.0@, node: p.1@ }),
            None => None,
        }
    }

    /// The shallow entries the merge has not yet returned.
    pub open spec fn shallow_upcoming(self) -> Seq<TrieEntryV> {
        opt_entry_seq(self.pend_s()) + self.shallow_suffix()
    }

    /// The deep entries the merge has not yet returned.
    pub open spec fn deep_upcoming(self) -> Seq<TrieEntryV> {
        opt_entry_seq(self.pend_d()) + self.deep_suffix()
    }

    /// The stream of entries that repeated `next` calls will yield from a
    /// streaming state.
    pub open spec fn upcoming(self) -> Seq<TrieEntryV> {
        merge_entries(self.shallow_upcoming(), self.deep_upcoming())
    }

    /// Path of the entry returned last.
    pub closed spec fn current_path(self) -> Option<Seq<u8>> {
        match self.last_consumed {
            Some(CursorSource::Shallow) => self.shallow.current_path(),
            Some(CursorSource::Deep) => self.deep.current_path(),
            None => None,
        }
    }

    /// Some table holds the path `p`.
    pub open spec fn union_contains(self, p: Seq<u8>) -> bool {
        entries_contain(self.shallow_rows(), p) || entries_contain(self.deep_rows(), p)
    }

    /// The node stored at `p` across both tables.
    pub open spec fn union_lookup(self, p: Seq<u8>) -> Option<crate::node::BranchNodeView> {
        if entries_contain(self.shallow_rows(), p) {
            entry_lookup(self.shallow_rows(), p)
        } else {
            entry_lookup(self.deep_rows(), p)
        }
    }

    /// Well-formedness: sorted partitioned tables, consistent positions,
    /// and merge state tied to the cursors.
    pub closed spec fn wf(self) -> bool {
        &&& self.shallow.wf()
        &&& self.deep.wf()
        &&& shallow_only(self.shallow.rows())
        &&& deep_only(self.deep.rows())
        &&& shallow_only(self.shallow_upcoming())
        &&& deep_only(self.deep_upcoming())
        &&& (self.last_consumed matches Some(CursorSource::Shallow) ==> self.pend_s() is None)
        &&& (self.last_consumed matches Some(CursorSource::Deep) ==> self.pend_d() is None)
        &&& (self.last_consumed is None ==> self.pend_s() is None && self.pend_d() is None)
        &&& (self.pend_s() matches Some(x) ==> self.shallow.current_path() == Some(x.path))
        &&& (self.pend_d() matches Some(x) ==> self.deep.current_path() == Some(x.path))
        &&& entries_wf(self.shallow_upcoming())
        &&& entries_wf(self.deep_upcoming())
    }

    /// States in which `upcoming` is exactly the future output stream:
    /// every state except the one left by `seek_exact` with entries still
    /// buffered on the far side.
    pub closed spec fn streaming(self) -> bool {
        &&& self.wf()
        &&& (self.last_consumed matches Some(CursorSource::Shallow) && self.pend_d() is None
            ==> self.deep_upcoming().len() == 0)
        &&& (self.last_consumed matches Some(CursorSource::Deep) && self.pend_s() is None
            ==> self.shallow_upcoming().len() == 0)
    }

    /// State left by `seek_exact` on a shallow key: only the shallow side
    /// is refilled by the next `next` call.
    pub closed spec fn after_exact_shallow(self) -> bool {
        &&& self.last_consumed matches Some(CursorSource::Shallow)
        &&& self.pend_s() is None
        &&& self.pend_d() is None
    }

    /// State left by `seek_exact` on a deep key.
    pub closed spec fn after_exact_deep(self) -> bool {
        &&& self.last_consumed matches Some(CursorSource::Deep)
        &&& self.pend_s() is None
        &&& self.pend_d() is None
    }

    /// Create a new split account trie cursor.
    pub fn new(shallow: AccountTableCursor, deep: AccountTableCursor) -> (r: Self)
        requires
            shallow.wf(),
            deep.wf(),
            shallow_only(shallow.rows()),
            deep_only(deep.rows()),
        ensures
            r.wf(),
            r.streaming(),
            r.shallow_rows() == shallow.rows(),
            r.deep_rows() == deep.rows(),
            r.shallow_suffix() == shallow.suffix(),
            r.deep_suffix() == deep.suffix(),
            r.upcoming() == merge_entries(shallow.suffix(), deep.suffix()),
            r.current_path() is None,
    {
        let r = SplitAccountTrieCursor {
            shallow: ShallowAccountTrieCursor(shallow),
            deep: DatabaseAccountTrieCursor::new(deep),
            pending_shallow: None,
            pending_deep: None,
            last_consumed: None,
        };
        proof {
            assert(r.shallow_upcoming() =~= r.shallow.suffix());
            assert(r.deep_upcoming() =~= r.deep.suffix());
            lemma_wf_skip(shallow.rows(), shallow.nxt());
            lemma_wf_skip(deep.rows(), deep.nxt());
            assert forall|i: int| 0 <= i < r.shallow_upcoming().len() implies spec_is_shallow(
                (#[trigger] r.shallow_upcoming()[i]).path,
            ) by {
                assert(r.shallow_upcoming()[i] == shallow.rows()[i + shallow.nxt()]);
            }
            assert forall|i: int| 0 <= i < r.deep_upcoming().len() implies !spec_is_shallow(
                (#[trigger] r.deep_upcoming()[i]).path,
            ) by {
                assert(r.deep_upcoming()[i] == deep.rows()[i + deep.nxt()]);
            }
        }
        r
    }

    /// Compare the two pending slots and consume (return) the smaller
    /// entry; the other stays buffered.
    fn consume_smaller(&mut self) -> (r: Option<(Nibbles, BranchNodeCompact)>)
        ensures
            final(self).shallow == old(self).shallow,
            final(self).deep == old(self).deep,
            match (old(self).pending_shallow, old(self).pending_deep) {
                (Some(s), Some(d)) => if lex_le(s.0@, d.0@) {
                    &&& r == Some(s)
                    &&& final(self).pending_shallow is None
                    &&& final(self).pending_deep == old(self).pending_deep
                    &&& final(self).last_consumed matches Some(CursorSource::Shallow)
                } else {
                    &&& r == Some(d)
                    &&& final(self).pending_deep is None
                    &&& final(self).pending_shallow == old(self).pending_shallow
                    &&& final(self).last_consumed matches Some(CursorSource::Deep)
                },
                (Some(s), None) => {
                    &&& r == Some(s)
                    &&& final(self).pending_shallow is None
                    &&& final(self).pending_deep is None
                    &&& final(self).last_consumed matches Some(CursorSource::Shallow)
                },
                (None, Some(d)) => {
                    &&& r == Some(d)
                    &&& final(self).pending_shallow is None
                    &&& final(self).pending_deep is None
                    &&& final(self).last_consumed matches Some(CursorSource::Deep)
                },
                (None, None) => {
                    &&& r is None
                    &&& final(self).pending_shallow is None
                    &&& final(self).pending_deep is None
                    &&& final(self).last_consumed is None
                },
            },
    {
        match (&self.pending_shallow, &self.pending_deep) {
            (Some(s), Some(d)) => {
                if nibbles_le(&s.0, &d.0) {
                    self.last_consumed = Some(CursorSource::Shallow);
                    self.pending_shallow.take()
                } else {
                    self.last_consumed = Some(CursorSource::Deep);
                    self.pending_deep.take()
                }
            },
            (Some(_), None) => {
                self.last_consumed = Some(CursorSource::Shallow);
                self.pending_shallow.take()
            },
            (None, Some(_)) => {
                self.last_consumed = Some(CursorSource::Deep);
                self.pending_deep.take()
            },
            (None, None) => {
                self.last_consumed = None;
                None
            },
        }
    }
}

} // verus!

verus! {

/// Effect of `consume_smaller` on a state whose empty pending slots have
/// exhausted streams behind them: it returns the head of the merged
/// upcoming stream and leaves the tail.
proof fn lemma_consume_effect(
    pre: SplitAccountTrieCursor,
    post: SplitAccountTrieCursor,
    r: Option<(Nibbles, BranchNodeCompact)>,
)
    requires
        post.shallow == pre.shallow,
        post.deep == pre.deep,
        match (pre.pending_shallow, pre.pending_deep) {
            (Some(s), Some(d)) => if lex_le(s.0@, d.0@) {
                &&& r == Some(s)
                &&& post.pending_shallow is None
                &&& post.pending_deep == pre.pending_deep
                &&& post.last_consumed matches Some(CursorSource::Shallow)
            } else {
                &&& r == Some(d)
                &&& post.pending_deep is None
                &&& post.pending_shallow == pre.pending_shallow
                &&& post.last_consumed matches Some(CursorSource::Deep)
            },
            (Some(s), None) => {
                &&& r == Some(s)
                &&& post.pending_shallow is None
                &&& post.pending_deep is None
                &&& post.last_consumed matches Some(CursorSource::Shallow)
            },
            (None, Some(d)) => {
                &&& r == Some(d)
                &&& post.pending_shallow is None
                &&& post.pending_deep is None
                &&& post.last_consumed matches Some(CursorSource::Deep)
            },
            (None, None) => {
                &&& r is None
                &&& post.pending_shallow is None
                &&& post.pending_deep is None
                &&& post.last_consumed is None
            },
        },
        pre.pend_s() is None ==> pre.shallow_upcoming().len() == 0,
        pre.pend_d() is None ==> pre.deep_upcoming().len() == 0,
        entries_wf(pre.shallow_upcoming()),
        entries_wf(pre.deep_upcoming()),
        shallow_only(pre.shallow_upcoming()),
        deep_only(pre.deep_upcoming()),
        pre.pend_s() matches Some(x) ==> pre.shallow.current_path() == Some(x.path),
        pre.pend_d() matches Some(x) ==> pre.deep.current_path() == Some(x.path),
    ensures
        ({
            let m = merge_entries(pre.shallow_upcoming(), pre.deep_upcoming());
            &&& m.len() > 0 ==> {
                &&& r matches Some(p) && p.0@ == m[0].path && p.1@ == m[0].node
                &&& post.upcoming() == m.skip(1)
                &&& post.current_path() == Some(m[0].path)
            }
            &&& m.len() == 0 ==> {
                &&& r is None
                &&& post.upcoming().len() == 0
                &&& post.current_path() is None
                &&& post.last_consumed is None
            }
        }),
        entries_wf(post.shallow_upcoming()),
        entries_wf(post.deep_upcoming()),
        shallow_only(post.shallow_upcoming()),
        deep_only(post.deep_upcoming()),
        post.pend_s() matches Some(x) ==> post.shallow.current_path() == Some(x.path),
        post.pend_d() matches Some(x) ==> post.deep.current_path() == Some(x.path),
        post.last_consumed matches Some(CursorSource::Shallow) ==> {
            &&& post.pend_s() is None
            &&& post.shallow_upcoming() == pre.shallow_upcoming().skip(1)
            &&& post.deep_upcoming() == pre.deep_upcoming()
            &&& post.pending_deep == pre.pending_deep
        },
        post.last_consumed matches Some(CursorSource::Deep) ==> {
            &&& post.pend_d() is None
            &&& post.deep_upcoming() == pre.deep_upcoming().skip(1)
            &&& post.shallow_upcoming() == pre.shallow_upcoming()
            &&& post.pending_shallow == pre.pending_shallow
        },
        post.last_consumed is None ==> {
            &&& post.pend_s() is None && post.pend_d() is None
            &&& post.shallow_upcoming().len() == 0
            &&& post.deep_upcoming().len() == 0
        },
{
    let a = pre.shallow_upcoming();
    let b = pre.deep_upcoming();
    let m = merge_entries(a, b);
    match (pre.pending_shallow, pre.pending_deep) {
        (Some(s), Some(d)) => {
            assert(a[0] == TrieEntryV { path: s.0@, node: s.1@ });
            assert(b[0] == TrieEntryV { path: d.0@, node: d.1@ });
            if lex_le(s.0@, d.0@) {
                assert(m == seq![a[0]] + merge_entries(a.skip(1), b));
                assert(m[0] == a[0]);
                assert(m.skip(1) =~= merge_entries(a.skip(1), b));
                assert(post.shallow_upcoming() =~= a.skip(1));
                assert(post.deep_upcoming() =~= b);
                lemma_wf_skip(a, 1);
                assert forall|i: int| 0 <= i < a.skip(1).len() implies spec_is_shallow(
                    (#[trigger] a.skip(1)[i]).path,
                ) by {
                    assert(a.skip(1)[i] == a[i + 1]);
                }
            } else {
                assert(m == seq![b[0]] + merge_entries(a, b.skip(1)));
                assert(m[0] == b[0]);
                assert(m.skip(1) =~= merge_entries(a, b.skip(1)));
                assert(post.deep_upcoming() =~= b.skip(1));
                assert(post.shallow_upcoming() =~= a);
                lemma_wf_skip(b, 1);
                assert forall|i: int| 0 <= i < b.skip(1).len() implies !spec_is_shallow(
                    (#[trigger] b.skip(1)[i]).path,
                ) by {
                    assert(b.skip(1)[i] == b[i + 1]);
                }
            }
        },
        (Some(s), None) => {
            assert(b.len() == 0);
            assert(a[0] == TrieEntryV { path: s.0@, node: s.1@ });
            assert(m == a);
            assert(post.shallow_upcoming() =~= a.skip(1));
            assert(post.deep_upcoming() =~= b);
            assert(m.skip(1) =~= a.skip(1));
            assert(post.upcoming() == merge_entries(a.skip(1), b));
            if a.skip(1).len() == 0 {
                assert(merge_entries(a.skip(1), b) =~= a.skip(1));
            }
            assert(post.upcoming() =~= a.skip(1));
            lemma_wf_skip(a, 1);
            assert forall|i: int| 0 <= i < a.skip(1).len() implies spec_is_shallow(
                (#[trigger] a.skip(1)[i]).path,
            ) by {
                assert(a.skip(1)[i] == a[i + 1]);
            }
        },
        (None, Some(d)) => {
            assert(a.len() == 0);
            assert(b[0] == TrieEntryV { path: d.0@, node: d.1@ });
            assert(m == b);
            assert(post.deep_upcoming() =~= b.skip(1));
            assert(post.shallow_upcoming() =~= a);
            assert(post.upcoming() == merge_entries(a, b.skip(1)));
            assert(post.upcoming() =~= b.skip(1));
            assert(m.skip(1) =~= b.skip(1));
            lemma_wf_skip(b, 1);
            assert forall|i: int| 0 <= i < b.skip(1).len() implies !spec_is_shallow(
                (#[trigger] b.skip(1)[i]).path,
            ) by {
                assert(b.skip(1)[i] == b[i + 1]);
            }
        },
        (None, None) => {
            assert(a.len() == 0);
            assert(b.len() == 0);
            assert(m.len() == 0);
            assert(post.shallow_upcoming() =~= a);
            assert(post.deep_upcoming() =~= b);
            assert(post.upcoming().len() == 0);
        },
    }
}

} // verus!

verus! {

impl SplitAccountTrieCursor {
    /// Exact lookup: dispatched to the one table that can hold `key`,
    /// because the depth of a path decides its table.  Clears both pending
    /// slots.  A hit is returned exactly when `key` is stored, with its
    /// stored node.
    pub fn seek_exact(&mut self, key: Nibbles) -> (r: Result<
        Option<(Nibbles, BranchNodeCompact)>,
        DatabaseError,
    >)
        requires
            old(self).wf(),
        ensures
            final(self).wf(),
            final(self).shallow_rows() == old(self).shallow_rows(),
            final(self).deep_rows() == old(self).deep_rows(),
            r is Ok,
            (r matches Ok(x) && x is Some) <==> old(self).union_contains(key@),
            r matches Ok(Some(p)) ==> p.0@ == key@ && old(self).union_lookup(key@) == Some(p.1@)
                && final(self).current_path() == Some(key@),
            (r matches Ok(x) && x is None) ==> final(self).current_path() is None,
            spec_is_shallow(key@) ==> final(self).after_exact_shallow() && final(self).deep_suffix()
                == old(self).deep_suffix(),
            !spec_is_shallow(key@) ==> final(self).after_exact_deep()
                && final(self).shallow_suffix() == old(self).shallow_suffix(),
    {
        self.pending_shallow = None;
        self.pending_deep = None;

        if key.len() <= SHALLOW_TRIE_DEPTH {
            self.last_consumed = Some(CursorSource::Shallow);
            let ghost sE = old(self).shallow_rows();
            let out = self.shallow.seek_exact(key);
            proof {
                lemma_lower_bound_props(sE, key@);
                if entries_contain(old(self).deep_rows(), key@) {
                    let w = choose|i: int|
                        0 <= i < old(self).deep_rows().len() && old(self).deep_rows()[i].path
                            == key@;
                }
                lemma_wf_skip(sE, lower_bound(sE, key@));
                if entries_contain(sE, key@) {
                    lemma_wf_skip(sE, lower_bound(sE, key@) + 1);
                }
                assert(final(self).shallow_upcoming() =~= final(self).shallow_suffix());
                assert(final(self).deep_upcoming() =~= old(self).deep_upcoming().skip(
                    if old(self).pend_d() is Some {
                        1int
                    } else {
                        0int
                    },
                ));
                lemma_wf_skip(
                    old(self).deep_upcoming(),
                    if old(self).pend_d() is Some {
                        1int
                    } else {
                        0int
                    },
                );
                assert forall|i: int| 0 <= i < final(self).shallow_upcoming().len()
                    implies spec_is_shallow((#[trigger] final(self).shallow_upcoming()[i]).path) by {
                    let j = lower_bound(sE, key@);
                    let k = if entries_contain(sE, key@) {
                        j + 1
                    } else {
                        j
                    };
                    assert(final(self).shallow_upcoming()[i] == sE[i + k]);
                }
                assert forall|i: int| 0 <= i < final(self).deep_upcoming().len()
                    implies !spec_is_shallow((#[trigger] final(self).deep_upcoming()[i]).path) by {
                    let off: int = if old(self).pend_d() is Some {
                        1int
                    } else {
                        0int
                    };
                    assert(final(self).deep_upcoming()[i] == old(self).deep_upcoming()[i + off]);
                }
            }
            out
        } else {
            self.last_consumed = Some(CursorSource::Deep);
            let ghost dE = old(self).deep_rows();
            let out = self.deep.seek_exact(key);
            proof {
                lemma_lower_bound_props(dE, key@);
                if entries_contain(old(self).shallow_rows(), key@) {
                    let w = choose|i: int|
                        0 <= i < old(self).shallow_rows().len() && old(self).shallow_rows()[i].path
                            == key@;
                }
                lemma_wf_skip(dE, lower_bound(dE, key@));
                if entries_contain(dE, key@) {
                    lemma_wf_skip(dE, lower_bound(dE, key@) + 1);
                }
                assert(final(self).deep_upcoming() =~= final(self).deep_suffix());
                assert(final(self).shallow_upcoming() =~= old(self).shallow_upcoming().skip(
                    if old(self).pend_s() is Some {
                        1int
                    } else {
                        0int
                    },
                ));
                lemma_wf_skip(
                    old(self).shallow_upcoming(),
                    if old(self).pend_s() is Some {
                        1int
                    } else {
                        0int
                    },
                );
                assert forall|i: int| 0 <= i < final(self).deep_upcoming().len()
                    implies !spec_is_shallow((#[trigger] final(self).deep_upcoming()[i]).path) by {
                    let j = lower_bound(dE, key@);
                    let k = if entries_contain(dE, key@) {
                        j + 1
                    } else {
                        j
                    };
                    assert(final(self).deep_upcoming()[i] == dE[i + k]);
                }
                assert forall|i: int| 0 <= i < final(self).shallow_upcoming().len()
                    implies spec_is_shallow((#[trigger] final(self).shallow_upcoming()[i]).path) by {
                    let off: int = if old(self).pend_s() is Some {
                        1int
                    } else {
                        0int
                    };
                    assert(final(self).shallow_upcoming()[i] == old(self).shallow_upcoming()[i
                        + off]);
                }
            }
            out
        }
    }
}

} // verus!

verus! {

impl SplitAccountTrieCursor {
    /// Lower-bound seek over the union of both tables: seeks both sides,
    /// buffers both results and returns the smaller.  The hit is the first
    /// stored path at or above `key`, and no stored path lies between
    /// `key` and the hit.
    pub fn seek(&mut self, key: Nibbles) -> (r: Result<
        Option<(Nibbles, BranchNodeCompact)>,
        DatabaseError,
    >)
        requires
            old(self).wf(),
        ensures
            final(self).wf(),
            final(self).streaming(),
            final(self).shallow_rows() == old(self).shallow_rows(),
            final(self).deep_rows() == old(self).deep_rows(),
            r is Ok,
            ({
                let m = merge_entries(
                    old(self).shallow_rows().skip(lower_bound(old(self).shallow_rows(), key@)),
                    old(self).deep_rows().skip(lower_bound(old(self).deep_rows(), key@)),
                );
                &&& m.len() > 0 ==> {
                    &&& r matches Ok(Some(p)) && p.0@ == m[0].path && p.1@ == m[0].node
                    &&& final(self).upcoming() == m.skip(1)
                    &&& final(self).current_path() == Some(m[0].path)
                }
                &&& m.len() == 0 ==> {
                    &&& r matches Ok(x) && x is None
                    &&& final(self).upcoming().len() == 0
                    &&& final(self).current_path() is None
                }
            }),
            r matches Ok(Some(p)) ==> lex_le(key@, p.0@) && old(self).union_contains(p.0@) && (
            forall|q: Seq<u8>|
                old(self).union_contains(q) && lex_le(key@, q) ==> lex_le(p.0@, q)),
            (r matches Ok(x) && x is None) ==> (forall|q: Seq<u8>|
                old(self).union_contains(q) ==> lex_lt(q, key@)),
    {
        let ghost sE = old(self).shallow_rows();
        let ghost dE = old(self).deep_rows();
        let ghost js = lower_bound(sE, key@);
        let ghost jd = lower_bound(dE, key@);

        let vs = self.shallow.seek(key.clone())?;
        self.pending_shallow = vs;
        let vd = self.deep.seek(key)?;
        self.pending_deep = vd;

        let ghost mid = *self;
        proof {
            lemma_lower_bound_props(sE, key@);
            lemma_lower_bound_props(dE, key@);
            assert(mid.shallow_upcoming() =~= sE.skip(js));
            assert(mid.deep_upcoming() =~= dE.skip(jd));
            lemma_wf_skip(sE, js);
            lemma_wf_skip(dE, jd);
            assert forall|i: int| 0 <= i < mid.shallow_upcoming().len() implies spec_is_shallow(
                (#[trigger] mid.shallow_upcoming()[i]).path,
            ) by {
                assert(mid.shallow_upcoming()[i] == sE[i + js]);
            }
            assert forall|i: int| 0 <= i < mid.deep_upcoming().len() implies !spec_is_shallow(
                (#[trigger] mid.deep_upcoming()[i]).path,
            ) by {
                assert(mid.deep_upcoming()[i] == dE[i + jd]);
            }
        }
        let out = self.consume_smaller();
        proof {
            let a = mid.shallow_upcoming();
            let b = mid.deep_upcoming();
            lemma_consume_effect(mid, *self, out);
            lemma_partition_disjoint(a, b);
            lemma_merge_props(a, b);
            let m = merge_entries(a, b);
            lemma_lex_lt_irrefl(key@);
            if m.len() > 0 {
                // the returned entry is stored, at or above key, and minimal
                assert(entries_contain(m, m[0].path));
                if entries_contain(a, m[0].path) {
                    let w = choose|i: int| 0 <= i < a.len() && a[i].path == m[0].path;
                    assert(a[w] == sE[w + js]);
                    assert(entries_contain(sE, m[0].path));
                    assert(!lex_lt(sE[js].path, key@));
                    if w > 0 {
                        assert(lex_lt(a[0].path, a[w].path));
                    }
                    if lex_lt(m[0].path, key@) {
                        if w == 0 {
                        } else {
                            crate::nibbles::lemma_lex_lt_trans(sE[js].path, a[w].path, key@);
                        }
                    }
                } else {
                    let w = choose|i: int| 0 <= i < b.len() && b[i].path == m[0].path;
                    assert(b[w] == dE[w + jd]);
                    assert(entries_contain(dE, m[0].path));
                    assert(!lex_lt(dE[jd].path, key@));
                    if w > 0 {
                        assert(lex_lt(b[0].path, b[w].path));
                    }
                    if lex_lt(m[0].path, key@) {
                        if w == 0 {
                        } else {
                            crate::nibbles::lemma_lex_lt_trans(dE[jd].path, b[w].path, key@);
                        }
                    }
                }
                if !lex_lt(m[0].path, key@) && !lex_lt(key@, m[0].path) {
                    crate::nibbles::lemma_lex_connex(m[0].path, key@);
                }
                assert(lex_le(key@, m[0].path));
                // minimality over the union
                assert forall|q: Seq<u8>|
                    old(self).union_contains(q) && lex_le(key@, q) implies lex_le(
                    m[0].path,
                    q,
                ) by {
                    if entries_contain(sE, q) {
                        let w = choose|i: int| 0 <= i < sE.len() && sE[i].path == q;
                        if w < js {
                            lemma_lex_le_lt_trans(key@, q, key@);
                        } else {
                            assert(a[w - js].path == q);
                            assert(entries_contain(a, q));
                            assert(entries_contain(m, q));
                            let v = choose|i: int| 0 <= i < m.len() && m[i].path == q;
                            if v > 0 {
                                assert(lex_lt(m[0].path, m[v].path));
                            }
                        }
                    } else {
                        let w = choose|i: int| 0 <= i < dE.len() && dE[i].path == q;
                        if w < jd {
                            lemma_lex_le_lt_trans(key@, q, key@);
                        } else {
                            assert(b[w - jd].path == q);
                            assert(entries_contain(b, q));
                            assert(entries_contain(m, q));
                            let v = choose|i: int| 0 <= i < m.len() && m[i].path == q;
                            if v > 0 {
                                assert(lex_lt(m[0].path, m[v].path));
                            }
                        }
                    }
                }
            } else {
                assert(a.len() == 0 && b.len() == 0);
                assert(js == sE.len() && jd == dE.len());
                assert forall|q: Seq<u8>| old(self).union_contains(q) implies lex_lt(
                    q,
                    key@,
                ) by {
                    if entries_contain(sE, q) {
                        let w = choose|i: int| 0 <= i < sE.len() && sE[i].path == q;
                    } else {
                        let w = choose|i: int| 0 <= i < dE.len() && dE[i].path == q;
                    }
                }
            }
        }
        Ok(out)
    }

    /// Refill the slot consumed last (both on the first call) and return
    /// the smaller buffered entry: the next entry of the merged stream.
    pub fn next(&mut self) -> (r: Result<Option<(Nibbles, BranchNodeCompact)>, DatabaseError>)
        requires
            old(self).wf(),
        ensures
            final(self).wf(),
            final(self).shallow_rows() == old(self).shallow_rows(),
            final(self).deep_rows() == old(self).deep_rows(),
            r is Ok,
            old(self).streaming() ==> {
                let u = old(self).upcoming();
                &&& u.len() > 0 ==> {
                    &&& r matches Ok(Some(p)) && p.0@ == u[0].path && p.1@ == u[0].node
                    &&& final(self).streaming()
                    &&& final(self).upcoming() == u.skip(1)
                    &&& final(self).current_path() == Some(u[0].path)
                }
                &&& u.len() == 0 ==> {
                    &&& r matches Ok(x) && x is None
                    &&& final(self).streaming()
                    &&& final(self).upcoming().len() == 0
                    &&& final(self).current_path() is None
                }
            },
            old(self).after_exact_shallow() ==> {
                let u = old(self).shallow_suffix();
                &&& u.len() > 0 ==> {
                    &&& r matches Ok(Some(p)) && p.0@ == u[0].path && p.1@ == u[0].node
                    &&& final(self).after_exact_shallow()
                    &&& final(self).shallow_suffix() == u.skip(1)
                    &&& final(self).deep_suffix() == old(self).deep_suffix()
                    &&& final(self).current_path() == Some(u[0].path)
                }
                &&& u.len() == 0 ==> {
                    &&& r matches Ok(x) && x is None
                    &&& final(self).streaming()
                    &&& final(self).upcoming() == old(self).deep_suffix()
                    &&& final(self).current_path() is None
                }
            },
            old(self).after_exact_deep() ==> {
                let u = old(self).deep_suffix();
                &&& u.len() > 0 ==> {
                    &&& r matches Ok(Some(p)) && p.0@ == u[0].path && p.1@ == u[0].node
                    &&& final(self).after_exact_deep()
                    &&& final(self).deep_suffix() == u.skip(1)
                    &&& final(self).shallow_suffix() == old(self).shallow_suffix()
                    &&& final(self).current_path() == Some(u[0].path)
                }
                &&& u.len() == 0 ==> {
                    &&& r matches Ok(x) && x is None
                    &&& final(self).streaming()
                    &&& final(self).upcoming() == old(self).shallow_suffix()
                    &&& final(self).current_path() is None
                }
            },
    {
        match self.last_consumed {
            Some(CursorSource::Shallow) => {
                let v = self.shallow.next()?;
                self.pending_shallow = v;
            },
            Some(CursorSource::Deep) => {
                let v = self.deep.next()?;
                self.pending_deep = v;
            },
            None => {
                // First call to next() without a preceding seek: fill both.
                if self.pending_shallow.is_none() {
                    let v = self.shallow.next()?;
                    self.pending_shallow = v;
                }
                if self.pending_deep.is_none() {
                    let v = self.deep.next()?;
                    self.pending_deep = v;
                }
            },
        }

        let ghost mid = *self;
        proof {
            // the refill keeps each side's upcoming stream unchanged
            match old(self).last_consumed {
                Some(CursorSource::Shallow) => {
                    assert(mid.shallow_upcoming() =~= old(self).shallow_upcoming());
                    assert(mid.deep_upcoming() =~= old(self).deep_upcoming());
                },
                Some(CursorSource::Deep) => {
                    assert(mid.shallow_upcoming() =~= old(self).shallow_upcoming());
                    assert(mid.deep_upcoming() =~= old(self).deep_upcoming());
                },
                None => {
                    assert(mid.shallow_upcoming() =~= old(self).shallow_upcoming());
                    assert(mid.deep_upcoming() =~= old(self).deep_upcoming());
                },
            }
        }
        let out = self.consume_smaller();
        proof {
            if old(self).streaming() {
                lemma_consume_effect(mid, *self, out);
                let a = mid.shallow_upcoming();
                let b = mid.deep_upcoming();
                lemma_partition_disjoint(a, b);
                lemma_merge_props(a, b);
                assert(old(self).upcoming() == merge_entries(a, b));
            } else {
                // state left by seek_exact: only one side was refilled
                if old(self).after_exact_shallow() {
                    let u = old(self).shallow_suffix();
                    if u.len() > 0 {
                        assert(mid.pending_deep is None);
                        assert(final(self).shallow_upcoming() =~= u.skip(1));
                        assert(final(self).shallow_suffix() =~= u.skip(1));
                        lemma_wf_skip(u, 1);
                        assert forall|i: int| 0 <= i < u.skip(1).len() implies spec_is_shallow(
                            (#[trigger] u.skip(1)[i]).path,
                        ) by {
                            assert(u.skip(1)[i] == mid.shallow_upcoming()[i + 1]);
                        }
                    } else {
                        assert(mid.pend_s() is None && mid.pend_d() is None);
                        assert(final(self).shallow_upcoming() =~= u);
                        assert(final(self).deep_upcoming() =~= old(self).deep_suffix());
                        assert(final(self).upcoming() =~= old(self).deep_suffix());
                    }
                } else {
                    let u = old(self).deep_suffix();
                    if u.len() > 0 {
                        assert(mid.pending_shallow is None);
                        assert(final(self).deep_upcoming() =~= u.skip(1));
                        assert(final(self).deep_suffix() =~= u.skip(1));
                        lemma_wf_skip(u, 1);
                        assert forall|i: int| 0 <= i < u.skip(1).len() implies !spec_is_shallow(
                            (#[trigger] u.skip(1)[i]).path,
                        ) by {
                            assert(u.skip(1)[i] == mid.deep_upcoming()[i + 1]);
                        }
                    } else {
                        assert(mid.pend_s() is None && mid.pend_d() is None);
                        assert(final(self).deep_upcoming() =~= u);
                        assert(final(self).shallow_upcoming() =~= old(self).shallow_suffix());
                        assert(final(self).upcoming() =~= old(self).shallow_suffix());
                    }
                }
            }
        }
        Ok(out)
    }

    /// Path of the entry returned last, `None` before the first hit.
    pub fn current(&mut self) -> (r: Result<Option<Nibbles>, DatabaseError>)
        requires
            old(self).wf(),
        ensures
            *final(self) == *old(self),
            r matches Ok(x) && (x is Some <==> old(self).current_path() is Some),
            r matches Ok(x) ==> (x matches Some(p) ==> old(self).current_path() == Some(p@)),
    {
        match self.last_consumed {
            Some(CursorSource::Shallow) => self.shallow.current(),
            Some(CursorSource::Deep) => self.deep.current(),
            None => Ok(None),
        }
    }

    /// Clear the merge state: both pending slots and the last-consumed
    /// tag.  The underlying tables and cursor positions are untouched.
    pub fn reset(&mut self)
        requires
            old(self).wf(),
        ensures
            final(self).wf(),
            final(self).streaming(),
            final(self).shallow_rows() == old(self).shallow_rows(),
            final(self).deep_rows() == old(self).deep_rows(),
            final(self).shallow_suffix() == old(self).shallow_suffix(),
            final(self).deep_suffix() == old(self).deep_suffix(),
            final(self).upcoming() == merge_entries(
                old(self).shallow_suffix(),
                old(self).deep_suffix(),
            ),
            final(self).current_path() is None,
    {
        self.pending_shallow = None;
        self.pending_deep = None;
        self.last_consumed = None;
        proof {
            assert(final(self).shallow_upcoming() =~= old(self).shallow_suffix());
            assert(final(self).deep_upcoming() =~= old(self).deep_suffix());
            let offs: int = if old(self).pend_s() is Some {
                1int
            } else {
                0int
            };
            let offd: int = if old(self).pend_d() is Some {
                1int
            } else {
                0int
            };
            assert(final(self).shallow_upcoming() =~= old(self).shallow_upcoming().skip(offs));
            assert(final(self).deep_upcoming() =~= old(self).deep_upcoming().skip(offd));
            lemma_wf_skip(old(self).shallow_upcoming(), offs);
            lemma_wf_skip(old(self).deep_upcoming(), offd);
            assert forall|i: int| 0 <= i < final(self).shallow_upcoming().len()
                implies spec_is_shallow((#[trigger] final(self).shallow_upcoming()[i]).path) by {
                assert(final(self).shallow_upcoming()[i] == old(self).shallow_upcoming()[i + offs]);
            }
            assert forall|i: int| 0 <= i < final(self).deep_upcoming().len()
                implies !spec_is_shallow((#[trigger] final(self).deep_upcoming()[i]).path) by {
                assert(final(self).deep_upcoming()[i] == old(self).deep_upcoming()[i + offd]);
            }
        }
    }
}

} // verus!

use crate::storage_cursor::SplitStorageTrieCursor;
use crate::storage_table::StorageTableCursor;
use crate::store::{clone_account_table, clone_storage_table, TrieTables};
use crate::node::HashedAddress;

verus! {

/// Wrapper around one transaction's tables that builds split trie cursors.
#[derive(Debug)]
pub struct DatabaseTrieCursorFactory(TrieTables);

impl DatabaseTrieCursorFactory {
    /// Contents of the shallow account trie table.
    pub closed spec fn accounts_shallow(self) -> Seq<TrieEntryV> {
        self.0.accounts_shallow()
    }

    /// Contents of the deep account trie table.
    pub closed spec fn accounts_deep(self) -> Seq<TrieEntryV> {
        self.0.accounts_deep()
    }

    /// Contents of the shallow storage trie table.
    pub closed spec fn storages_shallow(self) -> Seq<crate::storage_table::StorageRowV> {
        self.0.storages_shallow()
    }

    /// Contents of the deep storage trie table.
    pub closed spec fn storages_deep(self) -> Seq<crate::storage_table::StorageRowV> {
        self.0.storages_deep()
    }

    pub closed spec fn wf(self) -> bool {
        self.0.wf()
    }

    /// Create new [`DatabaseTrieCursorFactory`] over a transaction's
    /// tables.
    pub fn new(tx: TrieTables) -> (r: Self)
        ensures
            tx.wf() ==> r.wf(),
            r.accounts_shallow() == tx.accounts_shallow(),
            r.accounts_deep() == tx.accounts_deep(),
            r.storages_shallow() == tx.storages_shallow(),
            r.storages_deep() == tx.storages_deep(),
    {
        DatabaseTrieCursorFactory(tx)
    }

    /// Open a fresh split cursor over the two account trie tables.
    pub fn account_trie_cursor(&self) -> (r: Result<SplitAccountTrieCursor, DatabaseError>)
        requires
            self.wf(),
        ensures
            r is Ok,
            r matches Ok(c) ==> {
                &&& c.wf()
                &&& c.streaming()
                &&& c.shallow_rows() == self.accounts_shallow()
                &&& c.deep_rows() == self.accounts_deep()
                &&& c.shallow_suffix() == self.accounts_shallow()
                &&& c.deep_suffix() == self.accounts_deep()
                &&& c.upcoming() == merge_entries(self.accounts_shallow(), self.accounts_deep())
                &&& c.current_path() is None
            },
    {
        let shallow = AccountTableCursor::new(clone_account_table(&self.0.accounts_trie_shallow));
        let deep = AccountTableCursor::new(clone_account_table(&self.0.accounts_trie));
        proof {
            assert(shallow.suffix() =~= shallow.rows());
            assert(deep.suffix() =~= deep.rows());
        }
        Ok(SplitAccountTrieCursor::new(shallow, deep))
    }

    /// Open a fresh split cursor over the two storage trie tables, bound
    /// to `hashed_address`.
    pub fn storage_trie_cursor(&self, hashed_address: HashedAddress) -> (r: Result<
        SplitStorageTrieCursor,
        DatabaseError,
    >)
        requires
            self.wf(),
        ensures
            r is Ok,
            r matches Ok(c) ==> {
                &&& c.wf()
                &&& c.streaming()
                &&& c.shallow_rows() == self.storages_shallow()
                &&& c.deep_rows() == self.storages_deep()
                &&& c.bound() == hashed_address@
                &&& c.upcoming().len() == 0
                &&& c.current_path() is None
            },
    {
        let shallow = StorageTableCursor::new(clone_storage_table(&self.0.storages_trie_shallow));
        let deep = StorageTableCursor::new(clone_storage_table(&self.0.storages_trie));
        let c = SplitStorageTrieCursor::new(shallow, deep, hashed_address);
        Ok(c)
    }
}

} // verus!

use crate::table::entries_sorted;
use crate::table::table_map;
use crate::write_routing::routed_lookup;

verus! {

/// Full forward traversal yields the sorted union: after a seek on the
/// empty path the stream ahead of the cursor is the merge of both whole
/// tables, which is strictly ascending and holds exactly the stored paths
/// of both tables, each once.
pub proof fn lemma_full_traversal_is_sorted_union(c: SplitAccountTrieCursor)
    requires
        c.wf(),
    ensures
        lower_bound(c.shallow_rows(), Seq::<u8>::empty()) == 0,
        lower_bound(c.deep_rows(), Seq::<u8>::empty()) == 0,
        c.shallow_rows().skip(0) == c.shallow_rows(),
        c.deep_rows().skip(0) == c.deep_rows(),
        entries_sorted(merge_entries(c.shallow_rows(), c.deep_rows())),
        merge_entries(c.shallow_rows(), c.deep_rows()).len() == c.shallow_rows().len()
            + c.deep_rows().len(),
        forall|p: Seq<u8>| #[trigger]
            entries_contain(merge_entries(c.shallow_rows(), c.deep_rows()), p)
                <==> c.union_contains(p),
{
    assert(c.shallow_rows().skip(0) =~= c.shallow_rows());
    assert(c.deep_rows().skip(0) =~= c.deep_rows());
    lemma_partition_disjoint(c.shallow_rows(), c.deep_rows());
    lemma_merge_props(c.shallow_rows(), c.deep_rows());
}

/// `reset` behaves as a fresh cursor for the repositioning operations:
/// the outcome of `seek` and `seek_exact` is a function of the table
/// contents and the key alone, so two cursors over the same tables — one
/// freshly built, one just reset — get the same results, and both answer
/// `current` with `None`.
pub proof fn lemma_reset_is_fresh_for_seeks(
    c1: SplitAccountTrieCursor,
    c2: SplitAccountTrieCursor,
    key: Seq<u8>,
)
    requires
        c1.shallow_rows() == c2.shallow_rows(),
        c1.deep_rows() == c2.deep_rows(),
    ensures
        merge_entries(
            c1.shallow_rows().skip(lower_bound(c1.shallow_rows(), key)),
            c1.deep_rows().skip(lower_bound(c1.deep_rows(), key)),
        ) == merge_entries(
            c2.shallow_rows().skip(lower_bound(c2.shallow_rows(), key)),
            c2.deep_rows().skip(lower_bound(c2.deep_rows(), key)),
        ),
        c1.union_contains(key) == c2.union_contains(key),
        c1.union_lookup(key) == c2.union_lookup(key),
{
}

/// The node the split cursor's exact seek returns is the depth-routed
/// lookup in the two table maps: what the write router's round-trip law
/// speaks about.
pub proof fn lemma_union_lookup_is_routed(c: SplitAccountTrieCursor, p: Seq<u8>)
    requires
        c.wf(),
    ensures
        c.union_lookup(p) == routed_lookup(
            table_map(c.shallow_rows()),
            table_map(c.deep_rows()),
            p,
        ),
        c.union_contains(p) == (table_map(c.shallow_rows()).dom().contains(p) || table_map(
            c.deep_rows(),
        ).dom().contains(p)),
{
    if entries_contain(c.shallow_rows(), p) {
        let w = choose|i: int| 0 <= i < c.shallow_rows().len() && c.shallow_rows()[i].path == p;
        assert(spec_is_shallow(p));
    }
    if entries_contain(c.deep_rows(), p) {
        let w = choose|i: int| 0 <= i < c.deep_rows().len() && c.deep_rows()[i].path == p;
        assert(!spec_is_shallow(p));
    }
}

} // verus!
