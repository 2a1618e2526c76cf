//! The transaction-scoped store: the four trie tables that the cursor
//! factory reads and the write router fills.

use vstd::prelude::*;
use crate::merge::{deep_only, shallow_only};
use crate::storage_table::{rows_deep_only, rows_shallow_only, rows_view, rows_wf, StorageRow, StorageRowV};
use crate::table::{entries_view, entries_wf, TrieEntryV, TrieNodeEntry};

verus! {

/// The four trie tables of one transaction: the account trie and the
/// per-account storage tries, each split into a shallow and a deep table
/// by path depth.
#[derive(Debug)]
pub struct TrieTables {
    pub(crate) accounts_trie_shallow: Vec<TrieNodeEntry>,
    pub(crate) accounts_trie: Vec<TrieNodeEntry>,
    pub(crate) storages_trie_shallow: Vec<StorageRow>,
    pub(crate) storages_trie: Vec<StorageRow>,
}

impl TrieTables {
    /// Contents of the shallow account trie table.
    pub open(crate) spec fn accounts_shallow(self) -> Seq<TrieEntryV> {
        entries_view(self.accounts_trie_shallow@)
    }

    /// Contents of the deep account trie table.
    pub open(crate) spec fn accounts_deep(self) -> Seq<TrieEntryV> {
        entries_view(self.accounts_trie@)
    }

    /// Contents of the shallow storage trie table.
    pub open(crate) spec fn storages_shallow(self) -> Seq<StorageRowV> {
        rows_view(self.storages_trie_shallow@)
    }

    /// Contents of the deep storage trie table.
    pub open(crate) spec fn storages_deep(self) -> Seq<StorageRowV> {
        rows_view(self.storages_trie@)
    }

    /// Partitioning invariant of the store: each table sorted, and every
    /// path in exactly the table its depth selects.
    pub open spec fn wf(self) -> bool {
        &&& entries_wf(self.accounts_shallow())
        &&& entries_wf(self.accounts_deep())
        &&& shallow_only(self.accounts_shallow())
        &&& deep_only(self.accounts_deep())
        &&& rows_wf(self.storages_shallow())
        &&& rows_wf(self.storages_deep())
        &&& rows_shallow_only(self.storages_shallow())
        &&& rows_deep_only(self.storages_deep())
    }

    /// An empty store.
    pub fn new() -> (r: Self)
        ensures
            r.wf(),
            r.accounts_shallow().len() == 0,
            r.accounts_deep().len() == 0,
            r.storages_shallow().len() == 0,
            r.storages_deep().len() == 0,
    {
        let r = TrieTables {
            accounts_trie_shallow: Vec::new(),
            accounts_trie: Vec::new(),
            storages_trie_shallow: Vec::new(),
            storages_trie: Vec::new(),
        };
        proof {
            assert(r.accounts_shallow() =~= Seq::<TrieEntryV>::empty());
            assert(r.accounts_deep() =~= Seq::<TrieEntryV>::empty());
            assert(r.storages_shallow() =~= Seq::<StorageRowV>::empty());
            assert(r.storages_deep() =~= Seq::<StorageRowV>::empty());
        }
        r
    }
}

impl Default for TrieTables {
    fn default() -> (r: Self)
        ensures
            r.wf(),
            r.accounts_shallow().len() == 0,
            r.accounts_deep().len() == 0,
            r.storages_shallow().len() == 0,
            r.storages_deep().len() == 0,
    {
        TrieTables::new()
    }
}

/// Copy a plain trie table, entry by entry.
pub(crate) fn clone_account_table(v: &Vec<TrieNodeEntry>) -> (r: Vec<TrieNodeEntry>)
    ensures
        entries_view(r@) == entries_view(v@),
{
    let r = v.clone();
    proof {
        assert(entries_view(r@) =~= entries_view(v@));
    }
    r
}

/// Copy a storage trie table, row by row.
pub(crate) fn clone_storage_table(v: &Vec<StorageRow>) -> (r: Vec<StorageRow>)
    ensures
        rows_view(r@) == rows_view(v@),
{
    let r = v.clone();
    proof {
        assert(rows_view(r@) =~= rows_view(v@));
    }
    r
}

} // verus!
