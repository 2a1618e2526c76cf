//! Write routing for trie updates: each updated node goes to the table its
//! path depth selects, with delete-then-upsert semantics, plus the
//! full-table clear helpers used at a staged-sync rebuild.

use vstd::prelude::*;
use crate::constants::{spec_is_shallow, SHALLOW_TRIE_DEPTH};
use crate::merge::{deep_only, shallow_only};
use crate::nibbles::{path_wf, Nibbles};
use crate::node::{BranchNodeCompact, BranchNodeView, HashedAddress};
use crate::storage_table::{
    map_clear_hash, rows_contain, rows_deep_only, rows_map, rows_shallow_only,
    storage_clear_hash, storage_remove, storage_upsert, StorageRowV,
};
use crate::store::TrieTables;
use crate::table::{
    entries_contain, table_map, table_remove, table_upsert, DatabaseError, TrieEntryV,
};

verus! {

/// Sorted account trie updates: `None` deletes the path, `Some` upserts
/// it.
#[derive(Debug)]
pub struct TrieUpdatesSorted {
    pub account_nodes: Vec<(Nibbles, Option<BranchNodeCompact>)>,
}

/// Sorted storage trie updates of one account.  `is_deleted` asks for the
/// whole storage trie to be cleared before the per-node updates apply.
#[derive(Debug)]
pub struct StorageTrieUpdatesSorted {
    pub is_deleted: bool,
    pub storage_nodes: Vec<(Nibbles, Option<BranchNodeCompact>)>,
}

impl StorageTrieUpdatesSorted {
    /// Whether the whole storage trie of the account is deleted.
    pub fn is_deleted(&self) -> (r: bool)
        ensures
            r == self.is_deleted,
    {
        self.is_deleted
    }
}

/// Mathematical value of an update batch.
pub open spec fn updates_view(u: Seq<(Nibbles, Option<BranchNodeCompact>)>) -> Seq<
    (Seq<u8>, Option<BranchNodeView>),
> {
    Seq::new(
        u.len(),
        |i: int|
            (
                u[i].0@,
                match u[i].1 {
                    Some(n) => Some(n@),
                    None => None,
                },
            ),
    )
}

/// Every path of the batch is well formed.
pub open spec fn updates_wf(u: Seq<(Seq<u8>, Option<BranchNodeView>)>) -> bool {
    forall|i: int| 0 <= i < u.len() ==> path_wf((#[trigger] u[i]).0)
}

/// Number of update entries with a non-empty path: the count the routers
/// return, deletions included.
pub open spec fn count_nonempty(u: Seq<(Seq<u8>, Option<BranchNodeView>)>) -> int
    decreases u.len(),
{
    if u.len() == 0 {
        0
    } else {
        count_nonempty(u.drop_last()) + if u.last().0.len() > 0 {
            1int
        } else {
            0int
        }
    }
}

/// One account update applied to the pair of table maps.
pub open spec fn apply_account_update_one(
    sm: Map<Seq<u8>, BranchNodeView>,
    dm: Map<Seq<u8>, BranchNodeView>,
    up: (Seq<u8>, Option<BranchNodeView>),
) -> (Map<Seq<u8>, BranchNodeView>, Map<Seq<u8>, BranchNodeView>) {
    if up.0.len() == 0 {
        (sm, dm)
    } else if spec_is_shallow(up.0) {
        match up.1 {
            Some(n) => (sm.insert(up.0, n), dm),
            None => (sm.remove(up.0), dm),
        }
    } else {
        match up.1 {
            Some(n) => (sm, dm.insert(up.0, n)),
            None => (sm, dm.remove(up.0)),
        }
    }
}

/// A batch of account updates applied in order to the pair of table maps.
pub open spec fn apply_account_updates(
    sm: Map<Seq<u8>, BranchNodeView>,
    dm: Map<Seq<u8>, BranchNodeView>,
    ups: Seq<(Seq<u8>, Option<BranchNodeView>)>,
) -> (Map<Seq<u8>, BranchNodeView>, Map<Seq<u8>, BranchNodeView>)
    decreases ups.len(),
{
    if ups.len() == 0 {
        (sm, dm)
    } else {
        let prev = apply_account_updates(sm, dm, ups.drop_last());
        apply_account_update_one(prev.0, prev.1, ups.last())
    }
}

/// One storage update of account `h` applied to the pair of row maps.
pub open spec fn apply_storage_update_one(
    sm: Map<(Seq<u8>, Seq<u8>), BranchNodeView>,
    dm: Map<(Seq<u8>, Seq<u8>), BranchNodeView>,
    h: Seq<u8>,
    up: (Seq<u8>, Option<BranchNodeView>),
) -> (Map<(Seq<u8>, Seq<u8>), BranchNodeView>, Map<(Seq<u8>, Seq<u8>), BranchNodeView>) {
    if up.0.len() == 0 {
        (sm, dm)
    } else if spec_is_shallow(up.0) {
        match up.1 {
            Some(n) => (sm.insert((h, up.0), n), dm),
            None => (sm.remove((h, up.0)), dm),
        }
    } else {
        match up.1 {
            Some(n) => (sm, dm.insert((h, up.0), n)),
            None => (sm, dm.remove((h, up.0))),
        }
    }
}

/// A batch of storage updates of account `h` applied in order.
pub open spec fn apply_storage_updates(
    sm: Map<(Seq<u8>, Seq<u8>), BranchNodeView>,
    dm: Map<(Seq<u8>, Seq<u8>), BranchNodeView>,
    h: Seq<u8>,
    ups: Seq<(Seq<u8>, Option<BranchNodeView>)>,
) -> (Map<(Seq<u8>, Seq<u8>), BranchNodeView>, Map<(Seq<u8>, Seq<u8>), BranchNodeView>)
    decreases ups.len(),
{
    if ups.len() == 0 {
        (sm, dm)
    } else {
        let prev = apply_storage_updates(sm, dm, h, ups.drop_last());
        apply_storage_update_one(prev.0, prev.1, h, ups.last())
    }
}

/// Lookup routed by path depth, as the split read cursor performs it.
pub open spec fn routed_lookup(
    sm: Map<Seq<u8>, BranchNodeView>,
    dm: Map<Seq<u8>, BranchNodeView>,
    p: Seq<u8>,
) -> Option<BranchNodeView> {
    if spec_is_shallow(p) {
        if sm.dom().contains(p) {
            Some(sm[p])
        } else {
            None
        }
    } else {
        if dm.dom().contains(p) {
            Some(dm[p])
        } else {
            None
        }
    }
}

/// A table whose paths are all shallow keeps that property when its map
/// only gains the shallow path `p`.
proof fn lemma_shallow_only_preserved(
    pre: Seq<TrieEntryV>,
    post: Seq<TrieEntryV>,
    newp: Seq<u8>,
)
    requires
        shallow_only(pre),
        spec_is_shallow(newp),
        forall|q: Seq<u8>| #[trigger]
            entries_contain(post, q) ==> entries_contain(pre, q) || q == newp,
    ensures
        shallow_only(post),
{
    assert forall|i: int| 0 <= i < post.len() implies spec_is_shallow(
        (#[trigger] post[i]).path,
    ) by {
        assert(entries_contain(post, post[i].path));
        if entries_contain(pre, post[i].path) {
            let w = choose|k: int| 0 <= k < pre.len() && pre[k].path == post[i].path;
        }
    }
}

/// The deep twin of `lemma_shallow_only_preserved`.
proof fn lemma_deep_only_preserved(pre: Seq<TrieEntryV>, post: Seq<TrieEntryV>, newp: Seq<u8>)
    requires
        deep_only(pre),
        !spec_is_shallow(newp),
        forall|q: Seq<u8>| #[trigger]
            entries_contain(post, q) ==> entries_contain(pre, q) || q == newp,
    ensures
        deep_only(post),
{
    assert forall|i: int| 0 <= i < post.len() implies !spec_is_shallow(
        (#[trigger] post[i]).path,
    ) by {
        assert(entries_contain(post, post[i].path));
        if entries_contain(pre, post[i].path) {
            let w = choose|k: int| 0 <= k < pre.len() && pre[k].path == post[i].path;
        }
    }
}

/// A storage table whose paths are all shallow keeps that property when
/// its map only gains pairs with the shallow path `newp`.
proof fn lemma_rows_shallow_only_preserved(
    pre: Seq<StorageRowV>,
    post: Seq<StorageRowV>,
    newp: Seq<u8>,
)
    requires
        rows_shallow_only(pre),
        spec_is_shallow(newp),
        forall|h: Seq<u8>, q: Seq<u8>| #[trigger]
            rows_contain(post, h, q) ==> rows_contain(pre, h, q) || q == newp,
    ensures
        rows_shallow_only(post),
{
    assert forall|i: int| 0 <= i < post.len() implies spec_is_shallow(
        (#[trigger] post[i]).entry.path,
    ) by {
        assert(rows_contain(post, post[i].hash, post[i].entry.path));
        if rows_contain(pre, post[i].hash, post[i].entry.path) {
            let w = choose|k: int|
                0 <= k < pre.len() && (#[trigger] pre[k]).hash == post[i].hash && pre[k].entry.path
                    == post[i].entry.path;
        }
    }
}

/// The deep twin of `lemma_rows_shallow_only_preserved`.
proof fn lemma_rows_deep_only_preserved(
    pre: Seq<StorageRowV>,
    post: Seq<StorageRowV>,
    newp: Seq<u8>,
)
    requires
        rows_deep_only(pre),
        !spec_is_shallow(newp),
        forall|h: Seq<u8>, q: Seq<u8>| #[trigger]
            rows_contain(post, h, q) ==> rows_contain(pre, h, q) || q == newp,
    ensures
        rows_deep_only(post),
{
    assert forall|i: int| 0 <= i < post.len() implies !spec_is_shallow(
        (#[trigger] post[i]).entry.path,
    ) by {
        assert(rows_contain(post, post[i].hash, post[i].entry.path));
        if rows_contain(pre, post[i].hash, post[i].entry.path) {
            let w = choose|k: int|
                0 <= k < pre.len() && (#[trigger] pre[k]).hash == post[i].hash && pre[k].entry.path
                    == post[i].entry.path;
        }
    }
}

/// Write sorted account trie updates, routing each node to the table
/// selected by its nibble path depth, with delete-then-upsert.  Empty
/// paths are skipped; the returned count is the number of non-empty
/// update entries, deletions included.
pub fn write_account_trie_updates_split(tx: &mut TrieTables, updates: &TrieUpdatesSorted) -> (r:
    Result<usize, DatabaseError>)
    requires
        old(tx).wf(),
        updates_wf(updates_view(updates.account_nodes@)),
    ensures
        final(tx).wf(),
        r is Ok,
        ({
            let applied = apply_account_updates(
                table_map(old(tx).accounts_shallow()),
                table_map(old(tx).accounts_deep()),
                updates_view(updates.account_nodes@),
            );
            &&& table_map(final(tx).accounts_shallow()) == applied.0
            &&& table_map(final(tx).accounts_deep()) == applied.1
        }),
        r matches Ok(c) ==> c as int == count_nonempty(updates_view(updates.account_nodes@)),
        final(tx).storages_shallow() == old(tx).storages_shallow(),
        final(tx).storages_deep() == old(tx).storages_deep(),
{
    let ghost uv = updates_view(updates.account_nodes@);
    let ghost sm0 = table_map(old(tx).accounts_shallow());
    let ghost dm0 = table_map(old(tx).accounts_deep());
    let n = updates.account_nodes.len();
    let mut num_entries: usize = 0;
    let mut i: usize = 0;
    while i < n
        invariant
            n == updates.account_nodes@.len(),
            uv == updates_view(updates.account_nodes@),
            updates_wf(uv),
            i <= n,
            num_entries <= i,
            num_entries as int == count_nonempty(uv.take(i as int)),
            tx.wf(),
            table_map(tx.accounts_shallow()) == apply_account_updates(
                sm0,
                dm0,
                uv.take(i as int),
            ).0,
            table_map(tx.accounts_deep()) == apply_account_updates(sm0, dm0, uv.take(i as int)).1,
            tx.storages_shallow() == old(tx).storages_shallow(),
            tx.storages_deep() == old(tx).storages_deep(),
        decreases n - i,
    {
        proof {
            assert(uv.take(i as int + 1).drop_last() =~= uv.take(i as int));
            assert(uv.take(i as int + 1).last() == uv[i as int]);
        }
        let up = &updates.account_nodes[i];
        if up.0.is_empty() {
            // Empty paths are never stored: skip without counting.
        } else {
            num_entries = num_entries + 1;
            let ghost pre_s = table_map(tx.accounts_shallow());
            let ghost pre_d = table_map(tx.accounts_deep());
            let ghost pre_sv = tx.accounts_shallow();
            let ghost pre_dv = tx.accounts_deep();
            if up.0.len() <= SHALLOW_TRIE_DEPTH {
                // delete any prior entry, then insert the update
                table_remove(&mut tx.accounts_trie_shallow, &up.0);
                match &up.1 {
                    Some(node) => {
                        table_upsert(&mut tx.accounts_trie_shallow, &up.0, node);
                        proof {
                            assert(table_map(tx.accounts_shallow()) =~= pre_s.insert(
                                up.0@,
                                uv[i as int].1->0,
                            ));
                            assert forall|q: Seq<u8>| #[trigger]
                                entries_contain(tx.accounts_shallow(), q) implies entries_contain(
                                pre_sv,
                                q,
                            ) || q == up.0@ by {
                                assert(table_map(tx.accounts_shallow()).dom().contains(q));
                            }
                            lemma_shallow_only_preserved(pre_sv, tx.accounts_shallow(), up.0@);
                        }
                    },
                    None => {
                        proof {
                            assert forall|q: Seq<u8>| #[trigger]
                                entries_contain(tx.accounts_shallow(), q) implies entries_contain(
                                pre_sv,
                                q,
                            ) || q == up.0@ by {
                                assert(table_map(tx.accounts_shallow()).dom().contains(q));
                            }
                            lemma_shallow_only_preserved(pre_sv, tx.accounts_shallow(), up.0@);
                        }
                    },
                }
            } else {
                table_remove(&mut tx.accounts_trie, &up.0);
                match &up.1 {
                    Some(node) => {
                        table_upsert(&mut tx.accounts_trie, &up.0, node);
                        proof {
                            assert(table_map(tx.accounts_deep()) =~= pre_d.insert(
                                up.0@,
                                uv[i as int].1->0,
                            ));
                            assert forall|q: Seq<u8>| #[trigger]
                                entries_contain(tx.accounts_deep(), q) implies entries_contain(
                                pre_dv,
                                q,
                            ) || q == up.0@ by {
                                assert(table_map(tx.accounts_deep()).dom().contains(q));
                            }
                            lemma_deep_only_preserved(pre_dv, tx.accounts_deep(), up.0@);
                        }
                    },
                    None => {
                        proof {
                            assert forall|q: Seq<u8>| #[trigger]
                                entries_contain(tx.accounts_deep(), q) implies entries_contain(
                                pre_dv,
                                q,
                            ) || q == up.0@ by {
                                assert(table_map(tx.accounts_deep()).dom().contains(q));
                            }
                            lemma_deep_only_preserved(pre_dv, tx.accounts_deep(), up.0@);
                        }
                    },
                }
            }
        }
        i = i + 1;
    }
    proof {
        assert(uv.take(n as int) =~= uv);
    }
    Ok(num_entries)
}

/// Write sorted storage trie updates for one account, routing each node
/// to the table selected by its path depth.  A batch marked deleted first
/// clears every duplicate of the account from both tables.
pub fn write_storage_trie_updates_split(
    tx: &mut TrieTables,
    hashed_address: HashedAddress,
    updates: &StorageTrieUpdatesSorted,
) -> (r: Result<usize, DatabaseError>)
    requires
        old(tx).wf(),
        updates_wf(updates_view(updates.storage_nodes@)),
    ensures
        final(tx).wf(),
        r is Ok,
        ({
            let base_s = if updates.is_deleted {
                map_clear_hash(rows_map(old(tx).storages_shallow()), hashed_address@)
            } else {
                rows_map(old(tx).storages_shallow())
            };
            let base_d = if updates.is_deleted {
                map_clear_hash(rows_map(old(tx).storages_deep()), hashed_address@)
            } else {
                rows_map(old(tx).storages_deep())
            };
            let applied = apply_storage_updates(
                base_s,
                base_d,
                hashed_address@,
                updates_view(updates.storage_nodes@),
            );
            &&& rows_map(final(tx).storages_shallow()) == applied.0
            &&& rows_map(final(tx).storages_deep()) == applied.1
        }),
        r matches Ok(c) ==> c as int == count_nonempty(updates_view(updates.storage_nodes@)),
        final(tx).accounts_shallow() == old(tx).accounts_shallow(),
        final(tx).accounts_deep() == old(tx).accounts_deep(),
{
    let ghost uv = updates_view(updates.storage_nodes@);
    // If the entire storage trie for this account is deleted, clear both
    // tables of its duplicates first.
    if updates.is_deleted() {
        let ghost pre_sv = tx.storages_shallow();
        let ghost pre_dv = tx.storages_deep();
        storage_clear_hash(&mut tx.storages_trie_shallow, &hashed_address);
        storage_clear_hash(&mut tx.storages_trie, &hashed_address);
        proof {
            assert forall|h: Seq<u8>, q: Seq<u8>| #[trigger]
                rows_contain(tx.storages_shallow(), h, q) implies rows_contain(pre_sv, h, q) || q
                == Seq::<u8>::empty() by {
                let m = map_clear_hash(rows_map(pre_sv), hashed_address@);
                assert(m.dom().contains((h, q)));
            }
            lemma_rows_shallow_only_preserved(
                pre_sv,
                tx.storages_shallow(),
                Seq::<u8>::empty(),
            );
            assert forall|h: Seq<u8>, q: Seq<u8>| #[trigger]
                rows_contain(tx.storages_deep(), h, q) implies rows_contain(pre_dv, h, q) by {
                let m = map_clear_hash(rows_map(pre_dv), hashed_address@);
                assert(m.dom().contains((h, q)));
            }
            assert forall|i: int| 0 <= i < tx.storages_deep().len() implies !spec_is_shallow(
                (#[trigger] tx.storages_deep()[i]).entry.path,
            ) by {
                let s = tx.storages_deep();
                assert(rows_contain(s, s[i].hash, s[i].entry.path));
                let w = choose|k: int|
                    0 <= k < pre_dv.len() && (#[trigger] pre_dv[k]).hash == s[i].hash
                        && pre_dv[k].entry.path == s[i].entry.path;
            }
        }
    }
    let ghost sm0 = rows_map(tx.storages_shallow());
    let ghost dm0 = rows_map(tx.storages_deep());

    let n = updates.storage_nodes.len();
    let mut num_entries: usize = 0;
    let mut i: usize = 0;
    while i < n
        invariant
            n == updates.storage_nodes@.len(),
            uv == updates_view(updates.storage_nodes@),
            updates_wf(uv),
            i <= n,
            num_entries <= i,
            num_entries as int == count_nonempty(uv.take(i as int)),
            tx.wf(),
            rows_map(tx.storages_shallow()) == apply_storage_updates(
                sm0,
                dm0,
                hashed_address@,
                uv.take(i as int),
            ).0,
            rows_map(tx.storages_deep()) == apply_storage_updates(
                sm0,
                dm0,
                hashed_address@,
                uv.take(i as int),
            ).1,
            tx.accounts_shallow() == old(tx).accounts_shallow(),
            tx.accounts_deep() == old(tx).accounts_deep(),
        decreases n - i,
    {
        proof {
            assert(uv.take(i as int + 1).drop_last() =~= uv.take(i as int));
            assert(uv.take(i as int + 1).last() == uv[i as int]);
        }
        let up = &updates.storage_nodes[i];
        if up.0.is_empty() {
            // Empty paths are never stored: skip without counting.
        } else {
            num_entries = num_entries + 1;
            let ghost pre_s = rows_map(tx.storages_shallow());
            let ghost pre_d = rows_map(tx.storages_deep());
            let ghost pre_sv = tx.storages_shallow();
            let ghost pre_dv = tx.storages_deep();
            if up.0.len() <= SHALLOW_TRIE_DEPTH {
                storage_remove(&mut tx.storages_trie_shallow, &hashed_address, &up.0);
                match &up.1 {
                    Some(node) => {
                        storage_upsert(&mut tx.storages_trie_shallow, &hashed_address, &up.0, node);
                        proof {
                            assert(rows_map(tx.storages_shallow()) =~= pre_s.insert(
                                (hashed_address@, up.0@),
                                uv[i as int].1->0,
                            ));
                            assert forall|h: Seq<u8>, q: Seq<u8>| #[trigger]
                                rows_contain(tx.storages_shallow(), h, q) implies rows_contain(
                                pre_sv,
                                h,
                                q,
                            ) || q == up.0@ by {
                                assert(rows_map(tx.storages_shallow()).dom().contains((h, q)));
                            }
                            lemma_rows_shallow_only_preserved(
                                pre_sv,
                                tx.storages_shallow(),
                                up.0@,
                            );
                        }
                    },
                    None => {
                        proof {
                            assert forall|h: Seq<u8>, q: Seq<u8>| #[trigger]
                                rows_contain(tx.storages_shallow(), h, q) implies rows_contain(
                                pre_sv,
                                h,
                                q,
                            ) || q == up.0@ by {
                                assert(rows_map(tx.storages_shallow()).dom().contains((h, q)));
                            }
                            lemma_rows_shallow_only_preserved(
                                pre_sv,
                                tx.storages_shallow(),
                                up.0@,
                            );
                        }
                    },
                }
            } else {
                storage_remove(&mut tx.storages_trie, &hashed_address, &up.0);
                match &up.1 {
                    Some(node) => {
                        storage_upsert(&mut tx.storages_trie, &hashed_address, &up.0, node);
                        proof {
                            assert(rows_map(tx.storages_deep()) =~= pre_d.insert(
                                (hashed_address@, up.0@),
                                uv[i as int].1->0,
                            ));
                            assert forall|h: Seq<u8>, q: Seq<u8>| #[trigger]
                                rows_contain(tx.storages_deep(), h, q) implies rows_contain(
                                pre_dv,
                                h,
                                q,
                            ) || q == up.0@ by {
                                assert(rows_map(tx.storages_deep()).dom().contains((h, q)));
                            }
                            lemma_rows_deep_only_preserved(pre_dv, tx.storages_deep(), up.0@);
                        }
                    },
                    None => {
                        proof {
                            assert forall|h: Seq<u8>, q: Seq<u8>| #[trigger]
                                rows_contain(tx.storages_deep(), h, q) implies rows_contain(
                                pre_dv,
                                h,
                                q,
                            ) || q == up.0@ by {
                                assert(rows_map(tx.storages_deep()).dom().contains((h, q)));
                            }
                            lemma_rows_deep_only_preserved(pre_dv, tx.storages_deep(), up.0@);
                        }
                    },
                }
            }
        }
        i = i + 1;
    }
    proof {
        assert(uv.take(n as int) =~= uv);
    }
    Ok(num_entries)
}

/// Clear both shallow and deep account trie tables, for a full rebuild.
pub fn clear_account_trie_tables(tx: &mut TrieTables) -> (r: Result<(), DatabaseError>)
    requires
        old(tx).wf(),
    ensures
        final(tx).wf(),
        r is Ok,
        final(tx).accounts_shallow().len() == 0,
        final(tx).accounts_deep().len() == 0,
        final(tx).storages_shallow() == old(tx).storages_shallow(),
        final(tx).storages_deep() == old(tx).storages_deep(),
{
    tx.accounts_trie_shallow = Vec::new();
    tx.accounts_trie = Vec::new();
    proof {
        assert(tx.accounts_shallow() =~= Seq::<TrieEntryV>::empty());
        assert(tx.accounts_deep() =~= Seq::<TrieEntryV>::empty());
    }
    Ok(())
}

/// Clear both shallow and deep storage trie tables, for a full rebuild.
pub fn clear_storage_trie_tables(tx: &mut TrieTables) -> (r: Result<(), DatabaseError>)
    requires
        old(tx).wf(),
    ensures
        final(tx).wf(),
        r is Ok,
        final(tx).storages_shallow().len() == 0,
        final(tx).storages_deep().len() == 0,
        final(tx).accounts_shallow() == old(tx).accounts_shallow(),
        final(tx).accounts_deep() == old(tx).accounts_deep(),
{
    tx.storages_trie_shallow = Vec::new();
    tx.storages_trie = Vec::new();
    proof {
        assert(tx.storages_shallow() =~= Seq::<StorageRowV>::empty());
        assert(tx.storages_deep() =~= Seq::<StorageRowV>::empty());
    }
    Ok(())
}

} // verus!

verus! {

/// One storage update applied to a single (unsplit) table map.
pub open spec fn apply_storage_update_table_one(
    m: Map<(Seq<u8>, Seq<u8>), BranchNodeView>,
    h: Seq<u8>,
    up: (Seq<u8>, Option<BranchNodeView>),
) -> Map<(Seq<u8>, Seq<u8>), BranchNodeView> {
    if up.0.len() == 0 {
        m
    } else {
        match up.1 {
            Some(n) => m.insert((h, up.0), n),
            None => m.remove((h, up.0)),
        }
    }
}

/// A batch of storage updates applied in order to one table map.
pub open spec fn apply_storage_updates_table(
    m: Map<(Seq<u8>, Seq<u8>), BranchNodeView>,
    h: Seq<u8>,
    ups: Seq<(Seq<u8>, Option<BranchNodeView>)>,
) -> Map<(Seq<u8>, Seq<u8>), BranchNodeView>
    decreases ups.len(),
{
    if ups.len() == 0 {
        m
    } else {
        apply_storage_update_table_one(
            apply_storage_updates_table(m, h, ups.drop_last()),
            h,
            ups.last(),
        )
    }
}

/// Lookup of a storage slot routed by path depth.
pub open spec fn routed_storage_lookup(
    sm: Map<(Seq<u8>, Seq<u8>), BranchNodeView>,
    dm: Map<(Seq<u8>, Seq<u8>), BranchNodeView>,
    h: Seq<u8>,
    p: Seq<u8>,
) -> Option<BranchNodeView> {
    if spec_is_shallow(p) {
        if sm.dom().contains((h, p)) {
            Some(sm[(h, p)])
        } else {
            None
        }
    } else {
        if dm.dom().contains((h, p)) {
            Some(dm[(h, p)])
        } else {
            None
        }
    }
}

/// Write-then-read round trip: after the router applies a batch with
/// pairwise distinct paths, a depth-routed lookup of every non-empty
/// updated path returns exactly what the update wrote — the node of an
/// upsert, nothing for a deletion.
pub proof fn lemma_write_then_read_round_trip(
    sm: Map<Seq<u8>, BranchNodeView>,
    dm: Map<Seq<u8>, BranchNodeView>,
    ups: Seq<(Seq<u8>, Option<BranchNodeView>)>,
)
    requires
        forall|i: int, j: int|
            0 <= i < j < ups.len() ==> (#[trigger] ups[i]).0 != (#[trigger] ups[j]).0,
    ensures
        forall|k: int|
            0 <= k < ups.len() && (#[trigger] ups[k]).0.len() > 0 ==> routed_lookup(
                apply_account_updates(sm, dm, ups).0,
                apply_account_updates(sm, dm, ups).1,
                ups[k].0,
            ) == ups[k].1,
    decreases ups.len(),
{
    if ups.len() > 0 {
        let rest = ups.drop_last();
        assert(forall|i: int| 0 <= i < rest.len() ==> #[trigger] rest[i] == ups[i]);
        lemma_write_then_read_round_trip(sm, dm, rest);
        let pre = apply_account_updates(sm, dm, rest);
        let res = apply_account_updates(sm, dm, ups);
        assert forall|k: int|
            0 <= k < ups.len() && (#[trigger] ups[k]).0.len() > 0 implies routed_lookup(
            res.0,
            res.1,
            ups[k].0,
        ) == ups[k].1 by {
            if k == ups.len() - 1 {
            } else {
                assert(rest[k] == ups[k]);
                assert(routed_lookup(pre.0, pre.1, ups[k].0) == ups[k].1);
                assert(ups[ups.len() - 1].0 != ups[k].0);
            }
        }
    }
}

/// The storage twin of the round trip, for one account's batch.
pub proof fn lemma_storage_write_then_read_round_trip(
    sm: Map<(Seq<u8>, Seq<u8>), BranchNodeView>,
    dm: Map<(Seq<u8>, Seq<u8>), BranchNodeView>,
    h: Seq<u8>,
    ups: Seq<(Seq<u8>, Option<BranchNodeView>)>,
)
    requires
        forall|i: int, j: int|
            0 <= i < j < ups.len() ==> (#[trigger] ups[i]).0 != (#[trigger] ups[j]).0,
    ensures
        forall|k: int|
            0 <= k < ups.len() && (#[trigger] ups[k]).0.len() > 0 ==> routed_storage_lookup(
                apply_storage_updates(sm, dm, h, ups).0,
                apply_storage_updates(sm, dm, h, ups).1,
                h,
                ups[k].0,
            ) == ups[k].1,
    decreases ups.len(),
{
    if ups.len() > 0 {
        let rest = ups.drop_last();
        assert(forall|i: int| 0 <= i < rest.len() ==> #[trigger] rest[i] == ups[i]);
        lemma_storage_write_then_read_round_trip(sm, dm, h, rest);
        let pre = apply_storage_updates(sm, dm, h, rest);
        let res = apply_storage_updates(sm, dm, h, ups);
        assert forall|k: int|
            0 <= k < ups.len() && (#[trigger] ups[k]).0.len() > 0 implies routed_storage_lookup(
            res.0,
            res.1,
            h,
            ups[k].0,
        ) == ups[k].1 by {
            if k == ups.len() - 1 {
            } else {
                assert(rest[k] == ups[k]);
                assert(routed_storage_lookup(pre.0, pre.1, h, ups[k].0) == ups[k].1);
                assert(ups[ups.len() - 1].0 != ups[k].0);
            }
        }
    }
}

/// Empty-path writes are no-ops: a batch of empty paths changes neither
/// table and counts no entry.
pub proof fn lemma_empty_path_writes_are_noops(
    sm: Map<Seq<u8>, BranchNodeView>,
    dm: Map<Seq<u8>, BranchNodeView>,
    ups: Seq<(Seq<u8>, Option<BranchNodeView>)>,
)
    requires
        forall|i: int| 0 <= i < ups.len() ==> (#[trigger] ups[i]).0.len() == 0,
    ensures
        apply_account_updates(sm, dm, ups) == (sm, dm),
        count_nonempty(ups) == 0,
    decreases ups.len(),
{
    if ups.len() > 0 {
        let rest = ups.drop_last();
        assert(forall|i: int| 0 <= i < rest.len() ==> #[trigger] rest[i] == ups[i]);
        lemma_empty_path_writes_are_noops(sm, dm, rest);
    }
}

/// Partitioning: in a well-formed store every stored account path sits in
/// exactly the table its depth selects, and never in both.
pub proof fn lemma_partitioning(t: TrieTables)
    requires
        t.wf(),
    ensures
        forall|p: Seq<u8>| #[trigger]
            entries_contain(t.accounts_shallow(), p) ==> spec_is_shallow(p),
        forall|p: Seq<u8>| #[trigger] entries_contain(t.accounts_deep(), p) ==> !spec_is_shallow(p),
        forall|p: Seq<u8>|
            !(#[trigger] entries_contain(t.accounts_shallow(), p) && #[trigger] entries_contain(
                t.accounts_deep(),
                p,
            )),
        forall|h: Seq<u8>, p: Seq<u8>| #[trigger]
            rows_contain(t.storages_shallow(), h, p) ==> spec_is_shallow(p),
        forall|h: Seq<u8>, p: Seq<u8>| #[trigger]
            rows_contain(t.storages_deep(), h, p) ==> !spec_is_shallow(p),
        forall|h: Seq<u8>, p: Seq<u8>|
            !(#[trigger] rows_contain(t.storages_shallow(), h, p) && #[trigger] rows_contain(
                t.storages_deep(),
                h,
                p,
            )),
{
    assert forall|p: Seq<u8>| #[trigger]
        entries_contain(t.accounts_shallow(), p) implies spec_is_shallow(p) by {
        let w = choose|i: int|
            0 <= i < t.accounts_shallow().len() && t.accounts_shallow()[i].path == p;
    }
    assert forall|p: Seq<u8>| #[trigger]
        entries_contain(t.accounts_deep(), p) implies !spec_is_shallow(p) by {
        let w = choose|i: int| 0 <= i < t.accounts_deep().len() && t.accounts_deep()[i].path == p;
    }
    assert forall|h: Seq<u8>, p: Seq<u8>| #[trigger]
        rows_contain(t.storages_shallow(), h, p) implies spec_is_shallow(p) by {
        let s = t.storages_shallow();
        let w = choose|i: int|
            0 <= i < s.len() && (#[trigger] s[i]).hash == h && s[i].entry.path == p;
    }
    assert forall|h: Seq<u8>, p: Seq<u8>| #[trigger]
        rows_contain(t.storages_deep(), h, p) implies !spec_is_shallow(p) by {
        let s = t.storages_deep();
        let w = choose|i: int|
            0 <= i < s.len() && (#[trigger] s[i]).hash == h && s[i].entry.path == p;
    }
}

} // verus!
