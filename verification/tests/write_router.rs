use shallow_trie::nibbles::Nibbles;
use shallow_trie::node::{BranchNodeCompact, HashedAddress};
use shallow_trie::storage_cursor::DatabaseStorageTrieCursor;
use shallow_trie::storage_table::StorageTableCursor;
use shallow_trie::store::TrieTables;
use shallow_trie::trie_cursor::DatabaseTrieCursorFactory;
use shallow_trie::write_routing::{
    clear_account_trie_tables, clear_storage_trie_tables, write_account_trie_updates_split,
    write_storage_trie_updates_split, StorageTrieUpdatesSorted, TrieUpdatesSorted,
};

fn router_node(tag: u16) -> BranchNodeCompact {
    BranchNodeCompact::new(tag, 0, 0, Vec::new(), None)
}

fn router_nib(values: &[u8]) -> Nibbles {
    Nibbles::from_nibbles(values.to_vec())
}

#[test]
fn account_write_then_read_round_trip() {
    let mut tables = TrieTables::default();
    // first batch: two upserts, one shallow and one deep
    let updates = TrieUpdatesSorted {
        account_nodes: vec![
            (router_nib(&[0x1, 0x2]), Some(router_node(7))),
            (router_nib(&[0x1, 0x2, 0x3, 0x4, 0x5, 0x6]), Some(router_node(8))),
        ],
    };
    assert_eq!(write_account_trie_updates_split(&mut tables, &updates).unwrap(), 2);

    // second batch: overwrite one, delete the other
    let updates = TrieUpdatesSorted {
        account_nodes: vec![
            (router_nib(&[0x1, 0x2]), Some(router_node(9))),
            (router_nib(&[0x1, 0x2, 0x3, 0x4, 0x5, 0x6]), None),
        ],
    };
    assert_eq!(write_account_trie_updates_split(&mut tables, &updates).unwrap(), 2);

    let f = DatabaseTrieCursorFactory::new(tables);
    let mut cursor = f.account_trie_cursor().unwrap();
    let hit = cursor.seek_exact(router_nib(&[0x1, 0x2])).unwrap().unwrap();
    assert_eq!(hit.1, router_node(9));
    assert!(cursor
        .seek_exact(router_nib(&[0x1, 0x2, 0x3, 0x4, 0x5, 0x6]))
        .unwrap()
        .is_none());
}

#[test]
fn account_empty_path_updates_are_skipped() {
    let mut tables = TrieTables::default();
    let updates = TrieUpdatesSorted {
        account_nodes: vec![
            (router_nib(&[]), Some(router_node(1))),
            (router_nib(&[0x4]), Some(router_node(2))),
            (router_nib(&[]), None),
        ],
    };
    // only the non-empty entry counts
    assert_eq!(write_account_trie_updates_split(&mut tables, &updates).unwrap(), 1);

    let f = DatabaseTrieCursorFactory::new(tables);
    let mut cursor = f.account_trie_cursor().unwrap();
    // the store holds exactly one entry: the empty path was never written
    let first = cursor.seek(Nibbles::default()).unwrap().unwrap();
    assert_eq!(first.0, router_nib(&[0x4]));
    assert!(cursor.next().unwrap().is_none());
}

#[test]
fn account_count_includes_deletions() {
    let mut tables = TrieTables::default();
    let updates = TrieUpdatesSorted {
        account_nodes: vec![(router_nib(&[0x1]), Some(router_node(1)))],
    };
    assert_eq!(write_account_trie_updates_split(&mut tables, &updates).unwrap(), 1);
    // deleting an absent path still counts as one processed entry
    let updates = TrieUpdatesSorted {
        account_nodes: vec![
            (router_nib(&[0x1]), None),
            (router_nib(&[0x9, 0x9]), None),
        ],
    };
    assert_eq!(write_account_trie_updates_split(&mut tables, &updates).unwrap(), 2);
}

#[test]
fn storage_write_then_read_round_trip() {
    let h = HashedAddress::new([0x21; 32]);
    let mut tables = TrieTables::default();
    let updates = StorageTrieUpdatesSorted {
        is_deleted: false,
        storage_nodes: vec![
            (router_nib(&[0x1, 0x2]), Some(router_node(3))),
            (router_nib(&[0x1, 0x2, 0x3, 0x4, 0x5, 0x6]), Some(router_node(4))),
        ],
    };
    assert_eq!(
        write_storage_trie_updates_split(&mut tables, h, &updates).unwrap(),
        2
    );

    let f = DatabaseTrieCursorFactory::new(tables);
    let mut cursor = f.storage_trie_cursor(h).unwrap();
    let shallow_hit = cursor.seek_exact(router_nib(&[0x1, 0x2])).unwrap().unwrap();
    assert_eq!(shallow_hit.1, router_node(3));
    let deep_hit = cursor
        .seek_exact(router_nib(&[0x1, 0x2, 0x3, 0x4, 0x5, 0x6]))
        .unwrap()
        .unwrap();
    assert_eq!(deep_hit.1, router_node(4));
}

#[test]
fn storage_sorted_merge_within_account() {
    let h = HashedAddress::new([0x42; 32]);
    let mut tables = TrieTables::default();
    let updates = StorageTrieUpdatesSorted {
        is_deleted: false,
        storage_nodes: vec![
            (router_nib(&[0x1]), Some(router_node(1))),
            (router_nib(&[0x3]), Some(router_node(3))),
            (router_nib(&[0x2, 0x0, 0x0, 0x0, 0x0, 0x0]), Some(router_node(2))),
        ],
    };
    write_storage_trie_updates_split(&mut tables, h, &updates).unwrap();

    let f = DatabaseTrieCursorFactory::new(tables);
    let mut cursor = f.storage_trie_cursor(h).unwrap();
    let mut results = Vec::new();
    let first = cursor.seek(Nibbles::default()).unwrap();
    results.push(first.unwrap().0);
    while let Some((nibbles, _)) = cursor.next().unwrap() {
        results.push(nibbles);
    }
    assert_eq!(
        results,
        vec![
            router_nib(&[0x1]),
            router_nib(&[0x2, 0x0, 0x0, 0x0, 0x0, 0x0]),
            router_nib(&[0x3]),
        ]
    );
}

#[test]
fn storage_rebind_hides_previous_account() {
    let h1 = HashedAddress::new([0x01; 32]);
    let h2 = HashedAddress::new([0x02; 32]);
    let mut tables = TrieTables::default();
    let updates = StorageTrieUpdatesSorted {
        is_deleted: false,
        storage_nodes: vec![(router_nib(&[0x5]), Some(router_node(5)))],
    };
    write_storage_trie_updates_split(&mut tables, h1, &updates).unwrap();

    let f = DatabaseTrieCursorFactory::new(tables);
    let mut cursor = f.storage_trie_cursor(h1).unwrap();
    assert!(cursor.seek(Nibbles::default()).unwrap().is_some());

    cursor.set_hashed_address(h2);
    // pending state is cleared and the other account holds nothing
    assert_eq!(cursor.current().unwrap(), None);
    assert!(cursor.seek(Nibbles::default()).unwrap().is_none());
    assert!(cursor.next().unwrap().is_none());
}

#[test]
fn storage_whole_trie_delete_clears_both_tables() {
    let h = HashedAddress::new([0x33; 32]);
    let other = HashedAddress::new([0x44; 32]);
    let mut tables = TrieTables::default();
    let updates = StorageTrieUpdatesSorted {
        is_deleted: false,
        storage_nodes: vec![
            (router_nib(&[0x1]), Some(router_node(1))),
            (router_nib(&[0x2, 0x0, 0x0, 0x0, 0x0, 0x0]), Some(router_node(2))),
        ],
    };
    write_storage_trie_updates_split(&mut tables, h, &updates).unwrap();
    let keep = StorageTrieUpdatesSorted {
        is_deleted: false,
        storage_nodes: vec![(router_nib(&[0x7]), Some(router_node(7)))],
    };
    write_storage_trie_updates_split(&mut tables, other, &keep).unwrap();

    // a deleted batch removes every entry at h before applying its nodes
    let wipe = StorageTrieUpdatesSorted {
        is_deleted: true,
        storage_nodes: vec![(router_nib(&[0x9]), Some(router_node(9)))],
    };
    assert_eq!(write_storage_trie_updates_split(&mut tables, h, &wipe).unwrap(), 1);

    let f = DatabaseTrieCursorFactory::new(tables);
    let mut cursor = f.storage_trie_cursor(h).unwrap();
    assert!(cursor.seek_exact(router_nib(&[0x1])).unwrap().is_none());
    assert!(cursor
        .seek_exact(router_nib(&[0x2, 0x0, 0x0, 0x0, 0x0, 0x0]))
        .unwrap()
        .is_none());
    let kept = cursor.seek_exact(router_nib(&[0x9])).unwrap().unwrap();
    assert_eq!(kept.1, router_node(9));
    // the other account is untouched
    cursor.set_hashed_address(other);
    assert_eq!(
        cursor.seek_exact(router_nib(&[0x7])).unwrap().unwrap().1,
        router_node(7)
    );
}

#[test]
fn clear_helpers_empty_the_tables() {
    let h = HashedAddress::new([0x55; 32]);
    let mut tables = TrieTables::default();
    let acct = TrieUpdatesSorted {
        account_nodes: vec![(router_nib(&[0x1]), Some(router_node(1)))],
    };
    write_account_trie_updates_split(&mut tables, &acct).unwrap();
    let stor = StorageTrieUpdatesSorted {
        is_deleted: false,
        storage_nodes: vec![(router_nib(&[0x2]), Some(router_node(2)))],
    };
    write_storage_trie_updates_split(&mut tables, h, &stor).unwrap();

    clear_account_trie_tables(&mut tables).unwrap();
    clear_storage_trie_tables(&mut tables).unwrap();

    let f = DatabaseTrieCursorFactory::new(tables);
    let mut cursor = f.account_trie_cursor().unwrap();
    assert!(cursor.seek(Nibbles::default()).unwrap().is_none());
    let mut scursor = f.storage_trie_cursor(h).unwrap();
    assert!(scursor.seek(Nibbles::default()).unwrap().is_none());
}

#[test]
fn unsplit_storage_write_applies_updates() {
    let h = HashedAddress::new([0x66; 32]);
    let raw = StorageTableCursor::new(Vec::new());
    let mut cursor = DatabaseStorageTrieCursor::new(raw, h);

    let updates = StorageTrieUpdatesSorted {
        is_deleted: false,
        storage_nodes: vec![
            (router_nib(&[0x1]), Some(router_node(1))),
            (router_nib(&[]), Some(router_node(2))),
            (router_nib(&[0x2]), Some(router_node(3))),
        ],
    };
    // the empty path is skipped; both others count
    assert_eq!(cursor.write_storage_trie_updates_sorted(&updates).unwrap(), 2);
    assert_eq!(
        cursor.seek(router_nib(&[0x1])).unwrap().unwrap().1,
        router_node(1)
    );

    // a deleted batch wipes the account
    let wipe = StorageTrieUpdatesSorted { is_deleted: true, storage_nodes: vec![] };
    assert_eq!(cursor.write_storage_trie_updates_sorted(&wipe).unwrap(), 0);
    assert!(cursor.seek(router_nib(&[])).unwrap().is_none());
}

#[test]
fn storage_seek_lower_bound_crosses_tables() {
    let h = HashedAddress::new([0x77; 32]);
    let mut tables = TrieTables::default();
    let updates = StorageTrieUpdatesSorted {
        is_deleted: false,
        storage_nodes: vec![
            (router_nib(&[0x1]), Some(router_node(1))),
            (router_nib(&[0x3]), Some(router_node(3))),
            (router_nib(&[0x2, 0x0, 0x0, 0x0, 0x0, 0x0]), Some(router_node(2))),
        ],
    };
    write_storage_trie_updates_split(&mut tables, h, &updates).unwrap();

    let f = DatabaseTrieCursorFactory::new(tables);
    let mut cursor = f.storage_trie_cursor(h).unwrap();
    // the first key at or above [2] lives in the deep table
    let hit = cursor.seek(router_nib(&[0x2])).unwrap().unwrap();
    assert_eq!(hit.0, router_nib(&[0x2, 0x0, 0x0, 0x0, 0x0, 0x0]));
    assert_eq!(hit.1, router_node(2));
    let after = cursor.next().unwrap().unwrap();
    assert_eq!(after.0, router_nib(&[0x3]));
    assert!(cursor.next().unwrap().is_none());
}
