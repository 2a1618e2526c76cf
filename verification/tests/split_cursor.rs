use shallow_trie::constants::SHALLOW_TRIE_DEPTH;
use shallow_trie::nibbles::{nibbles_eq, nibbles_le, nibbles_lt, Nibbles};
use shallow_trie::node::{BranchNodeCompact, HashedAddress};
use shallow_trie::storage_cursor::DatabaseStorageTrieCursor;
use shallow_trie::storage_table::{StorageTableCursor, StorageTrieEntry};
use shallow_trie::store::TrieTables;
use shallow_trie::table::AccountTableCursor;
use shallow_trie::trie_cursor::DatabaseTrieCursorFactory;
use shallow_trie::write_routing::{write_account_trie_updates_split, TrieUpdatesSorted};

fn test_node() -> BranchNodeCompact {
    BranchNodeCompact::new(
        0b0000_0010_0000_0001,
        0b0000_0010_0000_0001,
        0,
        Vec::default(),
        None,
    )
}

fn nib(values: &[u8]) -> Nibbles {
    Nibbles::from_nibbles(values.to_vec())
}

fn write_accounts(paths: &[&[u8]]) -> TrieTables {
    let mut tables = TrieTables::default();
    let mut account_nodes = Vec::new();
    for p in paths {
        account_nodes.push((nib(p), Some(test_node())));
    }
    let updates = TrieUpdatesSorted { account_nodes };
    write_account_trie_updates_split(&mut tables, &updates).unwrap();
    tables
}

// ---- Table and cursor basics ----

#[test]
fn shallow_depth_boundary() {
    assert_eq!(SHALLOW_TRIE_DEPTH, 5);
}

#[test]
fn test_account_trie_order() {
    let data: Vec<Vec<u8>> = vec![
        vec![0x03, 0x03, 0x04, 0x0e],
        vec![0x03, 0x03, 0x05],
        vec![0x03, 0x03, 0x05, 0x00],
        vec![0x03, 0x03, 0x05, 0x0a],
    ];

    let mut cursor = AccountTableCursor::new(Vec::new());
    for key in &data {
        cursor.upsert(&nib(key), &test_node());
    }

    let mut walked = Vec::new();
    let first = cursor.seek(&Nibbles::default());
    walked.push(first.unwrap().0);
    while let Some((nibbles, _)) = cursor.next() {
        walked.push(nibbles);
    }
    assert_eq!(walked[0].to_vec(), data[0]);
    assert_eq!(walked[1].to_vec(), data[1]);
    assert_eq!(walked[2].to_vec(), data[2]);
    assert_eq!(walked[3].to_vec(), data[3]);

    assert_eq!(
        cursor
            .seek(&nib(&[0x03, 0x03, 0x04, 0x0f]))
            .map(|(k, _)| k.to_vec()),
        Some(data[1].clone())
    );
}

#[test]
fn test_storage_cursor_abstraction() {
    let mut raw = StorageTableCursor::new(Vec::new());

    let hashed_address = HashedAddress::new([0xab; 32]);
    let key = nib(&[0x2, 0x3]);
    let value = BranchNodeCompact::new(1, 1, 1, vec![HashedAddress::new([0x11; 32])], None);

    raw.upsert(
        &hashed_address,
        &StorageTrieEntry { nibbles: key.clone(), node: value.clone() },
    );

    let mut cursor = DatabaseStorageTrieCursor::new(raw, hashed_address);
    assert_eq!(cursor.seek(key).unwrap().unwrap().1, value);
}

#[test]
fn split_cursor_seek_exact_routes_by_depth() {
    // 3 nibbles go to the shallow table, 8 nibbles to the deep table.
    let tables = write_accounts(&[
        &[0x1, 0x2, 0x3],
        &[0x1, 0x2, 0x3, 0x4, 0x5, 0x6, 0x7, 0x8],
    ]);
    let f = DatabaseTrieCursorFactory::new(tables);
    let mut cursor = f.account_trie_cursor().unwrap();

    // seek_exact shallow
    let r = cursor.seek_exact(nib(&[0x1, 0x2, 0x3])).unwrap();
    assert!(r.is_some());
    assert_eq!(r.unwrap().0, nib(&[0x1, 0x2, 0x3]));

    // seek_exact deep
    let r = cursor
        .seek_exact(nib(&[0x1, 0x2, 0x3, 0x4, 0x5, 0x6, 0x7, 0x8]))
        .unwrap();
    assert!(r.is_some());

    // seek_exact miss
    let r = cursor.seek_exact(nib(&[0xf, 0xf])).unwrap();
    assert!(r.is_none());
}

#[test]
fn split_cursor_seek_then_next_produces_sorted_merge() {
    // Shallow entries [1], [3], [5]; deep entries [2,0,0,0,0,0], [4,0,0,0,0,0].
    let tables = write_accounts(&[
        &[0x1],
        &[0x3],
        &[0x5],
        &[0x2, 0x0, 0x0, 0x0, 0x0, 0x0],
        &[0x4, 0x0, 0x0, 0x0, 0x0, 0x0],
    ]);
    let f = DatabaseTrieCursorFactory::new(tables);
    let mut cursor = f.account_trie_cursor().unwrap();

    let first = cursor.seek(Nibbles::default()).unwrap();
    assert!(first.is_some());

    let mut results = vec![first.unwrap().0];
    while let Some((nibbles, _)) = cursor.next().unwrap() {
        results.push(nibbles);
    }

    // Must have all 5 entries in sorted order
    assert_eq!(results.len(), 5, "expected 5 entries, got {:?}", results);
    for w in results.windows(2) {
        assert!(w[0].to_vec() < w[1].to_vec(), "not sorted: {:?} >= {:?}", w[0], w[1]);
    }
}

#[test]
fn split_cursor_boundary_depth_5_is_shallow() {
    // Nibbles of exactly length 5 should go to the shallow table
    let path = nib(&[0x1, 0x2, 0x3, 0x4, 0x5]);
    assert!(path.len() <= SHALLOW_TRIE_DEPTH);
}

#[test]
fn split_cursor_boundary_depth_6_is_deep() {
    // Nibbles of length 6 should go to the deep table
    let path = nib(&[0x1, 0x2, 0x3, 0x4, 0x5, 0x6]);
    assert!(path.len() > SHALLOW_TRIE_DEPTH);
}

#[test]
fn split_cursor_empty_tables() {
    let f = DatabaseTrieCursorFactory::new(TrieTables::default());
    let mut cursor = f.account_trie_cursor().unwrap();

    assert!(cursor.seek(Nibbles::default()).unwrap().is_none());
    assert!(cursor.next().unwrap().is_none());
}

#[test]
fn split_cursor_only_shallow_entries() {
    let tables = write_accounts(&[&[0x1], &[0x2]]);
    let f = DatabaseTrieCursorFactory::new(tables);
    let mut cursor = f.account_trie_cursor().unwrap();

    let first = cursor.seek(Nibbles::default()).unwrap();
    assert_eq!(first.unwrap().0, nib(&[0x1]));

    let second = cursor.next().unwrap();
    assert_eq!(second.unwrap().0, nib(&[0x2]));

    assert!(cursor.next().unwrap().is_none());
}

#[test]
fn split_cursor_only_deep_entries() {
    let tables = write_accounts(&[
        &[0x1, 0x0, 0x0, 0x0, 0x0, 0x0],
        &[0x2, 0x0, 0x0, 0x0, 0x0, 0x0],
    ]);
    let f = DatabaseTrieCursorFactory::new(tables);
    let mut cursor = f.account_trie_cursor().unwrap();

    let first = cursor.seek(Nibbles::default()).unwrap();
    assert!(first.is_some());

    let second = cursor.next().unwrap();
    assert!(second.is_some());

    assert!(cursor.next().unwrap().is_none());
}

// ---- Further split cursor behaviour ----

#[test]
fn split_cursor_seek_lower_bound_crosses_tables() {
    // The first key at or above [2] is the deep entry [2,0,0,0,0,0].
    let tables = write_accounts(&[&[0x1], &[0x3], &[0x2, 0x0, 0x0, 0x0, 0x0, 0x0]]);
    let f = DatabaseTrieCursorFactory::new(tables);
    let mut cursor = f.account_trie_cursor().unwrap();

    let hit = cursor.seek(nib(&[0x2])).unwrap().unwrap();
    assert_eq!(hit.0, nib(&[0x2, 0x0, 0x0, 0x0, 0x0, 0x0]));
    let after = cursor.next().unwrap().unwrap();
    assert_eq!(after.0, nib(&[0x3]));
}

#[test]
fn split_cursor_current_follows_last_consumed() {
    let tables = write_accounts(&[&[0x1], &[0x2, 0x0, 0x0, 0x0, 0x0, 0x0]]);
    let f = DatabaseTrieCursorFactory::new(tables);
    let mut cursor = f.account_trie_cursor().unwrap();

    assert_eq!(cursor.current().unwrap(), None);
    cursor.seek(Nibbles::default()).unwrap();
    assert_eq!(cursor.current().unwrap(), Some(nib(&[0x1])));
    cursor.next().unwrap();
    assert_eq!(
        cursor.current().unwrap(),
        Some(nib(&[0x2, 0x0, 0x0, 0x0, 0x0, 0x0]))
    );
}

#[test]
fn split_cursor_reset_behaves_like_fresh() {
    let tables = write_accounts(&[&[0x1], &[0x3]]);
    let f = DatabaseTrieCursorFactory::new(tables);

    let mut fresh = f.account_trie_cursor().unwrap();
    let expected_first = fresh.seek(Nibbles::default()).unwrap();

    let mut used = f.account_trie_cursor().unwrap();
    used.seek(nib(&[0x2])).unwrap();
    used.next().unwrap();
    used.reset();
    assert_eq!(used.current().unwrap(), None);
    let after_reset = used.seek(Nibbles::default()).unwrap();
    assert_eq!(after_reset, expected_first);
}

#[test]
fn database_account_cursor_seek_exact() {
    let mut raw = AccountTableCursor::new(Vec::new());
    let deep_path = nib(&[0x1, 0x2, 0x3, 0x4, 0x5, 0x6]);
    raw.upsert(&deep_path, &test_node());
    let mut cursor = shallow_trie::trie_cursor::DatabaseAccountTrieCursor::new(raw);

    let hit = cursor.seek_exact(deep_path.clone()).unwrap();
    assert_eq!(hit.unwrap().0, deep_path);
    let miss = cursor.seek_exact(nib(&[0x9])).unwrap();
    assert!(miss.is_none());
}

#[test]
fn nibble_order_is_lexicographic() {
    let short = nib(&[0x3, 0x3]);
    let long = nib(&[0x3, 0x3, 0x0]);
    let other = nib(&[0x3, 0x4]);
    // a proper prefix comes first
    assert!(nibbles_lt(&short, &long));
    assert!(!nibbles_lt(&long, &short));
    // the first differing nibble decides
    assert!(nibbles_lt(&long, &other));
    assert!(nibbles_le(&short, &short));
    assert!(nibbles_eq(&short, &short));
    assert!(!nibbles_eq(&short, &other));
}
