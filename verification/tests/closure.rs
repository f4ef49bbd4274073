use std::collections::{BTreeMap, BTreeSet};
use std::sync::Arc;

use bumpalo::Bump;
use ton_indexer::batch::WriteBatch;
use ton_indexer::cell::{Cell, StorageCell};
use ton_indexer::cell_storage::CellStorage;
use ton_indexer::refcount;
use ton_indexer::table::{code_of, Table};

fn hash(n: u8) -> [u8; 32] {
    [n; 32]
}

fn cell(n: u8, references: &[&Arc<Cell>]) -> Arc<Cell> {
    Arc::new(Cell {
        repr_hash: hash(n),
        data: vec![n],
        references: references.iter().map(|c| (*c).clone()).collect(),
        tree_bits_count: 8,
        tree_cell_count: 1,
    })
}

/// The children of each cell, by the first byte of its hash.
fn edges(root: &Cell, into: &mut BTreeMap<u8, Vec<u8>>) {
    let children = root.references.iter().map(|c| c.repr_hash[0]).collect();
    into.insert(root.repr_hash[0], children);
    for child in &root.references {
        edges(child, into);
    }
}

fn check(storage: &CellStorage, held: &[u8], graph: &BTreeMap<u8, Vec<u8>>) {
    // what can be reached from the roots that are held
    let mut reached = BTreeSet::new();
    let mut stack: Vec<u8> = held.to_vec();
    while let Some(n) = stack.pop() {
        if reached.insert(n) {
            stack.extend(graph[&n].iter().copied());
        }
    }
    for n in 0..=255u8 {
        let live = matches!(storage.row(&hash(n)), Some(row) if refcount::has_value(row));
        assert_eq!(live, reached.contains(&n), "cell {n}");
        // each count is the holds of the cell plus the references from live cells
        let expected = held.iter().filter(|h| **h == n).count()
            + reached
                .iter()
                .map(|p| graph[p].iter().filter(|c| **c == n).count())
                .sum::<usize>();
        let count = storage
            .row(&hash(n))
            .map(|row| refcount::decode_value_with_rc(row).0)
            .unwrap_or(0);
        assert_eq!(count, expected as i64, "count of cell {n}");
    }
}

#[test]
fn rows_hold_what_the_roots_reach() {
    let e = cell(5, &[]);
    let f = cell(6, &[]);
    let d = cell(4, &[&e, &e, &f]);
    let c = cell(3, &[&d, &f]);
    let b = cell(2, &[&d]);
    let a = cell(1, &[&b, &c]);
    let g = cell(7, &[&c, &e]);
    let mut graph = BTreeMap::new();
    edges(&a, &mut graph);
    edges(&g, &mut graph);

    let mut storage = CellStorage::new();
    let mut held: Vec<u8> = Vec::new();
    let ops: [(bool, &Arc<Cell>); 14] = [
        (true, &a),
        (true, &g),
        (true, &a),
        (false, &a),
        (true, &d),
        (false, &g),
        (false, &a),
        (true, &b),
        (false, &d),
        (true, &g),
        (false, &b),
        (true, &f),
        (false, &g),
        (false, &f),
    ];
    for (store, root) in ops {
        let mut batch = WriteBatch::new();
        let n = root.repr_hash[0];
        if store {
            storage.store_cell(&mut batch, root).unwrap();
            held.push(n);
        } else {
            let alloc = Bump::new();
            storage.remove_cell(&mut batch, &alloc, &root.repr_hash).unwrap();
            let at = held.iter().position(|h| *h == n).unwrap();
            held.remove(at);
        }
        storage.write(&batch);
        check(&storage, &held, &graph);
    }
    assert!(held.is_empty());
}

#[test]
fn table_finds_every_key_among_many() {
    let mut table: Table<u32> = Table::new();
    for n in 0..2000u32 {
        let key = n.to_be_bytes();
        assert_eq!(table.find(&key), None);
        table.insert_new(&key, n);
    }
    // keys of other lengths with the same bytes in front
    table.insert_new(&[0, 0, 0], 7);
    table.insert_new(&[], 8);
    assert_eq!(table.len(), 2002);
    for n in 0..2000u32 {
        assert_eq!(table.get(&n.to_be_bytes()), Some(&n));
    }
    assert_eq!(table.get(&[0, 0, 0]), Some(&7));
    assert_eq!(table.get(&[]), Some(&8));
    assert_eq!(table.get(&[0, 0]), None);

    for n in (0..2000u32).step_by(2) {
        let at = table.find(&n.to_be_bytes()).unwrap();
        table.remove_at(at);
    }
    assert_eq!(table.len(), 1002);
    for n in 0..2000u32 {
        let found = table.get(&n.to_be_bytes());
        assert_eq!(found, if n % 2 == 1 { Some(&n) } else { None });
    }
    while table.len() > 0 {
        let last = table.len() - 1;
        table.remove_at(last / 2);
        assert_eq!(table.len(), last);
    }
    assert_eq!(table.get(&[0, 0, 0]), None);
}

#[test]
fn hash_codes() {
    assert_eq!(code_of(&[]), 0);
    assert_eq!(code_of(&[5]), 5);
    assert_eq!(code_of(&[1, 2]), 33);
    assert_eq!(code_of(&[1, 2, 3]), 33 * 31 + 3);
    let long = [0xffu8; 40];
    let mut expected: u64 = 0;
    for byte in long {
        expected = expected.wrapping_mul(31).wrapping_add(byte as u64);
    }
    assert_eq!(code_of(&long), expected);
}

/// The count of every row, by the first byte of its hash.
fn counts(storage: &CellStorage) -> Vec<i64> {
    (0..=255u8)
        .map(|n| {
            storage
                .row(&hash(n))
                .map(|row| refcount::decode_value_with_rc(row).0)
                .unwrap_or(0)
        })
        .collect()
}

/// Whether every row that is held names only rows that are held.
fn closed(storage: &CellStorage) -> bool {
    (0..=255u8).all(|n| match storage.row(&hash(n)) {
        Some(row) if refcount::has_value(row) => {
            let body = refcount::strip_refcount(row).unwrap();
            let mut kids = Vec::new();
            StorageCell::deserialize_references(body, &mut kids)
                && kids
                    .iter()
                    .all(|kid| matches!(storage.row(kid), Some(row) if refcount::has_value(row)))
        }
        _ => true,
    })
}

#[test]
fn store_then_remove_leaves_every_count() {
    let e = cell(5, &[]);
    let f = cell(6, &[]);
    let d = cell(4, &[&e, &e, &f]);
    let c = cell(3, &[&d, &f]);
    let b = cell(2, &[&d]);
    let a = cell(1, &[&b, &c]);
    let h = cell(8, &[&c, &e, &cell(9, &[&f])]);

    let mut storage = CellStorage::new();
    let mut batch = WriteBatch::new();
    storage.store_cell(&mut batch, &a).unwrap();
    storage.write(&batch);
    let before = counts(&storage);
    assert_eq!(&before[1..7], &[1, 1, 1, 2, 2, 2]);

    let mut batch = WriteBatch::new();
    assert_eq!(storage.store_cell(&mut batch, &h), Ok(5));
    storage.write(&batch);
    assert_eq!(&counts(&storage)[1..10], &[1, 1, 2, 2, 3, 3, 0, 1, 1]);
    assert!(closed(&storage));

    let alloc = Bump::new();
    let mut batch = WriteBatch::new();
    assert_eq!(storage.remove_cell(&mut batch, &alloc, &h.repr_hash), Ok(5));
    storage.write(&batch);
    assert_eq!(counts(&storage), before);
    assert!(closed(&storage));
}

#[test]
fn rows_stay_closed_where_two_cells_share_a_hash() {
    let e = cell(5, &[]);
    let f = cell(6, &[]);
    // two cells under one hash: the row keeps the one that is met first
    let first = cell(9, &[&e]);
    let second = cell(9, &[&f, &f]);
    let root = cell(1, &[&first, &second]);

    let mut storage = CellStorage::new();
    assert!(closed(&storage));
    let mut batch = WriteBatch::new();
    assert_eq!(storage.store_cell(&mut batch, &root), Ok(3));
    storage.write(&batch);
    assert!(closed(&storage));
    let held = counts(&storage);
    assert_eq!(held[1], 1);
    assert_eq!(held[9], 2);
    assert_eq!(held[5] + held[6], 1);
    let live = |n: u8| matches!(storage.row(&hash(n)), Some(row) if refcount::has_value(row));
    assert!(live(1) && live(9));
    assert_ne!(live(5), live(6));
}
