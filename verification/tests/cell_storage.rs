use std::sync::Arc;

use bumpalo::Bump;
use ton_indexer::batch::{BatchOp, Column, WriteBatch};
use ton_indexer::cell::{Cell, CellStorageError, StorageCell, StorageCellReference};
use ton_indexer::cell_storage::{CellStorage, RemoveWalk, StoreWalk};
use ton_indexer::refcount;

fn hash(n: u8) -> [u8; 32] {
    [n; 32]
}

fn cell(n: u8, references: Vec<Arc<Cell>>, tree_cell_count: u64) -> Arc<Cell> {
    Arc::new(Cell {
        repr_hash: hash(n),
        data: vec![n, n.wrapping_add(1)],
        references,
        tree_bits_count: 16 * tree_cell_count,
        tree_cell_count,
    })
}

/// C0 with children C1 and C2, which share the grandchild C3.
fn diamond() -> Arc<Cell> {
    let c3 = cell(3, vec![], 1);
    let c1 = cell(1, vec![c3.clone()], 2);
    let c2 = cell(2, vec![c3], 2);
    cell(0, vec![c1, c2], 4)
}

fn refcount_of(storage: &CellStorage, n: u8) -> Option<i64> {
    storage
        .row(&hash(n))
        .map(|row| refcount::decode_value_with_rc(row).0)
}

fn present(storage: &CellStorage, n: u8) -> bool {
    matches!(storage.row(&hash(n)), Some(row) if refcount::has_value(row))
}

fn store(storage: &mut CellStorage, root: &Cell) -> usize {
    let mut batch = WriteBatch::new();
    let total = storage.store_cell(&mut batch, root).unwrap();
    storage.write(&batch);
    total
}

fn remove(storage: &mut CellStorage, n: u8) -> Result<usize, CellStorageError> {
    let mut batch = WriteBatch::new();
    let alloc = Bump::new();
    let total = storage.remove_cell(&mut batch, &alloc, &hash(n))?;
    storage.write(&batch);
    Ok(total)
}

#[test]
fn store_writes_one_row_for_each_cell() {
    let mut storage = CellStorage::new();
    let root = diamond();

    let mut batch = WriteBatch::new();
    let total = storage.store_cell(&mut batch, &root).unwrap();
    assert_eq!(total, 4);
    assert_eq!(batch.len(), 4);
    storage.write(&batch);

    assert_eq!(refcount_of(&storage, 0), Some(1));
    assert_eq!(refcount_of(&storage, 1), Some(1));
    assert_eq!(refcount_of(&storage, 2), Some(1));
    // the grandchild is held by both children
    assert_eq!(refcount_of(&storage, 3), Some(2));

    let loaded = storage.load_cell(&hash(0)).unwrap();
    assert_eq!(loaded.tree_cell_count(), 4);
    assert_eq!(loaded.tree_bits_count(), 64);
    assert_eq!(loaded.data(), &[0u8, 1][..]);
    assert_eq!(loaded.references_count(), 2);
    assert_eq!(loaded.repr_hash(), hash(0));
    match loaded.reference(0) {
        Ok(StorageCellReference::Unloaded(child)) => assert_eq!(*child, hash(1)),
        _ => panic!("the first child is known by its hash"),
    }
    match loaded.reference(1) {
        Ok(StorageCellReference::Unloaded(child)) => assert_eq!(*child, hash(2)),
        _ => panic!("the second child is known by its hash"),
    }
    assert!(loaded.reference(2).is_err());
}

#[test]
fn store_batch_holds_count_and_body_of_each_cell() {
    let storage = CellStorage::new();
    let root = diamond();
    let mut batch = WriteBatch::new();
    storage.store_cell(&mut batch, &root).unwrap();

    let mut expected = Vec::new();
    StorageCell::serialize_to(&root, &mut expected).unwrap();
    match &batch.ops[0] {
        BatchOp::Merge { column, key, value } => {
            assert_eq!(*column, Column::Cells);
            assert_eq!(key.as_slice(), &hash(0)[..]);
            assert_eq!(&value[..8], &1i64.to_le_bytes()[..]);
            assert_eq!(&value[8..], expected.as_slice());
        }
        _ => panic!("a store only merges"),
    }
    // C0, C1, C2 in the order in which they are met, then C3
    let keys: Vec<u8> = batch
        .ops
        .iter()
        .map(|op| match op {
            BatchOp::Merge { key, .. } => key[0],
            _ => panic!("a store only merges"),
        })
        .collect();
    assert_eq!(keys, vec![0, 1, 2, 3]);
    match &batch.ops[3] {
        BatchOp::Merge { value, .. } => assert_eq!(&value[..8], &2i64.to_le_bytes()[..]),
        _ => panic!("a store only merges"),
    }
}

#[test]
fn storing_a_root_twice_only_bumps_the_root() {
    let mut storage = CellStorage::new();
    let root = diamond();
    assert_eq!(store(&mut storage, &root), 4);
    let rows_before: Vec<Vec<u8>> = (1..4u8)
        .map(|n| storage.row(&hash(n)).unwrap().to_vec())
        .collect();
    let body_before = storage.row(&hash(0)).unwrap()[8..].to_vec();

    let mut batch = WriteBatch::new();
    let total = storage.store_cell(&mut batch, &root).unwrap();
    assert_eq!(total, 0);
    assert_eq!(batch.len(), 1);
    storage.write(&batch);

    assert_eq!(refcount_of(&storage, 0), Some(2));
    assert_eq!(&storage.row(&hash(0)).unwrap()[8..], body_before.as_slice());
    for n in 1..4u8 {
        assert_eq!(
            storage.row(&hash(n)).unwrap(),
            rows_before[(n - 1) as usize].as_slice()
        );
    }
}

#[test]
fn remove_after_two_stores_keeps_all_rows() {
    let mut storage = CellStorage::new();
    let root = diamond();
    store(&mut storage, &root);
    store(&mut storage, &root);

    assert_eq!(remove(&mut storage, 0), Ok(1));
    assert_eq!(refcount_of(&storage, 0), Some(1));
    assert_eq!(refcount_of(&storage, 1), Some(1));
    assert_eq!(refcount_of(&storage, 2), Some(1));
    assert_eq!(refcount_of(&storage, 3), Some(2));
    for n in 0..4u8 {
        assert!(present(&storage, n));
    }

    assert_eq!(remove(&mut storage, 0), Ok(4));
    for n in 0..4u8 {
        assert!(!present(&storage, n));
        assert_eq!(refcount_of(&storage, n), Some(0));
    }
    assert_eq!(
        storage.load_cell(&hash(0)).err(),
        Some(CellStorageError::CellNotFound)
    );
}

#[test]
fn store_skips_what_the_store_holds() {
    let mut storage = CellStorage::new();
    let c3 = cell(3, vec![], 1);
    let c1 = cell(1, vec![c3.clone()], 2);
    assert_eq!(store(&mut storage, &c1), 2);

    // C1 is there: it gains a reference and its subtree is not walked
    let c2 = cell(2, vec![c3], 2);
    let root = cell(0, vec![c1, c2], 4);
    assert_eq!(store(&mut storage, &root), 4);
    assert_eq!(refcount_of(&storage, 0), Some(1));
    assert_eq!(refcount_of(&storage, 1), Some(2));
    assert_eq!(refcount_of(&storage, 2), Some(1));
    assert_eq!(refcount_of(&storage, 3), Some(2));

    assert_eq!(remove(&mut storage, 0), Ok(4));
    assert_eq!(refcount_of(&storage, 0), Some(0));
    assert_eq!(refcount_of(&storage, 1), Some(1));
    assert_eq!(refcount_of(&storage, 2), Some(0));
    assert_eq!(refcount_of(&storage, 3), Some(1));
    assert_eq!(remove(&mut storage, 1), Ok(2));
    for n in 0..4u8 {
        assert!(!present(&storage, n));
    }
}

#[test]
fn remove_of_a_missing_cell_fails() {
    let storage = CellStorage::new();
    let mut batch = WriteBatch::new();
    let alloc = Bump::new();
    assert_eq!(
        storage.remove_cell(&mut batch, &alloc, &hash(9)),
        Err(CellStorageError::CellNotFound)
    );
    assert!(batch.is_empty());
}

#[test]
fn remove_of_a_row_without_a_cell_fails() {
    let mut storage = CellStorage::new();
    let mut batch = WriteBatch::new();
    let mut row = Vec::new();
    refcount::add_positive_refcount(1, &[7, 0, 1], &mut row);
    batch.put_cf(Column::Cells, &hash(5), &row);
    storage.write(&batch);

    let mut batch = WriteBatch::new();
    let alloc = Bump::new();
    assert_eq!(
        storage.remove_cell(&mut batch, &alloc, &hash(5)),
        Err(CellStorageError::InvalidCell)
    );
    assert_eq!(
        storage.load_cell(&hash(5)).err(),
        Some(CellStorageError::InvalidCell)
    );
}

#[test]
fn remove_beyond_the_count_is_a_mismatch() {
    // the parent names the child twice, the child is held once
    let mut storage = CellStorage::new();
    let child = cell(2, vec![], 1);
    let parent = cell(1, vec![child.clone(), child.clone()], 3);
    let mut child_body = Vec::new();
    StorageCell::serialize_to(&child, &mut child_body).unwrap();
    let mut parent_body = Vec::new();
    StorageCell::serialize_to(&parent, &mut parent_body).unwrap();

    let mut batch = WriteBatch::new();
    let mut row = Vec::new();
    refcount::add_positive_refcount(1, &parent_body, &mut row);
    batch.put_cf(Column::Cells, &hash(1), &row);
    let mut row = Vec::new();
    refcount::add_positive_refcount(1, &child_body, &mut row);
    batch.put_cf(Column::Cells, &hash(2), &row);
    storage.write(&batch);

    assert_eq!(remove(&mut storage, 1), Err(CellStorageError::CounterMismatch));
}

#[test]
fn store_refuses_a_cell_with_five_references() {
    let storage = CellStorage::new();
    let leaf = cell(9, vec![], 1);
    let root = cell(0, vec![leaf.clone(), leaf.clone(), leaf.clone(), leaf.clone(), leaf], 6);
    let mut batch = WriteBatch::new();
    assert_eq!(
        storage.store_cell(&mut batch, &root),
        Err(CellStorageError::InvalidCell)
    );
    assert!(batch.is_empty());
}

#[test]
fn load_returns_the_cached_cell_until_it_is_dropped() {
    let mut storage = CellStorage::new();
    let root = diamond();
    store(&mut storage, &root);

    let first = storage.load_cell(&hash(0)).unwrap();
    let second = storage.load_cell(&hash(0)).unwrap();
    assert!(Arc::ptr_eq(&first, &second));

    storage.drop_cell(&hash(0));
    let third = storage.load_cell(&hash(0)).unwrap();
    assert!(!Arc::ptr_eq(&first, &third));
    assert_eq!(third.tree_cell_count(), 4);
}

#[test]
fn walks_ask_for_one_row_at_a_time() {
    let root = diamond();
    let arena = Bump::new();
    let mut walk = StoreWalk::new(&arena, &root);
    let mut asked = Vec::new();
    while let Some(cell) = walk.next_cell() {
        asked.push(cell.repr_hash[0]);
        walk.supply(None).unwrap();
    }
    // the root, its children, then the children of C2 and of C1
    assert_eq!(asked, vec![0, 1, 2, 3, 3]);
    let mut batch = WriteBatch::new();
    assert_eq!(walk.finalize(&mut batch), 4);

    let mut storage = CellStorage::new();
    storage.write(&batch);
    let arena = Bump::new();
    let mut walk = RemoveWalk::new(&arena, &hash(0));
    let mut asked = Vec::new();
    while let Some(key) = walk.next_key() {
        let key = *key;
        asked.push(key[0]);
        walk.supply(storage.row(&key)).unwrap();
    }
    assert_eq!(asked, vec![0, 2, 3, 1]);
    let mut batch = WriteBatch::new();
    assert_eq!(walk.finalize(&mut batch), 4);
}

#[test]
fn serialized_cell_reads_back() {
    let root = diamond();
    let mut body = Vec::new();
    StorageCell::serialize_to(&root, &mut body).unwrap();
    assert_eq!(body.len(), 2 + 2 + 1 + 64 + 16);
    assert_eq!(&body[..5], &[2, 0, 0, 1, 2]);

    let cell = StorageCell::deserialize(hash(0), &body).unwrap();
    assert_eq!(cell.data(), &[0u8, 1][..]);
    assert_eq!(cell.tree_bits_count(), 64);
    assert_eq!(cell.tree_cell_count(), 4);

    let mut refs = Vec::new();
    assert!(StorageCell::deserialize_references(&body, &mut refs));
    assert_eq!(refs, vec![hash(1), hash(2)]);

    // without the totals the cell still reads, with zero totals
    let cell = StorageCell::deserialize(hash(0), &body[..body.len() - 16]).unwrap();
    assert_eq!((cell.tree_bits_count(), cell.tree_cell_count()), (0, 0));

    // cut inside the second hash
    let mut refs = Vec::new();
    assert!(!StorageCell::deserialize_references(&body[..40], &mut refs));
    assert_eq!(refs, vec![hash(1)]);
    assert_eq!(
        StorageCell::deserialize(hash(0), &body[..40]).err(),
        Some(CellStorageError::InvalidCell)
    );
}

#[test]
fn refcount_rows() {
    let mut row = Vec::new();
    refcount::add_positive_refcount(3, &[1, 2], &mut row);
    assert_eq!(row, vec![3, 0, 0, 0, 0, 0, 0, 0, 1, 2]);
    assert!(refcount::has_value(&row));
    assert_eq!(refcount::strip_refcount(&row), Some(&[1u8, 2][..]));

    let minus = refcount::encode_negative_refcount(2);
    assert_eq!(minus, (-2i64).to_le_bytes().to_vec());
    assert_eq!(refcount::decode_value_with_rc(&minus), (-2, None));

    let merged = refcount::merge(Some(&row), &minus);
    assert_eq!(merged, vec![1, 0, 0, 0, 0, 0, 0, 0, 1, 2]);
    let gone = refcount::merge(Some(&merged), &refcount::encode_negative_refcount(1));
    assert_eq!(gone, vec![0u8; 8]);
    assert!(!refcount::has_value(&gone));
    assert_eq!(refcount::strip_refcount(&gone), None);

    // an operand may come before any row
    let first = refcount::merge(None, &row);
    assert_eq!(first, row);
    // the body of the first insertion stays
    let mut other = Vec::new();
    refcount::add_positive_refcount(1, &[9, 9], &mut other);
    assert_eq!(
        refcount::merge(Some(&first), &other),
        vec![4, 0, 0, 0, 0, 0, 0, 0, 1, 2]
    );
    assert!(!refcount::has_value(&[1, 0, 0]));
}

#[test]
fn compaction_drops_the_rows_without_references() {
    let mut storage = CellStorage::new();
    let root = diamond();
    store(&mut storage, &root);
    let other = cell(9, vec![], 1);
    store(&mut storage, &other);
    assert_eq!(remove(&mut storage, 0), Ok(4));
    assert_eq!(refcount_of(&storage, 3), Some(0));

    storage.compact();
    for n in 0..4u8 {
        assert_eq!(storage.row(&hash(n)), None);
    }
    assert_eq!(refcount_of(&storage, 9), Some(1));
    // a cell that was dropped can be stored again
    assert_eq!(store(&mut storage, &root), 4);
    assert_eq!(refcount_of(&storage, 3), Some(2));
    storage.compact();
    assert_eq!(refcount_of(&storage, 0), Some(1));
}

#[test]
fn store_fails_where_the_arena_gives_out() {
    let root = diamond();
    let arena = Bump::new();
    arena.set_allocation_limit(Some(0));
    let mut walk = StoreWalk::new(&arena, &root);
    assert!(walk.next_cell().is_some());
    assert_eq!(walk.supply(None), Err(CellStorageError::AllocationFailed));
    // the walk is as it was and goes on once there is room
    arena.set_allocation_limit(None);
    assert_eq!(walk.next_cell().map(|cell| cell.repr_hash), Some(hash(0)));
    assert_eq!(walk.supply(None), Ok(()));
    assert_eq!(walk.next_cell().map(|cell| cell.repr_hash), Some(hash(1)));

    let mut storage = CellStorage::new();
    store(&mut storage, &root);
    let arena = Bump::new();
    arena.set_allocation_limit(Some(0));
    let mut walk = RemoveWalk::new(&arena, &hash(0));
    assert_eq!(
        walk.supply(storage.row(&hash(0))),
        Err(CellStorageError::AllocationFailed)
    );
}

#[test]
fn counts_do_not_run_over() {
    // the root names the same child twice
    let child = cell(2, vec![], 1);
    let root = cell(1, vec![child.clone(), child], 3);
    let arena = Bump::new();
    let mut walk = StoreWalk::new(&arena, &root);
    walk.supply(None).unwrap();
    walk.supply(None).unwrap();
    assert_eq!(walk.counts, vec![1, 1]);
    walk.counts[1] = u32::MAX;
    assert_eq!(walk.supply(None), Err(CellStorageError::CounterOverflow));
    assert_eq!(walk.counts, vec![1, u32::MAX]);

    // a cell with more references than one removal can take
    let mut body = Vec::new();
    StorageCell::serialize_to(&cell(1, vec![], 1), &mut body).unwrap();
    let mut big = (1i64 << 40).to_le_bytes().to_vec();
    big.extend_from_slice(&body);
    let mut small = Vec::new();
    refcount::add_positive_refcount(5, &body, &mut small);

    let arena = Bump::new();
    let mut walk = RemoveWalk::new(&arena, &hash(1));
    walk.supply(Some(&big)).unwrap();
    assert!(walk.next_key().is_none());
    assert_eq!(walk.removes, vec![1]);
    walk.removes[0] = u32::MAX;
    walk.stack.push(hash(1));
    walk.stack.push(hash(2));
    assert_eq!(
        walk.supply(Some(&small)),
        Err(CellStorageError::CounterOverflow)
    );
}

#[test]
fn walks_take_the_copy_that_the_arena_made() {
    let root = diamond();
    let arena = Bump::new();
    let mut walk = StoreWalk::new(&arena, &root);
    // without the copy the step does not take place
    assert_eq!(
        walk.supply_copied(None, None),
        Err(CellStorageError::AllocationFailed)
    );
    assert_eq!(walk.next_cell().map(|cell| cell.repr_hash), Some(hash(0)));
    let mut body = Vec::new();
    StorageCell::serialize_to(&root, &mut body).unwrap();
    let copy: &[u8] = arena.alloc_slice_copy(&body);
    assert_eq!(walk.supply_copied(None, Some(copy)), Ok(()));
    assert_eq!(walk.next_cell().map(|cell| cell.repr_hash), Some(hash(1)));
    assert_eq!(walk.transaction.get(&hash(0)), Some(&copy));

    // a step that keeps nothing asks for no copy
    let wide = cell(7, vec![cell(8, vec![], 1); 5], 6);
    let mut walk = StoreWalk::new(&arena, &wide);
    assert_eq!(
        walk.supply_copied(None, None),
        Err(CellStorageError::InvalidCell)
    );
    assert_eq!(walk.supply(None), Err(CellStorageError::InvalidCell));

    let mut storage = CellStorage::new();
    store(&mut storage, &root);
    let mut walk = RemoveWalk::new(&arena, &hash(0));
    assert_eq!(
        walk.supply_copied(storage.row(&hash(0)), None),
        Err(CellStorageError::AllocationFailed)
    );
    assert_eq!(walk.next_key(), Some(&hash(0)));
    let refs: &[[u8; 32]] = arena.alloc_slice_copy(&[hash(1), hash(2)]);
    assert_eq!(walk.supply_copied(storage.row(&hash(0)), Some(refs)), Ok(()));
    assert_eq!(walk.next_key(), Some(&hash(2)));
    // an absent row and a row without a cell fail before any copy is asked for
    assert_eq!(
        walk.supply_copied(None, None),
        Err(CellStorageError::CellNotFound)
    );
    let mut walk = RemoveWalk::new(&arena, &hash(0));
    assert_eq!(
        walk.supply_copied(Some(&[1, 0, 0, 0, 0, 0, 0, 0, 9]), None),
        Err(CellStorageError::InvalidCell)
    );
}

#[test]
fn remove_of_a_tombstone_fails_without_the_arena() {
    let mut storage = CellStorage::new();
    let root = diamond();
    store(&mut storage, &root);
    assert_eq!(remove(&mut storage, 0), Ok(4));
    assert_eq!(refcount_of(&storage, 0), Some(0));

    let arena = Bump::new();
    arena.set_allocation_limit(Some(0));
    let mut batch = WriteBatch::new();
    assert_eq!(
        storage.remove_cell(&mut batch, &arena, &hash(0)),
        Err(CellStorageError::CellNotFound)
    );
    assert_eq!(
        storage.remove_cell(&mut batch, &arena, &hash(42)),
        Err(CellStorageError::CellNotFound)
    );
    assert!(batch.is_empty());
}

#[test]
fn rows_and_cells_are_tested_for_their_form() {
    let root = diamond();
    assert!(StorageCell::can_serialize(&root));
    let wide = cell(7, vec![cell(8, vec![], 1); 5], 6);
    assert!(!StorageCell::can_serialize(&wide));
    let mut long = cell(7, vec![], 1);
    Arc::get_mut(&mut long).unwrap().data = vec![0; 0x1_0000];
    assert!(!StorageCell::can_serialize(&long));
    Arc::get_mut(&mut long).unwrap().data = vec![0; 0xffff];
    assert!(StorageCell::can_serialize(&long));

    let mut body = Vec::new();
    StorageCell::serialize_to(&root, &mut body).unwrap();
    assert!(StorageCell::holds_cell(&body));
    assert!(StorageCell::holds_cell(&body[..body.len() - 16]));
    assert!(!StorageCell::holds_cell(&body[..body.len() - 17]));
    assert!(!StorageCell::holds_cell(&body[..4]));
    assert!(!StorageCell::holds_cell(&[]));
    assert!(StorageCell::holds_cell(&[0, 0, 0]));
    assert!(!StorageCell::holds_cell(&[0, 0, 1]));
}
