//! What holds of the cell store over whole operations.

use vstd::prelude::*;
use std::sync::Arc;
use crate::batch::{Column, Write};
use crate::cell_storage::{children, lemma_settle_measure, settle, tree_size, StoreEntry};
use crate::cell::{serializable, serialized, Cell};
use crate::cell_storage::{
    apply_write, apply_writes, entry_hashes, lemma_remove_bound, lemma_remove_step,
    lemma_remove_step_within, lemma_slack_update, lemma_step_measure, remove_walk,
    remove_within, removed, removed_hashes, revisit, row_found, slack, store_walk, touched,
    RemoveEntry, RemoveState, StoreState,
};
use crate::refcount::{
    lemma_merged_row, lemma_negative_operand, lemma_positive_operand, merged_payload,
    merged_refcount, merged_row, negative_operand, positive_operand, row_has_value, row_payload,
    row_refcount,
};
use crate::table::{distinct, key_at, position};

verus! {

/// What holds of a store walk from `root` over `rows` between two rows.
pub open spec fn store_shape(rows: Map<Seq<u8>, Seq<u8>>, root: Cell, state: StoreState) -> bool {
    &&& distinct(entry_hashes(state.entries))
    &&& forall|i: int|
        0 <= i < state.entries.len() ==> 1 <= (#[trigger] state.entries[i]).rc <= u32::MAX
            && state.entries[i].data.len() > 0
    &&& state.entries.len() == 0 ==> state.pending == seq![root] && !state.root_known
    &&& state.entries.len() > 0 ==> {
        &&& state.entries[0].hash == root.repr_hash@
        &&& state.entries[0].data == serialized(root)
        &&& state.root_known == row_found(rows.get(root.repr_hash@))
    }
    &&& state.root_known ==> state.entries.len() == 1 && state.entries[0].rc == 1
        && state.finished()
}

/// A step of a walk keeps its shape.
pub proof fn lemma_step_shape(
    rows: Map<Seq<u8>, Seq<u8>>,
    root: Cell,
    state: StoreState,
)
    requires
        store_shape(rows, root, state),
        !state.finished(),
        state.step(rows.get(state.pending.first().repr_hash@)) is Ok,
    ensures
        store_shape(rows, root, state.step(rows.get(state.pending.first().repr_hash@))->Ok_0),
        state.step(rows.get(state.pending.first().repr_hash@))->Ok_0.entries.len() > 0,
{
    let cell = state.pending.first();
    let hash = cell.repr_hash@;
    let next = state.step(rows.get(hash))->Ok_0;
    let hashes = entry_hashes(state.entries);
    if touched(state.entries, hash) {
        let i = position(hashes, hash);
        assert(key_at(hashes, hash, i));
        assert(entry_hashes(next.entries) =~= hashes);
        assert forall|j: int| 0 <= j < next.entries.len() implies 1 <= (
        #[trigger] next.entries[j]).rc <= u32::MAX && next.entries[j].data.len() > 0 by {
            assert(state.entries[j].rc >= 1);
        }
    } else {
        assert(entry_hashes(next.entries) =~= hashes.push(hash));
        assert forall|a: int, b: int| 0 <= a < b < next.entries.len() implies entry_hashes(
            next.entries,
        )[a] != entry_hashes(next.entries)[b] by {
            if b == state.entries.len() {
                if hashes[a] == hash {
                    assert(key_at(hashes, hash, a));
                }
            } else {
                assert(hashes[a] != hashes[b]);
            }
        }
        assert forall|j: int| 0 <= j < next.entries.len() implies 1 <= (
        #[trigger] next.entries[j]).rc <= u32::MAX && next.entries[j].data.len() > 0 by {
            if j < state.entries.len() {
                assert(state.entries[j].rc >= 1);
            }
        }
    }
}

/// A walk that ends well ends in shape, with at least the root touched.
pub proof fn lemma_walk_shape(rows: Map<Seq<u8>, Seq<u8>>, root: Cell, state: StoreState)
    requires
        store_shape(rows, root, state),
        store_walk(rows, state) is Ok,
    ensures
        store_shape(rows, root, store_walk(rows, state)->Ok_0),
        store_walk(rows, state)->Ok_0.finished(),
        !state.finished() ==> store_walk(rows, state)->Ok_0.entries.len() > 0,
        state.entries.len() > 0 ==> store_walk(rows, state)->Ok_0.entries.len() > 0,
    decreases state.measure(),
{
    if !state.finished() {
        let row = rows.get(state.pending.first().repr_hash@);
        let next = state.step(row)->Ok_0;
        lemma_step_measure(state, row);
        lemma_step_shape(rows, root, state);
        lemma_walk_shape(rows, root, next);
    }
}

/// The end of a store of `root` that succeeds: every touched cell is
/// touched once and gains at least one reference, the root among them.
/// The store reports no cell exactly where the rows held the root.
pub proof fn lemma_store_outcome(rows: Map<Seq<u8>, Seq<u8>>, root: Cell)
    requires
        store_walk(rows, StoreState::start(root)) is Ok,
    ensures
        ({
            let end = store_walk(rows, StoreState::start(root))->Ok_0;
            &&& store_shape(rows, root, end)
            &&& end.entries.len() > 0
            &&& end.writes().len() == end.entries.len()
            &&& end.total() == 0 <==> row_found(rows.get(root.repr_hash@))
        }),
{
    let start = StoreState::start(root);
    assert(entry_hashes(start.entries) =~= Seq::<Seq<u8>>::empty());
    lemma_walk_shape(rows, root, start);
}

/// A store of a root that the rows hold touches the root alone: it hands
/// the root one reference and does not look at its children.
pub proof fn lemma_store_known_root(rows: Map<Seq<u8>, Seq<u8>>, root: Cell)
    requires
        row_found(rows.get(root.repr_hash@)),
        serializable(root.data@.len(), root.references@.len()),
    ensures
        store_walk(rows, StoreState::start(root)) is Ok,
        ({
            let end = store_walk(rows, StoreState::start(root))->Ok_0;
            &&& end.total() == 0
            &&& end.writes() == seq![
                Write::Merge {
                    column: Column::Cells,
                    key: root.repr_hash@,
                    value: positive_operand(1, serialized(root)),
                },
            ]
        }),
{
    let start = StoreState::start(root);
    let row = rows.get(root.repr_hash@);
    assert(start.pending.first() == root);
    assert(!touched(start.entries, root.repr_hash@)) by {
        assert(entry_hashes(start.entries) =~= Seq::<Seq<u8>>::empty());
    }
    let next = start.step(row)->Ok_0;
    assert(start.step(row) is Ok);
    assert(next.finished());
    lemma_step_measure(start, row);
    assert(store_walk(rows, start) == store_walk(rows, next));
    assert(store_walk(rows, next) == Ok::<StoreState, crate::cell::CellStorageError>(next));
    assert(next.writes() =~= seq![
        Write::Merge {
            column: Column::Cells,
            key: root.repr_hash@,
            value: positive_operand(1, serialized(root)),
        },
    ]);
}

/// What the rows hold after the merges of a store were applied: under the
/// hash of each touched cell the merge of its operand into the row that
/// was there, and under every other key what was there.
pub proof fn lemma_store_applied(rows: Map<Seq<u8>, Seq<u8>>, state: StoreState, n: int)
    requires
        distinct(entry_hashes(state.entries)),
        0 <= n <= state.entries.len(),
    ensures
        forall|i: int|
            0 <= i < n ==> #[trigger] apply_writes(rows, state.writes().take(n)).get(
                state.entries[i].hash,
            ) == Some(
                merged_row(
                    rows.get(state.entries[i].hash),
                    positive_operand(state.entries[i].rc as u32, state.entries[i].data),
                ),
            ),
        forall|key: Seq<u8>|
            !(exists|i: int| 0 <= i < n && key_at(entry_hashes(state.entries), key, i))
                ==> #[trigger] apply_writes(rows, state.writes().take(n)).get(key) == rows.get(
                key,
            ),
    decreases n,
{
    let writes = state.writes();
    let hashes = entry_hashes(state.entries);
    if n == 0 {
        assert(writes.take(0) =~= Seq::<Write>::empty());
    } else {
        lemma_store_applied(rows, state, n - 1);
        let front = apply_writes(rows, writes.take(n - 1));
        let last = state.entries[n - 1];
        assert(writes.take(n).drop_last() =~= writes.take(n - 1));
        assert(writes.take(n).last() == writes[n - 1]);
        let after = apply_writes(rows, writes.take(n));
        assert(after == apply_write(front, writes[n - 1]));
        assert(!(exists|i: int| 0 <= i < n - 1 && key_at(hashes, last.hash, i))) by {
            if exists|i: int| 0 <= i < n - 1 && key_at(hashes, last.hash, i) {
                let i = choose|i: int| 0 <= i < n - 1 && key_at(hashes, last.hash, i);
                assert(hashes[i] != hashes[n - 1]);
            }
        }
        assert(front.get(last.hash) == rows.get(last.hash));
        assert forall|i: int| 0 <= i < n implies #[trigger] after.get(state.entries[i].hash)
            == Some(
            merged_row(
                rows.get(state.entries[i].hash),
                positive_operand(state.entries[i].rc as u32, state.entries[i].data),
            ),
        ) by {
            if i < n - 1 {
                assert(hashes[i] != hashes[n - 1]);
                assert(front.get(state.entries[i].hash) == Some(
                    merged_row(
                        rows.get(state.entries[i].hash),
                        positive_operand(state.entries[i].rc as u32, state.entries[i].data),
                    ),
                ));
            }
        }
        assert forall|key: Seq<u8>|
            !(exists|i: int| 0 <= i < n && key_at(hashes, key, i)) implies #[trigger] after.get(
            key,
        ) == rows.get(key) by {
            assert(!key_at(hashes, key, n - 1));
            assert(!(exists|i: int| 0 <= i < n - 1 && key_at(hashes, key, i))) by {
                if exists|i: int| 0 <= i < n - 1 && key_at(hashes, key, i) {
                    let i = choose|i: int| 0 <= i < n - 1 && key_at(hashes, key, i);
                    assert(key_at(hashes, key, i));
                }
            }
            assert(front.get(key) == rows.get(key));
        }
    }
}

/// Whether no row has a negative reference count.
pub open spec fn rows_sane(rows: Map<Seq<u8>, Seq<u8>>) -> bool {
    forall|key: Seq<u8>| #[trigger] rows.contains_key(key) ==> row_refcount(rows[key]) >= 0
}

/// Whether every row is still one reference away from the greatest count.
pub open spec fn rows_have_room(rows: Map<Seq<u8>, Seq<u8>>) -> bool {
    forall|key: Seq<u8>| #[trigger]
        rows.contains_key(key) ==> row_refcount(rows[key]) + u32::MAX <= i64::MAX
}

/// After a store, the rows hold every cell that the store touched, with
/// the references it had and the ones it gained; a cell that the rows
/// held keeps its body. Every other row is as it was.
pub proof fn lemma_store_effect(rows: Map<Seq<u8>, Seq<u8>>, root: Cell)
    requires
        rows_sane(rows),
        rows_have_room(rows),
        store_walk(rows, StoreState::start(root)) is Ok,
    ensures
        ({
            let end = store_walk(rows, StoreState::start(root))->Ok_0;
            let after = apply_writes(rows, end.writes());
            &&& rows_sane(after)
            &&& row_found(after.get(root.repr_hash@))
            &&& forall|i: int|
                0 <= i < end.entries.len() ==> {
                    let hash = (#[trigger] end.entries[i]).hash;
                    let before = if rows.contains_key(hash) {
                        row_refcount(rows[hash])
                    } else {
                        0
                    };
                    &&& after.contains_key(hash)
                    &&& row_refcount(after[hash]) == before + end.entries[i].rc
                    &&& row_payload(after[hash]) == (if row_found(rows.get(hash)) && row_payload(
                        rows[hash],
                    ) is Some {
                        row_payload(rows[hash])
                    } else {
                        Some(end.entries[i].data)
                    })
                }
            &&& forall|key: Seq<u8>|
                !touched(end.entries, key) ==> #[trigger] after.get(key) == rows.get(key)
        }),
{
    let end = store_walk(rows, StoreState::start(root))->Ok_0;
    let after = apply_writes(rows, end.writes());
    let n = end.entries.len() as int;
    lemma_store_outcome(rows, root);
    lemma_store_applied(rows, end, n);
    assert(end.writes().take(n) =~= end.writes());
    assert forall|i: int| 0 <= i < end.entries.len() implies {
        let hash = (#[trigger] end.entries[i]).hash;
        let before = if rows.contains_key(hash) {
            row_refcount(rows[hash])
        } else {
            0
        };
        &&& after.contains_key(hash)
        &&& row_refcount(after[hash]) == before + end.entries[i].rc
        &&& row_payload(after[hash]) == (if row_found(rows.get(hash)) && row_payload(rows[hash])
            is Some {
            row_payload(rows[hash])
        } else {
            Some(end.entries[i].data)
        })
    } by {
        let entry = end.entries[i];
        let operand = positive_operand(entry.rc as u32, entry.data);
        assert(after.get(entry.hash) == Some(merged_row(rows.get(entry.hash), operand)));
        lemma_positive_operand(entry.rc as u32, entry.data);
        lemma_merged_row(rows.get(entry.hash), operand);
        if rows.contains_key(entry.hash) {
            assert(row_refcount(rows[entry.hash]) >= 0);
            assert(row_refcount(rows[entry.hash]) + u32::MAX <= i64::MAX);
        }
    }
    assert forall|key: Seq<u8>| !touched(end.entries, key) implies #[trigger] after.get(key)
        == rows.get(key) by {
        assert(!(exists|i: int| 0 <= i < n && key_at(entry_hashes(end.entries), key, i)));
    }
    assert forall|key: Seq<u8>| #[trigger] after.contains_key(key) implies row_refcount(
        after[key],
    ) >= 0 by {
        if touched(end.entries, key) {
            let i = choose|i: int| key_at(entry_hashes(end.entries), key, i);
            assert(end.entries[i].hash == key);
        } else {
            assert(after.get(key) == rows.get(key));
            assert(rows.contains_key(key));
        }
    }
    assert(end.entries[0].hash == root.repr_hash@);
}

/// A row that holds a cell, merged with an operand of one reference, holds
/// the same cell with one reference more.
pub proof fn lemma_bump_row(row: Seq<u8>, data: Seq<u8>)
    requires
        row_has_value(row),
        row_payload(row) is Some,
        row_refcount(row) < i64::MAX,
    ensures
        row_refcount(merged_row(Some(row), positive_operand(1, data))) == row_refcount(row) + 1,
        row_payload(merged_row(Some(row), positive_operand(1, data))) == row_payload(row),
{
    let operand = positive_operand(1, data);
    lemma_positive_operand(1, data);
    lemma_merged_row(Some(row), operand);
    assert(merged_refcount(Some(row), operand) == row_refcount(row) + 1);
    assert(merged_payload(Some(row), operand) == row_payload(row));
}

/// Storing a root that the rows hold bumps its reference count by one and
/// changes nothing else: the body of the root stays, no other row is
/// written, and the store reports no cell. So does every store of a root
/// that was stored before and not removed since.
pub proof fn lemma_store_again(rows: Map<Seq<u8>, Seq<u8>>, root: Cell)
    requires
        row_found(rows.get(root.repr_hash@)),
        row_payload(rows[root.repr_hash@]) is Some,
        row_refcount(rows[root.repr_hash@]) < i64::MAX,
        serializable(root.data@.len(), root.references@.len()),
    ensures
        store_walk(rows, StoreState::start(root)) is Ok,
        ({
            let end = store_walk(rows, StoreState::start(root))->Ok_0;
            let after = apply_writes(rows, end.writes());
            let hash = root.repr_hash@;
            &&& end.total() == 0
            &&& end.writes().len() == 1
            &&& after.dom() == rows.dom()
            &&& row_refcount(after[hash]) == row_refcount(rows[hash]) + 1
            &&& row_payload(after[hash]) == row_payload(rows[hash])
            &&& forall|key: Seq<u8>| key != hash ==> #[trigger] after.get(key) == rows.get(key)
        }),
{
    lemma_store_known_root(rows, root);
    let end = store_walk(rows, StoreState::start(root))->Ok_0;
    let hash = root.repr_hash@;
    let data = serialized(root);
    let operand = positive_operand(1, data);
    let write = Write::Merge { column: Column::Cells, key: hash, value: operand };
    let writes = end.writes();
    let after = apply_writes(rows, writes);
    let merged = merged_row(Some(rows[hash]), operand);
    assert(writes == seq![write]);
    lemma_apply_one(rows, write);
    assert(after == rows.insert(hash, merged)) by {
        assert(rows.get(hash) == Some(rows[hash]));
    }
    lemma_bump_row(rows[hash], data);
    assert(after.dom() =~= rows.dom());
    assert(after[hash] == merged);
}

/// Applying one write is applying the sequence that holds it alone.
pub proof fn lemma_apply_one(rows: Map<Seq<u8>, Seq<u8>>, write: Write)
    ensures
        apply_writes(rows, seq![write]) == apply_write(rows, write),
{
    let writes = seq![write];
    assert(writes.drop_last() =~= Seq::<Write>::empty());
    assert(writes.last() == write);
    assert(apply_writes(rows, writes.drop_last()) == rows);
}

/// What holds of the cells that a remove walk over `rows` has touched:
/// each is a row of `rows` with the count that the row holds, and loses at
/// least one reference and no more than it has.
pub open spec fn remove_shape(rows: Map<Seq<u8>, Seq<u8>>, entries: Seq<RemoveEntry>) -> bool {
    &&& distinct(removed_hashes(entries))
    &&& forall|i: int|
        0 <= i < entries.len() ==> {
            let entry = #[trigger] entries[i];
            &&& rows.contains_key(entry.hash)
            &&& entry.rc == row_refcount(rows[entry.hash])
            &&& 1 <= entry.removes <= entry.rc
            &&& entry.removes <= u32::MAX
        }
}

/// Revisiting keeps the shape of the touched cells.
pub proof fn lemma_revisit_shape(
    rows: Map<Seq<u8>, Seq<u8>>,
    entries: Seq<RemoveEntry>,
    stack: Seq<Seq<u8>>,
)
    requires
        remove_shape(rows, entries),
        revisit(entries, stack) is Ok,
    ensures
        remove_shape(rows, revisit(entries, stack)->Ok_0.entries),
    decreases slack(entries),
{
    if !(stack.len() == 0 || !removed(entries, stack.last())) {
        let i = position(removed_hashes(entries), stack.last());
        let entry = entries[i];
        assert(key_at(removed_hashes(entries), stack.last(), i));
        let bumped = RemoveEntry {
            hash: entry.hash,
            rc: entry.rc,
            removes: entry.removes + 1,
            refs: entry.refs,
        };
        let rest = stack.drop_last();
        let next = if entry.rc > entry.removes + 1 {
            rest
        } else {
            rest + entry.refs
        };
        let updated = entries.update(i, bumped);
        lemma_slack_update(entries, i, bumped);
        assert(removed_hashes(updated) =~= removed_hashes(entries));
        assert forall|j: int| 0 <= j < updated.len() implies {
            let e = #[trigger] updated[j];
            &&& rows.contains_key(e.hash)
            &&& e.rc == row_refcount(rows[e.hash])
            &&& 1 <= e.removes <= e.rc
            &&& e.removes <= u32::MAX
        } by {
            let before = entries[j];
            assert(rows.contains_key(before.hash));
        }
        lemma_revisit_shape(rows, updated, next);
    }
}

/// A remove walk that ends well ends with nothing left to read and with
/// the touched cells in shape.
pub proof fn lemma_remove_walk_shape(rows: Map<Seq<u8>, Seq<u8>>, state: RemoveState)
    requires
        remove_within(rows, state),
        remove_shape(rows, state.entries),
        remove_walk(rows, state) is Ok,
    ensures
        remove_walk(rows, state)->Ok_0.finished(),
        remove_shape(rows, remove_walk(rows, state)->Ok_0.entries),
    decreases rows.dom().len() - state.entries.len(),
{
    if !state.finished() {
        let hash = state.stack.last();
        let row = rows.get(hash);
        let next = state.step(row)->Ok_0;
        lemma_remove_step_within(rows, state);
        lemma_remove_bound(rows, next);
        lemma_remove_step(state, row);
        let body = row_payload(row->0)->0;
        let first = state.entries.push(
            RemoveEntry {
                hash,
                rc: row_refcount(row->0),
                removes: 1,
                refs: crate::cell::body_references(body, crate::cell::body_reference_count(body)),
            },
        );
        assert(removed_hashes(first) =~= removed_hashes(state.entries).push(hash));
        assert(distinct(removed_hashes(first))) by {
            assert forall|a: int, b: int| 0 <= a < b < first.len() implies removed_hashes(first)[a]
                != removed_hashes(first)[b] by {
                if b == state.entries.len() {
                    if removed_hashes(first)[a] == hash {
                        assert(key_at(removed_hashes(state.entries), hash, a));
                    }
                } else {
                    assert(removed_hashes(state.entries)[a] != removed_hashes(state.entries)[b]);
                }
            }
        }
        assert forall|j: int| 0 <= j < first.len() implies {
            let e = #[trigger] first[j];
            &&& rows.contains_key(e.hash)
            &&& e.rc == row_refcount(rows[e.hash])
            &&& 1 <= e.removes <= e.rc
            &&& e.removes <= u32::MAX
        } by {
            if j < state.entries.len() {
                let before = state.entries[j];
                assert(rows.contains_key(before.hash));
            }
        }
        let rest = state.stack.drop_last();
        lemma_revisit_shape(
            rows,
            first,
            if row_refcount(row->0) > 1 {
                rest
            } else {
                rest + first.last().refs
            },
        );
        lemma_remove_walk_shape(rows, next);
    }
}

/// A row that holds a cell, merged with an operand that takes references
/// from it, holds the cell with that many references less, and holds
/// nothing once the last reference is taken.
pub proof fn lemma_take_from_row(row: Seq<u8>, removes: u32)
    requires
        1 <= removes <= row_refcount(row),
    ensures
        row_refcount(merged_row(Some(row), negative_operand(removes))) == row_refcount(row)
            - removes,
        removes < row_refcount(row) ==> row_payload(
            merged_row(Some(row), negative_operand(removes)),
        ) == row_payload(row),
        removes == row_refcount(row) ==> !row_has_value(
            merged_row(Some(row), negative_operand(removes)),
        ),
{
    let operand = negative_operand(removes);
    lemma_negative_operand(removes);
    lemma_merged_row(Some(row), operand);
    assert(merged_refcount(Some(row), operand) == row_refcount(row) - removes);
    assert(merged_payload(Some(row), operand) == row_payload(row));
}

/// What the rows hold after the first `n` merges of a removal were
/// applied: under the hash of each touched cell the merge of its operand
/// into the row that was there, and under every other key what was there.
pub proof fn lemma_remove_applied(rows: Map<Seq<u8>, Seq<u8>>, state: RemoveState, n: int)
    requires
        distinct(removed_hashes(state.entries)),
        0 <= n <= state.entries.len(),
    ensures
        forall|i: int|
            0 <= i < n ==> #[trigger] apply_writes(rows, state.writes().take(n)).get(
                state.entries[i].hash,
            ) == Some(
                merged_row(
                    rows.get(state.entries[i].hash),
                    negative_operand(state.entries[i].removes as u32),
                ),
            ),
        forall|key: Seq<u8>|
            !(exists|i: int| 0 <= i < n && key_at(removed_hashes(state.entries), key, i))
                ==> #[trigger] apply_writes(rows, state.writes().take(n)).get(key) == rows.get(
                key,
            ),
    decreases n,
{
    let writes = state.writes();
    let hashes = removed_hashes(state.entries);
    if n == 0 {
        assert(writes.take(0) =~= Seq::<Write>::empty());
    } else {
        lemma_remove_applied(rows, state, n - 1);
        let front = apply_writes(rows, writes.take(n - 1));
        let last = state.entries[n - 1];
        assert(writes.take(n).drop_last() =~= writes.take(n - 1));
        assert(writes.take(n).last() == writes[n - 1]);
        let after = apply_writes(rows, writes.take(n));
        assert(after == apply_write(front, writes[n - 1]));
        assert(!(exists|i: int| 0 <= i < n - 1 && key_at(hashes, last.hash, i))) by {
            if exists|i: int| 0 <= i < n - 1 && key_at(hashes, last.hash, i) {
                let i = choose|i: int| 0 <= i < n - 1 && key_at(hashes, last.hash, i);
                assert(hashes[i] != hashes[n - 1]);
            }
        }
        assert(front.get(last.hash) == rows.get(last.hash));
        assert forall|i: int| 0 <= i < n implies #[trigger] after.get(state.entries[i].hash)
            == Some(
            merged_row(
                rows.get(state.entries[i].hash),
                negative_operand(state.entries[i].removes as u32),
            ),
        ) by {
            if i < n - 1 {
                assert(hashes[i] != hashes[n - 1]);
                assert(front.get(state.entries[i].hash) == Some(
                    merged_row(
                        rows.get(state.entries[i].hash),
                        negative_operand(state.entries[i].removes as u32),
                    ),
                ));
            }
        }
        assert forall|key: Seq<u8>|
            !(exists|i: int| 0 <= i < n && key_at(hashes, key, i)) implies #[trigger] after.get(
            key,
        ) == rows.get(key) by {
            assert(!key_at(hashes, key, n - 1));
            assert(!(exists|i: int| 0 <= i < n - 1 && key_at(hashes, key, i))) by {
                if exists|i: int| 0 <= i < n - 1 && key_at(hashes, key, i) {
                    let i = choose|i: int| 0 <= i < n - 1 && key_at(hashes, key, i);
                    assert(key_at(hashes, key, i));
                }
            }
            assert(front.get(key) == rows.get(key));
        }
    }
}

/// After a removal, each touched cell has the references it had less
/// the ones it lost, never fewer than none: it keeps its body while
/// references are left and is gone with the last. The cell that was to
/// be removed has lost at least one. Every other row is as it was.
pub proof fn lemma_remove_effect(rows: Map<Seq<u8>, Seq<u8>>, hash: Seq<u8>)
    requires
        rows.dom().finite(),
        remove_walk(rows, RemoveState::start(hash)) is Ok,
    ensures
        ({
            let end = remove_walk(rows, RemoveState::start(hash))->Ok_0;
            let after = apply_writes(rows, end.writes());
            &&& remove_shape(rows, end.entries)
            &&& end.entries.len() > 0
            &&& end.entries[0].hash == hash
            &&& rows_sane(rows) ==> rows_sane(after)
            &&& forall|i: int|
                0 <= i < end.entries.len() ==> {
                    let entry = #[trigger] end.entries[i];
                    &&& after.contains_key(entry.hash)
                    &&& row_refcount(after[entry.hash]) == row_refcount(rows[entry.hash])
                        - entry.removes
                    &&& row_has_value(after[entry.hash]) <==> entry.removes < entry.rc
                    &&& entry.removes < entry.rc ==> row_payload(after[entry.hash])
                        == row_payload(rows[entry.hash])
                }
            &&& forall|key: Seq<u8>|
                !removed(end.entries, key) ==> #[trigger] after.get(key) == rows.get(key)
        }),
{
    let start = RemoveState::start(hash);
    assert(removed_hashes(start.entries) =~= Seq::<Seq<u8>>::empty());
    assert(remove_within(rows, start));
    lemma_remove_walk_shape(rows, start);
    let end = remove_walk(rows, start)->Ok_0;
    let after = apply_writes(rows, end.writes());
    let n = end.entries.len() as int;
    // the first step touches the cell that is to be removed
    let row = rows.get(hash);
    let next = start.step(row)->Ok_0;
    assert(start.step(row) is Ok);
    lemma_remove_step(start, row);
    lemma_remove_step_within(rows, start);
    assert(removed_hashes(next.entries)[0] == hash);
    lemma_remove_first(rows, next);
    lemma_remove_applied(rows, end, n);
    assert(end.writes().take(n) =~= end.writes());
    assert forall|i: int| 0 <= i < end.entries.len() implies {
        let entry = #[trigger] end.entries[i];
        &&& after.contains_key(entry.hash)
        &&& row_refcount(after[entry.hash]) == row_refcount(rows[entry.hash]) - entry.removes
        &&& row_has_value(after[entry.hash]) <==> entry.removes < entry.rc
        &&& entry.removes < entry.rc ==> row_payload(after[entry.hash]) == row_payload(
            rows[entry.hash],
        )
    } by {
        let entry = end.entries[i];
        assert(rows.contains_key(entry.hash));
        assert(after.get(entry.hash) == Some(
            merged_row(rows.get(entry.hash), negative_operand(entry.removes as u32)),
        ));
        lemma_take_from_row(rows[entry.hash], entry.removes as u32);
    }
    assert forall|key: Seq<u8>| !removed(end.entries, key) implies #[trigger] after.get(key)
        == rows.get(key) by {
        assert(!(exists|i: int| 0 <= i < n && key_at(removed_hashes(end.entries), key, i)));
    }
    if rows_sane(rows) {
        assert forall|key: Seq<u8>| #[trigger] after.contains_key(key) implies row_refcount(
            after[key],
        ) >= 0 by {
            if removed(end.entries, key) {
                let i = choose|i: int| key_at(removed_hashes(end.entries), key, i);
                assert(end.entries[i].hash == key);
            } else {
                assert(after.get(key) == rows.get(key));
                assert(rows.contains_key(key));
            }
        }
    }
}

/// A walk keeps the cells that it has touched, in their order.
pub proof fn lemma_remove_first(rows: Map<Seq<u8>, Seq<u8>>, state: RemoveState)
    requires
        remove_within(rows, state),
        remove_walk(rows, state) is Ok,
        state.entries.len() > 0,
    ensures
        remove_walk(rows, state)->Ok_0.entries.len() > 0,
        remove_walk(rows, state)->Ok_0.entries[0].hash == state.entries[0].hash,
    decreases rows.dom().len() - state.entries.len(),
{
    if !state.finished() {
        let row = rows.get(state.stack.last());
        let next = state.step(row)->Ok_0;
        lemma_remove_step_within(rows, state);
        lemma_remove_bound(rows, next);
        lemma_remove_step(state, row);
        assert(removed_hashes(next.entries)[0] == removed_hashes(state.entries)[0]);
        lemma_remove_first(rows, next);
    }
}

/// Whether `cell` and every cell below it has a serialized form.
pub open spec fn sound(cell: Cell) -> bool
    decreases cell, 1nat,
{
    serializable(cell.data@.len(), cell.references@.len()) && sound_all(cell.references@)
}

/// Whether every cell of `cells`, and every cell below one, has a
/// serialized form.
pub open spec fn sound_all(cells: Seq<Arc<Cell>>) -> bool
    decreases cells, 0nat,
{
    cells.len() == 0 || (sound(*cells.last()) && sound_all(cells.drop_last()))
}

/// Whether every cell of `cells` is sound.
pub open spec fn all_sound(cells: Seq<Cell>) -> bool {
    forall|i: int| 0 <= i < cells.len() ==> sound(#[trigger] cells[i])
}

/// Number of references that a transaction adds in all.
pub open spec fn total_rc(entries: Seq<StoreEntry>) -> nat
    decreases entries.len(),
{
    if entries.len() == 0 {
        0
    } else {
        total_rc(entries.drop_last()) + entries.last().rc
    }
}

proof fn lemma_sound_children(cells: Seq<Arc<Cell>>)
    requires
        sound_all(cells),
    ensures
        forall|i: int| 0 <= i < cells.len() ==> sound(*#[trigger] cells[i]),
    decreases cells.len(),
{
    if cells.len() > 0 {
        lemma_sound_children(cells.drop_last());
        assert forall|i: int| 0 <= i < cells.len() implies sound(*#[trigger] cells[i]) by {
            if i < cells.len() - 1 {
                assert(cells.drop_last()[i] == cells[i]);
            }
        }
    }
}

proof fn lemma_settle_sound(stack: Seq<Cell>, pending: Seq<Cell>)
    requires
        all_sound(stack),
        all_sound(pending),
    ensures
        all_sound(settle(stack, pending).0),
        all_sound(settle(stack, pending).1),
    decreases stack.len(),
{
    if !(pending.len() > 0 || stack.len() == 0) {
        let top = stack.last();
        lemma_sound_children(top.references@);
        assert(all_sound(stack.drop_last())) by {
            assert forall|i: int| 0 <= i < stack.drop_last().len() implies sound(
                #[trigger] stack.drop_last()[i],
            ) by {
                assert(stack.drop_last()[i] == stack[i]);
            }
        }
        lemma_settle_sound(stack.drop_last(), children(top));
    }
}

proof fn lemma_total_rc_update(entries: Seq<StoreEntry>, i: int, entry: StoreEntry)
    requires
        0 <= i < entries.len(),
    ensures
        total_rc(entries.update(i, entry)) == total_rc(entries) - entries[i].rc + entry.rc,
        entries[i].rc <= total_rc(entries),
    decreases entries.len(),
{
    if i == entries.len() - 1 {
        assert(entries.update(i, entry).drop_last() =~= entries.drop_last());
    } else {
        lemma_total_rc_update(entries.drop_last(), i, entry);
        assert(entries.update(i, entry).drop_last() =~= entries.drop_last().update(i, entry));
    }
}

/// A walk over sound cells that has counted fewer references than a count
/// can say, and has not so many left to count, does not fail.
pub proof fn lemma_walk_succeeds(rows: Map<Seq<u8>, Seq<u8>>, state: StoreState)
    requires
        all_sound(state.pending),
        all_sound(state.stack),
        total_rc(state.entries) + state.measure() <= u32::MAX,
    ensures
        store_walk(rows, state) is Ok,
    decreases state.measure(),
{
    if !state.finished() {
        let cell = state.pending.first();
        let hash = cell.repr_hash@;
        let row = rows.get(hash);
        let rest = state.pending.drop_first();
        assert(sound(cell));
        assert(all_sound(rest)) by {
            assert forall|i: int| 0 <= i < rest.len() implies sound(#[trigger] rest[i]) by {
                assert(rest[i] == state.pending[i + 1]);
            }
        }
        lemma_settle_measure(state.stack, state.pending);
        assert(state.measure() >= 1) by {
            lemma_measure_positive(state);
        }
        if touched(state.entries, hash) {
            let i = position(entry_hashes(state.entries), hash);
            assert(key_at(entry_hashes(state.entries), hash, i));
            let entry = state.entries[i];
            lemma_total_rc_update(
                state.entries,
                i,
                StoreEntry { hash: entry.hash, rc: entry.rc + 1, data: entry.data },
            );
            lemma_settle_sound(state.stack, rest);
        } else {
            let entry = StoreEntry { hash, rc: 1, data: serialized(cell) };
            assert(state.entries.push(entry).drop_last() =~= state.entries);
            lemma_settle_sound(state.stack, rest);
            let stack = state.stack.push(cell);
            assert(all_sound(stack)) by {
                assert forall|i: int| 0 <= i < stack.len() implies sound(#[trigger] stack[i]) by {
                    if i < state.stack.len() {
                        assert(stack[i] == state.stack[i]);
                    }
                }
            }
            lemma_settle_sound(stack, rest);
        }
        assert(state.step(row) is Ok);
        let next = state.step(row)->Ok_0;
        lemma_step_measure(state, row);
        assert(total_rc(next.entries) == total_rc(state.entries) + 1);
        lemma_walk_succeeds(rows, next);
    }
}

proof fn lemma_measure_positive(state: StoreState)
    requires
        !state.finished(),
    ensures
        state.measure() >= 1,
{
    crate::cell_storage::lemma_weight_bounds(state.pending, 0);
    crate::cell_storage::lemma_weight_bounds(state.stack, 1);
}

/// The store of a tree of sound cells, not so big that a reference count
/// could run over, does not fail.
pub proof fn lemma_store_succeeds(rows: Map<Seq<u8>, Seq<u8>>, root: Cell)
    requires
        sound(root),
        2 * tree_size(root) <= u32::MAX,
    ensures
        store_walk(rows, StoreState::start(root)) is Ok,
{
    let start = StoreState::start(root);
    assert(start.pending.drop_last() =~= Seq::<Cell>::empty());
    assert(start.pending.last() == root);
    assert(crate::cell_storage::weight(start.pending.drop_last(), 0) == 0);
    assert(crate::cell_storage::weight(start.pending, 0) == 2 * tree_size(root));
    assert(crate::cell_storage::weight(start.stack, 1) == 0);
    lemma_walk_succeeds(rows, start);
}

/// The store of a root that has no serialized form is refused at its
/// first step.
pub proof fn lemma_store_refused(rows: Map<Seq<u8>, Seq<u8>>, root: Cell)
    ensures
        !serializable(root.data@.len(), root.references@.len()) ==> store_walk(
            rows,
            StoreState::start(root),
        ) == Err::<StoreState, crate::cell::CellStorageError>(
            crate::cell::CellStorageError::InvalidCell,
        ),
{
    let start = StoreState::start(root);
    assert(start.pending.first() == root);
    assert(!touched(start.entries, root.repr_hash@)) by {
        assert(entry_hashes(start.entries) =~= Seq::<Seq<u8>>::empty());
    }
}

} // verus!
