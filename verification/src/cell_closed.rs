//! The rows of the cell store stay closed under stores: where every cell
//! that the rows hold has its children among the cells that the rows hold,
//! so it is after a tree was stored, and the rows hold the root of the tree
//! and all that is reached from it.
//!
//! Nothing is asked of the hashes here: two cells of a tree may carry the
//! same hash and differ. The row of a hash then holds the cell that was
//! met first.

use vstd::prelude::*;
use crate::cell::{
    body_reference_count, body_references, body_valid, child_hashes, lemma_serialize_round_trip,
    serializable, serialized, Cell,
};
use crate::cell_closure::lemma_position;
use crate::cell_laws::{
    lemma_step_shape, lemma_store_effect, rows_have_room, rows_sane, store_shape,
};
use crate::cell_storage::{
    apply_writes, children, entry_hashes, lemma_settle_measure, lemma_step_measure, live,
    row_found, settle, store_walk, touched, StoreEntry, StoreState,
};
use crate::refcount::{row_payload, row_refcount};
use crate::table::{key_at, position};

verus! {

/// The hashes of the children that the row under `hash` names.
pub open spec fn row_kids(rows: Map<Seq<u8>, Seq<u8>>, hash: Seq<u8>) -> Seq<Seq<u8>> {
    body_references(
        row_payload(rows[hash])->0,
        body_reference_count(row_payload(rows[hash])->0),
    )
}

/// Whether every cell that `rows` hold is whole and has its children
/// among the cells that `rows` hold.
pub open spec fn closed(rows: Map<Seq<u8>, Seq<u8>>) -> bool {
    forall|hash: Seq<u8>| #[trigger]
        live(rows, hash) ==> {
            &&& row_payload(rows[hash]) is Some
            &&& body_valid(row_payload(rows[hash])->0)
            &&& forall|k: int|
                0 <= k < row_kids(rows, hash).len() ==> live(
                    rows,
                    #[trigger] row_kids(rows, hash)[k],
                )
        }
}

/// Whether `path` leads down along the references that the rows name.
pub open spec fn row_path(rows: Map<Seq<u8>, Seq<u8>>, path: Seq<Seq<u8>>) -> bool {
    &&& path.len() >= 1
    &&& forall|i: int|
        0 <= i < path.len() - 1 ==> row_kids(rows, #[trigger] path[i]).contains(path[i + 1])
}

/// Closed rows that hold a cell hold every cell that is reached from it.
pub proof fn lemma_closed_reach(rows: Map<Seq<u8>, Seq<u8>>, path: Seq<Seq<u8>>)
    requires
        closed(rows),
        row_path(rows, path),
        live(rows, path[0]),
    ensures
        live(rows, path.last()),
    decreases path.len(),
{
    if path.len() > 1 {
        let front = path.drop_last();
        assert(row_path(rows, front)) by {
            assert forall|i: int| 0 <= i < front.len() - 1 implies row_kids(
                rows,
                #[trigger] front[i],
            ).contains(front[i + 1]) by {
                assert(front[i] == path[i]);
                assert(front[i + 1] == path[i + 1]);
            }
        }
        assert(front[0] == path[0]);
        lemma_closed_reach(rows, front);
        let parent = path[path.len() - 2];
        assert(front.last() == parent);
        assert(row_kids(rows, parent).contains(path[path.len() - 2 + 1]));
        let k = choose|k: int|
            0 <= k < row_kids(rows, parent).len() && row_kids(rows, parent)[k] == path.last();
        assert(live(rows, row_kids(rows, parent)[k]));
    }
}

/// Whether a cell of `pending` has this hash.
pub open spec fn awaited(pending: Seq<Cell>, hash: Seq<u8>) -> bool {
    exists|p: int| 0 <= p < pending.len() && (#[trigger] pending[p]).repr_hash@ == hash
}

/// The serialized form that the transaction keeps for the cell with this
/// hash.
pub open spec fn entry_data(entries: Seq<StoreEntry>, hash: Seq<u8>) -> Seq<u8> {
    entries[position(entry_hashes(entries), hash)].data
}

/// What holds of a store walk, where `fresh` lists the cells that the rows
/// did not hold: the transaction keeps the serialized form of each, and
/// each of its children is touched, or will be.
pub open spec fn descent_inv(
    rows: Map<Seq<u8>, Seq<u8>>,
    root: Cell,
    state: StoreState,
    fresh: Seq<Cell>,
) -> bool {
    &&& store_shape(rows, root, state)
    &&& state.finished() ==> state.stack.len() == 0
    &&& forall|j: int|
        0 <= j < fresh.len() ==> {
            let cell = #[trigger] fresh[j];
            &&& serializable(cell.data@.len(), cell.references@.len())
            &&& touched(state.entries, cell.repr_hash@)
            &&& entry_data(state.entries, cell.repr_hash@) == serialized(cell)
            &&& forall|k: int|
                0 <= k < child_hashes(cell).len() ==> touched(
                    state.entries,
                    #[trigger] child_hashes(cell)[k],
                ) || state.stack.contains(cell) || awaited(state.pending, child_hashes(cell)[k])
        }
    &&& forall|i: int|
        0 <= i < state.entries.len() && !row_found(rows.get((#[trigger] state.entries[i]).hash))
            ==> exists|j: int|
            0 <= j < fresh.len() && (#[trigger] fresh[j]).repr_hash@ == state.entries[i].hash
}

/// Settling loses no child of a cell that stands on the stack: what was
/// awaited is awaited, and the children of a cell that leaves the stack
/// are awaited.
pub proof fn lemma_settle_awaits(stack: Seq<Cell>, pending: Seq<Cell>, cell: Cell, k: int)
    requires
        0 <= k < child_hashes(cell).len(),
        stack.contains(cell) || awaited(pending, child_hashes(cell)[k]),
    ensures
        settle(stack, pending).0.contains(cell) || awaited(
            settle(stack, pending).1,
            child_hashes(cell)[k],
        ),
    decreases stack.len(),
{
    if !(pending.len() > 0 || stack.len() == 0) {
        let top = stack.last();
        let s = choose|s: int| 0 <= s < stack.len() && stack[s] == cell;
        if s == stack.len() - 1 {
            assert(children(top)[k].repr_hash@ == child_hashes(cell)[k]);
            assert(awaited(children(top), child_hashes(cell)[k]));
        } else {
            assert(stack.drop_last()[s] == cell);
        }
        lemma_settle_awaits(stack.drop_last(), children(top), cell, k);
    }
}

/// A hash that the transaction has touched stays touched, where it stood,
/// when a cell enters the transaction behind it.
pub proof fn lemma_touched_push(entries: Seq<StoreEntry>, entry: StoreEntry, hash: Seq<u8>)
    requires
        crate::table::distinct(entry_hashes(entries)),
        crate::table::distinct(entry_hashes(entries.push(entry))),
        touched(entries, hash),
    ensures
        touched(entries.push(entry), hash),
        entry_data(entries.push(entry), hash) == entry_data(entries, hash),
{
    let i = position(entry_hashes(entries), hash);
    assert(key_at(entry_hashes(entries), hash, i));
    assert(entry_hashes(entries.push(entry)) =~= entry_hashes(entries).push(entry.hash));
    assert(key_at(entry_hashes(entries.push(entry)), hash, i));
    lemma_position(entry_hashes(entries.push(entry)), hash, i);
}

/// A step of a store walk keeps what holds of the walk. The cell that was
/// looked at joins the fresh cells where the rows do not hold it.
pub proof fn lemma_step_descent(
    rows: Map<Seq<u8>, Seq<u8>>,
    root: Cell,
    state: StoreState,
    fresh: Seq<Cell>,
) -> (next_fresh: Seq<Cell>)
    requires
        descent_inv(rows, root, state, fresh),
        !state.finished(),
        state.step(rows.get(state.pending.first().repr_hash@)) is Ok,
    ensures
        descent_inv(
            rows,
            root,
            state.step(rows.get(state.pending.first().repr_hash@))->Ok_0,
            next_fresh,
        ),
{
    let cell = state.pending.first();
    let hash = cell.repr_hash@;
    let row = rows.get(hash);
    let next = state.step(row)->Ok_0;
    let rest = state.pending.drop_first();
    let hashes = entry_hashes(state.entries);
    lemma_step_shape(rows, root, state);
    lemma_settle_measure(state.stack, rest);
    lemma_settle_measure(state.stack.push(cell), rest);
    assert(touched(next.entries, hash)) by {
        if touched(state.entries, hash) {
            let i = position(hashes, hash);
            assert(key_at(hashes, hash, i));
            assert(entry_hashes(next.entries) =~= hashes);
        } else {
            assert(key_at(entry_hashes(next.entries), hash, state.entries.len() as int));
        }
    }
    // what was touched stays touched, with the serialized form it had
    assert forall|h: Seq<u8>| touched(state.entries, h) implies touched(next.entries, h)
        && entry_data(next.entries, h) == entry_data(state.entries, h) by {
        if touched(state.entries, hash) {
            let i = position(hashes, hash);
            assert(key_at(hashes, hash, i));
            assert(entry_hashes(next.entries) =~= hashes);
            let p = position(hashes, h);
            assert(key_at(hashes, h, p));
        } else {
            lemma_touched_push(
                state.entries,
                StoreEntry { hash, rc: 1, data: serialized(cell) },
                h,
            );
        }
    }
    let pushes = !touched(state.entries, hash) && !row_found(row);
    let more = if pushes {
        fresh.push(cell)
    } else {
        fresh
    };
    let root_known = !touched(state.entries, hash) && row_found(row) && state.entries.len() == 0;
    if root_known {
        // nothing is fresh before the root was touched
        if fresh.len() > 0 {
            assert(touched(state.entries, fresh[0].repr_hash@));
            let i = choose|i: int| key_at(hashes, fresh[0].repr_hash@, i);
        }
    }
    let stack = if pushes {
        state.stack.push(cell)
    } else {
        state.stack
    };
    assert forall|j: int| 0 <= j < more.len() implies {
        let x = #[trigger] more[j];
        &&& serializable(x.data@.len(), x.references@.len())
        &&& touched(next.entries, x.repr_hash@)
        &&& entry_data(next.entries, x.repr_hash@) == serialized(x)
        &&& forall|k: int|
            0 <= k < child_hashes(x).len() ==> touched(
                next.entries,
                #[trigger] child_hashes(x)[k],
            ) || next.stack.contains(x) || awaited(next.pending, child_hashes(x)[k])
    } by {
        let x = more[j];
        if j < fresh.len() {
            assert(x == fresh[j]);
            assert(touched(state.entries, x.repr_hash@));
        } else {
            assert(x == cell);
            let n = state.entries.len() as int;
            assert(key_at(entry_hashes(next.entries), hash, n));
            lemma_position(entry_hashes(next.entries), hash, n);
        }
        assert forall|k: int| 0 <= k < child_hashes(x).len() implies touched(
            next.entries,
            #[trigger] child_hashes(x)[k],
        ) || next.stack.contains(x) || awaited(next.pending, child_hashes(x)[k]) by {
            let child = child_hashes(x)[k];
            if j < fresh.len() && touched(state.entries, child) {
            } else if j < fresh.len() && !state.stack.contains(x) && awaited(
                state.pending,
                child,
            ) && (choose|p: int|
                0 <= p < state.pending.len() && (#[trigger] state.pending[p]).repr_hash@ == child)
                == 0 {
                // the child is the cell that was looked at
            } else {
                // the cell stands on the stack, or the child is still awaited
                assert(stack.contains(x) || awaited(rest, child)) by {
                    if j >= fresh.len() {
                        assert(stack[stack.len() - 1] == x);
                    } else if state.stack.contains(x) {
                        let s = choose|s: int| 0 <= s < state.stack.len() && state.stack[s] == x;
                        assert(stack[s] == x);
                    } else {
                        let p = choose|p: int|
                            0 <= p < state.pending.len() && (
                            #[trigger] state.pending[p]).repr_hash@ == child;
                        assert(rest[p - 1] == state.pending[p]);
                    }
                }
                if !root_known {
                    lemma_settle_awaits(stack, rest, x, k);
                }
            }
        }
    }
    assert forall|i: int|
        0 <= i < next.entries.len() && !row_found(
            rows.get((#[trigger] next.entries[i]).hash),
        ) implies exists|j: int|
        0 <= j < more.len() && (#[trigger] more[j]).repr_hash@ == next.entries[i].hash by {
        if i < state.entries.len() {
            assert(next.entries[i].hash == state.entries[i].hash);
            let j = choose|j: int|
                0 <= j < fresh.len() && (#[trigger] fresh[j]).repr_hash@ == state.entries[i].hash;
            assert(more[j] == fresh[j]);
        } else {
            assert(more[more.len() - 1] == cell);
        }
    }
    more
}

/// A store walk that ends well ends with every child of a fresh cell
/// touched.
pub proof fn lemma_walk_descent(
    rows: Map<Seq<u8>, Seq<u8>>,
    root: Cell,
    state: StoreState,
    fresh: Seq<Cell>,
) -> (all_fresh: Seq<Cell>)
    requires
        descent_inv(rows, root, state, fresh),
        store_walk(rows, state) is Ok,
    ensures
        descent_inv(rows, root, store_walk(rows, state)->Ok_0, all_fresh),
        store_walk(rows, state)->Ok_0.finished(),
    decreases state.measure(),
{
    if state.finished() {
        fresh
    } else {
        let row = rows.get(state.pending.first().repr_hash@);
        let next = state.step(row)->Ok_0;
        lemma_step_measure(state, row);
        let more = lemma_step_descent(rows, root, state, fresh);
        lemma_walk_descent(rows, root, next, more)
    }
}

/// A store leaves closed rows closed, and the rows then hold the root of
/// the tree: so they hold every cell that is reached from it.
pub proof fn lemma_store_keeps_closed(rows: Map<Seq<u8>, Seq<u8>>, root: Cell)
    requires
        closed(rows),
        rows_sane(rows),
        rows_have_room(rows),
        store_walk(rows, StoreState::start(root)) is Ok,
    ensures
        closed(apply_writes(rows, store_walk(rows, StoreState::start(root))->Ok_0.writes())),
        live(
            apply_writes(rows, store_walk(rows, StoreState::start(root))->Ok_0.writes()),
            root.repr_hash@,
        ),
        forall|hash: Seq<u8>| #[trigger]
            live(rows, hash) ==> live(
                apply_writes(rows, store_walk(rows, StoreState::start(root))->Ok_0.writes()),
                hash,
            ),
{
    let start = StoreState::start(root);
    let end = store_walk(rows, start)->Ok_0;
    let after = apply_writes(rows, end.writes());
    let hashes = entry_hashes(end.entries);
    assert(entry_hashes(start.entries) =~= Seq::<Seq<u8>>::empty());
    assert(descent_inv(rows, root, start, Seq::empty()));
    let fresh = lemma_walk_descent(rows, root, start, Seq::empty());
    lemma_store_effect(rows, root);
    // what the transaction has touched is held afterwards
    assert forall|hash: Seq<u8>| touched(end.entries, hash) implies live(after, hash) && {
        let i = position(hashes, hash);
        0 <= i < end.entries.len() && end.entries[i].hash == hash
    } by {
        let i = position(hashes, hash);
        assert(key_at(hashes, hash, i));
        assert(end.entries[i].hash == hash);
        assert(end.entries[i].rc >= 1);
        if rows.contains_key(hash) {
            assert(row_refcount(rows[hash]) >= 0);
        }
    }
    assert forall|hash: Seq<u8>| #[trigger] live(rows, hash) implies live(after, hash) by {
        if !touched(end.entries, hash) {
            assert(after.get(hash) == rows.get(hash));
        }
    }
    assert forall|hash: Seq<u8>| #[trigger] live(after, hash) implies {
        &&& row_payload(after[hash]) is Some
        &&& body_valid(row_payload(after[hash])->0)
        &&& forall|k: int|
            0 <= k < row_kids(after, hash).len() ==> live(
                after,
                #[trigger] row_kids(after, hash)[k],
            )
    } by {
        if !touched(end.entries, hash) {
            assert(after.get(hash) == rows.get(hash));
            assert(live(rows, hash));
            assert(row_kids(after, hash) == row_kids(rows, hash));
            assert forall|k: int| 0 <= k < row_kids(after, hash).len() implies live(
                after,
                #[trigger] row_kids(after, hash)[k],
            ) by {
                assert(live(rows, row_kids(rows, hash)[k]));
            }
        } else {
            let i = position(hashes, hash);
            assert(end.entries[i].hash == hash);
            if row_found(rows.get(hash)) {
                assert(live(rows, hash));
                assert(row_payload(after[hash]) == row_payload(rows[hash]));
                assert(row_kids(after, hash) == row_kids(rows, hash));
                assert forall|k: int| 0 <= k < row_kids(after, hash).len() implies live(
                    after,
                    #[trigger] row_kids(after, hash)[k],
                ) by {
                    assert(live(rows, row_kids(rows, hash)[k]));
                }
            } else {
                let j = choose|j: int|
                    0 <= j < fresh.len() && (#[trigger] fresh[j]).repr_hash@
                        == end.entries[i].hash;
                let cell = fresh[j];
                assert(entry_data(end.entries, cell.repr_hash@) == serialized(cell));
                assert(row_payload(after[hash]) == Some(serialized(cell)));
                let kids = child_hashes(cell);
                assert forall|m: int| 0 <= m < kids.len() implies (#[trigger] kids[m]).len()
                    == 32 by {}
                lemma_serialize_round_trip(
                    cell.data@,
                    kids,
                    cell.tree_bits_count,
                    cell.tree_cell_count,
                );
                assert(row_kids(after, hash) == kids);
                assert forall|k: int| 0 <= k < row_kids(after, hash).len() implies live(
                    after,
                    #[trigger] row_kids(after, hash)[k],
                ) by {
                    assert(touched(end.entries, child_hashes(cell)[k]) || end.stack.contains(cell)
                        || awaited(end.pending, child_hashes(cell)[k]));
                    assert(!end.stack.contains(cell));
                    assert(!awaited(end.pending, child_hashes(cell)[k]));
                }
            }
        }
    }
    assert(end.entries[0].hash == root.repr_hash@);
    assert(key_at(hashes, root.repr_hash@, 0));
}

} // verus!
