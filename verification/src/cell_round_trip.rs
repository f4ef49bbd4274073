//! Storing a tree and removing its root again leaves the rows of the cell
//! store as they were: the removal comes to the cells that the store found
//! new, and to no others, and takes from each cell the references that
//! the store gave it.

use vstd::prelude::*;
use crate::cell::Cell;
use crate::cell_closure::{
    count_in, dropped_list, dropped_refs, drops, entry_rc, hashes_of_cells, indeg,
    lemma_count_witness, lemma_dropped_indeg, lemma_dropped_list, lemma_indeg_order,
    lemma_indeg_remove, lemma_max_depth, lemma_refs_in_universe, lemma_remove_facts,
    lemma_rwalk_counts, lemma_rwalk_start, lemma_store_facts, lemma_walk_counts,
    lemma_walk_start, max_depth, occ, rc, refs_in, removes_of, root_hold, rows_within, Universe,
};
use crate::cell_laws::{rows_have_room, rows_sane};
use crate::cell_storage::{
    apply_writes, live, remove_walk, removed, removed_hashes, store_walk, RemoveState, StoreState,
};
use crate::refcount::{row_payload, row_refcount};
use crate::table::{key_at, position};

verus! {

/// Where the cells of one list refer to a cell more often than the cells
/// of another, a cell of the first list that is none of the second refers
/// to it.
pub proof fn lemma_indeg_excess(u: Universe, a: Seq<Seq<u8>>, b: Seq<Seq<u8>>, hash: Seq<u8>) -> (i:
    int)
    requires
        a.no_duplicates(),
        indeg(u, a, hash) > indeg(u, b, hash),
    ensures
        0 <= i < a.len(),
        !b.contains(a[i]),
        count_in(u.kids(a[i]), hash) >= 1,
    decreases a.len(),
{
    let x = a.last();
    let front = a.drop_last();
    if b.contains(x) {
        let j = choose|j: int| 0 <= j < b.len() && b[j] == x;
        let rest = b.remove(j);
        lemma_indeg_remove(u, b, j, hash);
        let i = lemma_indeg_excess(u, front, rest, hash);
        assert(front[i] == a[i]);
        if b.contains(a[i]) {
            let q = choose|q: int| 0 <= q < b.len() && b[q] == a[i];
            let at = if q < j {
                q
            } else {
                q - 1
            };
            assert(rest[at] == a[i]);
        }
        i
    } else if count_in(u.kids(x), hash) >= 1 {
        a.len() - 1
    } else {
        let i = lemma_indeg_excess(u, front, b, hash);
        assert(front[i] == a[i]);
        i
    }
}

/// What holds of the rows before a store, of the rows after it and of the
/// removal that follows: `fresh` lists the cells that the store found
/// new, `dropped` the cells from which the removal took the last
/// reference. The store gave each cell the hold of the root and the
/// references from the fresh cells; the removal took the hold of the root
/// and the references from the dropped cells.
pub open spec fn mirrored(
    rows: Map<Seq<u8>, Seq<u8>>,
    stored: Map<Seq<u8>, Seq<u8>>,
    u: Universe,
    target: Seq<u8>,
    fresh: Seq<Seq<u8>>,
    dropped: Seq<Seq<u8>>,
) -> bool {
    &&& u.ok()
    &&& fresh.no_duplicates()
    &&& dropped.no_duplicates()
    &&& forall|hash: Seq<u8>| #[trigger]
        fresh.contains(hash) ==> u.bodies.contains_key(hash) && rc(rows, hash) == 0 && rc(
            stored,
            hash,
        ) >= 1
    &&& forall|hash: Seq<u8>| #[trigger]
        dropped.contains(hash) ==> u.bodies.contains_key(hash) && (fresh.contains(hash) || rc(
            rows,
            hash,
        ) >= 1) && rc(stored, hash) == root_hold(target, hash) + indeg(u, dropped, hash)
    &&& forall|hash: Seq<u8>|
        #[trigger] rc(stored, hash) == rc(rows, hash) + root_hold(target, hash) + indeg(
            u,
            fresh,
            hash,
        )
    &&& forall|hash: Seq<u8>|
        root_hold(target, hash) + #[trigger] indeg(u, dropped, hash) >= 1 ==> {
            &&& root_hold(target, hash) + indeg(u, dropped, hash) <= rc(stored, hash)
            &&& root_hold(target, hash) + indeg(u, dropped, hash) == rc(stored, hash)
                ==> dropped.contains(hash)
        }
}

/// The removal takes the last reference only from cells that the store
/// found new.
pub proof fn lemma_dropped_fresh(
    rows: Map<Seq<u8>, Seq<u8>>,
    stored: Map<Seq<u8>, Seq<u8>>,
    u: Universe,
    target: Seq<u8>,
    fresh: Seq<Seq<u8>>,
    dropped: Seq<Seq<u8>>,
    hash: Seq<u8>,
)
    requires
        mirrored(rows, stored, u, target, fresh, dropped),
        dropped.contains(hash),
    ensures
        fresh.contains(hash),
    decreases max_depth(u, dropped) - u.depth[hash],
{
    let at = choose|at: int| 0 <= at < dropped.len() && dropped[at] == hash;
    lemma_max_depth(u, dropped, at);
    if !fresh.contains(hash) {
        assert(rc(stored, hash) == rc(rows, hash) + root_hold(target, hash) + indeg(
            u,
            fresh,
            hash,
        ));
        let i = lemma_indeg_excess(u, dropped, fresh, hash);
        let parent = dropped[i];
        assert(dropped.contains(parent));
        let k = lemma_count_witness(u.kids(parent), hash);
        assert(u.depth[u.kids(parent)[k]] < u.depth[parent]);
        lemma_max_depth(u, dropped, i);
        lemma_dropped_fresh(rows, stored, u, target, fresh, dropped, parent);
    }
}

/// The removal takes the last reference from every cell that the store
/// found new.
pub proof fn lemma_fresh_dropped(
    rows: Map<Seq<u8>, Seq<u8>>,
    stored: Map<Seq<u8>, Seq<u8>>,
    u: Universe,
    target: Seq<u8>,
    fresh: Seq<Seq<u8>>,
    dropped: Seq<Seq<u8>>,
    hash: Seq<u8>,
)
    requires
        mirrored(rows, stored, u, target, fresh, dropped),
        fresh.contains(hash),
    ensures
        dropped.contains(hash),
    decreases max_depth(u, fresh) - u.depth[hash],
{
    let at = choose|at: int| 0 <= at < fresh.len() && fresh[at] == hash;
    lemma_max_depth(u, fresh, at);
    if !dropped.contains(hash) {
        assert(rc(stored, hash) == rc(rows, hash) + root_hold(target, hash) + indeg(
            u,
            fresh,
            hash,
        ));
        if indeg(u, fresh, hash) > indeg(u, dropped, hash) {
            let i = lemma_indeg_excess(u, fresh, dropped, hash);
            let parent = fresh[i];
            assert(fresh.contains(parent));
            let k = lemma_count_witness(u.kids(parent), hash);
            assert(u.depth[u.kids(parent)[k]] < u.depth[parent]);
            lemma_max_depth(u, fresh, i);
            lemma_fresh_dropped(rows, stored, u, target, fresh, dropped, parent);
        } else {
            assert(root_hold(target, hash) + indeg(u, dropped, hash) >= 1);
        }
    }
}

/// Storing a tree and removing its root again leaves every cell with the
/// reference count that it had, and the rows hold the cells they held
/// before: the references that the removal takes are the ones that the
/// store gave.
pub proof fn lemma_store_then_remove(rows: Map<Seq<u8>, Seq<u8>>, u: Universe, root: Cell)
    requires
        u.ok(),
        u.has(root),
        rows_within(rows, u),
        rows_sane(rows),
        rows_have_room(rows),
        store_walk(rows, StoreState::start(root)) is Ok,
        remove_walk(
            apply_writes(rows, store_walk(rows, StoreState::start(root))->Ok_0.writes()),
            RemoveState::start(root.repr_hash@),
        ) is Ok,
    ensures
        ({
            let stored = apply_writes(rows, store_walk(rows, StoreState::start(root))->Ok_0.writes());
            let removed = apply_writes(
                stored,
                remove_walk(stored, RemoveState::start(root.repr_hash@))->Ok_0.writes(),
            );
            forall|hash: Seq<u8>|
                #[trigger] rc(removed, hash) == rc(rows, hash) && (live(removed, hash) <==> live(
                    rows,
                    hash,
                ))
        }),
{
    let target = root.repr_hash@;
    let start = StoreState::start(root);
    let end = store_walk(rows, start)->Ok_0;
    let stored = apply_writes(rows, end.writes());
    // what the store gave
    lemma_walk_start(rows, u, root);
    let pushed = lemma_walk_counts(rows, u, root, start, Seq::empty());
    lemma_store_facts(rows, u, root, pushed);
    let fresh = hashes_of_cells(pushed);
    assert(fresh.no_duplicates());
    assert(end.stack =~= Seq::<Cell>::empty());
    assert(hashes_of_cells(end.pending) =~= Seq::<Seq<u8>>::empty());
    assert forall|hash: Seq<u8>|
        #[trigger] rc(stored, hash) == rc(rows, hash) + root_hold(target, hash) + indeg(
            u,
            fresh,
            hash,
        ) by {
        assert(entry_rc(end.entries, hash) + occ(end.pending, hash) + refs_in(end.stack, hash)
            == root_hold(target, hash) + refs_in(pushed, hash));
        lemma_refs_in_universe(u, pushed, hash);
        assert(rc(stored, hash) == rc(rows, hash) + entry_rc(end.entries, hash));
    }
    assert(rows_within(stored, u)) by {
        assert forall|hash: Seq<u8>| #[trigger] live(stored, hash) implies u.bodies.contains_key(
            hash,
        ) && row_payload(stored[hash]) == Some(u.bodies[hash]) by {
            if !fresh.contains(hash) {
                assert(live(rows, hash));
            }
        }
    }
    // what the removal took
    let gone = remove_walk(stored, RemoveState::start(target))->Ok_0;
    let removed_rows = apply_writes(stored, gone.writes());
    lemma_rwalk_start(stored, u, target);
    lemma_rwalk_counts(stored, u, target, RemoveState::start(target));
    lemma_remove_facts(stored, u, target);
    lemma_dropped_list(gone.entries);
    let dropped = dropped_list(gone.entries);
    let hashes = removed_hashes(gone.entries);
    assert(gone.stack =~= Seq::<Seq<u8>>::empty());
    assert forall|hash: Seq<u8>|
        removes_of(gone.entries, hash) == root_hold(target, hash) + #[trigger] indeg(
            u,
            dropped,
            hash,
        ) by {
        lemma_dropped_indeg(u, gone.entries, hash);
        assert(removes_of(gone.entries, hash) + count_in(gone.stack, hash) == root_hold(
            target,
            hash,
        ) + dropped_refs(gone.entries, hash));
    }
    assert forall|hash: Seq<u8>| removed(gone.entries, hash) implies {
        let p = position(hashes, hash);
        &&& 0 <= p < gone.entries.len()
        &&& gone.entries[p].hash == hash
        &&& gone.entries[p].rc == rc(stored, hash)
        &&& 1 <= gone.entries[p].removes <= gone.entries[p].rc
    } by {
        let p = position(hashes, hash);
        assert(key_at(hashes, hash, p));
        assert(stored.contains_key(gone.entries[p].hash));
    }
    assert(mirrored(rows, stored, u, target, fresh, dropped)) by {
        assert forall|hash: Seq<u8>| #[trigger] fresh.contains(hash) implies u.bodies.contains_key(
            hash,
        ) && rc(rows, hash) == 0 && rc(stored, hash) >= 1 by {
            assert(live(stored, hash));
            if rows.contains_key(hash) {
                assert(row_refcount(rows[hash]) >= 0);
            }
        }
        assert forall|hash: Seq<u8>| #[trigger] dropped.contains(hash) implies u.bodies.contains_key(
            hash,
        ) && (fresh.contains(hash) || rc(rows, hash) >= 1) && rc(stored, hash) == root_hold(
            target,
            hash,
        ) + indeg(u, dropped, hash) by {
            assert(drops(gone.entries, hash));
            assert(live(stored, hash));
            assert(removed(gone.entries, hash));
        }
        assert forall|hash: Seq<u8>|
            root_hold(target, hash) + #[trigger] indeg(u, dropped, hash) >= 1 implies {
            &&& root_hold(target, hash) + indeg(u, dropped, hash) <= rc(stored, hash)
            &&& root_hold(target, hash) + indeg(u, dropped, hash) == rc(stored, hash)
                ==> dropped.contains(hash)
        } by {
            assert(removed(gone.entries, hash));
            if root_hold(target, hash) + indeg(u, dropped, hash) == rc(stored, hash) {
                assert(drops(gone.entries, hash));
            }
        }
    }
    assert forall|hash: Seq<u8>| dropped.contains(hash) <==> fresh.contains(hash) by {
        if dropped.contains(hash) {
            lemma_dropped_fresh(rows, stored, u, target, fresh, dropped, hash);
        }
        if fresh.contains(hash) {
            lemma_fresh_dropped(rows, stored, u, target, fresh, dropped, hash);
        }
    }
    assert forall|hash: Seq<u8>|
        #[trigger] rc(removed_rows, hash) == rc(rows, hash) && (live(removed_rows, hash) <==> live(
            rows,
            hash,
        )) by {
        lemma_indeg_order(u, dropped, fresh, hash);
        assert(rc(removed_rows, hash) == rc(stored, hash) - removes_of(gone.entries, hash));
        assert(root_hold(target, hash) + indeg(u, dropped, hash) == removes_of(
            gone.entries,
            hash,
        ));
        assert(live(removed_rows, hash) <==> live(stored, hash) && !drops(
            gone.entries,
            hash,
        ));
        assert(live(stored, hash) <==> live(rows, hash) || fresh.contains(hash));
        assert(dropped.contains(hash) <==> drops(gone.entries, hash));
    }
}

} // verus!
