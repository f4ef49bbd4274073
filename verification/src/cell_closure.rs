//! The cells that the store holds are the cells that can be reached from
//! the roots that are held.
//!
//! A cell is addressed by its hash: whoever stores a cell with a hash
//! stores the same body, with the same children, as everybody else who
//! stores a cell with that hash. The [`Universe`] says which body belongs
//! to which hash. Of rows that were built up by storing trees of such
//! cells and removing roots that were stored, [`inv`] holds: each reference
//! count is the number of times that the cell is held as a root, plus the
//! number of references to it from cells that the rows hold.

use vstd::prelude::*;
use vstd::multiset::Multiset;
use std::sync::Arc;
use crate::cell::{
    body_reference_count, body_references, body_valid, child_hashes, lemma_serialize_round_trip,
    serializable, serialized, Cell,
};
use crate::batch::Write;
use crate::cell_laws::{
    lemma_step_shape, lemma_store_effect, rows_have_room, rows_sane, store_shape,
};
use crate::cell_laws::{lemma_remove_effect, remove_shape};
use crate::cell_storage::{
    apply_write, apply_writes, children, entry_hashes, lemma_remove_bound, lemma_remove_step, live,
    lemma_remove_step_within, lemma_slack_update, lemma_step_measure, remove_walk, remove_within,
    removed, removed_hashes, revisit, row_found, settle, slack, store_walk, touched, RemoveEntry,
    RemoveState, StoreEntry, StoreState,
};
use crate::refcount::{row_has_value, row_payload, row_refcount};
use crate::table::{distinct, key_at, position};

verus! {

/// The cells that there are: the serialized form of each by its hash, and
/// a depth that is less for each child than for its parent.
pub struct Universe {
    pub bodies: Map<Seq<u8>, Seq<u8>>,
    pub depth: Map<Seq<u8>, nat>,
}

impl Universe {
    /// The hashes of the children of the cell with this hash.
    pub open spec fn kids(self, hash: Seq<u8>) -> Seq<Seq<u8>> {
        body_references(self.bodies[hash], body_reference_count(self.bodies[hash]))
    }

    /// Every body holds a cell, whose children are cells of the universe
    /// of lesser depth.
    pub open spec fn ok(self) -> bool {
        forall|hash: Seq<u8>| #[trigger]
            self.bodies.contains_key(hash) ==> {
                &&& body_valid(self.bodies[hash])
                &&& self.bodies[hash].len() > 0
                &&& forall|i: int|
                    0 <= i < self.kids(hash).len() ==> self.bodies.contains_key(
                        #[trigger] self.kids(hash)[i],
                    ) && self.depth[self.kids(hash)[i]] < self.depth[hash]
            }
    }

    /// Whether `cell` and every cell below it is a cell of the universe.
    pub open spec fn has(self, cell: Cell) -> bool
        decreases cell, 1nat,
    {
        &&& serializable(cell.data@.len(), cell.references@.len())
        &&& self.bodies.contains_key(cell.repr_hash@)
        &&& self.bodies[cell.repr_hash@] == serialized(cell)
        &&& self.has_all(cell.references@)
    }

    /// Whether every cell of `cells` is a cell of the universe.
    pub open spec fn has_all(self, cells: Seq<Arc<Cell>>) -> bool
        decreases cells, 0nat,
    {
        cells.len() == 0 || (self.has(*cells.last()) && self.has_all(cells.drop_last()))
    }

    /// Whether every cell of `cells` is a cell of the universe.
    pub open spec fn holds(self, cells: Seq<Cell>) -> bool {
        forall|i: int| 0 <= i < cells.len() ==> self.has(#[trigger] cells[i])
    }
}

/// Number of times that `hash` occurs in `hashes`.
pub open spec fn count_in(hashes: Seq<Seq<u8>>, hash: Seq<u8>) -> nat
    decreases hashes.len(),
{
    if hashes.len() == 0 {
        0
    } else {
        count_in(hashes.drop_last(), hash) + if hashes.last() == hash {
            1nat
        } else {
            0nat
        }
    }
}

/// Number of references to `hash` from the cells with the hashes `cells`.
pub open spec fn indeg(u: Universe, cells: Seq<Seq<u8>>, hash: Seq<u8>) -> nat
    decreases cells.len(),
{
    if cells.len() == 0 {
        0
    } else {
        indeg(u, cells.drop_last(), hash) + count_in(u.kids(cells.last()), hash)
    }
}

/// The hashes of `cells`.
pub open spec fn hashes_of_cells(cells: Seq<Cell>) -> Seq<Seq<u8>> {
    Seq::new(cells.len(), |i: int| cells[i].repr_hash@)
}

/// Number of references to `hash` from `cells`.
pub open spec fn refs_in(cells: Seq<Cell>, hash: Seq<u8>) -> nat
    decreases cells.len(),
{
    if cells.len() == 0 {
        0
    } else {
        refs_in(cells.drop_last(), hash) + count_in(child_hashes(cells.last()), hash)
    }
}

/// The reference count that `rows` hold for `hash`.
pub open spec fn rc(rows: Map<Seq<u8>, Seq<u8>>, hash: Seq<u8>) -> int {
    if rows.contains_key(hash) {
        row_refcount(rows[hash]) as int
    } else {
        0
    }
}

/// What holds of rows that hold the roots `roots`, where `alive` lists the
/// cells that the rows hold: each of them has the body that the universe
/// gives it, and each reference count is the number of holds of the cell
/// as a root plus the number of references to it from cells in `alive`.
pub open spec fn inv(
    rows: Map<Seq<u8>, Seq<u8>>,
    roots: Multiset<Seq<u8>>,
    u: Universe,
    alive: Seq<Seq<u8>>,
) -> bool {
    &&& rows.dom().finite()
    &&& alive.no_duplicates()
    &&& forall|hash: Seq<u8>| #[trigger] alive.contains(hash) <==> live(rows, hash)
    &&& forall|hash: Seq<u8>| #[trigger]
        alive.contains(hash) ==> u.bodies.contains_key(hash) && row_payload(rows[hash]) == Some(
            u.bodies[hash],
        )
    &&& forall|hash: Seq<u8>| #[trigger]
        rc(rows, hash) == roots.count(hash) + indeg(u, alive, hash)
}

/// Whether `rows` are rows of a store that holds the roots `roots`.
pub open spec fn store_inv(rows: Map<Seq<u8>, Seq<u8>>, roots: Multiset<Seq<u8>>, u: Universe) -> bool {
    exists|alive: Seq<Seq<u8>>| inv(rows, roots, u, alive)
}

/// Whether `rows` are finitely many, and every cell that they hold has the
/// body that the universe gives it.
pub open spec fn rows_within(rows: Map<Seq<u8>, Seq<u8>>, u: Universe) -> bool {
    &&& rows.dom().finite()
    &&& forall|hash: Seq<u8>| #[trigger]
        live(rows, hash) ==> u.bodies.contains_key(hash) && row_payload(rows[hash]) == Some(
            u.bodies[hash],
        )
}

/// The rows of a store hold cells of the universe and no negative count.
pub proof fn lemma_inv_within(
    rows: Map<Seq<u8>, Seq<u8>>,
    roots: Multiset<Seq<u8>>,
    u: Universe,
    alive: Seq<Seq<u8>>,
)
    requires
        inv(rows, roots, u, alive),
    ensures
        rows_within(rows, u),
        rows_sane(rows),
{
    assert forall|hash: Seq<u8>| #[trigger] live(rows, hash) implies u.bodies.contains_key(hash)
        && row_payload(rows[hash]) == Some(u.bodies[hash]) by {
        assert(alive.contains(hash));
    }
    assert forall|key: Seq<u8>| #[trigger] rows.contains_key(key) implies row_refcount(rows[key])
        >= 0 by {
        assert(rc(rows, key) == roots.count(key) + indeg(u, alive, key));
    }
}

/// The count over two sequences is the sum of the counts.
pub proof fn lemma_count_add(a: Seq<Seq<u8>>, b: Seq<Seq<u8>>, hash: Seq<u8>)
    ensures
        count_in(a + b, hash) == count_in(a, hash) + count_in(b, hash),
    decreases b.len(),
{
    if b.len() == 0 {
        assert(a + b =~= a);
    } else {
        lemma_count_add(a, b.drop_last(), hash);
        assert((a + b).drop_last() =~= a + b.drop_last());
    }
}

/// Taking the first hash away takes one from its count.
pub proof fn lemma_count_drop_first(hashes: Seq<Seq<u8>>, hash: Seq<u8>)
    requires
        hashes.len() > 0,
    ensures
        count_in(hashes, hash) == count_in(hashes.drop_first(), hash) + if hashes.first()
            == hash {
            1nat
        } else {
            0nat
        },
{
    let one = seq![hashes.first()];
    assert(hashes =~= one + hashes.drop_first());
    lemma_count_add(one, hashes.drop_first(), hash);
    assert(one.drop_last() =~= Seq::<Seq<u8>>::empty());
    assert(one.last() == hashes.first());
    assert(count_in(one.drop_last(), hash) == 0);
    assert(count_in(one, hash) == if hashes.first() == hash {
        1nat
    } else {
        0nat
    });
}

/// A hash that occurs is counted.
pub proof fn lemma_count_positive(hashes: Seq<Seq<u8>>, i: int)
    requires
        0 <= i < hashes.len(),
    ensures
        count_in(hashes, hashes[i]) >= 1,
    decreases hashes.len(),
{
    if i < hashes.len() - 1 {
        lemma_count_positive(hashes.drop_last(), i);
    }
}

/// A hash that is counted occurs.
pub proof fn lemma_count_witness(hashes: Seq<Seq<u8>>, hash: Seq<u8>) -> (i: int)
    requires
        count_in(hashes, hash) >= 1,
    ensures
        0 <= i < hashes.len(),
        hashes[i] == hash,
    decreases hashes.len(),
{
    if hashes.last() == hash {
        hashes.len() - 1
    } else {
        lemma_count_witness(hashes.drop_last(), hash)
    }
}

/// The references from two lists of cells add up.
pub proof fn lemma_indeg_add(u: Universe, a: Seq<Seq<u8>>, b: Seq<Seq<u8>>, hash: Seq<u8>)
    ensures
        indeg(u, a + b, hash) == indeg(u, a, hash) + indeg(u, b, hash),
    decreases b.len(),
{
    if b.len() == 0 {
        assert(a + b =~= a);
    } else {
        lemma_indeg_add(u, a, b.drop_last(), hash);
        assert((a + b).drop_last() =~= a + b.drop_last());
    }
}

/// Taking a cell out of a list takes its references out of the sum.
pub proof fn lemma_indeg_remove(u: Universe, cells: Seq<Seq<u8>>, i: int, hash: Seq<u8>)
    requires
        0 <= i < cells.len(),
    ensures
        indeg(u, cells, hash) == indeg(u, cells.remove(i), hash) + count_in(
            u.kids(cells[i]),
            hash,
        ),
    decreases cells.len(),
{
    if i == cells.len() - 1 {
        assert(cells.remove(i) =~= cells.drop_last());
    } else {
        lemma_indeg_remove(u, cells.drop_last(), i, hash);
        assert(cells.remove(i).drop_last() =~= cells.drop_last().remove(i));
        assert(cells.remove(i).last() == cells.last());
    }
}

/// The sum of the references from a list of cells does not depend on the
/// order of the list.
pub proof fn lemma_indeg_order(u: Universe, a: Seq<Seq<u8>>, b: Seq<Seq<u8>>, hash: Seq<u8>)
    requires
        a.no_duplicates(),
        b.no_duplicates(),
        forall|x: Seq<u8>| a.contains(x) <==> b.contains(x),
    ensures
        indeg(u, a, hash) == indeg(u, b, hash),
    decreases a.len(),
{
    if a.len() == 0 {
        if b.len() > 0 {
            assert(b.contains(b[0]));
            assert(a.contains(b[0]));
        }
    } else {
        let x = a.last();
        assert(a.contains(x));
        assert(b.contains(x));
        let j = choose|j: int| 0 <= j < b.len() && b[j] == x;
        let a1 = a.drop_last();
        let b1 = b.remove(j);
        lemma_indeg_remove(u, b, j, hash);
        assert(a1.no_duplicates());
        assert(b1.no_duplicates()) by {
            assert forall|p: int, q: int| 0 <= p < b1.len() && 0 <= q < b1.len() && p
                != q implies b1[p] != b1[q] by {
                let p0 = if p < j { p } else { p + 1 };
                let q0 = if q < j { q } else { q + 1 };
                assert(b1[p] == b[p0] && b1[q] == b[q0]);
            }
        }
        assert forall|y: Seq<u8>| a1.contains(y) <==> b1.contains(y) by {
            if a1.contains(y) {
                let p = choose|p: int| 0 <= p < a1.len() && a1[p] == y;
                assert(a[p] == y);
                assert(a.contains(y));
                assert(y != x);
                let q = choose|q: int| 0 <= q < b.len() && b[q] == y;
                let q1 = if q < j { q } else { q - 1 };
                assert(b1[q1] == y);
            }
            if b1.contains(y) {
                let q = choose|q: int| 0 <= q < b1.len() && b1[q] == y;
                let q0 = if q < j { q } else { q + 1 };
                assert(b[q0] == y);
                assert(b.contains(y));
                assert(y != x);
                let p = choose|p: int| 0 <= p < a.len() && a[p] == y;
                assert(a1[p] == y);
            }
        }
        lemma_indeg_order(u, a1, b1, hash);
    }
}

/// A cell in a list refers to each of its children at least once.
pub proof fn lemma_indeg_parent(u: Universe, cells: Seq<Seq<u8>>, i: int, k: int)
    requires
        0 <= i < cells.len(),
        0 <= k < u.kids(cells[i]).len(),
    ensures
        indeg(u, cells, u.kids(cells[i])[k]) >= 1,
    decreases cells.len(),
{
    if i == cells.len() - 1 {
        lemma_count_positive(u.kids(cells[i]), k);
    } else {
        lemma_indeg_parent(u, cells.drop_last(), i, k);
    }
}

/// A cell that is referred to from a list has a parent in the list.
pub proof fn lemma_indeg_witness(u: Universe, cells: Seq<Seq<u8>>, hash: Seq<u8>) -> (at: (
    int,
    int,
))
    requires
        indeg(u, cells, hash) >= 1,
    ensures
        0 <= at.0 < cells.len(),
        0 <= at.1 < u.kids(cells[at.0]).len(),
        u.kids(cells[at.0])[at.1] == hash,
    decreases cells.len(),
{
    if count_in(u.kids(cells.last()), hash) >= 1 {
        let k = lemma_count_witness(u.kids(cells.last()), hash);
        (cells.len() - 1, k)
    } else {
        lemma_indeg_witness(u, cells.drop_last(), hash)
    }
}

/// A cell of the universe has the children that the universe gives its
/// hash, and they are cells of the universe.
pub proof fn lemma_has_children(u: Universe, cell: Cell)
    requires
        u.has(cell),
    ensures
        u.kids(cell.repr_hash@) == child_hashes(cell),
        u.holds(children(cell)),
        hashes_of_cells(children(cell)) == child_hashes(cell),
{
    let hashes = child_hashes(cell);
    assert forall|j: int| 0 <= j < hashes.len() implies (#[trigger] hashes[j]).len() == 32 by {}
    lemma_serialize_round_trip(cell.data@, hashes, cell.tree_bits_count, cell.tree_cell_count);
    lemma_has_all(u, cell.references@);
    assert(hashes_of_cells(children(cell)) =~= hashes);
}

/// Where a list of cells is in the universe, each of them is.
pub proof fn lemma_has_all(u: Universe, cells: Seq<Arc<Cell>>)
    requires
        u.has_all(cells),
    ensures
        forall|i: int| 0 <= i < cells.len() ==> u.has(*#[trigger] cells[i]),
    decreases cells.len(),
{
    if cells.len() > 0 {
        lemma_has_all(u, cells.drop_last());
        assert forall|i: int| 0 <= i < cells.len() implies u.has(*#[trigger] cells[i]) by {
            if i < cells.len() - 1 {
                assert(cells.drop_last()[i] == cells[i]);
            }
        }
    }
}

/// The references from cells of the universe are the references that the
/// universe gives their hashes.
pub proof fn lemma_refs_in_universe(u: Universe, cells: Seq<Cell>, hash: Seq<u8>)
    requires
        u.holds(cells),
    ensures
        refs_in(cells, hash) == indeg(u, hashes_of_cells(cells), hash),
    decreases cells.len(),
{
    if cells.len() > 0 {
        assert(u.holds(cells.drop_last())) by {
            assert forall|i: int| 0 <= i < cells.drop_last().len() implies u.has(
                #[trigger] cells.drop_last()[i],
            ) by {
                assert(cells.drop_last()[i] == cells[i]);
            }
        }
        lemma_refs_in_universe(u, cells.drop_last(), hash);
        lemma_has_children(u, cells.last());
        assert(hashes_of_cells(cells).drop_last() =~= hashes_of_cells(cells.drop_last()));
    }
}

/// Whether `path` leads from a root that is held down along references.
pub open spec fn is_path(u: Universe, roots: Multiset<Seq<u8>>, path: Seq<Seq<u8>>) -> bool {
    &&& path.len() >= 1
    &&& roots.count(path[0]) > 0
    &&& forall|i: int|
        0 <= i < path.len() - 1 ==> u.bodies.contains_key(#[trigger] path[i]) && u.kids(
            path[i],
        ).contains(path[i + 1])
}

/// Whether the cell with this hash can be reached from a root that is held.
pub open spec fn reachable(u: Universe, roots: Multiset<Seq<u8>>, hash: Seq<u8>) -> bool {
    exists|path: Seq<Seq<u8>>| is_path(u, roots, path) && path.last() == hash
}

/// The greatest depth of the cells with the hashes `cells`.
pub open spec fn max_depth(u: Universe, cells: Seq<Seq<u8>>) -> nat
    decreases cells.len(),
{
    if cells.len() == 0 {
        0
    } else if u.depth[cells.last()] > max_depth(u, cells.drop_last()) {
        u.depth[cells.last()]
    } else {
        max_depth(u, cells.drop_last())
    }
}

/// No cell of a list lies deeper than the greatest depth of the list.
pub proof fn lemma_max_depth(u: Universe, cells: Seq<Seq<u8>>, i: int)
    requires
        0 <= i < cells.len(),
    ensures
        u.depth[cells[i]] <= max_depth(u, cells),
    decreases cells.len(),
{
    if i < cells.len() - 1 {
        lemma_max_depth(u, cells.drop_last(), i);
    }
}

/// The rows hold every cell on a path from a root.
pub proof fn lemma_path_live(
    rows: Map<Seq<u8>, Seq<u8>>,
    roots: Multiset<Seq<u8>>,
    u: Universe,
    alive: Seq<Seq<u8>>,
    path: Seq<Seq<u8>>,
)
    requires
        inv(rows, roots, u, alive),
        is_path(u, roots, path),
    ensures
        live(rows, path.last()),
    decreases path.len(),
{
    let hash = path.last();
    if path.len() == 1 {
        assert(rc(rows, hash) == roots.count(hash) + indeg(u, alive, hash));
    } else {
        let front = path.drop_last();
        assert(is_path(u, roots, front)) by {
            assert forall|i: int| 0 <= i < front.len() - 1 implies u.bodies.contains_key(
                #[trigger] front[i],
            ) && u.kids(front[i]).contains(front[i + 1]) by {
                assert(path[i] == front[i]);
                assert(path[i + 1] == front[i + 1]);
            }
        }
        lemma_path_live(rows, roots, u, alive, front);
        let parent = front.last();
        assert(parent == path[path.len() - 2]);
        assert(alive.contains(parent));
        let i = choose|i: int| 0 <= i < alive.len() && alive[i] == parent;
        assert(u.kids(parent).contains(path[path.len() - 2 + 1]));
        let k = choose|k: int| 0 <= k < u.kids(parent).len() && u.kids(parent)[k] == hash;
        lemma_indeg_parent(u, alive, i, k);
        assert(rc(rows, hash) == roots.count(hash) + indeg(u, alive, hash));
    }
}

/// A path from a root leads to every cell that the rows hold.
pub proof fn lemma_live_path(
    rows: Map<Seq<u8>, Seq<u8>>,
    roots: Multiset<Seq<u8>>,
    u: Universe,
    alive: Seq<Seq<u8>>,
    hash: Seq<u8>,
) -> (path: Seq<Seq<u8>>)
    requires
        u.ok(),
        inv(rows, roots, u, alive),
        live(rows, hash),
    ensures
        is_path(u, roots, path),
        path.last() == hash,
    decreases max_depth(u, alive) - u.depth[hash],
{
    assert(alive.contains(hash));
    let at = choose|at: int| 0 <= at < alive.len() && alive[at] == hash;
    lemma_max_depth(u, alive, at);
    assert(rc(rows, hash) == roots.count(hash) + indeg(u, alive, hash));
    if roots.count(hash) > 0 {
        seq![hash]
    } else {
        let found = lemma_indeg_witness(u, alive, hash);
        let parent = alive[found.0];
        assert(alive.contains(parent));
        assert(u.bodies.contains_key(parent));
        assert(u.kids(parent)[found.1] == hash);
        assert(u.depth[u.kids(parent)[found.1]] < u.depth[parent]);
        lemma_max_depth(u, alive, found.0);
        let front = lemma_live_path(rows, roots, u, alive, parent);
        let path = front.push(hash);
        assert forall|i: int| 0 <= i < path.len() - 1 implies u.bodies.contains_key(
            #[trigger] path[i],
        ) && u.kids(path[i]).contains(path[i + 1]) by {
            if i < front.len() - 1 {
                assert(path[i] == front[i]);
                assert(path[i + 1] == front[i + 1]);
            } else {
                assert(path[i] == parent);
            }
        }
        assert(path[0] == front[0]);
        path
    }
}

/// The rows of a store hold exactly the cells that can be reached from
/// the roots that are held.
pub proof fn lemma_closure(rows: Map<Seq<u8>, Seq<u8>>, roots: Multiset<Seq<u8>>, u: Universe)
    requires
        u.ok(),
        store_inv(rows, roots, u),
    ensures
        forall|hash: Seq<u8>| #[trigger] live(rows, hash) <==> reachable(u, roots, hash),
{
    let alive = choose|alive: Seq<Seq<u8>>| inv(rows, roots, u, alive);
    assert forall|hash: Seq<u8>| #[trigger] live(rows, hash) <==> reachable(u, roots, hash) by {
        if live(rows, hash) {
            let path = lemma_live_path(rows, roots, u, alive, hash);
            assert(is_path(u, roots, path) && path.last() == hash);
        }
        if reachable(u, roots, hash) {
            let path = choose|path: Seq<Seq<u8>>| is_path(u, roots, path) && path.last() == hash;
            lemma_path_live(rows, roots, u, alive, path);
        }
    }
}

/// The rows of an empty store hold no root.
pub proof fn lemma_empty_store(u: Universe)
    ensures
        store_inv(Map::empty(), Multiset::empty(), u),
{
    let rows = Map::<Seq<u8>, Seq<u8>>::empty();
    let alive = Seq::<Seq<u8>>::empty();
    assert(inv(rows, Multiset::empty(), u, alive));
}

/// Number of references that the transaction adds to the cell with this hash.
pub open spec fn entry_rc(entries: Seq<StoreEntry>, hash: Seq<u8>) -> nat {
    if touched(entries, hash) {
        entries[position(entry_hashes(entries), hash)].rc
    } else {
        0
    }
}

/// Number of cells of `cells` with this hash.
pub open spec fn occ(cells: Seq<Cell>, hash: Seq<u8>) -> nat {
    count_in(hashes_of_cells(cells), hash)
}

/// One where the root has this hash, else nothing.
pub open spec fn root_hold(root: Seq<u8>, hash: Seq<u8>) -> nat {
    if root == hash {
        1
    } else {
        0
    }
}

/// What holds of a store walk over cells of the universe, where `pushed`
/// lists the cells that were found to be new: the references that were
/// counted, and the ones that are still to be counted, are the hold of the
/// root and the references from the new cells.
pub open spec fn walk_inv(
    rows: Map<Seq<u8>, Seq<u8>>,
    u: Universe,
    root: Cell,
    state: StoreState,
    pushed: Seq<Cell>,
) -> bool {
    &&& store_shape(rows, root, state)
    &&& u.has(root)
    &&& u.holds(state.pending)
    &&& u.holds(state.stack)
    &&& u.holds(pushed)
    &&& state.entries.len() == 0 ==> state.stack.len() == 0 && pushed.len() == 0
    &&& state.finished() ==> state.stack.len() == 0
    &&& forall|i: int|
        0 <= i < state.entries.len() ==> u.bodies.contains_key(
            (#[trigger] state.entries[i]).hash,
        ) && state.entries[i].data == u.bodies[state.entries[i].hash]
    &&& distinct(hashes_of_cells(pushed))
    &&& forall|j: int|
        0 <= j < pushed.len() ==> touched(state.entries, (#[trigger] pushed[j]).repr_hash@)
            && !row_found(rows.get(pushed[j].repr_hash@))
    &&& forall|i: int|
        0 <= i < state.entries.len() && !row_found(rows.get((#[trigger] state.entries[i]).hash))
            ==> hashes_of_cells(pushed).contains(state.entries[i].hash)
    &&& forall|hash: Seq<u8>|
        #[trigger] entry_rc(state.entries, hash) + occ(state.pending, hash) + refs_in(
            state.stack,
            hash,
        ) == root_hold(root.repr_hash@, hash) + refs_in(pushed, hash)
}

/// Among hashes without repetition, a hash stands where it is found.
pub proof fn lemma_position(hashes: Seq<Seq<u8>>, hash: Seq<u8>, i: int)
    requires
        distinct(hashes),
        key_at(hashes, hash, i),
    ensures
        position(hashes, hash) == i,
{
    let p = position(hashes, hash);
    assert(key_at(hashes, hash, p));
    if p < i {
        assert(hashes[p] != hashes[i]);
    } else if i < p {
        assert(hashes[i] != hashes[p]);
    }
}

/// One more reference to a touched cell counts for that cell alone.
pub proof fn lemma_entry_rc_bump(entries: Seq<StoreEntry>, i: int, hash: Seq<u8>)
    requires
        distinct(entry_hashes(entries)),
        0 <= i < entries.len(),
    ensures
        entry_rc(
            entries.update(
                i,
                StoreEntry { hash: entries[i].hash, rc: entries[i].rc + 1, data: entries[i].data },
            ),
            hash,
        ) == entry_rc(entries, hash) + root_hold(entries[i].hash, hash),
{
    let bumped = entries.update(
        i,
        StoreEntry { hash: entries[i].hash, rc: entries[i].rc + 1, data: entries[i].data },
    );
    let hashes = entry_hashes(entries);
    assert(entry_hashes(bumped) =~= hashes);
    if touched(entries, hash) {
        let p = position(hashes, hash);
        assert(key_at(hashes, hash, p));
        if p == i {
        } else {
            assert(hashes[p] != hashes[i]) by {
                if p < i {
                    assert(hashes[p] != hashes[i]);
                } else {
                    assert(hashes[i] != hashes[p]);
                }
            }
        }
    } else {
        assert(!key_at(hashes, hash, i));
    }
}

/// A cell that enters the transaction counts with the references it
/// enters with, for itself alone.
pub proof fn lemma_entry_rc_push(entries: Seq<StoreEntry>, entry: StoreEntry, hash: Seq<u8>)
    requires
        distinct(entry_hashes(entries)),
        !touched(entries, entry.hash),
    ensures
        distinct(entry_hashes(entries.push(entry))),
        entry_rc(entries.push(entry), hash) == entry_rc(entries, hash) + if entry.hash == hash {
            entry.rc
        } else {
            0
        },
{
    let more = entries.push(entry);
    let hashes = entry_hashes(entries);
    let n = entries.len() as int;
    assert(entry_hashes(more) =~= hashes.push(entry.hash));
    assert forall|a: int, b: int| 0 <= a < b < more.len() implies entry_hashes(more)[a]
        != entry_hashes(more)[b] by {
        if b == n {
            if hashes[a] == entry.hash {
                assert(key_at(hashes, entry.hash, a));
            }
        } else {
            assert(hashes[a] != hashes[b]);
        }
    }
    if hash == entry.hash {
        assert(key_at(entry_hashes(more), hash, n));
        lemma_position(entry_hashes(more), hash, n);
    } else if touched(entries, hash) {
        let p = position(hashes, hash);
        assert(key_at(hashes, hash, p));
        assert(key_at(entry_hashes(more), hash, p));
        lemma_position(entry_hashes(more), hash, p);
    } else {
        if touched(more, hash) {
            let p = choose|p: int| key_at(entry_hashes(more), hash, p);
            assert(p < n);
            assert(key_at(hashes, hash, p));
        }
    }
}

/// Settling moves references from the stack to the pending cells and
/// loses none.
pub proof fn lemma_settle_counts(u: Universe, stack: Seq<Cell>, pending: Seq<Cell>, hash: Seq<u8>)
    requires
        u.holds(stack),
        u.holds(pending),
    ensures
        ({
            let (s, p) = settle(stack, pending);
            &&& u.holds(s)
            &&& u.holds(p)
            &&& occ(p, hash) + refs_in(s, hash) == occ(pending, hash) + refs_in(stack, hash)
        }),
    decreases stack.len(),
{
    if !(pending.len() > 0 || stack.len() == 0) {
        let top = stack.last();
        lemma_has_children(u, top);
        assert(u.holds(stack.drop_last())) by {
            assert forall|i: int| 0 <= i < stack.drop_last().len() implies u.has(
                #[trigger] stack.drop_last()[i],
            ) by {
                assert(stack.drop_last()[i] == stack[i]);
            }
        }
        lemma_settle_counts(u, stack.drop_last(), children(top), hash);
        assert(hashes_of_cells(pending) =~= Seq::<Seq<u8>>::empty());
    }
}

/// The references from a list of cells with one more cell.
pub proof fn lemma_refs_push(cells: Seq<Cell>, cell: Cell, hash: Seq<u8>)
    ensures
        refs_in(cells.push(cell), hash) == refs_in(cells, hash) + count_in(
            child_hashes(cell),
            hash,
        ),
{
    assert(cells.push(cell).drop_last() =~= cells);
}

/// A step of a store walk over cells of the universe keeps what holds of
/// the walk. The cell that was looked at joins the new cells where the
/// rows do not hold it.
pub proof fn lemma_step_counts(
    rows: Map<Seq<u8>, Seq<u8>>,
    u: Universe,
    root: Cell,
    state: StoreState,
    pushed: Seq<Cell>,
) -> (next_pushed: Seq<Cell>)
    requires
        walk_inv(rows, u, root, state, pushed),
        !state.finished(),
        state.step(rows.get(state.pending.first().repr_hash@)) is Ok,
    ensures
        walk_inv(
            rows,
            u,
            root,
            state.step(rows.get(state.pending.first().repr_hash@))->Ok_0,
            next_pushed,
        ),
{
    let cell = state.pending.first();
    let hash = cell.repr_hash@;
    let row = rows.get(hash);
    let next = state.step(row)->Ok_0;
    let rest = state.pending.drop_first();
    lemma_step_shape(rows, root, state);
    crate::cell_storage::lemma_settle_measure(state.stack, rest);
    crate::cell_storage::lemma_settle_measure(state.stack.push(cell), rest);
    assert(u.has(cell));
    assert(u.holds(rest)) by {
        assert forall|i: int| 0 <= i < rest.len() implies u.has(#[trigger] rest[i]) by {
            assert(rest[i] == state.pending[i + 1]);
        }
    }
    assert(hashes_of_cells(rest) =~= hashes_of_cells(state.pending).drop_first());
    assert(hashes_of_cells(state.pending).first() == hash);
    if touched(state.entries, hash) {
        let i = position(entry_hashes(state.entries), hash);
        assert(key_at(entry_hashes(state.entries), hash, i));
        assert(entry_hashes(next.entries) =~= entry_hashes(state.entries));
        assert forall|h: Seq<u8>|
            #[trigger] entry_rc(next.entries, h) + occ(next.pending, h) + refs_in(next.stack, h)
                == root_hold(root.repr_hash@, h) + refs_in(pushed, h) by {
            lemma_entry_rc_bump(state.entries, i, h);
            lemma_count_drop_first(hashes_of_cells(state.pending), h);
            lemma_settle_counts(u, state.stack, rest, h);
            assert(entry_rc(state.entries, h) + occ(state.pending, h) + refs_in(state.stack, h)
                == root_hold(root.repr_hash@, h) + refs_in(pushed, h));
        }
        lemma_settle_counts(u, state.stack, rest, hash);
        assert forall|j: int| 0 <= j < pushed.len() implies touched(
            next.entries,
            (#[trigger] pushed[j]).repr_hash@,
        ) && !row_found(rows.get(pushed[j].repr_hash@)) by {
            assert(touched(state.entries, pushed[j].repr_hash@));
        }
        assert forall|k: int| 0 <= k < next.entries.len() implies u.bodies.contains_key(
            (#[trigger] next.entries[k]).hash,
        ) && next.entries[k].data == u.bodies[next.entries[k].hash] by {
            assert(u.bodies.contains_key(state.entries[k].hash));
        }
        assert forall|k: int|
            0 <= k < next.entries.len() && !row_found(
                rows.get((#[trigger] next.entries[k]).hash),
            ) implies hashes_of_cells(pushed).contains(next.entries[k].hash) by {
            assert(state.entries[k].hash == next.entries[k].hash);
        }
        pushed
    } else {
        let entry = StoreEntry { hash, rc: 1, data: serialized(cell) };
        assert(next.entries == state.entries.push(entry));
        assert forall|k: int| 0 <= k < next.entries.len() implies u.bodies.contains_key(
            (#[trigger] next.entries[k]).hash,
        ) && next.entries[k].data == u.bodies[next.entries[k].hash] by {
            if k < state.entries.len() {
                assert(u.bodies.contains_key(state.entries[k].hash));
            }
        }
        assert forall|h: Seq<u8>| touched(state.entries, h) implies touched(next.entries, h) by {
            let p = choose|p: int| key_at(entry_hashes(state.entries), h, p);
            assert(key_at(entry_hashes(next.entries), h, p));
        }
        assert(touched(next.entries, hash)) by {
            assert(key_at(entry_hashes(next.entries), hash, state.entries.len() as int));
        }
        if row_found(row) {
            if state.entries.len() == 0 {
                assert(state.pending =~= seq![root]);
                assert(hashes_of_cells(next.pending) =~= Seq::<Seq<u8>>::empty());
                assert forall|h: Seq<u8>|
                    #[trigger] entry_rc(next.entries, h) + occ(next.pending, h) + refs_in(
                        next.stack,
                        h,
                    ) == root_hold(root.repr_hash@, h) + refs_in(pushed, h) by {
                    lemma_entry_rc_push(state.entries, entry, h);
                    assert(entry_rc(state.entries, h) == 0);
                }
                assert(u.holds(next.pending));
                assert(u.holds(next.stack));
            } else {
                assert forall|h: Seq<u8>|
                    #[trigger] entry_rc(next.entries, h) + occ(next.pending, h) + refs_in(
                        next.stack,
                        h,
                    ) == root_hold(root.repr_hash@, h) + refs_in(pushed, h) by {
                    lemma_entry_rc_push(state.entries, entry, h);
                    lemma_count_drop_first(hashes_of_cells(state.pending), h);
                    lemma_settle_counts(u, state.stack, rest, h);
                    assert(entry_rc(state.entries, h) + occ(state.pending, h) + refs_in(
                        state.stack,
                        h,
                    ) == root_hold(root.repr_hash@, h) + refs_in(pushed, h));
                }
                lemma_settle_counts(u, state.stack, rest, hash);
            }
            assert forall|k: int|
                0 <= k < next.entries.len() && !row_found(
                    rows.get((#[trigger] next.entries[k]).hash),
                ) implies hashes_of_cells(pushed).contains(next.entries[k].hash) by {
                assert(k < state.entries.len());
                assert(state.entries[k].hash == next.entries[k].hash);
            }
            pushed
        } else {
            let more = pushed.push(cell);
            let stack = state.stack.push(cell);
            assert(u.holds(stack)) by {
                assert forall|i: int| 0 <= i < stack.len() implies u.has(#[trigger] stack[i]) by {
                    if i < state.stack.len() {
                        assert(stack[i] == state.stack[i]);
                    }
                }
            }
            assert(u.holds(more)) by {
                assert forall|i: int| 0 <= i < more.len() implies u.has(#[trigger] more[i]) by {
                    if i < pushed.len() {
                        assert(more[i] == pushed[i]);
                    }
                }
            }
            assert(hashes_of_cells(more) =~= hashes_of_cells(pushed).push(hash));
            assert(distinct(hashes_of_cells(more))) by {
                assert forall|a: int, b: int| 0 <= a < b < more.len() implies hashes_of_cells(
                    more,
                )[a] != hashes_of_cells(more)[b] by {
                    if b == pushed.len() {
                        if hashes_of_cells(more)[a] == hash {
                            assert(touched(state.entries, pushed[a].repr_hash@));
                        }
                    } else {
                        assert(hashes_of_cells(pushed)[a] != hashes_of_cells(pushed)[b]);
                    }
                }
            }
            assert forall|h: Seq<u8>|
                #[trigger] entry_rc(next.entries, h) + occ(next.pending, h) + refs_in(
                    next.stack,
                    h,
                ) == root_hold(root.repr_hash@, h) + refs_in(more, h) by {
                lemma_entry_rc_push(state.entries, entry, h);
                lemma_count_drop_first(hashes_of_cells(state.pending), h);
                lemma_settle_counts(u, stack, rest, h);
                lemma_refs_push(state.stack, cell, h);
                lemma_refs_push(pushed, cell, h);
                assert(entry_rc(state.entries, h) + occ(state.pending, h) + refs_in(
                    state.stack,
                    h,
                ) == root_hold(root.repr_hash@, h) + refs_in(pushed, h));
            }
            lemma_settle_counts(u, stack, rest, hash);
            assert forall|j: int| 0 <= j < more.len() implies touched(
                next.entries,
                (#[trigger] more[j]).repr_hash@,
            ) && !row_found(rows.get(more[j].repr_hash@)) by {
                if j < pushed.len() {
                    assert(more[j] == pushed[j]);
                    assert(touched(state.entries, pushed[j].repr_hash@));
                }
            }
            assert forall|k: int|
                0 <= k < next.entries.len() && !row_found(
                    rows.get((#[trigger] next.entries[k]).hash),
                ) implies hashes_of_cells(more).contains(next.entries[k].hash) by {
                if k < state.entries.len() {
                    assert(state.entries[k].hash == next.entries[k].hash);
                    let j = choose|j: int|
                        0 <= j < hashes_of_cells(pushed).len() && hashes_of_cells(pushed)[j]
                            == state.entries[k].hash;
                    assert(hashes_of_cells(more)[j] == next.entries[k].hash);
                } else {
                    assert(hashes_of_cells(more)[pushed.len() as int] == hash);
                }
            }
            more
        }
    }
}

/// A store walk over cells of the universe that ends well ends with
/// every reference counted: each touched cell gains the hold of the root,
/// where it is the root, and the references from the new cells.
pub proof fn lemma_walk_counts(
    rows: Map<Seq<u8>, Seq<u8>>,
    u: Universe,
    root: Cell,
    state: StoreState,
    pushed: Seq<Cell>,
) -> (all_pushed: Seq<Cell>)
    requires
        walk_inv(rows, u, root, state, pushed),
        store_walk(rows, state) is Ok,
    ensures
        walk_inv(rows, u, root, store_walk(rows, state)->Ok_0, all_pushed),
        store_walk(rows, state)->Ok_0.finished(),
    decreases state.measure(),
{
    if state.finished() {
        pushed
    } else {
        let row = rows.get(state.pending.first().repr_hash@);
        let next = state.step(row)->Ok_0;
        lemma_step_measure(state, row);
        let more = lemma_step_counts(rows, u, root, state, pushed);
        lemma_walk_counts(rows, u, root, next, more)
    }
}

/// Writes to finitely many rows leave finitely many rows.
pub proof fn lemma_apply_finite(rows: Map<Seq<u8>, Seq<u8>>, writes: Seq<Write>)
    requires
        rows.dom().finite(),
    ensures
        apply_writes(rows, writes).dom().finite(),
    decreases writes.len(),
{
    if writes.len() > 0 {
        lemma_apply_finite(rows, writes.drop_last());
        let front = apply_writes(rows, writes.drop_last());
        let after = apply_write(front, writes.last());
        match writes.last() {
            Write::Put { column, key, value } => {
                assert(after.dom() =~= front.dom() || after.dom() =~= front.dom().insert(key));
            },
            Write::Merge { column, key, value } => {
                assert(after.dom() =~= front.dom() || after.dom() =~= front.dom().insert(key));
            },
            Write::Delete { column, key } => {
                assert(after.dom() =~= front.dom() || after.dom() =~= front.dom().remove(key));
            },
        }
    }
}

/// A store walk from a cell of the universe starts as such a walk is to
/// be.
pub proof fn lemma_walk_start(rows: Map<Seq<u8>, Seq<u8>>, u: Universe, root: Cell)
    requires
        u.has(root),
    ensures
        walk_inv(rows, u, root, StoreState::start(root), Seq::empty()),
{
    let start = StoreState::start(root);
    let pushed = Seq::<Cell>::empty();
    assert(entry_hashes(start.entries) =~= Seq::<Seq<u8>>::empty());
    assert(hashes_of_cells(pushed) =~= Seq::<Seq<u8>>::empty());
    assert(hashes_of_cells(start.pending) =~= seq![root.repr_hash@]);
    assert forall|hash: Seq<u8>|
        #[trigger] entry_rc(start.entries, hash) + occ(start.pending, hash) + refs_in(
            start.stack,
            hash,
        ) == root_hold(root.repr_hash@, hash) + refs_in(pushed, hash) by {
        let one = seq![root.repr_hash@];
        assert(one.drop_last() =~= Seq::<Seq<u8>>::empty());
        assert(one.last() == root.repr_hash@);
        assert(count_in(one.drop_last(), hash) == 0);
    }
}

/// What the rows hold after a store, told of the reference counts, of
/// the cells that are held and of their bodies.
pub open spec fn store_facts(
    rows: Map<Seq<u8>, Seq<u8>>,
    u: Universe,
    entries: Seq<StoreEntry>,
    new_hashes: Seq<Seq<u8>>,
    after: Map<Seq<u8>, Seq<u8>>,
) -> bool {
    &&& after.dom().finite()
    &&& forall|hash: Seq<u8>| #[trigger] rc(after, hash) == rc(rows, hash) + entry_rc(entries, hash)
    &&& forall|hash: Seq<u8>| #[trigger]
        live(after, hash) <==> live(rows, hash) || new_hashes.contains(hash)
    &&& forall|hash: Seq<u8>| #[trigger]
        live(rows, hash) && row_payload(rows[hash]) is Some ==> row_payload(after[hash])
            == row_payload(rows[hash])
    &&& forall|hash: Seq<u8>| #[trigger]
        new_hashes.contains(hash) ==> !live(rows, hash) && u.bodies.contains_key(hash)
            && row_payload(after[hash]) == Some(u.bodies[hash])
}

/// After a store over rows without negative counts, the rows are as the
/// transaction says.
pub proof fn lemma_store_facts(
    rows: Map<Seq<u8>, Seq<u8>>,
    u: Universe,
    root: Cell,
    pushed: Seq<Cell>,
)
    requires
        rows.dom().finite(),
        rows_sane(rows),
        rows_have_room(rows),
        store_walk(rows, StoreState::start(root)) is Ok,
        walk_inv(rows, u, root, store_walk(rows, StoreState::start(root))->Ok_0, pushed),
    ensures
        store_facts(
            rows,
            u,
            store_walk(rows, StoreState::start(root))->Ok_0.entries,
            hashes_of_cells(pushed),
            apply_writes(rows, store_walk(rows, StoreState::start(root))->Ok_0.writes()),
        ),
{
    let end = store_walk(rows, StoreState::start(root))->Ok_0;
    let after = apply_writes(rows, end.writes());
    let new_hashes = hashes_of_cells(pushed);
    let hashes = entry_hashes(end.entries);
    lemma_store_effect(rows, root);
    lemma_apply_finite(rows, end.writes());
    assert forall|hash: Seq<u8>| touched(end.entries, hash) implies {
        let i = position(hashes, hash);
        0 <= i < end.entries.len() && end.entries[i].hash == hash
    } by {
        let i = position(hashes, hash);
        assert(key_at(hashes, hash, i));
    }
    assert forall|hash: Seq<u8>| #[trigger] rc(after, hash) == rc(rows, hash) + entry_rc(
        end.entries,
        hash,
    ) by {
        if touched(end.entries, hash) {
            let i = position(hashes, hash);
            assert(end.entries[i].hash == hash);
        } else {
            assert(after.get(hash) == rows.get(hash));
        }
    }
    assert forall|hash: Seq<u8>| #[trigger]
        live(after, hash) <==> live(rows, hash) || new_hashes.contains(hash) by {
        if touched(end.entries, hash) {
            let i = position(hashes, hash);
            assert(end.entries[i].hash == hash);
            assert(end.entries[i].rc >= 1);
            if rows.contains_key(hash) {
                assert(row_refcount(rows[hash]) >= 0);
            }
            if !row_found(rows.get(hash)) {
                assert(new_hashes.contains(end.entries[i].hash));
            }
        } else {
            assert(after.get(hash) == rows.get(hash));
            if new_hashes.contains(hash) {
                let j = choose|j: int| 0 <= j < new_hashes.len() && new_hashes[j] == hash;
                assert(touched(end.entries, pushed[j].repr_hash@));
            }
        }
    }
    assert forall|hash: Seq<u8>| #[trigger]
        live(rows, hash) && row_payload(rows[hash]) is Some implies row_payload(after[hash])
        == row_payload(rows[hash]) by {
        if touched(end.entries, hash) {
            let i = position(hashes, hash);
            assert(end.entries[i].hash == hash);
        } else {
            assert(after.get(hash) == rows.get(hash));
        }
    }
    assert forall|hash: Seq<u8>| #[trigger] new_hashes.contains(hash) implies !live(rows, hash)
        && u.bodies.contains_key(hash) && row_payload(after[hash]) == Some(u.bodies[hash]) by {
        let j = choose|j: int| 0 <= j < new_hashes.len() && new_hashes[j] == hash;
        assert(touched(end.entries, pushed[j].repr_hash@));
        assert(!row_found(rows.get(pushed[j].repr_hash@)));
        let i = position(hashes, hash);
        assert(end.entries[i].hash == hash);
        assert(u.bodies.contains_key(end.entries[i].hash));
    }
}

/// Rows that are as a transaction of new cells says are rows of a store
/// that holds the root once more.
pub proof fn lemma_store_inv(
    rows: Map<Seq<u8>, Seq<u8>>,
    roots: Multiset<Seq<u8>>,
    u: Universe,
    alive: Seq<Seq<u8>>,
    root: Seq<u8>,
    entries: Seq<StoreEntry>,
    pushed: Seq<Cell>,
    after: Map<Seq<u8>, Seq<u8>>,
)
    requires
        inv(rows, roots, u, alive),
        store_facts(rows, u, entries, hashes_of_cells(pushed), after),
        distinct(hashes_of_cells(pushed)),
        u.holds(pushed),
        forall|hash: Seq<u8>| #[trigger]
            entry_rc(entries, hash) == root_hold(root, hash) + refs_in(pushed, hash),
    ensures
        inv(after, roots.insert(root), u, alive + hashes_of_cells(pushed)),
{
    let new_hashes = hashes_of_cells(pushed);
    let all = alive + new_hashes;
    let held = roots.insert(root);
    let n = alive.len() as int;
    assert forall|hash: Seq<u8>| #[trigger] all.contains(hash) <==> alive.contains(hash)
        || new_hashes.contains(hash) by {
        if all.contains(hash) {
            let a = choose|a: int| 0 <= a < all.len() && all[a] == hash;
            if a < n {
                assert(alive[a] == hash);
            } else {
                assert(new_hashes[a - n] == hash);
            }
        }
        if alive.contains(hash) {
            let a = choose|a: int| 0 <= a < alive.len() && alive[a] == hash;
            assert(all[a] == hash);
        }
        if new_hashes.contains(hash) {
            let j = choose|j: int| 0 <= j < new_hashes.len() && new_hashes[j] == hash;
            assert(all[n + j] == hash);
        }
    }
    assert(all.no_duplicates()) by {
        assert forall|a: int, b: int| 0 <= a < all.len() && 0 <= b < all.len() && a
            != b implies all[a] != all[b] by {
            if a < n && b < n {
            } else if a >= n && b >= n {
                if a < b {
                    assert(new_hashes[a - n] != new_hashes[b - n]);
                } else {
                    assert(new_hashes[b - n] != new_hashes[a - n]);
                }
            } else {
                let old_one = if a < n { a } else { b };
                let new_one = if a < n { b } else { a };
                assert(alive.contains(alive[old_one]));
                assert(new_hashes.contains(new_hashes[new_one - n]));
            }
        }
    }
    assert forall|hash: Seq<u8>| #[trigger] all.contains(hash) <==> live(after, hash) by {
        assert(alive.contains(hash) <==> live(rows, hash));
        assert(live(after, hash) <==> live(rows, hash) || new_hashes.contains(hash));
    }
    assert forall|hash: Seq<u8>| #[trigger] all.contains(hash) implies u.bodies.contains_key(
        hash,
    ) && row_payload(after[hash]) == Some(u.bodies[hash]) by {
        if alive.contains(hash) {
            assert(live(rows, hash));
        }
    }
    assert forall|hash: Seq<u8>| #[trigger]
        rc(after, hash) == held.count(hash) + indeg(u, all, hash) by {
        assert(rc(after, hash) == rc(rows, hash) + entry_rc(entries, hash));
        assert(rc(rows, hash) == roots.count(hash) + indeg(u, alive, hash));
        assert(entry_rc(entries, hash) == root_hold(root, hash) + refs_in(pushed, hash));
        lemma_indeg_add(u, alive, new_hashes, hash);
        lemma_refs_in_universe(u, pushed, hash);
    }
}

/// Storing a tree of cells of the universe keeps the rows the rows of a
/// store, which then holds the root of the tree once more.
pub proof fn lemma_store_keeps(
    rows: Map<Seq<u8>, Seq<u8>>,
    roots: Multiset<Seq<u8>>,
    u: Universe,
    root: Cell,
)
    requires
        u.ok(),
        store_inv(rows, roots, u),
        u.has(root),
        rows_have_room(rows),
        store_walk(rows, StoreState::start(root)) is Ok,
    ensures
        store_inv(
            apply_writes(rows, store_walk(rows, StoreState::start(root))->Ok_0.writes()),
            roots.insert(root.repr_hash@),
            u,
        ),
{
    let alive = choose|alive: Seq<Seq<u8>>| inv(rows, roots, u, alive);
    let start = StoreState::start(root);
    let end = store_walk(rows, start)->Ok_0;
    let after = apply_writes(rows, end.writes());
    lemma_walk_start(rows, u, root);
    let pushed = lemma_walk_counts(rows, u, root, start, Seq::empty());
    assert(rows_sane(rows)) by {
        assert forall|key: Seq<u8>| #[trigger] rows.contains_key(key) implies row_refcount(
            rows[key],
        ) >= 0 by {
            assert(rc(rows, key) == roots.count(key) + indeg(u, alive, key));
        }
    }
    lemma_store_facts(rows, u, root, pushed);
    assert forall|hash: Seq<u8>| #[trigger]
        entry_rc(end.entries, hash) == root_hold(root.repr_hash@, hash) + refs_in(
            pushed,
            hash,
        ) by {
        assert(entry_rc(end.entries, hash) + occ(end.pending, hash) + refs_in(end.stack, hash)
            == root_hold(root.repr_hash@, hash) + refs_in(pushed, hash));
        assert(end.stack =~= Seq::<Cell>::empty());
        assert(hashes_of_cells(end.pending) =~= Seq::<Seq<u8>>::empty());
    }
    lemma_store_inv(rows, roots, u, alive, root.repr_hash@, end.entries, pushed, after);
}

/// Number of references that the transaction takes from the cell with
/// this hash.
pub open spec fn removes_of(entries: Seq<RemoveEntry>, hash: Seq<u8>) -> nat {
    if removed(entries, hash) {
        entries[position(removed_hashes(entries), hash)].removes
    } else {
        0
    }
}

/// Whether the cell of the entry loses its last reference.
pub open spec fn gone(entry: RemoveEntry) -> bool {
    entry.removes == entry.rc
}

/// Whether the transaction takes the last reference from the cell with
/// this hash.
pub open spec fn drops(entries: Seq<RemoveEntry>, hash: Seq<u8>) -> bool {
    removed(entries, hash) && gone(entries[position(removed_hashes(entries), hash)])
}

/// Number of references to `hash` from the cells that lose their last
/// reference.
pub open spec fn dropped_refs(entries: Seq<RemoveEntry>, hash: Seq<u8>) -> nat
    decreases entries.len(),
{
    if entries.len() == 0 {
        0
    } else {
        dropped_refs(entries.drop_last(), hash) + if gone(entries.last()) {
            count_in(entries.last().refs, hash)
        } else {
            0
        }
    }
}

/// The hashes of the cells that lose their last reference.
pub open spec fn dropped_list(entries: Seq<RemoveEntry>) -> Seq<Seq<u8>>
    decreases entries.len(),
{
    if entries.len() == 0 {
        Seq::empty()
    } else if gone(entries.last()) {
        dropped_list(entries.drop_last()).push(entries.last().hash)
    } else {
        dropped_list(entries.drop_last())
    }
}

/// The hashes of `alive` without those of the cells that lose their last
/// reference.
pub open spec fn survivors(alive: Seq<Seq<u8>>, entries: Seq<RemoveEntry>) -> Seq<Seq<u8>>
    decreases alive.len(),
{
    if alive.len() == 0 {
        Seq::empty()
    } else if drops(entries, alive.last()) {
        survivors(alive.drop_last(), entries)
    } else {
        survivors(alive.drop_last(), entries).push(alive.last())
    }
}

/// What holds of a remove walk over the rows of a store: the touched
/// cells are cells that the rows hold, with the children that the
/// universe gives them, and the references that were taken, and the ones
/// that are still to be taken, are the hold of the root and the
/// references from the cells that lost their last reference.
pub open spec fn rwalk_inv(
    rows: Map<Seq<u8>, Seq<u8>>,
    u: Universe,
    target: Seq<u8>,
    entries: Seq<RemoveEntry>,
    stack: Seq<Seq<u8>>,
) -> bool {
    &&& remove_shape(rows, entries)
    &&& forall|i: int|
        0 <= i < entries.len() ==> (#[trigger] entries[i]).refs == u.kids(entries[i].hash) && live(
            rows,
            entries[i].hash,
        )
    &&& forall|hash: Seq<u8>|
        #[trigger] removes_of(entries, hash) + count_in(stack, hash) == root_hold(target, hash)
            + dropped_refs(entries, hash)
}

/// One more reference taken from a touched cell counts for that cell alone.
pub proof fn lemma_removes_bump(entries: Seq<RemoveEntry>, i: int, hash: Seq<u8>)
    requires
        distinct(removed_hashes(entries)),
        0 <= i < entries.len(),
    ensures
        removes_of(
            entries.update(
                i,
                RemoveEntry {
                    hash: entries[i].hash,
                    rc: entries[i].rc,
                    removes: entries[i].removes + 1,
                    refs: entries[i].refs,
                },
            ),
            hash,
        ) == removes_of(entries, hash) + root_hold(entries[i].hash, hash),
{
    let bumped = entries.update(
        i,
        RemoveEntry {
            hash: entries[i].hash,
            rc: entries[i].rc,
            removes: entries[i].removes + 1,
            refs: entries[i].refs,
        },
    );
    let hashes = removed_hashes(entries);
    assert(removed_hashes(bumped) =~= hashes);
    if removed(entries, hash) {
        let p = position(hashes, hash);
        assert(key_at(hashes, hash, p));
        if p != i {
            if p < i {
                assert(hashes[p] != hashes[i]);
            } else {
                assert(hashes[i] != hashes[p]);
            }
        }
    } else {
        assert(!key_at(hashes, hash, i));
    }
}

/// A cell that enters the transaction counts with the references that
/// are taken from it, for itself alone.
pub proof fn lemma_removes_push(entries: Seq<RemoveEntry>, entry: RemoveEntry, hash: Seq<u8>)
    requires
        distinct(removed_hashes(entries)),
        !removed(entries, entry.hash),
    ensures
        distinct(removed_hashes(entries.push(entry))),
        removes_of(entries.push(entry), hash) == removes_of(entries, hash) + if entry.hash
            == hash {
            entry.removes
        } else {
            0
        },
{
    let more = entries.push(entry);
    let hashes = removed_hashes(entries);
    let n = entries.len() as int;
    assert(removed_hashes(more) =~= hashes.push(entry.hash));
    assert forall|a: int, b: int| 0 <= a < b < more.len() implies removed_hashes(more)[a]
        != removed_hashes(more)[b] by {
        if b == n {
            if hashes[a] == entry.hash {
                assert(key_at(hashes, entry.hash, a));
            }
        } else {
            assert(hashes[a] != hashes[b]);
        }
    }
    if hash == entry.hash {
        assert(key_at(removed_hashes(more), hash, n));
        lemma_position(removed_hashes(more), hash, n);
    } else if removed(entries, hash) {
        let p = position(hashes, hash);
        assert(key_at(hashes, hash, p));
        assert(key_at(removed_hashes(more), hash, p));
        lemma_position(removed_hashes(more), hash, p);
    } else {
        if removed(more, hash) {
            let p = choose|p: int| key_at(removed_hashes(more), hash, p);
            assert(p < n);
            assert(key_at(hashes, hash, p));
        }
    }
}

/// Where a cell that had references left loses one more, the references
/// from cells that lost their last one grow by its own if that was its
/// last.
pub proof fn lemma_dropped_bump(entries: Seq<RemoveEntry>, i: int, hash: Seq<u8>)
    requires
        0 <= i < entries.len(),
        entries[i].removes < entries[i].rc,
    ensures
        ({
            let bumped = RemoveEntry {
                hash: entries[i].hash,
                rc: entries[i].rc,
                removes: entries[i].removes + 1,
                refs: entries[i].refs,
            };
            dropped_refs(entries.update(i, bumped), hash) == dropped_refs(entries, hash) + if gone(
                bumped,
            ) {
                count_in(entries[i].refs, hash)
            } else {
                0
            }
        }),
    decreases entries.len(),
{
    let bumped = RemoveEntry {
        hash: entries[i].hash,
        rc: entries[i].rc,
        removes: entries[i].removes + 1,
        refs: entries[i].refs,
    };
    if i == entries.len() - 1 {
        assert(entries.update(i, bumped).drop_last() =~= entries.drop_last());
    } else {
        lemma_dropped_bump(entries.drop_last(), i, hash);
        assert(entries.update(i, bumped).drop_last() =~= entries.drop_last().update(i, bumped));
    }
}

/// Revisiting keeps what holds of a remove walk.
pub proof fn lemma_revisit_counts(
    rows: Map<Seq<u8>, Seq<u8>>,
    u: Universe,
    target: Seq<u8>,
    entries: Seq<RemoveEntry>,
    stack: Seq<Seq<u8>>,
)
    requires
        rwalk_inv(rows, u, target, entries, stack),
        revisit(entries, stack) is Ok,
    ensures
        rwalk_inv(
            rows,
            u,
            target,
            revisit(entries, stack)->Ok_0.entries,
            revisit(entries, stack)->Ok_0.stack,
        ),
    decreases slack(entries),
{
    if !(stack.len() == 0 || !removed(entries, stack.last())) {
        let i = position(removed_hashes(entries), stack.last());
        let entry = entries[i];
        assert(key_at(removed_hashes(entries), stack.last(), i));
        let bumped = RemoveEntry {
            hash: entry.hash,
            rc: entry.rc,
            removes: entry.removes + 1,
            refs: entry.refs,
        };
        let next = if entry.rc > entry.removes + 1 {
            stack.drop_last()
        } else {
            stack.drop_last() + entry.refs
        };
        lemma_slack_update(entries, i, bumped);
        lemma_revisit_one(rows, u, target, entries, stack);
        lemma_revisit_counts(rows, u, target, entries.update(i, bumped), next);
    }
}

/// A remove walk over the rows of a store that ends well ends with every
/// reference counted: each touched cell loses the hold of the root, where
/// it is the root, and the references from the cells that lost their last
/// reference.
pub proof fn lemma_rwalk_counts(
    rows: Map<Seq<u8>, Seq<u8>>,
    u: Universe,
    target: Seq<u8>,
    state: RemoveState,
)
    requires
        rows_within(rows, u),
        remove_within(rows, state),
        rwalk_inv(rows, u, target, state.entries, state.stack),
        remove_walk(rows, state) is Ok,
    ensures
        remove_walk(rows, state)->Ok_0.finished(),
        rwalk_inv(
            rows,
            u,
            target,
            remove_walk(rows, state)->Ok_0.entries,
            remove_walk(rows, state)->Ok_0.stack,
        ),
    decreases rows.dom().len() - state.entries.len(),
{
    if !state.finished() {
        let hash = state.stack.last();
        let row = rows.get(hash);
        let next = state.step(row)->Ok_0;
        lemma_remove_step_within(rows, state);
        lemma_remove_bound(rows, next);
        lemma_remove_step(state, row);
        let body = row_payload(row->0)->0;
        let count = row_refcount(row->0);
        let refs = body_references(body, body_reference_count(body));
        let entry = RemoveEntry { hash, rc: count, removes: 1, refs };
        let first = state.entries.push(entry);
        let rest = state.stack.drop_last();
        let stack = if count > 1 {
            rest
        } else {
            rest + refs
        };
        assert(live(rows, hash));
        assert(refs == u.kids(hash));
        assert(!removed(state.entries, hash));
        assert forall|j: int| 0 <= j < first.len() implies {
            let e = #[trigger] first[j];
            &&& rows.contains_key(e.hash)
            &&& e.rc == row_refcount(rows[e.hash])
            &&& 1 <= e.removes <= e.rc
            &&& e.removes <= u32::MAX
        } by {
            if j < state.entries.len() {
                assert(rows.contains_key(state.entries[j].hash));
            }
        }
        assert forall|j: int| 0 <= j < first.len() implies (#[trigger] first[j]).refs == u.kids(
            first[j].hash,
        ) && live(rows, first[j].hash) by {
            if j < state.entries.len() {
                assert(state.entries[j].refs == u.kids(state.entries[j].hash));
            }
        }
        assert(first.drop_last() =~= state.entries);
        assert forall|h: Seq<u8>|
            #[trigger] removes_of(first, h) + count_in(stack, h) == root_hold(target, h)
                + dropped_refs(first, h) by {
            lemma_removes_push(state.entries, entry, h);
            lemma_count_add(rest, refs, h);
            assert(removes_of(state.entries, h) + count_in(state.stack, h) == root_hold(
                target,
                h,
            ) + dropped_refs(state.entries, h));
        }
        lemma_removes_push(state.entries, entry, hash);
        lemma_revisit_counts(rows, u, target, first, stack);
        lemma_rwalk_counts(rows, u, target, next);
    }
}

/// Whether an entry of `entries` for this hash loses its last reference.
pub open spec fn drops_at(entries: Seq<RemoveEntry>, hash: Seq<u8>, i: int) -> bool {
    0 <= i < entries.len() && entries[i].hash == hash && gone(entries[i])
}

/// The list of dropped cells holds the cells that lose their last
/// reference, each once.
pub proof fn lemma_dropped_list(entries: Seq<RemoveEntry>)
    requires
        distinct(removed_hashes(entries)),
    ensures
        dropped_list(entries).no_duplicates(),
        forall|hash: Seq<u8>| #[trigger]
            dropped_list(entries).contains(hash) <==> exists|i: int| drops_at(entries, hash, i),
        forall|hash: Seq<u8>| #[trigger]
            drops(entries, hash) <==> exists|i: int| drops_at(entries, hash, i),
    decreases entries.len(),
{
    let hashes = removed_hashes(entries);
    assert forall|hash: Seq<u8>| #[trigger]
        drops(entries, hash) <==> exists|i: int| drops_at(entries, hash, i) by {
        if drops(entries, hash) {
            let p = position(hashes, hash);
            assert(key_at(hashes, hash, p));
            assert(drops_at(entries, hash, p));
        }
        if exists|i: int| drops_at(entries, hash, i) {
            let i = choose|i: int| drops_at(entries, hash, i);
            assert(key_at(hashes, hash, i));
            lemma_position(hashes, hash, i);
        }
    }
    if entries.len() > 0 {
        let front = entries.drop_last();
        let last = entries.last();
        assert(removed_hashes(front) =~= hashes.drop_last());
        assert(distinct(removed_hashes(front))) by {
            assert forall|a: int, b: int| 0 <= a < b < front.len() implies removed_hashes(
                front,
            )[a] != removed_hashes(front)[b] by {
                assert(hashes[a] != hashes[b]);
            }
        }
        lemma_dropped_list(front);
        let list = dropped_list(entries);
        let before = dropped_list(front);
        assert forall|hash: Seq<u8>| #[trigger]
            list.contains(hash) <==> exists|i: int| drops_at(entries, hash, i) by {
            if list.contains(hash) {
                let k = choose|k: int| 0 <= k < list.len() && list[k] == hash;
                if gone(last) && k == list.len() - 1 {
                    assert(drops_at(entries, hash, entries.len() - 1));
                } else {
                    assert(before[k] == hash);
                    assert(before.contains(hash));
                    let i = choose|i: int| drops_at(front, hash, i);
                    assert(drops_at(entries, hash, i));
                }
            }
            if exists|i: int| drops_at(entries, hash, i) {
                let i = choose|i: int| drops_at(entries, hash, i);
                if i == entries.len() - 1 {
                    assert(list[list.len() - 1] == hash);
                } else {
                    assert(drops_at(front, hash, i));
                    assert(before.contains(hash));
                    let k = choose|k: int| 0 <= k < before.len() && before[k] == hash;
                    assert(list[k] == hash);
                }
            }
        }
        if gone(last) {
            assert forall|a: int, b: int| 0 <= a < list.len() && 0 <= b < list.len() && a
                != b implies list[a] != list[b] by {
                let n = before.len() as int;
                if a < n && b < n {
                    assert(before[a] != before[b]);
                } else {
                    let other = if a < n { a } else { b };
                    assert(before.contains(before[other]));
                    let i = choose|i: int| drops_at(front, before[other], i);
                    assert(hashes[i] != hashes[entries.len() - 1]);
                }
            }
        }
    }
}

/// The survivors are the cells of `alive` that do not lose their last
/// reference, each once.
pub proof fn lemma_survivors(alive: Seq<Seq<u8>>, entries: Seq<RemoveEntry>)
    requires
        alive.no_duplicates(),
    ensures
        survivors(alive, entries).no_duplicates(),
        forall|hash: Seq<u8>| #[trigger]
            survivors(alive, entries).contains(hash) <==> alive.contains(hash) && !drops(
                entries,
                hash,
            ),
    decreases alive.len(),
{
    if alive.len() > 0 {
        let front = alive.drop_last();
        let last = alive.last();
        lemma_survivors(front, entries);
        let kept = survivors(alive, entries);
        let before = survivors(front, entries);
        assert forall|hash: Seq<u8>| #[trigger]
            kept.contains(hash) <==> alive.contains(hash) && !drops(entries, hash) by {
            if kept.contains(hash) {
                let k = choose|k: int| 0 <= k < kept.len() && kept[k] == hash;
                if !drops(entries, last) && k == kept.len() - 1 {
                    assert(alive[alive.len() - 1] == hash);
                } else {
                    assert(before[k] == hash);
                    assert(before.contains(hash));
                    let a = choose|a: int| 0 <= a < front.len() && front[a] == hash;
                    assert(alive[a] == hash);
                }
            }
            if alive.contains(hash) && !drops(entries, hash) {
                let a = choose|a: int| 0 <= a < alive.len() && alive[a] == hash;
                if a == alive.len() - 1 {
                    assert(kept[kept.len() - 1] == hash);
                } else {
                    assert(front[a] == hash);
                    assert(front.contains(hash));
                    assert(before.contains(hash));
                    let k = choose|k: int| 0 <= k < before.len() && before[k] == hash;
                    assert(kept[k] == hash);
                }
            }
        }
        if !drops(entries, last) {
            assert forall|a: int, b: int| 0 <= a < kept.len() && 0 <= b < kept.len() && a
                != b implies kept[a] != kept[b] by {
                let n = before.len() as int;
                if a < n && b < n {
                    assert(before[a] != before[b]);
                } else {
                    let other = if a < n { a } else { b };
                    assert(before.contains(before[other]));
                    assert(front.contains(before[other]));
                    let k = choose|k: int| 0 <= k < front.len() && front[k] == before[other];
                    assert(alive[k] != alive[alive.len() - 1]);
                }
            }
        }
    }
}

/// The references from the cells that lose their last reference are the
/// references that the universe gives their hashes.
pub proof fn lemma_dropped_indeg(u: Universe, entries: Seq<RemoveEntry>, hash: Seq<u8>)
    requires
        forall|i: int| 0 <= i < entries.len() ==> (#[trigger] entries[i]).refs == u.kids(
            entries[i].hash,
        ),
    ensures
        indeg(u, dropped_list(entries), hash) == dropped_refs(entries, hash),
    decreases entries.len(),
{
    if entries.len() > 0 {
        let front = entries.drop_last();
        assert forall|i: int| 0 <= i < front.len() implies (#[trigger] front[i]).refs == u.kids(
            front[i].hash,
        ) by {
            assert(front[i] == entries[i]);
        }
        lemma_dropped_indeg(u, front, hash);
        if gone(entries.last()) {
            assert(dropped_list(entries).drop_last() =~= dropped_list(front));
            assert(entries[entries.len() - 1].refs == u.kids(entries[entries.len() - 1].hash));
        }
    }
}

/// The cells that the rows hold are the survivors and the cells that
/// lose their last reference, each once.
pub proof fn lemma_alive_split(
    rows: Map<Seq<u8>, Seq<u8>>,
    alive: Seq<Seq<u8>>,
    entries: Seq<RemoveEntry>,
)
    requires
        alive.no_duplicates(),
        distinct(removed_hashes(entries)),
        forall|hash: Seq<u8>| #[trigger] alive.contains(hash) <==> live(rows, hash),
        forall|hash: Seq<u8>| #[trigger] drops(entries, hash) ==> live(rows, hash),
    ensures
        (survivors(alive, entries) + dropped_list(entries)).no_duplicates(),
        forall|x: Seq<u8>|
            alive.contains(x) <==> (survivors(alive, entries) + dropped_list(entries)).contains(x),
{
    lemma_survivors(alive, entries);
    lemma_dropped_list(entries);
    let kept = survivors(alive, entries);
    let lost = dropped_list(entries);
    let both = kept + lost;
    let n = kept.len() as int;
    assert(both.no_duplicates()) by {
        assert forall|a: int, b: int| 0 <= a < both.len() && 0 <= b < both.len() && a
            != b implies both[a] != both[b] by {
            if a < n && b < n {
                assert(kept[a] != kept[b]);
            } else if a >= n && b >= n {
                assert(lost[a - n] != lost[b - n]);
            } else {
                let k = if a < n { a } else { b };
                let l = if a < n { b } else { a };
                assert(kept.contains(kept[k]));
                assert(lost.contains(lost[l - n]));
            }
        }
    }
    assert forall|x: Seq<u8>| alive.contains(x) <==> both.contains(x) by {
        if alive.contains(x) {
            if drops(entries, x) {
                assert(lost.contains(x));
                let l = choose|l: int| 0 <= l < lost.len() && lost[l] == x;
                assert(both[n + l] == x);
            } else {
                assert(kept.contains(x));
                let k = choose|k: int| 0 <= k < kept.len() && kept[k] == x;
                assert(both[k] == x);
            }
        }
        if both.contains(x) {
            let a = choose|a: int| 0 <= a < both.len() && both[a] == x;
            if a < n {
                assert(kept.contains(kept[a]));
            } else {
                assert(lost.contains(lost[a - n]));
                assert(drops(entries, x));
            }
        }
    }
}

/// What the rows hold after a removal, told of the reference counts, of
/// the cells that are held and of their bodies.
pub open spec fn remove_facts(
    rows: Map<Seq<u8>, Seq<u8>>,
    entries: Seq<RemoveEntry>,
    after: Map<Seq<u8>, Seq<u8>>,
) -> bool {
    &&& after.dom().finite()
    &&& forall|hash: Seq<u8>| #[trigger] rc(after, hash) == rc(rows, hash) - removes_of(entries, hash)
    &&& forall|hash: Seq<u8>| #[trigger]
        live(after, hash) <==> live(rows, hash) && !drops(entries, hash)
    &&& forall|hash: Seq<u8>| #[trigger]
        live(after, hash) ==> row_payload(after[hash]) == row_payload(rows[hash])
    &&& forall|hash: Seq<u8>| #[trigger] drops(entries, hash) ==> live(rows, hash)
}

/// After a removal, the rows are as the transaction says.
pub proof fn lemma_remove_facts(rows: Map<Seq<u8>, Seq<u8>>, u: Universe, target: Seq<u8>)
    requires
        rows.dom().finite(),
        remove_walk(rows, RemoveState::start(target)) is Ok,
        rwalk_inv(
            rows,
            u,
            target,
            remove_walk(rows, RemoveState::start(target))->Ok_0.entries,
            remove_walk(rows, RemoveState::start(target))->Ok_0.stack,
        ),
    ensures
        remove_facts(
            rows,
            remove_walk(rows, RemoveState::start(target))->Ok_0.entries,
            apply_writes(rows, remove_walk(rows, RemoveState::start(target))->Ok_0.writes()),
        ),
{
    let end = remove_walk(rows, RemoveState::start(target))->Ok_0;
    let after = apply_writes(rows, end.writes());
    let entries = end.entries;
    let hashes = removed_hashes(entries);
    lemma_remove_effect(rows, target);
    lemma_apply_finite(rows, end.writes());
    assert forall|hash: Seq<u8>| removed(entries, hash) implies {
        let i = position(hashes, hash);
        &&& 0 <= i < entries.len()
        &&& entries[i].hash == hash
        &&& rows.contains_key(hash)
        &&& live(rows, hash)
    } by {
        let i = position(hashes, hash);
        assert(key_at(hashes, hash, i));
        assert(rows.contains_key(entries[i].hash));
        assert(live(rows, entries[i].hash));
    }
    assert forall|hash: Seq<u8>| #[trigger] rc(after, hash) == rc(rows, hash) - removes_of(
        entries,
        hash,
    ) by {
        if removed(entries, hash) {
            let i = position(hashes, hash);
            assert(entries[i].hash == hash);
        } else {
            assert(after.get(hash) == rows.get(hash));
        }
    }
    assert forall|hash: Seq<u8>| #[trigger]
        live(after, hash) <==> live(rows, hash) && !drops(entries, hash) by {
        if removed(entries, hash) {
            let i = position(hashes, hash);
            assert(entries[i].hash == hash);
        } else {
            assert(after.get(hash) == rows.get(hash));
        }
    }
    assert forall|hash: Seq<u8>| #[trigger] live(after, hash) implies row_payload(after[hash])
        == row_payload(rows[hash]) by {
        if removed(entries, hash) {
            let i = position(hashes, hash);
            assert(entries[i].hash == hash);
        } else {
            assert(after.get(hash) == rows.get(hash));
        }
    }
}

/// Rows that are as a transaction of dropped cells says are rows of a
/// store that holds the root once less.
pub proof fn lemma_remove_inv(
    rows: Map<Seq<u8>, Seq<u8>>,
    roots: Multiset<Seq<u8>>,
    u: Universe,
    alive: Seq<Seq<u8>>,
    target: Seq<u8>,
    entries: Seq<RemoveEntry>,
    after: Map<Seq<u8>, Seq<u8>>,
)
    requires
        inv(rows, roots, u, alive),
        roots.count(target) > 0,
        remove_facts(rows, entries, after),
        distinct(removed_hashes(entries)),
        forall|i: int| 0 <= i < entries.len() ==> (#[trigger] entries[i]).refs == u.kids(
            entries[i].hash,
        ),
        forall|hash: Seq<u8>| #[trigger]
            removes_of(entries, hash) == root_hold(target, hash) + dropped_refs(entries, hash),
    ensures
        inv(after, roots.remove(target), u, survivors(alive, entries)),
{
    let held = roots.remove(target);
    lemma_survivors(alive, entries);
    lemma_dropped_list(entries);
    lemma_alive_split(rows, alive, entries);
    let kept = survivors(alive, entries);
    let lost = dropped_list(entries);
    let both = kept + lost;
    assert forall|hash: Seq<u8>| #[trigger] kept.contains(hash) <==> live(after, hash) by {
        assert(alive.contains(hash) <==> live(rows, hash));
        assert(live(after, hash) <==> live(rows, hash) && !drops(entries, hash));
    }
    assert forall|hash: Seq<u8>| #[trigger] kept.contains(hash) implies u.bodies.contains_key(
        hash,
    ) && row_payload(after[hash]) == Some(u.bodies[hash]) by {
        assert(alive.contains(hash));
        assert(live(after, hash));
    }
    assert forall|hash: Seq<u8>| #[trigger]
        rc(after, hash) == held.count(hash) + indeg(u, kept, hash) by {
        assert(rc(after, hash) == rc(rows, hash) - removes_of(entries, hash));
        assert(rc(rows, hash) == roots.count(hash) + indeg(u, alive, hash));
        assert(removes_of(entries, hash) == root_hold(target, hash) + dropped_refs(
            entries,
            hash,
        ));
        lemma_dropped_indeg(u, entries, hash);
        lemma_indeg_add(u, kept, lost, hash);
        lemma_indeg_order(u, alive, both, hash);
    }
}

/// Removing a root that is held keeps the rows the rows of a store,
/// which then holds the root once less.
pub proof fn lemma_remove_keeps(
    rows: Map<Seq<u8>, Seq<u8>>,
    roots: Multiset<Seq<u8>>,
    u: Universe,
    target: Seq<u8>,
)
    requires
        store_inv(rows, roots, u),
        roots.count(target) > 0,
        remove_walk(rows, RemoveState::start(target)) is Ok,
    ensures
        store_inv(
            apply_writes(rows, remove_walk(rows, RemoveState::start(target))->Ok_0.writes()),
            roots.remove(target),
            u,
        ),
{
    let alive = choose|alive: Seq<Seq<u8>>| inv(rows, roots, u, alive);
    let start = RemoveState::start(target);
    let end = remove_walk(rows, start)->Ok_0;
    let after = apply_writes(rows, end.writes());
    lemma_rwalk_start(rows, u, target);
    lemma_inv_within(rows, roots, u, alive);
    lemma_rwalk_counts(rows, u, target, start);
    lemma_remove_facts(rows, u, target);
    assert forall|hash: Seq<u8>| #[trigger]
        removes_of(end.entries, hash) == root_hold(target, hash) + dropped_refs(
            end.entries,
            hash,
        ) by {
        assert(removes_of(end.entries, hash) + count_in(end.stack, hash) == root_hold(
            target,
            hash,
        ) + dropped_refs(end.entries, hash));
        assert(end.stack =~= Seq::<Seq<u8>>::empty());
    }
    lemma_remove_inv(rows, roots, u, alive, target, end.entries, after);
}

/// A remove walk starts as such a walk is to be.
pub proof fn lemma_rwalk_start(rows: Map<Seq<u8>, Seq<u8>>, u: Universe, target: Seq<u8>)
    requires
        rows.dom().finite(),
    ensures
        remove_within(rows, RemoveState::start(target)),
        rwalk_inv(
            rows,
            u,
            target,
            RemoveState::start(target).entries,
            RemoveState::start(target).stack,
        ),
{
    let start = RemoveState::start(target);
    assert(removed_hashes(start.entries) =~= Seq::<Seq<u8>>::empty());
    assert forall|h: Seq<u8>|
        #[trigger] removes_of(start.entries, h) + count_in(start.stack, h) == root_hold(target, h)
            + dropped_refs(start.entries, h) by {
        assert(start.stack.drop_last() =~= Seq::<Seq<u8>>::empty());
        assert(start.stack.last() == target);
        assert(count_in(start.stack.drop_last(), h) == 0);
    }
}

/// One operation on the store.
pub enum CellOp {
    /// The tree of a cell is stored.
    Store(Cell),
    /// The cell with a hash is removed.
    Remove(Seq<u8>),
}

/// The rows of a store and the roots that it holds.
pub struct StoreImage {
    pub rows: Map<Seq<u8>, Seq<u8>>,
    pub roots: Multiset<Seq<u8>>,
}

/// The store after one operation whose batch was applied; `None` where
/// the operation fails, where a cell is removed that is not held as a
/// root, and where a reference count is about to run over.
pub open spec fn after_op(image: StoreImage, op: CellOp) -> Option<StoreImage> {
    match op {
        CellOp::Store(root) => {
            let walk = store_walk(image.rows, StoreState::start(root));
            if rows_have_room(image.rows) && walk is Ok {
                Some(
                    StoreImage {
                        rows: apply_writes(image.rows, walk->Ok_0.writes()),
                        roots: image.roots.insert(root.repr_hash@),
                    },
                )
            } else {
                None
            }
        },
        CellOp::Remove(hash) => {
            let walk = remove_walk(image.rows, RemoveState::start(hash));
            if image.roots.count(hash) > 0 && walk is Ok {
                Some(
                    StoreImage {
                        rows: apply_writes(image.rows, walk->Ok_0.writes()),
                        roots: image.roots.remove(hash),
                    },
                )
            } else {
                None
            }
        },
    }
}

/// The store after the operations of `history`, one after the other, on a
/// store without rows.
pub open spec fn replay(history: Seq<CellOp>) -> Option<StoreImage>
    decreases history.len(),
{
    if history.len() == 0 {
        Some(StoreImage { rows: Map::empty(), roots: Multiset::empty() })
    } else {
        match replay(history.drop_last()) {
            Some(image) => after_op(image, history.last()),
            None => None,
        }
    }
}

/// Whether every cell that `history` stores is a cell of the universe.
pub open spec fn stores_from(u: Universe, history: Seq<CellOp>) -> bool {
    forall|i: int|
        0 <= i < history.len() && (#[trigger] history[i]) is Store ==> u.has(history[i]->Store_0)
}

/// After every run of stores and removes the rows are rows of a store.
pub proof fn lemma_replay_inv(u: Universe, history: Seq<CellOp>)
    requires
        u.ok(),
        stores_from(u, history),
        replay(history) is Some,
    ensures
        store_inv(replay(history)->0.rows, replay(history)->0.roots, u),
    decreases history.len(),
{
    if history.len() == 0 {
        lemma_empty_store(u);
    } else {
        let front = history.drop_last();
        assert(stores_from(u, front)) by {
            assert forall|i: int| 0 <= i < front.len() && (#[trigger] front[i]) is Store implies u.has(
                front[i]->Store_0,
            ) by {
                assert(front[i] == history[i]);
            }
        }
        lemma_replay_inv(u, front);
        let image = replay(front)->0;
        match history.last() {
            CellOp::Store(root) => {
                assert(history[history.len() - 1] is Store);
                lemma_store_keeps(image.rows, image.roots, u, root);
            },
            CellOp::Remove(hash) => {
                lemma_remove_keeps(image.rows, image.roots, u, hash);
            },
        }
    }
}

/// Whatever trees are stored and whichever of their roots are removed
/// again, in any order: once the batches are applied, the rows with a
/// positive reference count are the cells that can be reached from the
/// roots that are still held, no more and no less.
pub proof fn lemma_refcount_closure(u: Universe, history: Seq<CellOp>)
    requires
        u.ok(),
        stores_from(u, history),
        replay(history) is Some,
    ensures
        forall|hash: Seq<u8>| #[trigger]
            live(replay(history)->0.rows, hash) <==> reachable(u, replay(history)->0.roots, hash),
{
    lemma_replay_inv(u, history);
    lemma_closure(replay(history)->0.rows, replay(history)->0.roots, u);
}

/// Whether every reference count is one that a transaction can take in
/// full.
pub open spec fn counts_fit(rows: Map<Seq<u8>, Seq<u8>>) -> bool {
    forall|key: Seq<u8>| #[trigger] rows.contains_key(key) ==> row_refcount(rows[key]) <= u32::MAX
}

/// A remove walk over the rows of a store never takes more references
/// from a cell than the roots and the cells of the store give it.
pub proof fn lemma_removes_bound(
    rows: Map<Seq<u8>, Seq<u8>>,
    roots: Multiset<Seq<u8>>,
    u: Universe,
    alive: Seq<Seq<u8>>,
    target: Seq<u8>,
    entries: Seq<RemoveEntry>,
    stack: Seq<Seq<u8>>,
    hash: Seq<u8>,
)
    requires
        inv(rows, roots, u, alive),
        roots.count(target) > 0,
        rwalk_inv(rows, u, target, entries, stack),
    ensures
        removes_of(entries, hash) + count_in(stack, hash) <= rc(rows, hash),
{
    lemma_dropped_list(entries);
    assert forall|x: Seq<u8>| #[trigger] drops(entries, x) implies live(rows, x) by {
        let i = choose|i: int| drops_at(entries, x, i);
        assert(live(rows, entries[i].hash));
    }
    lemma_alive_split(rows, alive, entries);
    let kept = survivors(alive, entries);
    let lost = dropped_list(entries);
    lemma_indeg_order(u, alive, kept + lost, hash);
    lemma_indeg_add(u, kept, lost, hash);
    lemma_dropped_indeg(u, entries, hash);
    assert(rc(rows, hash) == roots.count(hash) + indeg(u, alive, hash));
    assert(removes_of(entries, hash) + count_in(stack, hash) == root_hold(target, hash)
        + dropped_refs(entries, hash));
}

/// Over the rows of a store that holds the root, revisiting does not fail.
pub proof fn lemma_revisit_succeeds(
    rows: Map<Seq<u8>, Seq<u8>>,
    roots: Multiset<Seq<u8>>,
    u: Universe,
    alive: Seq<Seq<u8>>,
    target: Seq<u8>,
    entries: Seq<RemoveEntry>,
    stack: Seq<Seq<u8>>,
)
    requires
        inv(rows, roots, u, alive),
        roots.count(target) > 0,
        counts_fit(rows),
        rwalk_inv(rows, u, target, entries, stack),
    ensures
        revisit(entries, stack) is Ok,
    decreases slack(entries),
{
    if !(stack.len() == 0 || !removed(entries, stack.last())) {
        let hashes = removed_hashes(entries);
        let top = stack.last();
        let i = position(hashes, top);
        let entry = entries[i];
        assert(key_at(hashes, top, i));
        lemma_removes_bound(rows, roots, u, alive, target, entries, stack, top);
        assert(count_in(stack, top) >= 1);
        assert(rows.contains_key(entry.hash));
        assert(entry.removes + 1 <= entry.rc);
        assert(entry.removes < u32::MAX);
        let bumped = RemoveEntry {
            hash: entry.hash,
            rc: entry.rc,
            removes: entry.removes + 1,
            refs: entry.refs,
        };
        let rest = stack.drop_last();
        let next = if entry.rc > entry.removes + 1 {
            rest
        } else {
            rest + entry.refs
        };
        let updated = entries.update(i, bumped);
        lemma_slack_update(entries, i, bumped);
        lemma_revisit_one(rows, u, target, entries, stack);
        lemma_revisit_succeeds(rows, roots, u, alive, target, updated, next);
    }
}

/// One more reference taken from the touched cell on top of the stack
/// keeps what holds of a remove walk.
pub proof fn lemma_revisit_one(
    rows: Map<Seq<u8>, Seq<u8>>,
    u: Universe,
    target: Seq<u8>,
    entries: Seq<RemoveEntry>,
    stack: Seq<Seq<u8>>,
)
    requires
        rwalk_inv(rows, u, target, entries, stack),
        stack.len() > 0,
        removed(entries, stack.last()),
        entries[position(removed_hashes(entries), stack.last())].removes + 1 <= entries[position(
            removed_hashes(entries),
            stack.last(),
        )].rc,
        entries[position(removed_hashes(entries), stack.last())].removes < u32::MAX,
    ensures
        ({
            let i = position(removed_hashes(entries), stack.last());
            let entry = entries[i];
            let bumped = RemoveEntry {
                hash: entry.hash,
                rc: entry.rc,
                removes: entry.removes + 1,
                refs: entry.refs,
            };
            rwalk_inv(
                rows,
                u,
                target,
                entries.update(i, bumped),
                if entry.rc > entry.removes + 1 {
                    stack.drop_last()
                } else {
                    stack.drop_last() + entry.refs
                },
            )
        }),
{
    let hashes = removed_hashes(entries);
    let i = position(hashes, stack.last());
    let entry = entries[i];
    assert(key_at(hashes, stack.last(), i));
    let bumped = RemoveEntry {
        hash: entry.hash,
        rc: entry.rc,
        removes: entry.removes + 1,
        refs: entry.refs,
    };
    let rest = stack.drop_last();
    let next = if entry.rc > entry.removes + 1 {
        rest
    } else {
        rest + entry.refs
    };
    let updated = entries.update(i, bumped);
    assert(removed_hashes(updated) =~= hashes);
    assert(rows.contains_key(entry.hash));
    assert forall|j: int| 0 <= j < updated.len() implies {
        let e = #[trigger] updated[j];
        &&& rows.contains_key(e.hash)
        &&& e.rc == row_refcount(rows[e.hash])
        &&& 1 <= e.removes <= e.rc
        &&& e.removes <= u32::MAX
    } by {
        assert(rows.contains_key(entries[j].hash));
    }
    assert forall|j: int| 0 <= j < updated.len() implies (#[trigger] updated[j]).refs == u.kids(
        updated[j].hash,
    ) && live(rows, updated[j].hash) by {
        assert(entries[j].refs == u.kids(entries[j].hash));
    }
    assert forall|h: Seq<u8>|
        #[trigger] removes_of(updated, h) + count_in(next, h) == root_hold(target, h)
            + dropped_refs(updated, h) by {
        lemma_removes_bump(entries, i, h);
        lemma_dropped_bump(entries, i, h);
        lemma_count_add(rest, entry.refs, h);
        assert(removes_of(entries, h) + count_in(stack, h) == root_hold(target, h)
            + dropped_refs(entries, h));
    }
}

/// Over the rows of a store that holds the root, a remove walk does not
/// fail.
pub proof fn lemma_rwalk_succeeds(
    rows: Map<Seq<u8>, Seq<u8>>,
    roots: Multiset<Seq<u8>>,
    u: Universe,
    alive: Seq<Seq<u8>>,
    target: Seq<u8>,
    state: RemoveState,
)
    requires
        u.ok(),
        inv(rows, roots, u, alive),
        roots.count(target) > 0,
        counts_fit(rows),
        remove_within(rows, state),
        rwalk_inv(rows, u, target, state.entries, state.stack),
    ensures
        remove_walk(rows, state) is Ok,
    decreases rows.dom().len() - state.entries.len(),
{
    if !state.finished() {
        let hash = state.stack.last();
        let row = rows.get(hash);
        lemma_removes_bound(
            rows,
            roots,
            u,
            alive,
            target,
            state.entries,
            state.stack,
            hash,
        );
        assert(count_in(state.stack, hash) >= 1);
        assert(live(rows, hash));
        assert(alive.contains(hash));
        assert(u.bodies.contains_key(hash));
        let body = row_payload(row->0)->0;
        assert(body == u.bodies[hash]);
        assert(body_valid(body));
        let count = row_refcount(row->0);
        let refs = body_references(body, body_reference_count(body));
        let entry = RemoveEntry { hash, rc: count, removes: 1, refs };
        let first = state.entries.push(entry);
        let rest = state.stack.drop_last();
        let stack = if count > 1 {
            rest
        } else {
            rest + refs
        };
        assert(!removed(state.entries, hash));
        lemma_removes_push(state.entries, entry, hash);
        assert forall|j: int| 0 <= j < first.len() implies {
            let e = #[trigger] first[j];
            &&& rows.contains_key(e.hash)
            &&& e.rc == row_refcount(rows[e.hash])
            &&& 1 <= e.removes <= e.rc
            &&& e.removes <= u32::MAX
        } by {
            if j < state.entries.len() {
                assert(rows.contains_key(state.entries[j].hash));
            }
        }
        assert forall|j: int| 0 <= j < first.len() implies (#[trigger] first[j]).refs == u.kids(
            first[j].hash,
        ) && live(rows, first[j].hash) by {
            if j < state.entries.len() {
                assert(state.entries[j].refs == u.kids(state.entries[j].hash));
            }
        }
        assert(first.drop_last() =~= state.entries);
        assert forall|h: Seq<u8>|
            #[trigger] removes_of(first, h) + count_in(stack, h) == root_hold(target, h)
                + dropped_refs(first, h) by {
            lemma_removes_push(state.entries, entry, h);
            lemma_count_add(rest, refs, h);
            assert(removes_of(state.entries, h) + count_in(state.stack, h) == root_hold(
                target,
                h,
            ) + dropped_refs(state.entries, h));
        }
        lemma_revisit_succeeds(rows, roots, u, alive, target, first, stack);
        assert(state.step(row) is Ok);
        let next = state.step(row)->Ok_0;
        lemma_remove_step_within(rows, state);
        lemma_remove_bound(rows, next);
        lemma_revisit_counts(rows, u, target, first, stack);
        lemma_rwalk_succeeds(rows, roots, u, alive, target, next);
    }
}

/// The removal of a root that the store holds does not fail: every cell
/// that the walk comes to is there, with references left to take.
pub proof fn lemma_remove_succeeds(
    rows: Map<Seq<u8>, Seq<u8>>,
    roots: Multiset<Seq<u8>>,
    u: Universe,
    target: Seq<u8>,
)
    requires
        u.ok(),
        store_inv(rows, roots, u),
        roots.count(target) > 0,
        counts_fit(rows),
    ensures
        remove_walk(rows, RemoveState::start(target)) is Ok,
{
    let alive = choose|alive: Seq<Seq<u8>>| inv(rows, roots, u, alive);
    lemma_rwalk_start(rows, u, target);
    lemma_rwalk_succeeds(rows, roots, u, alive, target, RemoveState::start(target));
}

/// The root of a tree that was stored can be removed again: the removal
/// does not fail.
pub proof fn lemma_stored_root_leaves(
    rows: Map<Seq<u8>, Seq<u8>>,
    roots: Multiset<Seq<u8>>,
    u: Universe,
    root: Cell,
)
    requires
        u.ok(),
        store_inv(rows, roots, u),
        u.has(root),
        rows_have_room(rows),
        store_walk(rows, StoreState::start(root)) is Ok,
        counts_fit(
            apply_writes(rows, store_walk(rows, StoreState::start(root))->Ok_0.writes()),
        ),
    ensures
        remove_walk(
            apply_writes(rows, store_walk(rows, StoreState::start(root))->Ok_0.writes()),
            RemoveState::start(root.repr_hash@),
        ) is Ok,
{
    let target = root.repr_hash@;
    let stored = apply_writes(rows, store_walk(rows, StoreState::start(root))->Ok_0.writes());
    lemma_store_keeps(rows, roots, u, root);
    assert(roots.insert(target).count(target) > 0);
    lemma_remove_succeeds(stored, roots.insert(target), u, target);
}

} // verus!
