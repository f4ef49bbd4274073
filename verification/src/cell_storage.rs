//! The cell store: cells by representation hash, each with a count of the
//! references that hold it.
//!
//! Storing a tree of cells and removing one are walks over the tree that read
//! rows and, at the end, hand the engine one merge for each cell they touched.
//! A walk is a state that names the row it needs next and takes that row in:
//! whoever owns the engine reads the row and hands it over. [`CellStorage`]
//! does so for a column that is held in memory.

use vstd::prelude::*;
use std::sync::Arc;
use bumpalo::Bump;
use crate::batch::{BatchOp, Column, Write, WriteBatch};
use crate::cell::{
    body_reference_count, body_references, body_valid, serializable, serialized, Cell,
    CellStorageError, StorageCell,
};
use crate::cell::{body_counts, body_data};
use crate::refcount::{
    add_positive_refcount, decode_value_with_rc, encode_negative_refcount, has_value, merge,
    merged_row, negative_operand, positive_operand, row_body, row_has_value, row_payload,
    row_refcount, strip_refcount,
};
use crate::table::{key_at, position, row_delete, row_get, row_put, rows_of, Table};

verus! {

/// An arena of `bumpalo`, in which a walk keeps what it copies.
#[verifier::external_type_specification]
#[verifier::external_body]
pub struct ExBump<const MIN_ALIGN: usize>(bumpalo::Bump<MIN_ALIGN>);

/// Copies `src` into `arena` with `bumpalo::Bump::try_alloc_slice_copy`.
///
/// The copy holds what `src` holds and lives as long as the arena. `None`
/// where the arena could not reserve the space.
#[verifier::external_body]
pub(crate) fn arena_copy<'a, T: Copy>(arena: &'a Bump, src: &[T]) -> (copy: Option<&'a [T]>)
    ensures
        copy is Some ==> copy->0@ == src@,
{
    match arena.try_alloc_slice_copy(src) {
        Ok(copy) => Some(&*copy),
        Err(_) => None,
    }
}

/// The children of `cell`, in order.
pub open spec fn children(cell: Cell) -> Seq<Cell> {
    Seq::new(cell.references@.len(), |i: int| *cell.references@[i])
}

/// Number of cells in the trees of `cells`, each counted as often as it occurs.
pub open spec fn forest_size(cells: Seq<Arc<Cell>>) -> nat
    decreases cells, 0nat,
{
    if cells.len() == 0 {
        0
    } else {
        tree_size(*cells.last()) + forest_size(cells.drop_last())
    }
}

/// Number of cells in the tree of `cell`, each counted as often as it occurs.
pub open spec fn tree_size(cell: Cell) -> nat
    decreases cell, 1nat,
{
    1 + forest_size(cell.references@)
}

/// One cell of a store transaction.
pub struct StoreEntry {
    /// Representation hash of the cell.
    pub hash: Seq<u8>,
    /// Number of references that the transaction adds to the cell.
    pub rc: nat,
    /// Serialized form of the cell.
    pub data: Seq<u8>,
}

/// The state of a walk that stores a tree of cells.
pub struct StoreState {
    /// The cells touched so far, in the order in which they were first met.
    pub entries: Seq<StoreEntry>,
    /// Cells that are new to the store and whose children are still to be met.
    pub stack: Seq<Cell>,
    /// Cells whose rows are to be read, the next one first.
    pub pending: Seq<Cell>,
    /// Whether the root was found in the store.
    pub root_known: bool,
}

/// The hashes of `entries`, in order.
pub open spec fn entry_hashes(entries: Seq<StoreEntry>) -> Seq<Seq<u8>> {
    Seq::new(entries.len(), |i: int| entries[i].hash)
}

/// Whether the transaction has touched the cell with this hash.
pub open spec fn touched(entries: Seq<StoreEntry>, hash: Seq<u8>) -> bool {
    exists|i: int| key_at(entry_hashes(entries), hash, i)
}

/// Whether the store holds the cell of a row that was read.
pub open spec fn row_found(row: Option<Seq<u8>>) -> bool {
    row is Some && row_has_value(row->0)
}

/// Moves on to the next cell whose children are to be met: while nothing is
/// pending, the topmost cell of the stack is taken off and its children
/// become pending.
pub open spec fn settle(stack: Seq<Cell>, pending: Seq<Cell>) -> (Seq<Cell>, Seq<Cell>)
    decreases stack.len(),
{
    if pending.len() > 0 || stack.len() == 0 {
        (stack, pending)
    } else {
        settle(stack.drop_last(), children(stack.last()))
    }
}

impl StoreState {
    /// The state in which a walk from `root` starts.
    pub open spec fn start(root: Cell) -> StoreState {
        StoreState {
            entries: Seq::empty(),
            stack: Seq::empty(),
            pending: seq![root],
            root_known: false,
        }
    }

    /// Whether the walk has read all it needs.
    pub open spec fn finished(self) -> bool {
        self.pending.len() == 0
    }

    /// The state after the row of the first pending cell was read.
    ///
    /// A cell that the transaction has touched before gets one more
    /// reference. Any other cell enters the transaction with one reference
    /// and its serialized form; where the store does not hold it, its
    /// children are met later. Where the store holds the root, the walk ends
    /// at once. A walk that has finished stays as it is.
    pub open spec fn step(self, row: Option<Seq<u8>>) -> Result<StoreState, CellStorageError> {
        let cell = self.pending.first();
        let hash = cell.repr_hash@;
        if self.finished() {
            Ok(self)
        } else if touched(self.entries, hash) {
            let i = position(entry_hashes(self.entries), hash);
            let entry = self.entries[i];
            if entry.rc >= u32::MAX {
                Err(CellStorageError::CounterOverflow)
            } else {
                let (stack, pending) = settle(self.stack, self.pending.drop_first());
                Ok(
                    StoreState {
                        entries: self.entries.update(
                            i,
                            StoreEntry { hash: entry.hash, rc: entry.rc + 1, data: entry.data },
                        ),
                        stack,
                        pending,
                        root_known: self.root_known,
                    },
                )
            }
        } else if !serializable(cell.data@.len(), cell.references@.len()) {
            Err(CellStorageError::InvalidCell)
        } else {
            let entries = self.entries.push(StoreEntry { hash, rc: 1, data: serialized(cell) });
            if row_found(row) {
                if self.entries.len() == 0 {
                    Ok(
                        StoreState {
                            entries,
                            stack: Seq::empty(),
                            pending: Seq::empty(),
                            root_known: true,
                        },
                    )
                } else {
                    let (stack, pending) = settle(self.stack, self.pending.drop_first());
                    Ok(StoreState { entries, stack, pending, root_known: self.root_known })
                }
            } else {
                let (stack, pending) = settle(
                    self.stack.push(cell),
                    self.pending.drop_first(),
                );
                Ok(StoreState { entries, stack, pending, root_known: self.root_known })
            }
        }
    }

    /// Whether the next step keeps a copy of the serialized form of the
    /// first pending cell: it does for a cell that is new to the
    /// transaction and has a serialized form.
    pub open spec fn copies(self) -> bool {
        &&& !self.finished()
        &&& !touched(self.entries, self.pending.first().repr_hash@)
        &&& serializable(
            self.pending.first().data@.len(),
            self.pending.first().references@.len(),
        )
    }

    /// The merges that the transaction hands to the engine: one for each
    /// touched cell, with the references it gained and its serialized form.
    pub open spec fn writes(self) -> Seq<Write> {
        Seq::new(
            self.entries.len(),
            |i: int|
                Write::Merge {
                    column: Column::Cells,
                    key: self.entries[i].hash,
                    value: positive_operand(self.entries[i].rc as u32, self.entries[i].data),
                },
        )
    }

    /// What the walk reports: no cell where the store held the root, else
    /// the number of cells it touched.
    pub open spec fn total(self) -> nat {
        if self.root_known {
            0
        } else {
            self.entries.len()
        }
    }

    /// A bound on the number of rows that the walk still needs.
    pub open spec fn measure(self) -> int {
        weight(self.pending, 0) + weight(self.stack, 1)
    }
}

/// Twice the number of cells in the trees of `cells`, less `off` for each tree.
pub open spec fn weight(cells: Seq<Cell>, off: int) -> int
    decreases cells.len(),
{
    if cells.len() == 0 {
        0
    } else {
        weight(cells.drop_last(), off) + 2 * tree_size(cells.last()) - off
    }
}

proof fn lemma_weight_children(cell: Cell, n: int)
    requires
        0 <= n <= cell.references@.len(),
    ensures
        weight(children(cell).take(n), 0) == 2 * forest_size(cell.references@.take(n)),
    decreases n,
{
    if n > 0 {
        lemma_weight_children(cell, n - 1);
        assert(children(cell).take(n).drop_last() =~= children(cell).take(n - 1));
        assert(cell.references@.take(n).drop_last() =~= cell.references@.take(n - 1));
    }
}

proof fn lemma_weight_drop_first(cells: Seq<Cell>, off: int)
    requires
        cells.len() > 0,
    ensures
        weight(cells, off) == weight(cells.drop_first(), off) + 2 * tree_size(cells.first()) - off,
    decreases cells.len(),
{
    if cells.len() > 1 {
        lemma_weight_drop_first(cells.drop_last(), off);
        assert(cells.drop_last().drop_first() =~= cells.drop_first().drop_last());
    } else {
        assert(cells.drop_last() =~= Seq::<Cell>::empty());
        assert(cells.drop_first() =~= Seq::<Cell>::empty());
    }
}

/// A list of cells weighs at least as much as it is long.
pub proof fn lemma_weight_bounds(cells: Seq<Cell>, off: int)
    requires
        0 <= off <= 1,
    ensures
        weight(cells, off) >= cells.len(),
    decreases cells.len(),
{
    if cells.len() > 0 {
        lemma_weight_bounds(cells.drop_last(), off);
    }
}

/// Settling takes one off the measure for each cell that leaves the stack.
pub proof fn lemma_settle_measure(stack: Seq<Cell>, pending: Seq<Cell>)
    ensures
        ({
            let (s, p) = settle(stack, pending);
            &&& weight(p, 0) + weight(s, 1) <= weight(pending, 0) + weight(stack, 1)
            &&& p.len() == 0 ==> s.len() == 0
        }),
    decreases stack.len(),
{
    if !(pending.len() > 0 || stack.len() == 0) {
        let top = stack.last();
        lemma_settle_measure(stack.drop_last(), children(top));
        lemma_weight_children(top, top.references@.len() as int);
        assert(children(top).take(top.references@.len() as int) =~= children(top));
        assert(top.references@.take(top.references@.len() as int) =~= top.references@);
        assert(pending =~= Seq::<Cell>::empty());
    }
}

/// Each row that is read brings the walk nearer to its end.
pub proof fn lemma_step_measure(state: StoreState, row: Option<Seq<u8>>)
    requires
        !state.finished(),
        state.step(row) is Ok,
    ensures
        0 <= state.step(row)->Ok_0.measure() < state.measure(),
{
    let next = state.step(row)->Ok_0;
    let cell = state.pending.first();
    lemma_weight_drop_first(state.pending, 0);
    lemma_weight_bounds(next.pending, 0);
    lemma_weight_bounds(next.stack, 1);
    lemma_weight_bounds(state.pending.drop_first(), 0);
    lemma_weight_bounds(state.stack, 1);
    lemma_settle_measure(state.stack, state.pending.drop_first());
    lemma_settle_measure(state.stack.push(cell), state.pending.drop_first());
    assert(state.stack.push(cell).drop_last() =~= state.stack);
    assert(weight(Seq::<Cell>::empty(), 0) == 0);
    assert(weight(Seq::<Cell>::empty(), 1) == 0);
}

/// The state in which a walk ends that reads its rows from `rows`.
pub open spec fn store_walk(rows: Map<Seq<u8>, Seq<u8>>, state: StoreState) -> Result<
    StoreState,
    CellStorageError,
>
    decreases state.measure(),
{
    if state.finished() {
        Ok(state)
    } else {
        match state.step(rows.get(state.pending.first().repr_hash@)) {
            Err(e) => Err(e),
            Ok(next) => {
                proof {
                    lemma_step_measure(state, rows.get(state.pending.first().repr_hash@));
                }
                store_walk(rows, next)
            },
        }
    }
}

/// A walk that stores a tree of cells.
///
/// The walk names the cell whose row it needs next; the caller reads that
/// row and supplies it, until no cell is pending. Then the walk is turned
/// into the merges of its transaction.
pub struct StoreWalk<'a> {
    /// Where the serialized cells are kept.
    pub arena: &'a Bump,
    /// Serialized form of each touched cell, by hash.
    pub transaction: Table<&'a [u8]>,
    /// References gained by each touched cell, at the cell's position.
    pub counts: Vec<u32>,
    /// New cells whose children are still to be met.
    pub stack: Vec<&'a Cell>,
    /// The root, until its row has been supplied.
    pub root: Option<&'a Cell>,
    /// The cell whose children are being met.
    pub current: Option<&'a Cell>,
    /// Position in `current` of the child that is met next.
    pub next_child: usize,
    /// Whether the store held the root.
    pub root_known: bool,
    /// Where a cell is serialized before it is copied into the arena.
    pub buffer: Vec<u8>,
}

/// The cells behind `cells`.
pub open spec fn cells_of(cells: Seq<&Cell>) -> Seq<Cell> {
    Seq::new(cells.len(), |i: int| *cells[i])
}

impl<'a> StoreWalk<'a> {
    /// The cells whose rows are still to be read before the stack is looked at.
    pub open spec fn pending(&self) -> Seq<Cell> {
        match self.root {
            Some(root) => seq![*root],
            None => match self.current {
                Some(cell) => children(*cell).skip(self.next_child as int),
                None => Seq::empty(),
            },
        }
    }

    /// The walk as a plain state.
    pub open spec fn view(&self) -> StoreState {
        StoreState {
            entries: Seq::new(
                self.transaction.keys().len(),
                |i: int|
                    StoreEntry {
                        hash: self.transaction.keys()[i],
                        rc: self.counts@[i] as nat,
                        data: self.transaction.values@[i]@,
                    },
            ),
            stack: cells_of(self.stack@),
            pending: self.pending(),
            root_known: self.root_known,
        }
    }

    /// What holds of the parts of a walk between two steps of settling.
    pub open spec fn wf_parts(&self) -> bool {
        &&& self.transaction.wf()
        &&& self.counts@.len() == self.transaction.keys().len()
        &&& self.root is Some ==> self.current is None && self.stack@.len() == 0
            && self.transaction.keys().len() == 0
        &&& self.root is None ==> self.transaction.keys().len() > 0
        &&& self.current is Some ==> self.next_child <= self.current->0.references@.len()
            <= usize::MAX
    }

    /// What holds of a walk between two rows: something is pending unless
    /// the walk has finished.
    pub open spec fn wf(&self) -> bool {
        &&& self.wf_parts()
        &&& self.current is Some ==> self.next_child < self.current->0.references@.len()
        &&& self.root is None && self.current is None ==> self.stack@.len() == 0
    }

    /// A walk that is about to read the row of `root`, and that keeps the
    /// serialized cells in `arena`.
    pub fn new(arena: &'a Bump, root: &'a Cell) -> (walk: Self)
        ensures
            walk.wf(),
            walk@ == StoreState::start(*root),
    {
        let walk = StoreWalk {
            arena,
            transaction: Table::new(),
            counts: Vec::new(),
            stack: Vec::with_capacity(16),
            root: Some(root),
            current: None,
            next_child: 0,
            root_known: false,
            buffer: Vec::new(),
        };
        assert(walk@.entries =~= Seq::<StoreEntry>::empty());
        assert(walk@.stack =~= Seq::<Cell>::empty());
        walk
    }

    /// The cell whose row the walk needs next, or `None` when it has finished.
    pub fn next_cell(&self) -> (cell: Option<&'a Cell>)
        requires
            self.wf(),
        ensures
            cell is Some <==> !self@.finished(),
            cell is Some ==> *cell->0 == self@.pending.first(),
    {
        match self.root {
            Some(root) => Some(root),
            None => match self.current {
                Some(cell) => {
                    let child: &'a Cell = &cell.references[self.next_child];
                    Some(child)
                },
                None => None,
            },
        }
    }

    /// Takes cells off the stack until one has children, which become pending.
    fn settle(&mut self)
        requires
            old(self).wf_parts(),
            old(self).root is None,
        ensures
            final(self).wf(),
            final(self).root is None,
            final(self).transaction == old(self).transaction,
            final(self).counts == old(self).counts,
            final(self).root_known == old(self).root_known,
            (final(self)@.stack, final(self)@.pending) == settle(old(self)@.stack, old(self)@.pending),
    {
        let exhausted = match self.current {
            Some(cell) => self.next_child >= cell.references.len(),
            None => true,
        };
        if !exhausted {
            return ;
        }
        self.current = None;
        self.next_child = 0;
        assert(self.pending() =~= old(self).pending());
        while self.stack.len() > 0
            invariant
                self.wf_parts(),
                self.root is None,
                self.current is None,
                self.transaction == old(self).transaction,
                self.counts == old(self).counts,
                self.root_known == old(self).root_known,
                settle(cells_of(self.stack@), Seq::empty()) == settle(
                    old(self)@.stack,
                    old(self)@.pending,
                ),
            decreases self.stack@.len(),
        {
            let ghost before = cells_of(self.stack@);
            let top = self.stack.pop().unwrap();
            assert(cells_of(self.stack@) =~= before.drop_last());
            assert(*top == before.last());
            if top.references.len() > 0 {
                self.current = Some(top);
                self.next_child = 0;
                assert(self.pending() =~= children(*top));
                assert(settle(before, Seq::empty()) == settle(before.drop_last(), children(*top)));
                assert(settle(before.drop_last(), children(*top)) == (
                    before.drop_last(),
                    children(*top),
                ));
                return ;
            }
            assert(children(*top) =~= Seq::<Cell>::empty());
        }
        assert(cells_of(self.stack@) =~= Seq::<Cell>::empty());
    }

    /// Tells whether the next step keeps a copy of the serialized form of
    /// the first pending cell, and writes that form to the buffer where it
    /// does.
    fn prepare(&mut self) -> (needed: bool)
        requires
            old(self).wf(),
        ensures
            final(self).wf(),
            final(self)@ == old(self)@,
            needed == old(self)@.copies(),
            needed ==> final(self).buffer@ == serialized(old(self)@.pending.first()),
    {
        let cell: &'a Cell = match self.next_cell() {
            Some(cell) => cell,
            None => {
                return false;
            },
        };
        assert(entry_hashes(self@.entries) =~= self.transaction.keys());
        if self.transaction.find(cell.repr_hash.as_slice()).is_some() {
            return false;
        }
        StorageCell::serialize_to(cell, &mut self.buffer).is_ok()
    }

    /// Takes in the row of the cell that [`next_cell`](Self::next_cell)
    /// named: `None` where the store has no such row.
    ///
    /// On an error the walk is left as it was. A step that keeps the
    /// serialized form of a cell copies it into the arena; where the arena
    /// cannot hold it, and only there, the walk fails with
    /// `AllocationFailed`. Every other outcome is that of the step.
    pub fn supply(&mut self, row: Option<&[u8]>) -> (result: Result<(), CellStorageError>)
        requires
            old(self).wf(),
        ensures
            final(self).wf(),
            result == Err::<(), CellStorageError>(CellStorageError::AllocationFailed) ==> {
                &&& final(self)@ == old(self)@
                &&& old(self)@.copies()
            },
            result != Err::<(), CellStorageError>(CellStorageError::AllocationFailed)
                ==> match old(self)@.step(
                match row {
                    Some(bytes) => Some(bytes@),
                    None => None,
                },
            ) {
                Ok(next) => result is Ok && final(self)@ == next,
                Err(e) => result == Err::<(), CellStorageError>(e) && final(self)@ == old(self)@,
            },
    {
        if self.prepare() {
            let copy = arena_copy(self.arena, self.buffer.as_slice());
            self.supply_copied(row, copy)
        } else {
            self.supply_copied(row, None)
        }
    }

    /// Takes in the row of the first pending cell together with the copy of
    /// its serialized form that the arena made, where the step keeps one:
    /// `None` where the arena could not make it.
    ///
    /// Without a copy that the step needs the walk fails with
    /// `AllocationFailed` and is left as it was. In every other case the
    /// outcome is that of the step, and a copy that the step does not need
    /// is not looked at.
    pub fn supply_copied(&mut self, row: Option<&[u8]>, copy: Option<&'a [u8]>) -> (result:
        Result<(), CellStorageError>)
        requires
            old(self).wf(),
            old(self)@.copies() && copy is Some ==> copy->0@ == serialized(
                old(self)@.pending.first(),
            ),
        ensures
            final(self).wf(),
            old(self)@.copies() && copy is None ==> {
                &&& result == Err::<(), CellStorageError>(CellStorageError::AllocationFailed)
                &&& final(self)@ == old(self)@
            },
            !(old(self)@.copies() && copy is None) ==> match old(self)@.step(
                match row {
                    Some(bytes) => Some(bytes@),
                    None => None,
                },
            ) {
                Ok(next) => result is Ok && final(self)@ == next,
                Err(e) => result == Err::<(), CellStorageError>(e) && final(self)@ == old(self)@,
            },
    {
        let ghost row_view: Option<Seq<u8>> = match row {
            Some(bytes) => Some(bytes@),
            None => None,
        };
        let ghost before = self@;
        let at_root = self.root.is_some();
        let cell: &'a Cell = match self.next_cell() {
            Some(cell) => cell,
            None => {
                return Ok(());
            },
        };
        let found = match row {
            Some(bytes) => has_value(bytes),
            None => false,
        };
        assert(entry_hashes(before.entries) =~= self.transaction.keys());
        match self.transaction.find(cell.repr_hash.as_slice()) {
            Some(i) => {
                proof {
                    self.transaction.lemma_found(cell.repr_hash@, i as int);
                }
                let rc = self.counts[i];
                if rc == u32::MAX {
                    return Err(CellStorageError::CounterOverflow);
                }
                self.counts[i] = rc + 1;
                self.next_child = self.next_child + 1;
                assert(self.pending() =~= before.pending.drop_first());
                let ghost entries = self@.entries;
                assert(entries =~= before.entries.update(
                    i as int,
                    StoreEntry {
                        hash: before.entries[i as int].hash,
                        rc: before.entries[i as int].rc + 1,
                        data: before.entries[i as int].data,
                    },
                ));
                self.settle();
                assert(self@.entries =~= entries);
            },
            None => {
                assert(!touched(before.entries, cell.repr_hash@));
                if !StorageCell::can_serialize(cell) {
                    return Err(CellStorageError::InvalidCell);
                }
                let data: &'a [u8] = match copy {
                    Some(data) => data,
                    None => {
                        return Err(CellStorageError::AllocationFailed);
                    },
                };
                self.transaction.insert_new(cell.repr_hash.as_slice(), data);
                self.counts.push(1);
                let ghost entries = self@.entries;
                assert(entries =~= before.entries.push(
                    StoreEntry { hash: cell.repr_hash@, rc: 1, data: serialized(*cell) },
                ));
                if at_root {
                    self.root = None;
                    if found {
                        self.root_known = true;
                        assert(self@.stack =~= Seq::<Cell>::empty());
                        assert(self@.entries =~= entries);
                        return Ok(());
                    }
                } else {
                    self.next_child = self.next_child + 1;
                }
                assert(self.pending() =~= before.pending.drop_first());
                if !found {
                    self.stack.push(cell);
                    assert(self@.stack =~= before.stack.push(*cell));
                } else {
                    assert(self@.stack =~= before.stack);
                }
                self.settle();
                assert(self@.entries =~= entries);
            },
        }
        Ok(())
    }

    /// Ends the walk: adds the merges of its transaction to `batch` and
    /// reports the number of cells that were touched, or none where the store
    /// held the root.
    pub fn finalize(self, batch: &mut WriteBatch) -> (total: usize)
        requires
            self.wf(),
        ensures
            final(batch)@ == old(batch)@ + self@.writes(),
            total == self@.total(),
    {
        let n = self.transaction.keys.len();
        let mut buffer: Vec<u8> = Vec::new();
        let mut i: usize = 0;
        while i < n
            invariant
                self.wf(),
                n == self.transaction.keys@.len(),
                i <= n,
                batch@ == old(batch)@ + self@.writes().take(i as int),
            decreases n - i,
        {
            buffer.clear();
            add_positive_refcount(self.counts[i], self.transaction.values[i], &mut buffer);
            batch.merge_cf(Column::Cells, self.transaction.keys[i].as_slice(), buffer.as_slice());
            i = i + 1;
            assert(self@.writes().take(i as int) =~= self@.writes().take(i - 1).push(
                self@.writes()[i - 1],
            ));
        }
        assert(self@.writes().take(n as int) =~= self@.writes());
        if self.root_known {
            0
        } else {
            n
        }
    }
}

/// One cell of a remove transaction.
pub struct RemoveEntry {
    /// Representation hash of the cell.
    pub hash: Seq<u8>,
    /// The reference count that the store held for the cell.
    pub rc: i64,
    /// Number of references that the transaction takes from the cell.
    pub removes: nat,
    /// The hashes of the children of the cell.
    pub refs: Seq<Seq<u8>>,
}

/// The state of a walk that removes a cell.
pub struct RemoveState {
    /// The cells touched so far, in the order in which they were first met.
    pub entries: Seq<RemoveEntry>,
    /// Hashes of the cells that lose one reference each, the next one last.
    pub stack: Seq<Seq<u8>>,
}

/// The hashes of `entries`, in order.
pub open spec fn removed_hashes(entries: Seq<RemoveEntry>) -> Seq<Seq<u8>> {
    Seq::new(entries.len(), |i: int| entries[i].hash)
}

/// Whether the transaction has touched the cell with this hash.
pub open spec fn removed(entries: Seq<RemoveEntry>, hash: Seq<u8>) -> bool {
    exists|i: int| key_at(removed_hashes(entries), hash, i)
}

/// Number of references that the cells of `entries` can still lose.
pub open spec fn slack(entries: Seq<RemoveEntry>) -> int
    decreases entries.len(),
{
    if entries.len() == 0 {
        0
    } else {
        let last = entries.last();
        slack(entries.drop_last()) + (if last.rc > last.removes {
            last.rc - last.removes
        } else {
            0
        })
    }
}

/// Taking one more reference from a cell that has one to lose uses up slack.
pub proof fn lemma_slack_update(entries: Seq<RemoveEntry>, i: int, entry: RemoveEntry)
    requires
        0 <= i < entries.len(),
        entries[i].removes + 1 <= entries[i].rc,
        entry.rc == entries[i].rc,
        entry.removes == entries[i].removes + 1,
    ensures
        0 <= slack(entries.update(i, entry)) < slack(entries),
    decreases entries.len(),
{
    if i == entries.len() - 1 {
        assert(entries.update(i, entry).drop_last() =~= entries.drop_last());
        lemma_slack_bound(entries.drop_last());
    } else {
        lemma_slack_update(entries.drop_last(), i, entry);
        assert(entries.update(i, entry).drop_last() =~= entries.drop_last().update(i, entry));
    }
}

/// Slack is never negative.
pub proof fn lemma_slack_bound(entries: Seq<RemoveEntry>)
    ensures
        slack(entries) >= 0,
    decreases entries.len(),
{
    if entries.len() > 0 {
        lemma_slack_bound(entries.drop_last());
    }
}

/// Takes one more reference from each touched cell that stands on top of the
/// stack, until the topmost cell is one that has not been touched.
///
/// A cell that loses its last reference hands the loss on to its children.
/// A cell cannot lose more references than the store held for it.
pub open spec fn revisit(entries: Seq<RemoveEntry>, stack: Seq<Seq<u8>>) -> Result<
    RemoveState,
    CellStorageError,
>
    decreases slack(entries),
{
    if stack.len() == 0 || !removed(entries, stack.last()) {
        Ok(RemoveState { entries, stack })
    } else {
        let i = position(removed_hashes(entries), stack.last());
        let entry = entries[i];
        if entry.removes + 1 > entry.rc {
            Err(CellStorageError::CounterMismatch)
        } else if entry.removes >= u32::MAX {
            Err(CellStorageError::CounterOverflow)
        } else {
            let bumped = RemoveEntry {
                hash: entry.hash,
                rc: entry.rc,
                removes: entry.removes + 1,
                refs: entry.refs,
            };
            let rest = stack.drop_last();
            proof {
                lemma_slack_update(entries, i, bumped);
            }
            revisit(
                entries.update(i, bumped),
                if entry.rc > entry.removes + 1 {
                    rest
                } else {
                    rest + entry.refs
                },
            )
        }
    }
}

impl RemoveState {
    /// The state in which the removal of the cell with hash `root` starts.
    pub open spec fn start(root: Seq<u8>) -> RemoveState {
        RemoveState { entries: Seq::empty(), stack: seq![root] }
    }

    /// Whether the walk has read all it needs.
    pub open spec fn finished(self) -> bool {
        self.stack.len() == 0
    }

    /// What holds of a walk between two rows: no hash occurs twice among
    /// the touched cells, and the cell on top of the stack is untouched.
    pub open spec fn wf(self) -> bool {
        &&& crate::table::distinct(removed_hashes(self.entries))
        &&& self.stack.len() > 0 ==> !removed(self.entries, self.stack.last())
    }

    /// The state after the row of the cell on top of the stack was read.
    ///
    /// The cell must be stored with a positive reference count and a valid
    /// body. It enters the transaction with one reference taken; where that
    /// was its last, its children follow on the stack. A walk that has
    /// finished stays as it is.
    pub open spec fn step(self, row: Option<Seq<u8>>) -> Result<RemoveState, CellStorageError> {
        if self.finished() {
            Ok(self)
        } else if row is None || row_payload(row->0) is None {
            Err(CellStorageError::CellNotFound)
        } else if !body_valid(row_payload(row->0)->0) {
            Err(CellStorageError::InvalidCell)
        } else {
            let body = row_payload(row->0)->0;
            let rc = row_refcount(row->0);
            let refs = body_references(body, body_reference_count(body));
            let entries = self.entries.push(
                RemoveEntry { hash: self.stack.last(), rc, removes: 1, refs },
            );
            let rest = self.stack.drop_last();
            revisit(
                entries,
                if rc > 1 {
                    rest
                } else {
                    rest + refs
                },
            )
        }
    }

    /// Whether the step for `row` keeps a copy of the hashes of the
    /// children of the cell: it does for a row that holds a cell.
    pub open spec fn copies(self, row: Option<Seq<u8>>) -> bool {
        &&& !self.finished()
        &&& row is Some
        &&& row_payload(row->0) is Some
        &&& body_valid(row_payload(row->0)->0)
    }

    /// The hashes that the step for `row` keeps: those of the children of
    /// the cell in the row.
    pub open spec fn kept(row: Option<Seq<u8>>) -> Seq<Seq<u8>> {
        body_references(
            row_payload(row->0)->0,
            body_reference_count(row_payload(row->0)->0),
        )
    }

    /// The merges that the transaction hands to the engine: one for each
    /// touched cell, with the references it lost.
    pub open spec fn writes(self) -> Seq<Write> {
        Seq::new(
            self.entries.len(),
            |i: int|
                Write::Merge {
                    column: Column::Cells,
                    key: self.entries[i].hash,
                    value: negative_operand(self.entries[i].removes as u32),
                },
        )
    }
}

/// A step fails only for what it finds in the rows and in its own counts:
/// the arena has no part in it.
pub proof fn lemma_step_errors(state: RemoveState, row: Option<Seq<u8>>)
    ensures
        state.step(row) != Err::<RemoveState, CellStorageError>(
            CellStorageError::AllocationFailed,
        ),
{
    if state.copies(row) {
        let body = row_payload(row->0)->0;
        let rc = row_refcount(row->0);
        let refs = body_references(body, body_reference_count(body));
        let entries = state.entries.push(
            RemoveEntry { hash: state.stack.last(), rc, removes: 1, refs },
        );
        let rest = state.stack.drop_last();
        lemma_revisit_errors(
            entries,
            if rc > 1 {
                rest
            } else {
                rest + refs
            },
        );
    }
}

/// Revisiting fails only where a count is overdrawn or runs over.
pub proof fn lemma_revisit_errors(entries: Seq<RemoveEntry>, stack: Seq<Seq<u8>>)
    ensures
        revisit(entries, stack) is Err ==> revisit(entries, stack)->Err_0
            == CellStorageError::CounterMismatch || revisit(entries, stack)->Err_0
            == CellStorageError::CounterOverflow,
    decreases slack(entries),
{
    if !(stack.len() == 0 || !removed(entries, stack.last())) {
        let i = position(removed_hashes(entries), stack.last());
        let entry = entries[i];
        if !(entry.removes + 1 > entry.rc) && !(entry.removes >= u32::MAX) {
            assert(key_at(removed_hashes(entries), stack.last(), i));
            let bumped = RemoveEntry {
                hash: entry.hash,
                rc: entry.rc,
                removes: entry.removes + 1,
                refs: entry.refs,
            };
            let rest = stack.drop_last();
            lemma_slack_update(entries, i, bumped);
            lemma_revisit_errors(
                entries.update(i, bumped),
                if entry.rc > entry.removes + 1 {
                    rest
                } else {
                    rest + entry.refs
                },
            );
        }
    }
}

/// Revisiting touches no new cell and leaves an untouched cell on top.
pub proof fn lemma_revisit(entries: Seq<RemoveEntry>, stack: Seq<Seq<u8>>)
    requires
        crate::table::distinct(removed_hashes(entries)),
        revisit(entries, stack) is Ok,
    ensures
        revisit(entries, stack)->Ok_0.wf(),
        removed_hashes(revisit(entries, stack)->Ok_0.entries) == removed_hashes(entries),
    decreases slack(entries),
{
    if !(stack.len() == 0 || !removed(entries, stack.last())) {
        let i = position(removed_hashes(entries), stack.last());
        let entry = entries[i];
        let bumped = RemoveEntry {
            hash: entry.hash,
            rc: entry.rc,
            removes: entry.removes + 1,
            refs: entry.refs,
        };
        let rest = stack.drop_last();
        let next = if entry.rc > entry.removes + 1 {
            rest
        } else {
            rest + entry.refs
        };
        assert(key_at(removed_hashes(entries), stack.last(), i));
        lemma_slack_update(entries, i, bumped);
        assert(removed_hashes(entries.update(i, bumped)) =~= removed_hashes(entries));
        lemma_revisit(entries.update(i, bumped), next);
    }
}

/// A step from a state that is well formed leads to one that is, with one
/// more cell touched: the one that stood on top of the stack.
pub proof fn lemma_remove_step(state: RemoveState, row: Option<Seq<u8>>)
    requires
        state.wf(),
        !state.finished(),
        state.step(row) is Ok,
    ensures
        state.step(row)->Ok_0.wf(),
        removed_hashes(state.step(row)->Ok_0.entries) == removed_hashes(state.entries).push(
            state.stack.last(),
        ),
        row is Some,
{
    let body = row_payload(row->0)->0;
    let rc = row_refcount(row->0);
    let refs = body_references(body, body_reference_count(body));
    let entry = RemoveEntry { hash: state.stack.last(), rc, removes: 1, refs };
    let entries = state.entries.push(entry);
    let rest = state.stack.drop_last();
    let next = if rc > 1 {
        rest
    } else {
        rest + refs
    };
    assert(removed_hashes(entries) =~= removed_hashes(state.entries).push(state.stack.last()));
    assert forall|i: int, j: int| 0 <= i < j < entries.len() implies removed_hashes(entries)[i]
        != removed_hashes(entries)[j] by {
        if j == entries.len() - 1 {
            if removed_hashes(entries)[i] == removed_hashes(entries)[j] {
                assert(key_at(removed_hashes(state.entries), state.stack.last(), i));
            }
        } else {
            assert(removed_hashes(state.entries)[i] != removed_hashes(state.entries)[j]);
        }
    }
    lemma_revisit(entries, next);
}

/// Whether the cells touched so far are rows of `rows`, each touched once.
pub open spec fn remove_within(rows: Map<Seq<u8>, Seq<u8>>, state: RemoveState) -> bool {
    &&& rows.dom().finite()
    &&& state.wf()
    &&& forall|i: int|
        0 <= i < state.entries.len() ==> rows.contains_key(
            #[trigger] removed_hashes(state.entries)[i],
        )
}

/// No more cells are touched than there are rows.
pub proof fn lemma_remove_bound(rows: Map<Seq<u8>, Seq<u8>>, state: RemoveState)
    requires
        remove_within(rows, state),
    ensures
        state.entries.len() <= rows.dom().len(),
{
    let hashes = removed_hashes(state.entries);
    assert(hashes.no_duplicates());
    hashes.unique_seq_to_set();
    assert(hashes.to_set().subset_of(rows.dom())) by {
        assert forall|h: Seq<u8>| hashes.to_set().contains(h) implies rows.dom().contains(h) by {
            let i = choose|i: int| 0 <= i < hashes.len() && hashes[i] == h;
            assert(rows.contains_key(removed_hashes(state.entries)[i]));
        }
    }
    vstd::set_lib::lemma_len_subset(hashes.to_set(), rows.dom());
}

/// A step within `rows` leads to a state within `rows`.
pub proof fn lemma_remove_step_within(rows: Map<Seq<u8>, Seq<u8>>, state: RemoveState)
    requires
        remove_within(rows, state),
        !state.finished(),
        state.step(rows.get(state.stack.last())) is Ok,
    ensures
        remove_within(rows, state.step(rows.get(state.stack.last()))->Ok_0),
        state.step(rows.get(state.stack.last()))->Ok_0.entries.len() == state.entries.len() + 1,
{
    let row = rows.get(state.stack.last());
    let next = state.step(row)->Ok_0;
    lemma_remove_step(state, row);
    assert(removed_hashes(next.entries).len() == removed_hashes(state.entries).len() + 1);
    assert forall|i: int| 0 <= i < next.entries.len() implies rows.contains_key(
        #[trigger] removed_hashes(next.entries)[i],
    ) by {
        if i < state.entries.len() {
            assert(removed_hashes(next.entries)[i] == removed_hashes(state.entries)[i]);
        }
    }
}

/// The state in which a walk ends that reads its rows from `rows`.
pub open spec fn remove_walk(rows: Map<Seq<u8>, Seq<u8>>, state: RemoveState) -> Result<
    RemoveState,
    CellStorageError,
>
    decreases rows.dom().len() - state.entries.len(),
    when remove_within(rows, state)
{
    if state.finished() {
        Ok(state)
    } else {
        match state.step(rows.get(state.stack.last())) {
            Err(e) => Err(e),
            Ok(next) => {
                proof {
                    lemma_remove_step_within(rows, state);
                    lemma_remove_bound(rows, next);
                }
                remove_walk(rows, next)
            },
        }
    }
}

/// The hashes in `refs` as plain byte sequences.
pub open spec fn hashes_of(refs: Seq<[u8; 32]>) -> Seq<Seq<u8>> {
    Seq::new(refs.len(), |i: int| refs[i]@)
}

/// A walk that removes a cell.
///
/// The walk names the hash whose row it needs next; the caller reads that
/// row and supplies it, until no hash is pending. Then the walk is turned
/// into the merges of its transaction.
pub struct RemoveWalk<'a> {
    /// Where the hashes of the children of the touched cells are kept.
    pub arena: &'a Bump,
    /// The hashes of the children of each touched cell, by hash.
    pub transaction: Table<&'a [[u8; 32]]>,
    /// The stored reference count of each touched cell, at the cell's position.
    pub counts: Vec<i64>,
    /// References taken from each touched cell, at the cell's position.
    pub removes: Vec<u32>,
    /// Hashes of the cells that lose one reference each, the next one last.
    pub stack: Vec<[u8; 32]>,
    /// Where the hashes of a row are read before they are copied into the arena.
    pub buffer: Vec<[u8; 32]>,
}

/// Puts `refs` on `stack`, the last of them on top.
fn push_hashes(stack: &mut Vec<[u8; 32]>, refs: &[[u8; 32]])
    ensures
        hashes_of(final(stack)@) == hashes_of(old(stack)@) + hashes_of(refs@),
{
    let mut i: usize = 0;
    while i < refs.len()
        invariant
            i <= refs@.len(),
            hashes_of(stack@) == hashes_of(old(stack)@) + hashes_of(refs@.take(i as int)),
        decreases refs@.len() - i,
    {
        let ghost prev = stack@;
        stack.push(refs[i]);
        i = i + 1;
        assert(hashes_of(refs@.take(i as int)) =~= hashes_of(refs@.take(i - 1)).push(
            refs@[i - 1]@,
        ));
        assert(hashes_of(stack@) =~= hashes_of(prev).push(refs@[i - 1]@));
        assert(hashes_of(stack@) =~= hashes_of(old(stack)@) + hashes_of(refs@.take(i as int)));
    }
    assert(refs@.take(refs@.len() as int) =~= refs@);
}

impl<'a> RemoveWalk<'a> {
    /// The walk as a plain state.
    pub open spec fn view(&self) -> RemoveState {
        RemoveState {
            entries: Seq::new(
                self.transaction.keys().len(),
                |i: int|
                    RemoveEntry {
                        hash: self.transaction.keys()[i],
                        rc: self.counts@[i],
                        removes: self.removes@[i] as nat,
                        refs: hashes_of(self.transaction.values@[i]@),
                    },
            ),
            stack: hashes_of(self.stack@),
        }
    }

    /// What holds of the parts of a walk while it revisits cells.
    pub open spec fn wf_parts(&self) -> bool {
        &&& self.transaction.wf()
        &&& self.counts@.len() == self.transaction.keys().len()
        &&& self.removes@.len() == self.transaction.keys().len()
    }

    /// What holds of a walk between two rows.
    pub open spec fn wf(&self) -> bool {
        self.wf_parts() && self@.wf()
    }

    /// A walk that is about to read the row stored under `hash`, and that
    /// keeps the hashes it reads in `arena`.
    pub fn new(arena: &'a Bump, hash: &[u8; 32]) -> (walk: Self)
        ensures
            walk.wf(),
            walk@ == RemoveState::start(hash@),
    {
        let mut stack: Vec<[u8; 32]> = Vec::with_capacity(16);
        stack.push(*hash);
        let walk = RemoveWalk {
            arena,
            transaction: Table::new(),
            counts: Vec::new(),
            removes: Vec::new(),
            stack,
            buffer: Vec::new(),
        };
        assert(walk@.entries =~= Seq::<RemoveEntry>::empty());
        assert(walk@.stack =~= seq![hash@]);
        assert(removed_hashes(walk@.entries) =~= Seq::<Seq<u8>>::empty());
        walk
    }

    /// The hash whose row the walk needs next, or `None` when it has finished.
    pub fn next_key(&self) -> (key: Option<&[u8; 32]>)
        ensures
            key is Some <==> !self@.finished(),
            key is Some ==> key->0@ == self@.stack.last(),
    {
        let n = self.stack.len();
        if n == 0 {
            None
        } else {
            Some(&self.stack[n - 1])
        }
    }

    /// Tells whether the step for `row` keeps a copy of the hashes of the
    /// children of the cell in the row, and reads those hashes into the
    /// buffer where it does.
    fn prepare(&mut self, row: Option<&[u8]>) -> (needed: bool)
        requires
            old(self).wf(),
        ensures
            final(self).wf(),
            final(self)@ == old(self)@,
            needed == old(self)@.copies(
                match row {
                    Some(bytes) => Some(bytes@),
                    None => None,
                },
            ),
            needed ==> hashes_of(final(self).buffer@) == RemoveState::kept(
                match row {
                    Some(bytes) => Some(bytes@),
                    None => None,
                },
            ),
    {
        if self.stack.len() == 0 {
            return false;
        }
        let body = match row {
            Some(bytes) => match decode_value_with_rc(bytes).1 {
                Some(body) => body,
                None => {
                    return false;
                },
            },
            None => {
                return false;
            },
        };
        self.buffer.clear();
        let complete = StorageCell::deserialize_references(body, &mut self.buffer);
        if complete {
            assert(hashes_of(self.buffer@) =~= body_references(
                body@,
                body_reference_count(body@),
            ));
        }
        complete
    }

    /// Takes in the row of the hash that [`next_key`](Self::next_key) named:
    /// `None` where the store has no such row.
    ///
    /// A step for a row that holds a cell copies the hashes of the children
    /// of the cell into the arena; where the arena cannot hold them, and
    /// only there, the walk fails with `AllocationFailed` and is left as it
    /// was. Every other outcome is that of the step. After any other error
    /// the walk is of no further use.
    pub fn supply(&mut self, row: Option<&[u8]>) -> (result: Result<(), CellStorageError>)
        requires
            old(self).wf(),
        ensures
            result is Ok ==> final(self).wf(),
            result == Err::<(), CellStorageError>(CellStorageError::AllocationFailed) ==> {
                &&& final(self).wf()
                &&& final(self)@ == old(self)@
                &&& old(self)@.copies(
                    match row {
                        Some(bytes) => Some(bytes@),
                        None => None,
                    },
                )
            },
            result != Err::<(), CellStorageError>(CellStorageError::AllocationFailed)
                ==> match old(self)@.step(
                match row {
                    Some(bytes) => Some(bytes@),
                    None => None,
                },
            ) {
                Ok(next) => result is Ok && final(self)@ == next,
                Err(e) => result == Err::<(), CellStorageError>(e),
            },
    {
        proof {
            lemma_step_errors(
                self@,
                match row {
                    Some(bytes) => Some(bytes@),
                    None => None,
                },
            );
        }
        if self.prepare(row) {
            let copy = arena_copy(self.arena, self.buffer.as_slice());
            self.supply_copied(row, copy)
        } else {
            self.supply_copied(row, None)
        }
    }

    /// Takes in the row of the hash on top of the stack together with the
    /// copy of the hashes of the children of its cell that the arena made,
    /// where the step keeps one: `None` where the arena could not make it.
    ///
    /// Without a copy that the step needs the walk fails with
    /// `AllocationFailed` and is left as it was. In every other case the
    /// outcome is that of the step, and a copy that the step does not need
    /// is not looked at.
    pub fn supply_copied(&mut self, row: Option<&[u8]>, copy: Option<&'a [[u8; 32]]>) -> (result:
        Result<(), CellStorageError>)
        requires
            old(self).wf(),
            old(self)@.copies(
                match row {
                    Some(bytes) => Some(bytes@),
                    None => None,
                },
            ) && copy is Some ==> hashes_of(copy->0@) == RemoveState::kept(
                match row {
                    Some(bytes) => Some(bytes@),
                    None => None,
                },
            ),
        ensures
            result is Ok ==> final(self).wf(),
            old(self)@.copies(
                match row {
                    Some(bytes) => Some(bytes@),
                    None => None,
                },
            ) && copy is None ==> {
                &&& result == Err::<(), CellStorageError>(CellStorageError::AllocationFailed)
                &&& final(self).wf()
                &&& final(self)@ == old(self)@
            },
            !(old(self)@.copies(
                match row {
                    Some(bytes) => Some(bytes@),
                    None => None,
                },
            ) && copy is None) ==> match old(self)@.step(
                match row {
                    Some(bytes) => Some(bytes@),
                    None => None,
                },
            ) {
                Ok(next) => result is Ok && final(self)@ == next,
                Err(e) => result == Err::<(), CellStorageError>(e),
            },
    {
        let ghost row_view: Option<Seq<u8>> = match row {
            Some(bytes) => Some(bytes@),
            None => None,
        };
        let ghost before = self@;
        if self.stack.len() == 0 {
            return Ok(());
        }
        let (rc, payload) = match row {
            Some(bytes) => decode_value_with_rc(bytes),
            None => {
                return Err(CellStorageError::CellNotFound);
            },
        };
        let body = match payload {
            Some(body) => body,
            None => {
                return Err(CellStorageError::CellNotFound);
            },
        };
        if !StorageCell::holds_cell(body) {
            return Err(CellStorageError::InvalidCell);
        }
        let ghost refs_view = body_references(body@, body_reference_count(body@));
        let refs: &'a [[u8; 32]] = match copy {
            Some(refs) => refs,
            None => {
                return Err(CellStorageError::AllocationFailed);
            },
        };
        assert(hashes_of(refs@) == refs_view);
        let hash = self.stack.pop().unwrap();
        assert(hash@ == before.stack.last());
        assert(hashes_of(self.stack@) =~= before.stack.drop_last());
        assert(removed_hashes(before.entries) =~= self.transaction.keys());
        assert(!self.transaction@.contains_key(hash@));
        self.transaction.insert_new(hash.as_slice(), refs);
        self.counts.push(rc);
        self.removes.push(1);
        if rc <= 1 {
            push_hashes(&mut self.stack, refs);
        }
        let ghost first_entries = before.entries.push(
            RemoveEntry { hash: before.stack.last(), rc, removes: 1, refs: refs_view },
        );
        let ghost first_stack = if rc > 1 {
            before.stack.drop_last()
        } else {
            before.stack.drop_last() + refs_view
        };
        assert(self@.entries =~= first_entries);
        assert(self@.stack =~= first_stack);
        proof {
            if before.step(row_view) is Ok {
                lemma_remove_step(before, row_view);
            }
            assert(removed_hashes(first_entries) =~= removed_hashes(before.entries).push(
                before.stack.last(),
            ));
            assert(removed_hashes(self@.entries) =~= self.transaction.keys());
        }
        loop
            invariant
                self.wf_parts(),
                copy is Some,
                revisit(self@.entries, self@.stack) == revisit(first_entries, first_stack),
                old(self)@.step(
                    match row {
                        Some(bytes) => Some(bytes@),
                        None => None,
                    },
                ) == revisit(first_entries, first_stack),
            ensures
                self.wf(),
                revisit(first_entries, first_stack) == Ok::<RemoveState, CellStorageError>(self@),
            decreases slack(self@.entries),
        {
            let ghost entries = self@.entries;
            let ghost stack = self@.stack;
            assert(removed_hashes(entries) =~= self.transaction.keys());
            let n = self.stack.len();
            if n == 0 {
                break ;
            }
            let found = self.transaction.find(self.stack[n - 1].as_slice());
            let i = match found {
                Some(i) => i,
                None => {
                    assert(!removed(entries, stack.last()));
                    break ;
                },
            };
            proof {
                self.transaction.lemma_found(stack.last(), i as int);
            }
            let removes = self.removes[i];
            let rc = self.counts[i];
            if rc <= removes as i64 {
                return Err(CellStorageError::CounterMismatch);
            }
            if removes == u32::MAX {
                return Err(CellStorageError::CounterOverflow);
            }
            self.removes[i] = removes + 1;
            let _ = self.stack.pop();
            let ghost rest = hashes_of(self.stack@);
            assert(rest =~= stack.drop_last());
            if rc <= removes as i64 + 1 {
                let refs = self.transaction.values[i];
                push_hashes(&mut self.stack, refs);
            }
            proof {
                let bumped = RemoveEntry {
                    hash: entries[i as int].hash,
                    rc: entries[i as int].rc,
                    removes: entries[i as int].removes + 1,
                    refs: entries[i as int].refs,
                };
                assert(self@.entries =~= entries.update(i as int, bumped));
                lemma_slack_update(entries, i as int, bumped);
            }
        }
        Ok(())
    }

    /// Ends the walk: adds the merges of its transaction to `batch` and
    /// reports the number of cells that were touched.
    pub fn finalize(self, batch: &mut WriteBatch) -> (total: usize)
        requires
            self.wf(),
        ensures
            final(batch)@ == old(batch)@ + self@.writes(),
            total == self@.entries.len(),
    {
        let n = self.transaction.keys.len();
        let mut i: usize = 0;
        while i < n
            invariant
                self.wf(),
                n == self.transaction.keys@.len(),
                i <= n,
                batch@ == old(batch)@ + self@.writes().take(i as int),
            decreases n - i,
        {
            let operand = encode_negative_refcount(self.removes[i]);
            batch.merge_cf(Column::Cells, self.transaction.keys[i].as_slice(), operand.as_slice());
            i = i + 1;
            assert(self@.writes().take(i as int) =~= self@.writes().take(i - 1).push(
                self@.writes()[i - 1],
            ));
        }
        assert(self@.writes().take(n as int) =~= self@.writes());
        n
    }
}

/// `bumpalo::Bump::new` gives a fresh arena. Nothing is said of it: an
/// arena is only handed on.
pub assume_specification[ bumpalo::Bump::<1>::new ]() -> (arena: bumpalo::Bump<1>);

/// Another handle to the cell behind `cell`, made with `Arc::clone`.
#[verifier::external_body]
fn share(cell: &Arc<StorageCell>) -> (shared: Arc<StorageCell>)
    ensures
        shared == *cell,
{
    Arc::clone(cell)
}

/// What the cell column holds after `writes` were applied to `rows`, one
/// after the other. Writes to other columns leave it as it is.
pub open spec fn apply_writes(rows: Map<Seq<u8>, Seq<u8>>, writes: Seq<Write>) -> Map<
    Seq<u8>,
    Seq<u8>,
>
    decreases writes.len(),
{
    if writes.len() == 0 {
        rows
    } else {
        apply_write(apply_writes(rows, writes.drop_last()), writes.last())
    }
}

/// What the cell column holds after one write was applied to `rows`.
pub open spec fn apply_write(rows: Map<Seq<u8>, Seq<u8>>, write: Write) -> Map<Seq<u8>, Seq<u8>> {
    match write {
        Write::Put { column: Column::Cells, key, value } => rows.insert(key, value),
        Write::Merge { column: Column::Cells, key, value } => rows.insert(
            key,
            merged_row(rows.get(key), value),
        ),
        Write::Delete { column: Column::Cells, key } => rows.remove(key),
        _ => rows,
    }
}

/// A cell store over a cell column that is held in memory.
pub struct CellStorage {
    /// The rows of the cell column, by hash.
    pub db: Table<Vec<u8>>,
    /// The cells that were loaded and not dropped since, by hash.
    pub cells_cache: Table<Arc<StorageCell>>,
}

impl CellStorage {
    /// The rows of the cell column.
    pub open spec fn rows(&self) -> Map<Seq<u8>, Seq<u8>> {
        rows_of(self.db)
    }

    /// The cells that the cache holds.
    pub open spec fn cached(&self) -> Map<Seq<u8>, StorageCell> {
        Map::new(
            |key: Seq<u8>| self.cells_cache@.contains_key(key),
            |key: Seq<u8>| *self.cells_cache@[key],
        )
    }

    /// Both tables are well formed, and each cached cell is kept under its
    /// own hash.
    pub open spec fn wf(&self) -> bool {
        &&& self.db.wf()
        &&& self.cells_cache.wf()
        &&& forall|key: Seq<u8>| #[trigger]
            self.cells_cache@.contains_key(key) ==> self.cells_cache@[key].repr_hash@ == key
    }

    /// A store without rows and with an empty cache.
    pub fn new() -> (storage: Self)
        ensures
            storage.wf(),
            storage.rows() == Map::<Seq<u8>, Seq<u8>>::empty(),
            storage.cached() == Map::<Seq<u8>, StorageCell>::empty(),
    {
        let storage = CellStorage { db: Table::new(), cells_cache: Table::new() };
        assert(storage.rows() =~= Map::<Seq<u8>, Seq<u8>>::empty());
        assert(storage.cached() =~= Map::<Seq<u8>, StorageCell>::empty());
        storage
    }

    /// The row stored under `key`.
    pub fn row(&self, key: &[u8]) -> (row: Option<&[u8]>)
        requires
            self.wf(),
        ensures
            self.rows().get(key@) == (match row {
                Some(bytes) => Some(bytes@),
                None => None,
            }),
    {
        row_get(&self.db, key)
    }

    /// Adds to `batch` the merges that store the tree of `root`, and reports
    /// the number of cells they touch: none where the store holds the root
    /// already, which then gains one reference.
    ///
    /// The outcome is that of the walk from `root` over the rows of the
    /// store, unless the arena of the walk gives out, which it can only
    /// once the root was found to have a serialized form: a root without
    /// one is refused as an invalid cell. On an error nothing is added to
    /// `batch`. A tree whose cells all have a serialized form, and that
    /// holds fewer than two thousand million cells, is stored unless the
    /// arena gives out. Where the store holds the root, and the arena does
    /// not give out, the one merge that is added hands the root one
    /// reference.
    pub fn store_cell(&self, batch: &mut WriteBatch, root: &Cell) -> (result: Result<
        usize,
        CellStorageError,
    >)
        requires
            self.wf(),
        ensures
            result is Err ==> final(batch)@ == old(batch)@,
            result != Err::<usize, CellStorageError>(CellStorageError::AllocationFailed)
                ==> match store_walk(self.rows(), StoreState::start(*root)) {
                Ok(end) => result == Ok::<usize, CellStorageError>(end.total() as usize)
                    && final(batch)@ == old(batch)@ + end.writes(),
                Err(e) => result == Err::<usize, CellStorageError>(e),
            },
            crate::cell_laws::sound(*root) && 2 * tree_size(*root) <= u32::MAX ==> result is Ok
                || result == Err::<usize, CellStorageError>(CellStorageError::AllocationFailed),
            !serializable(root.data@.len(), root.references@.len()) ==> result == Err::<
                usize,
                CellStorageError,
            >(CellStorageError::InvalidCell),
            result == Err::<usize, CellStorageError>(CellStorageError::AllocationFailed)
                ==> serializable(root.data@.len(), root.references@.len()),
            row_found(self.rows().get(root.repr_hash@)) && serializable(
                root.data@.len(),
                root.references@.len(),
            ) ==> result == Err::<usize, CellStorageError>(CellStorageError::AllocationFailed) || (
            result == Ok::<usize, CellStorageError>(0) && final(batch)@ == old(batch)@.push(
                (Write::Merge {
                    column: Column::Cells,
                    key: root.repr_hash@,
                    value: positive_operand(1, serialized(*root)),
                }),
            )),
    {
        proof {
            if crate::cell_laws::sound(*root) && 2 * tree_size(*root) <= u32::MAX {
                crate::cell_laws::lemma_store_succeeds(self.rows(), *root);
            }
            crate::cell_laws::lemma_store_refused(self.rows(), *root);
            if row_found(self.rows().get(root.repr_hash@)) && serializable(
                root.data@.len(),
                root.references@.len(),
            ) {
                crate::cell_laws::lemma_store_known_root(self.rows(), *root);
            }
        }
        let arena = Bump::new();
        let mut walk = StoreWalk::new(&arena, root);
        loop
            invariant
                self.wf(),
                walk.wf(),
                batch@ == old(batch)@,
                store_walk(self.rows(), walk@) == store_walk(
                    self.rows(),
                    StoreState::start(*root),
                ),
                crate::cell_laws::sound(*root) && 2 * tree_size(*root) <= u32::MAX ==> store_walk(
                    self.rows(),
                    StoreState::start(*root),
                ) is Ok,
                !serializable(root.data@.len(), root.references@.len()) ==> store_walk(
                    self.rows(),
                    StoreState::start(*root),
                ) == Err::<StoreState, CellStorageError>(CellStorageError::InvalidCell),
                walk@ == StoreState::start(*root) || serializable(
                    root.data@.len(),
                    root.references@.len(),
                ),
                row_found(self.rows().get(root.repr_hash@)) && serializable(
                    root.data@.len(),
                    root.references@.len(),
                ) ==> store_walk(self.rows(), StoreState::start(*root)) is Ok,
            ensures
                walk.wf(),
                walk@.finished(),
                store_walk(self.rows(), StoreState::start(*root)) == Ok::<
                    StoreState,
                    CellStorageError,
                >(walk@),
            decreases walk@.measure(),
        {
            let cell = match walk.next_cell() {
                Some(cell) => cell,
                None => {
                    break ;
                },
            };
            let row = self.row(cell.repr_hash.as_slice());
            let ghost before = walk@;
            let ghost row_view = self.rows().get(cell.repr_hash@);
            match walk.supply(row) {
                Ok(()) => {
                    proof {
                        lemma_step_measure(before, row_view);
                    }
                },
                Err(e) => {
                    return Err(e);
                },
            }
        }
        proof {
            if row_found(self.rows().get(root.repr_hash@)) && serializable(
                root.data@.len(),
                root.references@.len(),
            ) {
                crate::cell_laws::lemma_store_known_root(self.rows(), *root);
                assert(old(batch)@ + walk@.writes() =~= old(batch)@.push(walk@.writes()[0]));
            }
        }
        Ok(walk.finalize(batch))
    }

    /// Adds to `batch` the merges that take one reference from the cell
    /// stored under `hash`, and from the cells below it as far as their
    /// parents are removed with it. Reports the number of cells touched.
    ///
    /// The outcome is that of the walk from `hash` over the rows of the
    /// store, unless `alloc` gives out, which it can only once the row
    /// under `hash` was found to hold a cell: without a row under `hash`
    /// that holds references the call fails with `CellNotFound`, and with a
    /// row that does not hold a cell it fails with `InvalidCell`. On an
    /// error nothing is added to `batch`.
    pub fn remove_cell(&self, batch: &mut WriteBatch, alloc: &Bump, hash: &[u8; 32]) -> (result:
        Result<usize, CellStorageError>)
        requires
            self.wf(),
        ensures
            result is Err ==> final(batch)@ == old(batch)@,
            result != Err::<usize, CellStorageError>(CellStorageError::AllocationFailed)
                ==> match remove_walk(self.rows(), RemoveState::start(hash@)) {
                Ok(end) => result == Ok::<usize, CellStorageError>(end.entries.len() as usize)
                    && final(batch)@ == old(batch)@ + end.writes(),
                Err(e) => result == Err::<usize, CellStorageError>(e),
            },
            ({
                let row = self.rows().get(hash@);
                &&& row is None || row_payload(row->0) is None ==> result == Err::<
                    usize,
                    CellStorageError,
                >(CellStorageError::CellNotFound)
                &&& row is Some && row_payload(row->0) is Some && !body_valid(
                    row_payload(row->0)->0,
                ) ==> result == Err::<usize, CellStorageError>(CellStorageError::InvalidCell)
                &&& result == Err::<usize, CellStorageError>(CellStorageError::AllocationFailed)
                    ==> RemoveState::start(hash@).copies(row)
            }),
    {
        let mut walk = RemoveWalk::new(alloc, hash);
        let rows_len = self.db.len();
        let ghost start = RemoveState::start(hash@);
        let ghost root_row = self.rows().get(hash@);
        proof {
            self.db.lemma_dom();
            assert(self.rows().dom() =~= self.db@.dom());
            assert(removed_hashes(walk@.entries) =~= Seq::<Seq<u8>>::empty());
            assert(start.stack.last() == hash@);
            assert(remove_within(self.rows(), start));
            if !start.copies(root_row) {
                assert(start.step(root_row) is Err);
                assert(remove_walk(self.rows(), start) == start.step(root_row));
            }
        }
        loop
            invariant
                self.wf(),
                walk.wf(),
                batch@ == old(batch)@,
                rows_len == self.rows().dom().len(),
                remove_within(self.rows(), walk@),
                remove_walk(self.rows(), walk@) == remove_walk(
                    self.rows(),
                    RemoveState::start(hash@),
                ),
                start == RemoveState::start(hash@),
                root_row == self.rows().get(hash@),
                !start.copies(root_row) ==> remove_walk(self.rows(), start) == start.step(
                    root_row,
                ) && start.step(root_row) is Err,
                walk@ == start || start.copies(root_row),
            ensures
                walk.wf(),
                remove_walk(self.rows(), RemoveState::start(hash@)) == Ok::<
                    RemoveState,
                    CellStorageError,
                >(walk@),
            decreases rows_len - walk@.entries.len(),
        {
            let ghost before = walk@;
            proof {
                lemma_remove_bound(self.rows(), before);
            }
            let row = match walk.next_key() {
                Some(key) => self.row(key.as_slice()),
                None => {
                    break ;
                },
            };
            match walk.supply(row) {
                Ok(()) => {
                    proof {
                        lemma_remove_step_within(self.rows(), before);
                        lemma_remove_bound(self.rows(), walk@);
                    }
                },
                Err(e) => {
                    return Err(e);
                },
            }
        }
        Ok(walk.finalize(batch))
    }

    /// The cell stored under `hash`: the one in the cache where there is
    /// one, else the one in the row, which enters the cache.
    ///
    /// Fails with `CellNotFound` where the store has no row under `hash`
    /// with a positive reference count, and with `InvalidCell` where the
    /// row does not hold a cell.
    pub fn load_cell(&mut self, hash: &[u8; 32]) -> (result: Result<
        Arc<StorageCell>,
        CellStorageError,
    >)
        requires
            old(self).wf(),
        ensures
            final(self).wf(),
            final(self).rows() == old(self).rows(),
            old(self).cached().contains_key(hash@) ==> final(self).cached() == old(self).cached()
                && result == Ok::<Arc<StorageCell>, CellStorageError>(
                old(self).cells_cache@[hash@],
            ),
            !old(self).cached().contains_key(hash@) ==> {
                let row = old(self).rows().get(hash@);
                if row is None || row_body(row->0) is None {
                    &&& result == Err::<Arc<StorageCell>, CellStorageError>(
                        CellStorageError::CellNotFound,
                    )
                    &&& final(self).cached() == old(self).cached()
                } else if !body_valid(row_body(row->0)->0) {
                    &&& result == Err::<Arc<StorageCell>, CellStorageError>(
                        CellStorageError::InvalidCell,
                    )
                    &&& final(self).cached() == old(self).cached()
                } else {
                    let body = row_body(row->0)->0;
                    &&& result is Ok
                    &&& final(self).cached() == old(self).cached().insert(hash@, *result->Ok_0)
                    &&& result->Ok_0.repr_hash == *hash
                    &&& result->Ok_0.data@ == body_data(body)
                    &&& result->Ok_0.reference_hashes() == body_references(
                        body,
                        body_reference_count(body),
                    )
                    &&& (result->Ok_0.tree_bits_count, result->Ok_0.tree_cell_count)
                        == body_counts(body)
                }
            },
    {
        if let Some(cell) = self.cells_cache.get(hash.as_slice()) {
            return Ok(share(cell));
        }
        let loaded = match self.row(hash.as_slice()) {
            Some(row) => match strip_refcount(row) {
                Some(body) => match StorageCell::deserialize(*hash, body) {
                    Ok(cell) => Arc::new(cell),
                    Err(_) => {
                        return Err(CellStorageError::InvalidCell);
                    },
                },
                None => {
                    return Err(CellStorageError::CellNotFound);
                },
            },
            None => {
                return Err(CellStorageError::CellNotFound);
            },
        };
        let result = share(&loaded);
        self.cells_cache.insert_new(hash.as_slice(), loaded);
        assert(self.cached() =~= old(self).cached().insert(hash@, *result));
        Ok(result)
    }

    /// Takes the cell stored under `hash` out of the cache.
    pub fn drop_cell(&mut self, hash: &[u8; 32])
        requires
            old(self).wf(),
        ensures
            final(self).wf(),
            final(self).rows() == old(self).rows(),
            final(self).cached() == old(self).cached().remove(hash@),
    {
        if let Some(i) = self.cells_cache.find(hash.as_slice()) {
            self.cells_cache.remove_at(i);
        }
        assert(self.cached() =~= old(self).cached().remove(hash@));
    }

    /// Applies the writes of `batch` to the cell column, as the engine does:
    /// a merge adds the counts of row and operand.
    pub fn write(&mut self, batch: &WriteBatch)
        requires
            old(self).wf(),
        ensures
            final(self).wf(),
            final(self).cached() == old(self).cached(),
            final(self).rows() == apply_writes(old(self).rows(), batch@),
    {
        let mut i: usize = 0;
        assert(batch@.take(0) =~= Seq::<Write>::empty());
        while i < batch.ops.len()
            invariant
                self.wf(),
                self.cells_cache == old(self).cells_cache,
                i <= batch.ops@.len(),
                self.rows() == apply_writes(old(self).rows(), batch@.take(i as int)),
            decreases batch.ops@.len() - i,
        {
            let ghost rows = self.rows();
            match &batch.ops[i] {
                BatchOp::Put { column: Column::Cells, key, value } => {
                    let mut row: Vec<u8> = Vec::new();
                    crate::bytes::push_bytes(&mut row, value.as_slice());
                    row_put(&mut self.db, key.as_slice(), row);
                },
                BatchOp::Merge { column: Column::Cells, key, value } => {
                    let row = merge(self.row(key.as_slice()), value.as_slice());
                    row_put(&mut self.db, key.as_slice(), row);
                },
                BatchOp::Delete { column: Column::Cells, key } => {
                    row_delete(&mut self.db, key.as_slice());
                },
                _ => {},
            }
            assert(self.rows() == apply_write(rows, batch@[i as int]));
            i = i + 1;
            assert(batch@.take(i as int).drop_last() =~= batch@.take(i - 1));
        }
        assert(batch@.take(batch@.len() as int) =~= batch@);
    }
}

/// Whether `rows` hold the cell with this hash.
pub open spec fn live(rows: Map<Seq<u8>, Seq<u8>>, hash: Seq<u8>) -> bool {
    rows.contains_key(hash) && row_has_value(rows[hash])
}

impl CellStorage {
    /// Drops the rows that hold no cell any more, as the engine does when
    /// it compacts the cell column. The rows that hold a cell stay as they
    /// are.
    pub fn compact(&mut self)
        requires
            old(self).wf(),
        ensures
            final(self).wf(),
            final(self).cached() == old(self).cached(),
            forall|key: Seq<u8>| #[trigger]
                final(self).rows().contains_key(key) <==> live(old(self).rows(), key),
            forall|key: Seq<u8>| #[trigger]
                final(self).rows().contains_key(key) ==> final(self).rows()[key] == old(
                    self,
                ).rows()[key],
    {
        let mut i: usize = self.db.keys.len();
        while i > 0
            invariant
                self.wf(),
                self.cells_cache == old(self).cells_cache,
                i <= self.db.keys().len(),
                forall|j: int|
                    i <= j < self.db.keys().len() ==> row_has_value(#[trigger] self.db.values@[j]@),
                forall|key: Seq<u8>| #[trigger]
                    self.rows().contains_key(key) ==> old(self).rows().contains_key(key)
                        && self.rows()[key] == old(self).rows()[key],
                forall|key: Seq<u8>| #[trigger]
                    live(old(self).rows(), key) ==> self.rows().contains_key(key),
            decreases i,
        {
            i = i - 1;
            let ghost before = *self;
            let ghost key = self.db.keys()[i as int];
            proof {
                self.db.lemma_found(key, i as int);
            }
            if !has_value(self.db.values[i].as_slice()) {
                self.db.remove_at(i);
                proof {
                    assert(self.rows() =~= before.rows().remove(key));
                    assert forall|j: int| i <= j < self.db.keys().len() implies row_has_value(
                        #[trigger] self.db.values@[j]@,
                    ) by {
                        if j == i {
                            assert(self.db.values@[j] == before.db.values@[before.db.values@.len()
                                - 1]);
                        } else {
                            assert(self.db.values@[j] == before.db.values@[j]);
                        }
                    }
                    assert forall|other: Seq<u8>| #[trigger]
                        live(old(self).rows(), other) implies self.rows().contains_key(
                        other,
                    ) by {
                        assert(before.rows().contains_key(other));
                        assert(before.rows()[other] == old(self).rows()[other]);
                    }
                }
            }
        }
        proof {
            assert forall|key: Seq<u8>| #[trigger]
                self.rows().contains_key(key) implies live(old(self).rows(), key) by {
                let j = choose|j: int| key_at(self.db.keys(), key, j);
                self.db.lemma_found(key, j);
                assert(row_has_value(self.db.values@[j]@));
            }
        }
    }
}

} // verus!
