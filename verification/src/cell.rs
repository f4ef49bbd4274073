//! Cells and their serialized form.
//!
//! A cell is a node of a Merkle DAG: some data, up to four references to
//! child cells, and two totals over the tree below it. It is addressed by its
//! representation hash, which is computed elsewhere and taken as given here.
//!
//! The serialized form of a cell is
//!
//! ```text
//! length of the data (2 bytes, little-endian) | data | number of references (1 byte)
//!   | hash of each reference (32 bytes each) | tree bits count (8 bytes, little-endian)
//!   | tree cell count (8 bytes, little-endian)
//! ```

use vstd::prelude::*;
use vstd::slice::slice_subrange;
use std::sync::Arc;
use crate::bytes::{
    lemma_decode_encode, lemma_decode_prefix, push_bytes, push_u16_le, push_u64_le, read_u16_le,
    read_u64_le, u16_from_le, u16_le, u64_from_le, u64_le,
};

verus! {

/// Most references that a cell may hold.
pub const MAX_REFERENCES: usize = 4;

/// Why the cell store refused an operation.
#[derive(Clone, Copy, Debug, PartialEq, Eq, Structural)]
pub enum CellStorageError {
    /// No row with a positive reference count is stored under the hash.
    CellNotFound,
    /// A cell cannot be serialized, or a row does not hold a serialized cell.
    InvalidCell,
    /// More references were taken from a cell than it holds.
    CounterMismatch,
    /// One operation would add or take more references than a count can say.
    CounterOverflow,
    /// The arena of the operation could not hold what the operation keeps.
    AllocationFailed,
}

/// Why a reference of a loaded cell could not be followed.
#[derive(Clone, Copy, Debug, PartialEq, Eq, Structural)]
pub enum StorageCellError {
    /// The cell has no reference at the index.
    AccessingInvalidReference,
}

/// A cell with the cells below it, as it is handed to the store.
pub struct Cell {
    /// Representation hash: the identity of the cell.
    pub repr_hash: [u8; 32],
    /// The cell's own data, opaque to the store.
    pub data: Vec<u8>,
    /// The child cells, in order.
    pub references: Vec<Arc<Cell>>,
    /// Number of data bits in the tree rooted here.
    pub tree_bits_count: u64,
    /// Number of cells in the tree rooted here.
    pub tree_cell_count: u64,
}

/// The hashes of the children of `cell`, in order.
pub open spec fn child_hashes(cell: Cell) -> Seq<Seq<u8>> {
    Seq::new(cell.references@.len(), |i: int| cell.references@[i].repr_hash@)
}

/// The concatenation of `hashes`.
pub open spec fn concat_hashes(hashes: Seq<Seq<u8>>) -> Seq<u8>
    decreases hashes.len(),
{
    if hashes.len() == 0 {
        Seq::empty()
    } else {
        concat_hashes(hashes.drop_last()) + hashes.last()
    }
}

/// Whether a cell with this much data and this many references has a
/// serialized form.
pub open spec fn serializable(data_len: nat, references: nat) -> bool {
    data_len <= u16::MAX && references <= MAX_REFERENCES
}

/// The serialized form of a cell with the given parts.
pub open spec fn serialized_parts(
    data: Seq<u8>,
    hashes: Seq<Seq<u8>>,
    tree_bits_count: u64,
    tree_cell_count: u64,
) -> Seq<u8> {
    u16_le(data.len() as u16) + data + seq![hashes.len() as u8] + concat_hashes(hashes) + u64_le(
        tree_bits_count,
    ) + u64_le(tree_cell_count)
}

/// The serialized form of `cell`.
pub open spec fn serialized(cell: Cell) -> Seq<u8> {
    serialized_parts(cell.data@, child_hashes(cell), cell.tree_bits_count, cell.tree_cell_count)
}

/// Length of the data that a serialized cell announces.
pub open spec fn body_data_len(body: Seq<u8>) -> int {
    u16_from_le(body) as int
}

/// Whether `body` holds the data of a cell and the number of its references.
pub open spec fn body_has_header(body: Seq<u8>) -> bool {
    body.len() >= 2 && body.len() >= 2 + body_data_len(body) + 1
}

/// The data of the cell in `body`.
pub open spec fn body_data(body: Seq<u8>) -> Seq<u8> {
    body.subrange(2, 2 + body_data_len(body))
}

/// Number of references that `body` announces.
pub open spec fn body_reference_count(body: Seq<u8>) -> int {
    body[2 + body_data_len(body)] as int
}

/// Where the hashes of the references start in `body`.
pub open spec fn body_references_start(body: Seq<u8>) -> int {
    2 + body_data_len(body) + 1
}

/// The `i`-th reference hash in `body`.
pub open spec fn body_reference(body: Seq<u8>, i: int) -> Seq<u8> {
    body.subrange(body_references_start(body) + 32 * i, body_references_start(body) + 32 * (i + 1))
}

/// Number of announced references whose hashes are in `body` in full.
pub open spec fn body_readable_references(body: Seq<u8>) -> int {
    let room = (body.len() - body_references_start(body)) / 32;
    if !body_has_header(body) {
        0
    } else if room < body_reference_count(body) {
        room
    } else {
        body_reference_count(body)
    }
}

/// Whether `body` holds a cell: its data, the number of its references and
/// the hash of each of them.
pub open spec fn body_valid(body: Seq<u8>) -> bool {
    body_has_header(body) && body_readable_references(body) == body_reference_count(body)
}

/// The first `n` reference hashes in `body`.
pub open spec fn body_references(body: Seq<u8>, n: int) -> Seq<Seq<u8>> {
    Seq::new(n as nat, |i: int| body_reference(body, i))
}

/// Where the two totals start in a valid `body`.
pub open spec fn body_counts_start(body: Seq<u8>) -> int {
    body_references_start(body) + 32 * body_reference_count(body)
}

/// The two totals of the cell in `body`, tree bits first; both are zero
/// where `body` ends before them.
pub open spec fn body_counts(body: Seq<u8>) -> (u64, u64) {
    let at = body_counts_start(body);
    if body.len() >= at + 16 {
        (u64_from_le(body.skip(at)), u64_from_le(body.skip(at + 8)))
    } else {
        (0, 0)
    }
}

/// A reference of a loaded cell: the child itself once it has been loaded,
/// its hash before.
pub enum StorageCellReference {
    Loaded(Arc<StorageCell>),
    Unloaded([u8; 32]),
}

/// A cell as it is loaded from the store: its children are known by hash and
/// loaded on demand.
pub struct StorageCell {
    /// Representation hash, the key under which the cell is stored.
    pub repr_hash: [u8; 32],
    /// The cell's own data.
    pub data: Vec<u8>,
    /// The references, in order.
    pub references: Vec<StorageCellReference>,
    /// Number of data bits in the tree rooted here.
    pub tree_bits_count: u64,
    /// Number of cells in the tree rooted here.
    pub tree_cell_count: u64,
}

impl StorageCellReference {
    /// The hash of the cell that the reference leads to.
    pub open spec fn hash(self) -> Seq<u8> {
        match self {
            StorageCellReference::Loaded(cell) => cell.repr_hash@,
            StorageCellReference::Unloaded(hash) => hash@,
        }
    }
}

/// Copies the 32 bytes of `data` from `at` on into a hash.
pub fn read_hash(data: &[u8], at: usize) -> (hash: [u8; 32])
    requires
        at + 32 <= data.len(),
    ensures
        hash@ == data@.subrange(at as int, at + 32),
{
    let mut hash: [u8; 32] = [0u8; 32];
    let mut i: usize = 0;
    while i < 32
        invariant
            at + 32 <= data.len(),
            i <= 32,
            forall|j: int| 0 <= j < i ==> hash@[j] == data@[at + j],
        decreases 32 - i,
    {
        hash[i] = data[at + i];
        i = i + 1;
    }
    assert(hash@ =~= data@.subrange(at as int, at + 32));
    hash
}

impl StorageCell {
    /// The hashes of the references, in order.
    pub open spec fn reference_hashes(self) -> Seq<Seq<u8>> {
        Seq::new(self.references@.len(), |i: int| self.references@[i].hash())
    }

    /// Representation hash of the cell.
    pub fn repr_hash(&self) -> (hash: [u8; 32])
        ensures
            hash == self.repr_hash,
    {
        self.repr_hash
    }

    /// Reads the cell stored under `repr_hash` from its serialized form.
    ///
    /// Fails where `data` ends before the hash of the last reference. The
    /// two totals may be missing: they are then zero. No reference of the
    /// result is loaded.
    pub fn deserialize(repr_hash: [u8; 32], data: &[u8]) -> (result: Result<
        StorageCell,
        CellStorageError,
    >)
        ensures
            result is Ok <==> body_valid(data@),
            result is Err ==> result->Err_0 == CellStorageError::InvalidCell,
            result is Ok ==> {
                let cell = result->Ok_0;
                &&& cell.repr_hash == repr_hash
                &&& cell.data@ == body_data(data@)
                &&& cell.reference_hashes() == body_references(
                    data@,
                    body_reference_count(data@),
                )
                &&& forall|i: int|
                    0 <= i < cell.references@.len() ==> cell.references@[i] is Unloaded
                &&& (cell.tree_bits_count, cell.tree_cell_count) == body_counts(data@)
            },
    {
        if data.len() < 2 {
            return Err(CellStorageError::InvalidCell);
        }
        assert(data@.skip(0) =~= data@);
        let data_len: usize = read_u16_le(data, 0) as usize;
        if data.len() - 2 < data_len + 1 {
            return Err(CellStorageError::InvalidCell);
        }
        let cell_data = slice_subrange(data, 2, 2 + data_len);
        let mut own_data: Vec<u8> = Vec::new();
        push_bytes(&mut own_data, cell_data);
        let references_count: usize = data[2 + data_len] as usize;
        let start: usize = 2 + data_len + 1;
        let mut references: Vec<StorageCellReference> = Vec::new();
        let mut i: usize = 0;
        while i < references_count
            invariant
                start == body_references_start(data@),
                start <= data.len(),
                references_count == body_reference_count(data@),
                body_has_header(data@),
                i <= references_count,
                start + 32 * i <= data.len(),
                references@.len() == i,
                forall|j: int| 0 <= j < i ==> #[trigger] references@[j] is Unloaded,
                forall|j: int|
                    0 <= j < i ==> (#[trigger] references@[j]).hash() == body_reference(data@, j),
            decreases references_count - i,
        {
            if data.len() - (start + 32 * i) < 32 {
                assert(body_readable_references(data@) < body_reference_count(data@));
                return Err(CellStorageError::InvalidCell);
            }
            let hash = read_hash(data, start + 32 * i);
            references.push(StorageCellReference::Unloaded(hash));
            i = i + 1;
        }
        let at: usize = start + 32 * references_count;
        let (tree_bits_count, tree_cell_count) = if data.len() - at >= 16 {
            (read_u64_le(data, at), read_u64_le(data, at + 8))
        } else {
            (0, 0)
        };
        let cell = StorageCell {
            repr_hash,
            data: own_data,
            references,
            tree_bits_count,
            tree_cell_count,
        };
        assert(cell.reference_hashes() =~= body_references(data@, body_reference_count(data@)));
        Ok(cell)
    }

    /// Appends to `target` the hashes of the references of the cell whose
    /// serialized form is `data`, and tells whether all of them were there.
    ///
    /// Where `data` ends early, the hashes that are there in full have been
    /// appended all the same.
    pub fn deserialize_references(data: &[u8], target: &mut Vec<[u8; 32]>) -> (complete: bool)
        ensures
            complete == body_valid(data@),
            final(target)@.len() == old(target)@.len() + body_readable_references(data@),
            forall|j: int| 0 <= j < old(target)@.len() ==> final(target)@[j] == old(target)@[j],
            forall|j: int|
                0 <= j < body_readable_references(data@) ==> final(target)@[old(target)@.len()
                    + j]@ == body_reference(data@, j),
    {
        if data.len() < 2 {
            return false;
        }
        assert(data@.skip(0) =~= data@);
        let data_len: usize = read_u16_le(data, 0) as usize;
        if data.len() - 2 < data_len + 1 {
            return false;
        }
        let references_count: usize = data[2 + data_len] as usize;
        let start: usize = 2 + data_len + 1;
        let mut i: usize = 0;
        while i < references_count
            invariant
                start == body_references_start(data@),
                start <= data.len(),
                references_count == body_reference_count(data@),
                body_has_header(data@),
                i <= references_count,
                start + 32 * i <= data.len(),
                target@.len() == old(target)@.len() + i,
                forall|j: int| 0 <= j < old(target)@.len() ==> target@[j] == old(target)@[j],
                forall|j: int|
                    0 <= j < i ==> target@[old(target)@.len() + j]@ == body_reference(data@, j),
            decreases references_count - i,
        {
            if data.len() - (start + 32 * i) < 32 {
                assert(body_readable_references(data@) == i);
                return false;
            }
            let hash = read_hash(data, start + 32 * i);
            target.push(hash);
            i = i + 1;
        }
        true
    }

    /// Whether `cell` has a serialized form: it has where its data and its
    /// references are no more than the serialized form can announce.
    pub fn can_serialize(cell: &Cell) -> (can: bool)
        ensures
            can == serializable(cell.data@.len(), cell.references@.len()),
    {
        cell.data.len() <= 0xffff && cell.references.len() <= MAX_REFERENCES
    }

    /// Whether `data` holds a cell: its data, the number of its references
    /// and the hash of each of them.
    pub fn holds_cell(data: &[u8]) -> (valid: bool)
        ensures
            valid == body_valid(data@),
    {
        if data.len() < 2 {
            return false;
        }
        assert(data@.skip(0) =~= data@);
        let data_len: usize = read_u16_le(data, 0) as usize;
        if data.len() - 2 < data_len + 1 {
            return false;
        }
        let references_count: usize = data[2 + data_len] as usize;
        let start: usize = 2 + data_len + 1;
        (data.len() - start) / 32 >= references_count
    }

    /// Writes the serialized form of `cell` to `target`, in place of what
    /// `target` held.
    ///
    /// Fails, leaving `target` empty, where the cell has more data or more
    /// references than the serialized form can announce.
    pub fn serialize_to(cell: &Cell, target: &mut Vec<u8>) -> (result: Result<
        (),
        CellStorageError,
    >)
        ensures
            result is Ok <==> serializable(cell.data@.len(), cell.references@.len()),
            result is Ok ==> final(target)@ == serialized(*cell),
            result is Err ==> result->Err_0 == CellStorageError::InvalidCell && final(target)@
                == Seq::<u8>::empty(),
    {
        target.clear();
        if cell.data.len() > 0xffff || cell.references.len() > MAX_REFERENCES {
            return Err(CellStorageError::InvalidCell);
        }
        let references_count: u8 = cell.references.len() as u8;
        push_u16_le(target, cell.data.len() as u16);
        push_bytes(target, cell.data.as_slice());
        target.push(references_count);
        let ghost head = target@;
        let mut i: usize = 0;
        while i < cell.references.len()
            invariant
                i <= cell.references@.len(),
                target@ == head + concat_hashes(child_hashes(*cell).take(i as int)),
            decreases cell.references@.len() - i,
        {
            let child: &Cell = &cell.references[i];
            push_bytes(target, child.repr_hash.as_slice());
            i = i + 1;
            proof {
                let hashes = child_hashes(*cell);
                assert(hashes.take(i as int).drop_last() =~= hashes.take(i - 1));
                assert(hashes.take(i as int).last() == child.repr_hash@);
            }
        }
        assert(child_hashes(*cell).take(cell.references@.len() as int) =~= child_hashes(*cell));
        push_u64_le(target, cell.tree_bits_count);
        push_u64_le(target, cell.tree_cell_count);
        assert(target@ =~= serialized(*cell));
        Ok(())
    }

    /// The reference at `index`: the child where it has been loaded, else
    /// the hash by which the store finds it.
    pub fn reference(&self, index: usize) -> (result: Result<
        &StorageCellReference,
        StorageCellError,
    >)
        ensures
            result is Ok <==> index < self.references@.len(),
            result is Ok ==> *result->Ok_0 == self.references@[index as int],
            result is Err ==> result->Err_0 == StorageCellError::AccessingInvalidReference,
    {
        if index < self.references.len() {
            Ok(&self.references[index])
        } else {
            Err(StorageCellError::AccessingInvalidReference)
        }
    }

    /// The cell's own data.
    pub fn data(&self) -> (data: &[u8])
        ensures
            data@ == self.data@,
    {
        self.data.as_slice()
    }

    /// Number of references of the cell.
    pub fn references_count(&self) -> (count: usize)
        ensures
            count == self.references@.len(),
    {
        self.references.len()
    }

    /// Number of data bits in the tree rooted at the cell.
    pub fn tree_bits_count(&self) -> (count: u64)
        ensures
            count == self.tree_bits_count,
    {
        self.tree_bits_count
    }

    /// Number of cells in the tree rooted at the cell.
    pub fn tree_cell_count(&self) -> (count: u64)
        ensures
            count == self.tree_cell_count,
    {
        self.tree_cell_count
    }
}

/// The concatenation of `n` hashes is `32 * n` bytes long, and the `i`-th
/// hash stands at `32 * i` in it.
pub proof fn lemma_concat_hashes(hashes: Seq<Seq<u8>>, i: int)
    requires
        forall|j: int| 0 <= j < hashes.len() ==> (#[trigger] hashes[j]).len() == 32,
        0 <= i < hashes.len(),
    ensures
        concat_hashes(hashes).len() == 32 * hashes.len(),
        concat_hashes(hashes).subrange(32 * i, 32 * (i + 1)) == hashes[i],
    decreases hashes.len(),
{
    lemma_concat_hashes_len(hashes);
    lemma_concat_hashes_len(hashes.drop_last());
    if i == hashes.len() - 1 {
        assert(concat_hashes(hashes).subrange(32 * i, 32 * (i + 1)) =~= hashes[i]);
    } else {
        lemma_concat_hashes(hashes.drop_last(), i);
        assert(concat_hashes(hashes).subrange(32 * i, 32 * (i + 1)) =~= concat_hashes(
            hashes.drop_last(),
        ).subrange(32 * i, 32 * (i + 1)));
    }
}

proof fn lemma_concat_hashes_len(hashes: Seq<Seq<u8>>)
    requires
        forall|j: int| 0 <= j < hashes.len() ==> (#[trigger] hashes[j]).len() == 32,
    ensures
        concat_hashes(hashes).len() == 32 * hashes.len(),
    decreases hashes.len(),
{
    if hashes.len() > 0 {
        lemma_concat_hashes_len(hashes.drop_last());
    }
}

/// Reading a serialized cell gives back the parts it was written from.
pub proof fn lemma_serialize_round_trip(
    data: Seq<u8>,
    hashes: Seq<Seq<u8>>,
    tree_bits_count: u64,
    tree_cell_count: u64,
)
    requires
        serializable(data.len(), hashes.len()),
        forall|j: int| 0 <= j < hashes.len() ==> (#[trigger] hashes[j]).len() == 32,
    ensures
        ({
            let body = serialized_parts(data, hashes, tree_bits_count, tree_cell_count);
            &&& body_valid(body)
            &&& body_data(body) == data
            &&& body_reference_count(body) == hashes.len()
            &&& body_references(body, hashes.len() as int) == hashes
            &&& body_counts(body) == (tree_bits_count, tree_cell_count)
        }),
{
    let body = serialized_parts(data, hashes, tree_bits_count, tree_cell_count);
    let n = hashes.len() as int;
    lemma_decode_encode(data.len() as u16, 0, tree_bits_count, 0, 0);
    lemma_decode_encode(0, 0, tree_cell_count, 0, 0);
    lemma_concat_hashes_len(hashes);
    let rest = data + seq![hashes.len() as u8] + concat_hashes(hashes) + u64_le(tree_bits_count)
        + u64_le(tree_cell_count);
    assert(body =~= u16_le(data.len() as u16) + rest);
    lemma_decode_prefix(data.len() as u16, 0, 0, rest);
    assert(body_data_len(body) == data.len());
    assert(body_data(body) =~= data);
    assert(body[2 + data.len() as int] == hashes.len() as u8);
    let start = body_references_start(body);
    assert(body.len() == start + 32 * n + 16);
    assert(body.subrange(start, start + 32 * n) =~= concat_hashes(hashes));
    assert forall|i: int| 0 <= i < n implies body_reference(body, i) == hashes[i] by {
        lemma_concat_hashes(hashes, i);
        assert(body_reference(body, i) =~= concat_hashes(hashes).subrange(32 * i, 32 * (i + 1)));
    }
    assert(body_references(body, n) =~= hashes);
    let at = body_counts_start(body);
    assert(body.skip(at) =~= u64_le(tree_bits_count) + u64_le(tree_cell_count));
    assert(body.skip(at + 8) =~= u64_le(tree_cell_count));
    lemma_decode_prefix(0, 0, tree_bits_count, u64_le(tree_cell_count));
}

} // verus!
