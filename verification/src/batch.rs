//! Write batches: what an operation of this crate asks the key-value engine
//! to write, in one atomic step.

use vstd::prelude::*;
use crate::bytes::push_bytes;

verus! {

/// The column families of the key-value engine.
#[derive(Clone, Copy, Debug, PartialEq, Eq, Structural)]
pub enum Column {
    /// Archive packages by archive id.
    Archives,
    /// Block bodies and proofs by package entry id.
    PackageEntries,
    /// Block handle metadata by root hash.
    BlockHandles,
    /// Key blocks by sequence number.
    KeyBlocks,
    /// Cells by representation hash.
    Cells,
}

/// One write of a batch.
pub enum BatchOp {
    /// Store `value` under `key`.
    Put { column: Column, key: Vec<u8>, value: Vec<u8> },
    /// Hand `value` to the merge operator of the column, for the row of `key`.
    Merge { column: Column, key: Vec<u8>, value: Vec<u8> },
    /// Remove the row of `key`.
    Delete { column: Column, key: Vec<u8> },
}

/// One write of a batch, as plain values.
pub enum Write {
    Put { column: Column, key: Seq<u8>, value: Seq<u8> },
    Merge { column: Column, key: Seq<u8>, value: Seq<u8> },
    Delete { column: Column, key: Seq<u8> },
}

impl View for BatchOp {
    type V = Write;

    open spec fn view(&self) -> Write {
        match *self {
            BatchOp::Put { column, key, value } => Write::Put { column, key: key@, value: value@ },
            BatchOp::Merge { column, key, value } => Write::Merge {
                column,
                key: key@,
                value: value@,
            },
            BatchOp::Delete { column, key } => Write::Delete { column, key: key@ },
        }
    }
}

/// A sequence of writes that the engine applies together.
pub struct WriteBatch {
    /// The writes, in the order in which they were added.
    pub ops: Vec<BatchOp>,
}

impl View for WriteBatch {
    type V = Seq<Write>;

    open spec fn view(&self) -> Seq<Write> {
        Seq::new(self.ops@.len(), |i: int| self.ops@[i]@)
    }
}

fn copy_of(bytes: &[u8]) -> (copy: Vec<u8>)
    ensures
        copy@ == bytes@,
{
    let mut copy: Vec<u8> = Vec::new();
    push_bytes(&mut copy, bytes);
    copy
}

impl WriteBatch {
    /// A batch without writes.
    pub fn new() -> (batch: Self)
        ensures
            batch@ == Seq::<Write>::empty(),
    {
        let batch = WriteBatch { ops: Vec::new() };
        assert(batch@ =~= Seq::<Write>::empty());
        batch
    }

    /// Number of writes in the batch.
    pub fn len(&self) -> (n: usize)
        ensures
            n == self@.len(),
    {
        self.ops.len()
    }

    /// Whether the batch holds no write.
    pub fn is_empty(&self) -> (empty: bool)
        ensures
            empty == (self@.len() == 0),
    {
        self.ops.len() == 0
    }

    /// Moves the writes of `other` behind the writes of the batch.
    pub fn append(&mut self, other: WriteBatch)
        ensures
            final(self)@ == old(self)@ + other@,
    {
        let ghost moved = other@;
        let mut rest = other;
        self.ops.append(&mut rest.ops);
        assert(self@ =~= old(self)@ + moved);
    }

    /// Adds the write that stores `value` under `key`.
    pub fn put_cf(&mut self, column: Column, key: &[u8], value: &[u8])
        ensures
            final(self)@ == old(self)@.push(Write::Put { column, key: key@, value: value@ }),
    {
        self.ops.push(BatchOp::Put { column, key: copy_of(key), value: copy_of(value) });
        assert(self@ =~= old(self)@.push(Write::Put { column, key: key@, value: value@ }));
    }

    /// Adds the write that merges `value` into the row of `key`.
    pub fn merge_cf(&mut self, column: Column, key: &[u8], value: &[u8])
        ensures
            final(self)@ == old(self)@.push(Write::Merge { column, key: key@, value: value@ }),
    {
        self.ops.push(BatchOp::Merge { column, key: copy_of(key), value: copy_of(value) });
        assert(self@ =~= old(self)@.push(Write::Merge { column, key: key@, value: value@ }));
    }

    /// Adds the write that removes the row of `key`.
    pub fn delete_cf(&mut self, column: Column, key: &[u8])
        ensures
            final(self)@ == old(self)@.push(Write::Delete { column, key: key@ }),
    {
        self.ops.push(BatchOp::Delete { column, key: copy_of(key) });
        assert(self@ =~= old(self)@.push(Write::Delete { column, key: key@ }));
    }
}

} // verus!
