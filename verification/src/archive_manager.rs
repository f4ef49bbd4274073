//! The archive manager: package entries, the archives they are moved into,
//! and the collection of blocks and archives that are no longer needed.
//!
//! The rules are stated over plain values: a function takes the rows that it
//! has to look at and returns the batch that is to be written.
//! [`ArchiveManager`] keeps the four columns in memory and applies each batch
//! to them.

use vstd::prelude::*;
use vstd::slice::slice_subrange;
use crate::archive_ids::{
    assigned_archive, ids_after_assignment, ArchiveIds, ARCHIVE_PACKAGE_SIZE,
};
use crate::archive_package::{
    check_archive, make_archive_segment, segment, well_framed, ArchivePackageError,
};
use crate::batch::{BatchOp, Column, Write, WriteBatch};
use crate::block_handle::{BlockHandle, BlockMeta};
use crate::block_id::TopBlocks;
use crate::bytes::{
    lemma_decode_encode, lemma_u32_be_of_bytes, push_bytes, push_u32_be, read_u32_be, u32_be,
    u32_from_be,
};
use crate::package_entry_id::{
    key_seq_no, key_shard, PackageEntryId, PackageEntryIdPrefix, PACKAGE_ENTRY_HANDLE_END,
    PACKAGE_ENTRY_PREFIX_LEN,
};
use crate::table::{row_delete, row_get, row_put, rows_of, Table};

verus! {

/// Why the archive manager refused an operation.
#[derive(Clone, Copy, Debug, PartialEq, Eq, Structural)]
pub enum ArchiveManagerError {
    /// A block has no stored body or proof where its handle says it has.
    InvalidBlockData,
    /// A slice was asked for that starts behind the end of its archive.
    InvalidOffset,
    /// A key of the archive column is not a four byte archive id.
    InvalidArchiveKey,
    /// A key of the package entry column is too short.
    InvalidPackageEntryId,
    /// The name of an entry is longer than a segment can say.
    TooLongFilename,
    /// The data of an entry is longer than a segment can say.
    TooBigData,
}

/// What a run of block garbage collection removed.
#[derive(Debug, Copy, Clone)]
pub struct BlockGcStats {
    pub mc_package_entries_removed: usize,
    pub total_package_entries_removed: usize,
    pub total_handles_removed: usize,
}

impl Default for BlockGcStats {
    fn default() -> (stats: Self)
        ensures
            stats.mc_package_entries_removed == 0,
            stats.total_package_entries_removed == 0,
            stats.total_handles_removed == 0,
    {
        BlockGcStats {
            mc_package_entries_removed: 0,
            total_package_entries_removed: 0,
            total_handles_removed: 0,
        }
    }
}

/// The archive id that a key of the archive column names.
pub fn archive_id_from_key(key: &[u8]) -> (result: Result<u32, ArchiveManagerError>)
    ensures
        result is Ok <==> key@.len() == 4,
        result is Ok ==> result->Ok_0 == u32_from_be(key@),
        result is Err ==> result->Err_0 == ArchiveManagerError::InvalidArchiveKey,
{
    if key.len() != 4 {
        return Err(ArchiveManagerError::InvalidArchiveKey);
    }
    assert(key@.skip(0) =~= key@);
    Ok(read_u32_be(key, 0))
}

/// The key of the archive column for an archive id.
pub fn archive_key(id: u32) -> (key: Vec<u8>)
    ensures
        key@ == u32_be(id),
{
    let mut key: Vec<u8> = Vec::new();
    push_u32_be(&mut key, id);
    key
}

/// The bytes of `value` from `offset` on, `limit` of them or as many as
/// there are.
pub open spec fn slice_of(value: Seq<u8>, offset: int, limit: int) -> Seq<u8> {
    if offset + limit < value.len() {
        value.subrange(offset, offset + limit)
    } else {
        value.subrange(offset, value.len() as int)
    }
}

/// The slice of an archive from `offset` on, at most `limit` bytes long.
/// Fails where the archive ends at or before `offset`.
pub fn archive_slice(value: &[u8], offset: usize, limit: usize) -> (result: Result<
    Vec<u8>,
    ArchiveManagerError,
>)
    ensures
        result is Ok <==> offset < value@.len(),
        result is Ok ==> result->Ok_0@ == slice_of(value@, offset as int, limit as int),
        result is Err ==> result->Err_0 == ArchiveManagerError::InvalidOffset,
{
    if offset >= value.len() {
        return Err(ArchiveManagerError::InvalidOffset);
    }
    let end = if limit < value.len() - offset {
        offset + limit
    } else {
        value.len()
    };
    let mut out: Vec<u8> = Vec::new();
    push_bytes(&mut out, slice_subrange(value, offset, end));
    Ok(out)
}

/// The first `n` slices of `value`, each `width` bytes wide, one behind
/// the other.
pub open spec fn joined_slices(value: Seq<u8>, width: int, n: nat) -> Seq<u8>
    decreases n,
{
    if n == 0 {
        Seq::empty()
    } else if (n - 1) * width < value.len() {
        joined_slices(value, width, (n - 1) as nat) + slice_of(value, (n - 1) * width, width)
    } else {
        joined_slices(value, width, (n - 1) as nat)
    }
}

/// The slices of an archive, read one behind the other until a read fails,
/// give back the archive: the first `n` slices are the archive up to the
/// end of the `n`-th, and all of it once that end is behind the archive's.
pub proof fn lemma_slices_join(value: Seq<u8>, width: int, n: nat)
    requires
        width > 0,
    ensures
        n * width <= value.len() ==> joined_slices(value, width, n) == value.take(n * width),
        n * width >= value.len() ==> joined_slices(value, width, n) == value,
    decreases n,
{
    if n > 0 {
        lemma_slices_join(value, width, (n - 1) as nat);
        assert((n - 1) * width == n * width - width) by (nonlinear_arith);
        let start = (n - 1) * width;
        if start < value.len() {
            assert(joined_slices(value, width, (n - 1) as nat) == value.take(start));
            if n * width <= value.len() {
                assert(value.take(start) + value.subrange(start, start + width) =~= value.take(
                    n * width,
                ));
            } else {
                assert(value.take(start) + value.subrange(start, value.len() as int)
                    =~= value);
            }
        }
    } else {
        assert(0 * width == 0) by (nonlinear_arith);
        assert(value.take(0) =~= Seq::<u8>::empty());
        if value.len() == 0 {
            assert(value =~= Seq::<u8>::empty());
        }
    }
}

/// Whether garbage collection keeps the package entry with this key: it
/// does where the block is at or past the frontier, where it is the first
/// of its shard, and where it is a key block of the masterchain.
pub open spec fn gc_keeps(key: Seq<u8>, top_blocks: TopBlocks, is_key_block: bool) -> bool {
    ||| top_blocks.holds(key_shard(key), key_seq_no(key))
    ||| key_seq_no(key) == 0
    ||| key_shard(key).masterchain() && is_key_block
}

/// Whether the fate of the entry hangs on its block being a key block.
pub open spec fn gc_asks(key: Seq<u8>, top_blocks: TopBlocks) -> bool {
    &&& !top_blocks.holds(key_shard(key), key_seq_no(key))
    &&& key_seq_no(key) != 0
    &&& key_shard(key).masterchain()
}

/// The writes that remove a package entry: the entry itself and, where the
/// key holds a root hash, the handle of the block.
pub open spec fn gc_deletes(key: Seq<u8>) -> Seq<Write> {
    if key.len() >= PACKAGE_ENTRY_HANDLE_END {
        seq![
            Write::Delete { column: Column::PackageEntries, key },
            Write::Delete { column: Column::BlockHandles, key: key.subrange(16, 48) },
        ]
    } else {
        seq![Write::Delete { column: Column::PackageEntries, key }]
    }
}

/// `n + 1`, or `n` where that is the greatest number of its type.
pub open spec fn counted(n: usize) -> usize {
    if n < usize::MAX {
        (n + 1) as usize
    } else {
        n
    }
}

/// The statistics after the entry with this key was removed.
pub open spec fn stats_after(stats: BlockGcStats, key: Seq<u8>) -> BlockGcStats {
    BlockGcStats {
        mc_package_entries_removed: if key_shard(key).masterchain() {
            counted(stats.mc_package_entries_removed)
        } else {
            stats.mc_package_entries_removed
        },
        total_package_entries_removed: counted(stats.total_package_entries_removed),
        total_handles_removed: if key.len() >= PACKAGE_ENTRY_HANDLE_END {
            counted(stats.total_handles_removed)
        } else {
            stats.total_handles_removed
        },
    }
}

/// The state of a run of block garbage collection.
pub struct GcState {
    /// The writes that were handed out to be written.
    pub flushed: Seq<Write>,
    /// The writes that wait for the next batch.
    pub pending: Seq<Write>,
    /// Number of entries whose removal waits for the next batch.
    pub pending_blocks: nat,
    /// What was removed so far.
    pub stats: BlockGcStats,
}

/// Whether a batch with `pending_blocks` removals is handed out at once.
pub open spec fn gc_flushes(max_blocks_per_batch: Option<usize>, pending_blocks: nat) -> bool {
    max_blocks_per_batch is Some && pending_blocks >= max_blocks_per_batch->0
}

impl GcState {
    /// The state in which a run starts.
    pub open spec fn start() -> GcState {
        GcState {
            flushed: Seq::empty(),
            pending: Seq::empty(),
            pending_blocks: 0,
            stats: BlockGcStats {
                mc_package_entries_removed: 0,
                total_package_entries_removed: 0,
                total_handles_removed: 0,
            },
        }
    }

    /// The state after the entry with this key was looked at. An entry
    /// that is kept changes nothing. The removal of any other joins the
    /// pending batch, which is handed out once it holds
    /// `max_blocks_per_batch` removals.
    pub open spec fn visit(
        self,
        key: Seq<u8>,
        top_blocks: TopBlocks,
        is_key_block: bool,
        max_blocks_per_batch: Option<usize>,
    ) -> GcState {
        if gc_keeps(key, top_blocks, is_key_block) {
            self
        } else if gc_flushes(max_blocks_per_batch, self.pending_blocks + 1) {
            GcState {
                flushed: self.flushed + self.pending + gc_deletes(key),
                pending: Seq::empty(),
                pending_blocks: 0,
                stats: stats_after(self.stats, key),
            }
        } else {
            GcState {
                flushed: self.flushed,
                pending: self.pending + gc_deletes(key),
                pending_blocks: self.pending_blocks + 1,
                stats: stats_after(self.stats, key),
            }
        }
    }
}

fn count(n: usize) -> (m: usize)
    ensures
        m == counted(n),
{
    if n < usize::MAX {
        n + 1
    } else {
        n
    }
}

/// A run of block garbage collection.
///
/// The caller goes through the package entries and shows each key to the
/// run; the run hands out a batch whenever one is due, and a last one at
/// the end.
pub struct BlockGc {
    /// The removals that wait for the next batch.
    pub batch: WriteBatch,
    /// Number of entries whose removal waits for the next batch.
    pub batch_len: usize,
    /// What was removed so far.
    pub stats: BlockGcStats,
    /// Number of removals at which a batch is handed out, if any.
    pub max_blocks_per_batch: Option<usize>,
    /// The writes that were handed out.
    pub flushed: Ghost<Seq<Write>>,
}

impl View for BlockGc {
    type V = GcState;

    open spec fn view(&self) -> GcState {
        GcState {
            flushed: self.flushed@,
            pending: self.batch@,
            pending_blocks: self.batch_len as nat,
            stats: self.stats,
        }
    }
}

impl BlockGc {
    /// No more removals wait than writes do.
    pub open spec fn wf(&self) -> bool {
        self.batch_len <= self.batch@.len() && (self.batch_len == 0 ==> self.batch@.len() == 0)
    }

    /// A run that hands out a batch at every `max_blocks_per_batch`
    /// removals, or only at the end where that is `None`.
    pub fn new(max_blocks_per_batch: Option<usize>) -> (gc: Self)
        ensures
            gc.wf(),
            gc@ == GcState::start(),
            gc.max_blocks_per_batch == max_blocks_per_batch,
    {
        BlockGc {
            batch: WriteBatch::new(),
            batch_len: 0,
            stats: BlockGcStats::default(),
            max_blocks_per_batch,
            flushed: Ghost(Seq::empty()),
        }
    }

    /// The sequence number of the masterchain block of which the caller has
    /// to find out whether it is a key block, before it shows `key` to
    /// the run; `None` where the run does not need to know.
    pub fn needs_key_block(key: &[u8], top_blocks: &TopBlocks) -> (result: Result<
        Option<u32>,
        ArchiveManagerError,
    >)
        ensures
            result is Ok <==> key@.len() >= PACKAGE_ENTRY_PREFIX_LEN,
            result is Err ==> result->Err_0 == ArchiveManagerError::InvalidPackageEntryId,
            result is Ok ==> (result->Ok_0 is Some <==> gc_asks(key@, *top_blocks)),
            result is Ok && result->Ok_0 is Some ==> result->Ok_0->0 == key_seq_no(key@),
    {
        let prefix = match PackageEntryIdPrefix::from_slice(key) {
            Ok(prefix) => prefix,
            Err(_) => {
                return Err(ArchiveManagerError::InvalidPackageEntryId);
            },
        };
        if top_blocks.contains_shard_seq_no(&prefix.shard_ident, prefix.seq_no) {
            return Ok(None);
        }
        if prefix.seq_no != 0 && prefix.shard_ident.is_masterchain() {
            Ok(Some(prefix.seq_no))
        } else {
            Ok(None)
        }
    }

    /// Shows the key of a package entry to the run. `is_key_block` tells
    /// whether the block of the entry is a key block of the masterchain; it
    /// counts only where [`needs_key_block`](Self::needs_key_block) asked.
    ///
    /// Returns the batch that is to be written now, if one is due. Fails,
    /// and leaves the run as it was, where the key is too short.
    pub fn visit(&mut self, key: &[u8], top_blocks: &TopBlocks, is_key_block: bool) -> (result:
        Result<Option<WriteBatch>, ArchiveManagerError>)
        requires
            old(self).wf(),
        ensures
            final(self).wf(),
            final(self).max_blocks_per_batch == old(self).max_blocks_per_batch,
            result is Ok <==> key@.len() >= PACKAGE_ENTRY_PREFIX_LEN,
            result is Err ==> result->Err_0 == ArchiveManagerError::InvalidPackageEntryId
                && final(self)@ == old(self)@,
            result is Ok ==> {
                let next = old(self)@.visit(
                    key@,
                    *top_blocks,
                    is_key_block,
                    old(self).max_blocks_per_batch,
                );
                &&& final(self)@ == next
                &&& match result->Ok_0 {
                    Some(batch) => next.flushed == old(self)@.flushed + batch@ && batch@.len() > 0,
                    None => next.flushed == old(self)@.flushed,
                }
            },
    {
        let prefix = match PackageEntryIdPrefix::from_slice(key) {
            Ok(prefix) => prefix,
            Err(_) => {
                return Err(ArchiveManagerError::InvalidPackageEntryId);
            },
        };
        if top_blocks.contains_shard_seq_no(&prefix.shard_ident, prefix.seq_no) {
            return Ok(None);
        }
        if prefix.seq_no == 0 || prefix.shard_ident.is_masterchain() && is_key_block {
            return Ok(None);
        }
        self.batch.delete_cf(Column::PackageEntries, key);
        self.stats.total_package_entries_removed = count(self.stats.total_package_entries_removed);
        if prefix.shard_ident.is_masterchain() {
            self.stats.mc_package_entries_removed = count(self.stats.mc_package_entries_removed);
        }
        if key.len() >= PACKAGE_ENTRY_HANDLE_END {
            self.batch.delete_cf(
                Column::BlockHandles,
                slice_subrange(key, PACKAGE_ENTRY_PREFIX_LEN, PACKAGE_ENTRY_HANDLE_END),
            );
            self.stats.total_handles_removed = count(self.stats.total_handles_removed);
        }
        assert(self.batch@ =~= old(self).batch@ + gc_deletes(key@));
        let writes = self.batch.len();
        assert(self.batch_len < writes);
        self.batch_len = self.batch_len + 1;
        let due = match self.max_blocks_per_batch {
            Some(max) => self.batch_len >= max,
            None => false,
        };
        if due {
            let mut batch = WriteBatch::new();
            std::mem::swap(&mut self.batch, &mut batch);
            self.batch_len = 0;
            self.flushed = Ghost(self.flushed@ + batch@);
            assert(self@.flushed =~= old(self)@.flushed + old(self)@.pending + gc_deletes(key@));
            Ok(Some(batch))
        } else {
            Ok(None)
        }
    }

    /// Ends the run: returns the batch that is still to be written, if
    /// any, and what the run removed.
    pub fn finish(self) -> (result: (Option<WriteBatch>, BlockGcStats))
        requires
            self.wf(),
        ensures
            result.1 == self@.stats,
            match result.0 {
                Some(batch) => batch@ == self@.pending && self@.pending_blocks > 0,
                None => self@.pending_blocks == 0 && self@.pending.len() == 0,
            },
    {
        if self.batch_len > 0 {
            (Some(self.batch), self.stats)
        } else {
            (None, self.stats)
        }
    }
}

/// The segment that a block contributes to its archive for its body:
/// none where the handle says that no body is stored.
pub open spec fn block_segment(handle: BlockHandle, block_data: Option<Seq<u8>>) -> Result<
    Option<Seq<u8>>,
    ArchiveManagerError,
> {
    if !handle.meta.has_data {
        Ok(None)
    } else {
        entry_segment(PackageEntryId::Block(handle.id), block_data)
    }
}

/// The segment that a block contributes to its archive for its proof:
/// none where the handle says that no proof of the kind of its shard is
/// stored.
pub open spec fn proof_segment(handle: BlockHandle, proof_data: Option<Seq<u8>>) -> Result<
    Option<Seq<u8>>,
    ArchiveManagerError,
> {
    if !handle.proof_stored() {
        Ok(None)
    } else if handle.proof_is_link() {
        entry_segment(PackageEntryId::ProofLink(handle.id), proof_data)
    } else {
        entry_segment(PackageEntryId::Proof(handle.id), proof_data)
    }
}

/// The segment of a package entry whose stored data is `data`.
pub open spec fn entry_segment(id: PackageEntryId, data: Option<Seq<u8>>) -> Result<
    Option<Seq<u8>>,
    ArchiveManagerError,
> {
    if data is None {
        Err(ArchiveManagerError::InvalidBlockData)
    } else if id.name().len() > u16::MAX {
        Err(ArchiveManagerError::TooLongFilename)
    } else if data->0.len() > u32::MAX {
        Err(ArchiveManagerError::TooBigData)
    } else {
        Ok(Some(segment(id.name(), data->0)))
    }
}

/// The merge of `data` into the archive `archive_id`, where there is data.
pub open spec fn archive_merge(archive_id: u32, data: Option<Seq<u8>>) -> Seq<Write> {
    match data {
        Some(value) => seq![
            Write::Merge { column: Column::Archives, key: u32_be(archive_id), value },
        ],
        None => Seq::empty(),
    }
}

/// The write that stores the metadata of a handle under its root hash.
pub open spec fn handle_put(handle: BlockHandle) -> Seq<Write> {
    seq![
        Write::Put {
            column: Column::BlockHandles,
            key: handle.id.root_hash@,
            value: handle.meta.row(),
        },
    ]
}

/// Whether a call is the one that moves the block into its archive: the
/// block is not archived, and no other call has begun to move it.
pub open spec fn wins_archiving(handle: BlockHandle) -> bool {
    !handle.meta.is_archived && !handle.meta.is_moving_to_archive
}

/// The handle once its block is on the way into an archive.
pub open spec fn handle_moving(handle: BlockHandle) -> BlockHandle {
    BlockHandle { id: handle.id, meta: BlockMeta { is_moving_to_archive: true, ..handle.meta } }
}

/// The handle once its block is archived.
pub open spec fn handle_archived(handle: BlockHandle) -> BlockHandle {
    BlockHandle {
        id: handle.id,
        meta: BlockMeta { is_moving_to_archive: true, is_archived: true, ..handle.meta },
    }
}

fn cut_segment(id: &PackageEntryId, data: Option<&[u8]>) -> (result: Result<
    Option<Vec<u8>>,
    ArchiveManagerError,
>)
    ensures
        match entry_segment(
            *id,
            match data {
                Some(bytes) => Some(bytes@),
                None => None,
            },
        ) {
            Ok(made) => result is Ok && made == (match result->Ok_0 {
                Some(bytes) => Some(bytes@),
                None => None,
            }),
            Err(e) => result == Err::<Option<Vec<u8>>, ArchiveManagerError>(e),
        },
{
    let data = match data {
        Some(data) => data,
        None => {
            return Err(ArchiveManagerError::InvalidBlockData);
        },
    };
    let name = id.filename();
    match make_archive_segment(name.as_slice(), data) {
        Ok(made) => Ok(Some(made)),
        Err(ArchivePackageError::TooLongFilename) => Err(ArchiveManagerError::TooLongFilename),
        Err(_) => Err(ArchiveManagerError::TooBigData),
    }
}

/// Moves a block into its archive: builds the batch that appends the
/// stored body and proof of the block to the archive and stores the handle
/// as archived.
///
/// `block_data` and `proof_data` are the package entries of the block as
/// they were read, `None` where there is none. Only one call moves a
/// block: a call for a block that is archived, or that another call has
/// begun to move, changes nothing and returns no batch. The call that
/// moves the block marks the handle first; where a stored entry is
/// missing or cannot be framed it fails, and the mark stays.
pub fn move_into_archive(
    archive_ids: &mut ArchiveIds,
    handle: &mut BlockHandle,
    block_data: Option<&[u8]>,
    proof_data: Option<&[u8]>,
) -> (result: Result<Option<WriteBatch>, ArchiveManagerError>)
    requires
        old(archive_ids).wf(),
    ensures
        final(archive_ids).wf(),
        final(handle).meta.keeps(old(handle).meta),
        final(handle).id == old(handle).id,
        !wins_archiving(*old(handle)) ==> {
            &&& result == Ok::<Option<WriteBatch>, ArchiveManagerError>(None)
            &&& *final(handle) == *old(handle)
            &&& final(archive_ids)@ == old(archive_ids)@
        },
        wins_archiving(*old(handle)) ==> {
            let block = block_segment(
                *old(handle),
                match block_data {
                    Some(bytes) => Some(bytes@),
                    None => None,
                },
            );
            let proof = proof_segment(
                *old(handle),
                match proof_data {
                    Some(bytes) => Some(bytes@),
                    None => None,
                },
            );
            let archive_id = assigned_archive(
                old(archive_ids)@,
                old(handle).mc_seq_no(),
                old(handle).meta.is_key_block,
            );
            if block is Err {
                &&& result == Err::<Option<WriteBatch>, ArchiveManagerError>(block->Err_0)
                &&& *final(handle) == handle_moving(*old(handle))
                &&& final(archive_ids)@ == old(archive_ids)@
            } else if proof is Err {
                &&& result == Err::<Option<WriteBatch>, ArchiveManagerError>(proof->Err_0)
                &&& *final(handle) == handle_moving(*old(handle))
                &&& final(archive_ids)@ == old(archive_ids)@
            } else {
                &&& result is Ok
                &&& result->Ok_0 is Some
                &&& result->Ok_0->0@ == archive_merge(archive_id, block->Ok_0) + archive_merge(
                    archive_id,
                    proof->Ok_0,
                ) + handle_put(handle_archived(*old(handle)))
                &&& *final(handle) == handle_archived(*old(handle))
                &&& final(archive_ids)@ == ids_after_assignment(
                    old(archive_ids)@,
                    old(handle).mc_seq_no(),
                    old(handle).meta.is_key_block,
                )
            }
        },
{
    if handle.meta.is_archived() {
        return Ok(None);
    }
    if !handle.meta.set_is_moving_to_archive() {
        return Ok(None);
    }
    let has_data = handle.meta.has_data();
    let mut is_link = false;
    let has_proof = handle.has_proof_or_link(&mut is_link);
    let block_segment = if has_data {
        cut_segment(&PackageEntryId::Block(handle.id), block_data)?
    } else {
        None
    };
    let proof_segment = if has_proof {
        let entry_id = if is_link {
            PackageEntryId::ProofLink(handle.id)
        } else {
            PackageEntryId::Proof(handle.id)
        };
        cut_segment(&entry_id, proof_data)?
    } else {
        None
    };
    let archive_id = archive_ids.compute_archive_id(
        handle.masterchain_ref_seqno(),
        handle.meta.is_key_block(),
    );
    let key = archive_key(archive_id);
    let mut batch = WriteBatch::new();
    if let Some(data) = &block_segment {
        batch.merge_cf(Column::Archives, key.as_slice(), data.as_slice());
    }
    if let Some(data) = &proof_segment {
        batch.merge_cf(Column::Archives, key.as_slice(), data.as_slice());
    }
    if handle.meta.set_is_archived() {
        let row = handle.meta.to_vec();
        batch.put_cf(Column::BlockHandles, handle.id.root_hash.as_slice(), row.as_slice());
    }
    Ok(Some(batch))
}

/// Moves a block into its archive with segments that the caller has made:
/// builds the batch that appends the two to the archive and stores the
/// handle as archived.
///
/// A call for a block that is archived, or that another call has begun to
/// move, changes nothing and returns no batch.
pub fn move_into_archive_with_data(
    archive_ids: &mut ArchiveIds,
    handle: &mut BlockHandle,
    block_data: &[u8],
    block_proof_data: &[u8],
) -> (result: Option<WriteBatch>)
    requires
        old(archive_ids).wf(),
    ensures
        final(archive_ids).wf(),
        final(handle).meta.keeps(old(handle).meta),
        final(handle).id == old(handle).id,
        !wins_archiving(*old(handle)) ==> {
            &&& result is None
            &&& *final(handle) == *old(handle)
            &&& final(archive_ids)@ == old(archive_ids)@
        },
        wins_archiving(*old(handle)) ==> {
            let archive_id = assigned_archive(
                old(archive_ids)@,
                old(handle).mc_seq_no(),
                old(handle).meta.is_key_block,
            );
            &&& result is Some
            &&& result->0@ == archive_merge(archive_id, Some(block_data@)) + archive_merge(
                archive_id,
                Some(block_proof_data@),
            ) + handle_put(handle_archived(*old(handle)))
            &&& *final(handle) == handle_archived(*old(handle))
            &&& final(archive_ids)@ == ids_after_assignment(
                old(archive_ids)@,
                old(handle).mc_seq_no(),
                old(handle).meta.is_key_block,
            )
        },
{
    if handle.meta.is_archived() {
        return None;
    }
    if !handle.meta.set_is_moving_to_archive() {
        return None;
    }
    let archive_id = archive_ids.compute_archive_id(
        handle.masterchain_ref_seqno(),
        handle.meta.is_key_block(),
    );
    let key = archive_key(archive_id);
    let mut batch = WriteBatch::new();
    batch.merge_cf(Column::Archives, key.as_slice(), block_data);
    batch.merge_cf(Column::Archives, key.as_slice(), block_proof_data);
    if handle.meta.set_is_archived() {
        let row = handle.meta.to_vec();
        batch.put_cf(Column::BlockHandles, handle.id.root_hash.as_slice(), row.as_slice());
    }
    Some(batch)
}

/// The writes that delete the archives `ids`.
pub open spec fn archive_deletes(ids: Seq<u32>) -> Seq<Write> {
    Seq::new(ids.len(), |i: int| Write::Delete { column: Column::Archives, key: u32_be(ids[i]) })
}

/// Drops the archives that lie wholly before `until_id`: takes their ids
/// out of the index and builds the batch that deletes their rows. The
/// greatest id below `until_id` stays, with all above it. Returns no batch
/// where nothing is dropped.
pub fn remove_outdated_archives(archive_ids: &mut ArchiveIds, until_id: u32) -> (result: (
    Vec<u32>,
    Option<WriteBatch>,
))
    requires
        old(archive_ids).wf(),
    ensures
        final(archive_ids).wf(),
        forall|id: u32|
            result.0@.contains(id) <==> old(archive_ids)@.contains(id) && exists|m: u32|
                crate::archive_ids::is_below(old(archive_ids)@, until_id, m) && id < m,
        forall|id: u32|
            #[trigger] final(archive_ids)@.contains(id) <==> old(archive_ids)@.contains(id)
                && !result.0@.contains(id),
        match result.1 {
            Some(batch) => result.0@.len() > 0 && batch@ == archive_deletes(result.0@),
            None => result.0@.len() == 0,
        },
{
    let removed = archive_ids.remove_outdated_archives(until_id);
    if removed.len() == 0 {
        return (removed, None);
    }
    let mut batch = WriteBatch::new();
    let mut i: usize = 0;
    while i < removed.len()
        invariant
            i <= removed@.len(),
            batch@ == archive_deletes(removed@.take(i as int)),
        decreases removed@.len() - i,
    {
        let key = archive_key(removed[i]);
        batch.delete_cf(Column::Archives, key.as_slice());
        i = i + 1;
        assert(batch@ =~= archive_deletes(removed@.take(i as int)));
    }
    assert(removed@.take(removed@.len() as int) =~= removed@);
    (removed, Some(batch))
}

/// What the four columns of the archive manager hold.
pub struct Columns {
    /// Archives by archive id.
    pub archives: Map<Seq<u8>, Seq<u8>>,
    /// Stored bodies and proofs by package entry key.
    pub package_entries: Map<Seq<u8>, Seq<u8>>,
    /// Handle metadata by root hash.
    pub block_handles: Map<Seq<u8>, Seq<u8>>,
    /// Key blocks by sequence number.
    pub key_blocks: Map<Seq<u8>, Seq<u8>>,
}

/// The rows of a column after one write to it. The merge of the archive
/// column appends the operand to the row; the other columns have none.
pub open spec fn apply_to_column(
    rows: Map<Seq<u8>, Seq<u8>>,
    write: Write,
    appends: bool,
) -> Map<Seq<u8>, Seq<u8>> {
    match write {
        Write::Put { column, key, value } => rows.insert(key, value),
        Write::Merge { column, key, value } => if !appends {
            rows
        } else if rows.contains_key(key) {
            rows.insert(key, rows[key] + value)
        } else {
            rows.insert(key, value)
        },
        Write::Delete { column, key } => rows.remove(key),
    }
}

/// The column that a write goes to.
pub open spec fn column_of(write: Write) -> Column {
    match write {
        Write::Put { column, key, value } => column,
        Write::Merge { column, key, value } => column,
        Write::Delete { column, key } => column,
    }
}

/// The columns after one write.
pub open spec fn apply_column_write(columns: Columns, write: Write) -> Columns {
    match column_of(write) {
        Column::Archives => Columns {
            archives: apply_to_column(columns.archives, write, true),
            ..columns
        },
        Column::PackageEntries => Columns {
            package_entries: apply_to_column(columns.package_entries, write, false),
            ..columns
        },
        Column::BlockHandles => Columns {
            block_handles: apply_to_column(columns.block_handles, write, false),
            ..columns
        },
        Column::KeyBlocks => Columns {
            key_blocks: apply_to_column(columns.key_blocks, write, false),
            ..columns
        },
        Column::Cells => columns,
    }
}

/// The columns after `writes`, applied one after the other.
pub open spec fn apply_column_writes(columns: Columns, writes: Seq<Write>) -> Columns
    decreases writes.len(),
{
    if writes.len() == 0 {
        columns
    } else {
        apply_column_write(apply_column_writes(columns, writes.drop_last()), writes.last())
    }
}

/// Whether the masterchain block that `key` names is a key block.
pub open spec fn is_key_block_entry(key_blocks: Map<Seq<u8>, Seq<u8>>, key: Seq<u8>) -> bool {
    key_blocks.contains_key(u32_be(key_seq_no(key)))
}

/// The state of a run of block garbage collection that has looked at the
/// package entries `keys`, one after the other.
pub open spec fn gc_run(
    keys: Seq<Seq<u8>>,
    top_blocks: TopBlocks,
    key_blocks: Map<Seq<u8>, Seq<u8>>,
    max_blocks_per_batch: Option<usize>,
) -> GcState
    decreases keys.len(),
{
    if keys.len() == 0 {
        GcState::start()
    } else {
        gc_run(keys.drop_last(), top_blocks, key_blocks, max_blocks_per_batch).visit(
            keys.last(),
            top_blocks,
            is_key_block_entry(key_blocks, keys.last()),
            max_blocks_per_batch,
        )
    }
}

/// Number of keys in front of the first key of `keys` that is too short
/// to be the key of a package entry.
pub open spec fn valid_keys(keys: Seq<Seq<u8>>) -> int
    decreases keys.len(),
{
    if keys.len() == 0 {
        0
    } else if valid_keys(keys.drop_last()) < keys.len() - 1 {
        valid_keys(keys.drop_last())
    } else if keys.last().len() >= PACKAGE_ENTRY_PREFIX_LEN {
        keys.len() as int
    } else {
        keys.len() - 1
    }
}

/// Whether `writes` removes the package entry `key`.
pub open spec fn removes_entry(writes: Seq<Write>, key: Seq<u8>) -> bool {
    exists|i: int|
        0 <= i < writes.len() && #[trigger] writes[i] == (Write::Delete {
            column: Column::PackageEntries,
            key,
        })
}

/// Whether every write of `writes` removes a row.
pub open spec fn only_deletes(writes: Seq<Write>) -> bool {
    forall|i: int| 0 <= i < writes.len() ==> #[trigger] writes[i] is Delete
}

/// Garbage collection only removes rows, and it removes no package entry
/// that it keeps by its rules.
pub proof fn lemma_gc_run(
    keys: Seq<Seq<u8>>,
    top_blocks: TopBlocks,
    key_blocks: Map<Seq<u8>, Seq<u8>>,
    max_blocks_per_batch: Option<usize>,
    key: Seq<u8>,
)
    ensures
        ({
            let state = gc_run(keys, top_blocks, key_blocks, max_blocks_per_batch);
            &&& only_deletes(state.flushed + state.pending)
            &&& removes_entry(state.flushed + state.pending, key) ==> !gc_keeps(
                key,
                top_blocks,
                is_key_block_entry(key_blocks, key),
            )
        }),
    decreases keys.len(),
{
    if keys.len() > 0 {
        let before = gc_run(keys.drop_last(), top_blocks, key_blocks, max_blocks_per_batch);
        let state = gc_run(keys, top_blocks, key_blocks, max_blocks_per_batch);
        let last = keys.last();
        lemma_gc_run(keys.drop_last(), top_blocks, key_blocks, max_blocks_per_batch, key);
        let old_writes = before.flushed + before.pending;
        let writes = state.flushed + state.pending;
        if gc_keeps(last, top_blocks, is_key_block_entry(key_blocks, last)) {
            assert(writes =~= old_writes);
        } else {
            assert(writes =~= old_writes + gc_deletes(last));
            assert forall|i: int| 0 <= i < writes.len() implies #[trigger] writes[i] is Delete by {
                if i < old_writes.len() {
                    assert(old_writes[i] is Delete);
                }
            }
            if removes_entry(writes, key) {
                let i = choose|i: int|
                    0 <= i < writes.len() && #[trigger] writes[i] == (Write::Delete {
                        column: Column::PackageEntries,
                        key,
                    });
                if i < old_writes.len() {
                    assert(old_writes[i] == writes[i]);
                    assert(removes_entry(old_writes, key));
                } else {
                    assert(key == last);
                }
            }
        }
    } else {
        assert(GcState::start().flushed + GcState::start().pending =~= Seq::<Write>::empty());
    }
}

/// Writes that only remove rows leave every package entry that they do
/// not remove as it was.
pub proof fn lemma_deletes_keep(columns: Columns, writes: Seq<Write>, key: Seq<u8>)
    requires
        only_deletes(writes),
        !removes_entry(writes, key),
    ensures
        apply_column_writes(columns, writes).package_entries.get(key)
            == columns.package_entries.get(key),
    decreases writes.len(),
{
    if writes.len() > 0 {
        let front = writes.drop_last();
        assert forall|i: int| 0 <= i < front.len() implies #[trigger] front[i] is Delete by {
            assert(writes[i] is Delete);
        }
        assert(!removes_entry(front, key)) by {
            if removes_entry(front, key) {
                let i = choose|i: int|
                    0 <= i < front.len() && #[trigger] front[i] == (Write::Delete {
                        column: Column::PackageEntries,
                        key,
                    });
                assert(writes[i] == front[i]);
            }
        }
        lemma_deletes_keep(columns, front, key);
        assert(writes[writes.len() - 1] is Delete);
        assert(writes[writes.len() - 1] != (Write::Delete { column: Column::PackageEntries, key }));
    }
}

/// Whether no write of `writes` goes to the archive column.
pub open spec fn spares_archives(writes: Seq<Write>) -> bool {
    forall|i: int| 0 <= i < writes.len() ==> column_of(#[trigger] writes[i]) != Column::Archives
}

/// Writes to other columns leave the archives as they were.
pub proof fn lemma_spares_archives(columns: Columns, writes: Seq<Write>)
    requires
        spares_archives(writes),
    ensures
        apply_column_writes(columns, writes).archives == columns.archives,
    decreases writes.len(),
{
    if writes.len() > 0 {
        let front = writes.drop_last();
        assert forall|i: int| 0 <= i < front.len() implies column_of(#[trigger] front[i])
            != Column::Archives by {
            assert(front[i] == writes[i]);
        }
        lemma_spares_archives(columns, front);
        assert(column_of(writes[writes.len() - 1]) != Column::Archives);
    }
}

/// Where every key in front of `i` is long enough and the key at `i` is
/// not, `i` keys are valid.
pub proof fn lemma_valid_keys_stop(keys: Seq<Seq<u8>>, i: int)
    requires
        0 <= i < keys.len(),
        forall|j: int| 0 <= j < i ==> (#[trigger] keys[j]).len() >= PACKAGE_ENTRY_PREFIX_LEN,
        keys[i].len() < PACKAGE_ENTRY_PREFIX_LEN,
    ensures
        valid_keys(keys) == i,
    decreases keys.len(),
{
    if i == keys.len() - 1 {
        lemma_valid_keys_all(keys.drop_last());
    } else {
        lemma_valid_keys_stop(keys.drop_last(), i);
    }
}

/// Where every key is long enough, all keys are valid.
pub proof fn lemma_valid_keys_all(keys: Seq<Seq<u8>>)
    requires
        forall|j: int| 0 <= j < keys.len() ==> (#[trigger] keys[j]).len()
            >= PACKAGE_ENTRY_PREFIX_LEN,
    ensures
        valid_keys(keys) == keys.len(),
    decreases keys.len(),
{
    if keys.len() > 0 {
        lemma_valid_keys_all(keys.drop_last());
    }
}

/// The outcome of moving a block into its archive: the writes of the
/// batch, or the error with which the move fails.
pub open spec fn archive_move(
    ids: Set<u32>,
    handle: BlockHandle,
    block_data: Option<Seq<u8>>,
    proof_data: Option<Seq<u8>>,
) -> Result<Seq<Write>, ArchiveManagerError> {
    let block = block_segment(handle, block_data);
    let proof = proof_segment(handle, proof_data);
    let archive_id = assigned_archive(ids, handle.mc_seq_no(), handle.meta.is_key_block);
    if block is Err {
        Err(block->Err_0)
    } else if proof is Err {
        Err(proof->Err_0)
    } else {
        Ok(
            archive_merge(archive_id, block->Ok_0) + archive_merge(archive_id, proof->Ok_0)
                + handle_put(handle_archived(handle)),
        )
    }
}

/// An archive manager over columns that are held in memory.
pub struct ArchiveManager {
    /// Archives by archive id.
    pub archives: Table<Vec<u8>>,
    /// Stored bodies and proofs by package entry key.
    pub package_entries: Table<Vec<u8>>,
    /// Handle metadata by root hash.
    pub block_handles: Table<Vec<u8>>,
    /// Key blocks by sequence number.
    pub key_blocks: Table<Vec<u8>>,
    /// The registered archive ids.
    pub archive_ids: ArchiveIds,
}

impl ArchiveManager {
    /// What the four columns hold.
    pub open spec fn columns(&self) -> Columns {
        Columns {
            archives: rows_of(self.archives),
            package_entries: rows_of(self.package_entries),
            block_handles: rows_of(self.block_handles),
            key_blocks: rows_of(self.key_blocks),
        }
    }

    /// The tables and the index are well formed.
    pub open spec fn wf(&self) -> bool {
        &&& self.archives.wf()
        &&& self.package_entries.wf()
        &&& self.block_handles.wf()
        &&& self.key_blocks.wf()
        &&& self.archive_ids.wf()
    }

    /// A manager over the given columns. Every key of the archive column
    /// is registered as an archive id; the call fails where one of them is
    /// not four bytes long.
    pub fn with_db(
        archives: Table<Vec<u8>>,
        package_entries: Table<Vec<u8>>,
        block_handles: Table<Vec<u8>>,
        key_blocks: Table<Vec<u8>>,
    ) -> (result: Result<Self, ArchiveManagerError>)
        requires
            archives.wf(),
            package_entries.wf(),
            block_handles.wf(),
            key_blocks.wf(),
        ensures
            result is Ok <==> forall|key: Seq<u8>| #[trigger]
                rows_of(archives).contains_key(key) ==> key.len() == 4,
            result is Err ==> result->Err_0 == ArchiveManagerError::InvalidArchiveKey,
            result is Ok ==> {
                let manager = result->Ok_0;
                &&& manager.wf()
                &&& manager.archives == archives
                &&& manager.package_entries == package_entries
                &&& manager.block_handles == block_handles
                &&& manager.key_blocks == key_blocks
                &&& forall|id: u32| #[trigger]
                    manager.archive_ids@.contains(id) <==> rows_of(archives).contains_key(
                        u32_be(id),
                    )
            },
    {
        let mut archive_ids = ArchiveIds::new();
        let n = archives.keys.len();
        let mut i: usize = 0;
        while i < n
            invariant
                archives.wf(),
                archive_ids.wf(),
                n == archives.keys@.len(),
                i <= n,
                forall|j: int| 0 <= j < i ==> (#[trigger] archives.keys()[j]).len() == 4,
                forall|id: u32| #[trigger]
                    archive_ids@.contains(id) <==> exists|j: int|
                        0 <= j < i && #[trigger] archives.keys()[j] == u32_be(id),
            decreases n - i,
        {
            let id = match archive_id_from_key(archives.keys[i].as_slice()) {
                Ok(id) => id,
                Err(e) => {
                    proof {
                        archives.lemma_found(archives.keys()[i as int], i as int);
                        assert(rows_of(archives).contains_key(archives.keys()[i as int]));
                    }
                    return Err(e);
                },
            };
            let ghost before = archive_ids@;
            archive_ids.insert(id);
            proof {
                lemma_u32_be_of_bytes(archives.keys()[i as int]);
                assert forall|other: u32| #[trigger]
                    archive_ids@.contains(other) <==> exists|j: int|
                        0 <= j < i + 1 && #[trigger] archives.keys()[j] == u32_be(other) by {
                    if before.contains(other) {
                        let j = choose|j: int|
                            0 <= j < i && #[trigger] archives.keys()[j] == u32_be(other);
                        assert(archives.keys()[j] == u32_be(other));
                    }
                    if exists|j: int|
                        0 <= j < i + 1 && #[trigger] archives.keys()[j] == u32_be(other) {
                        let j = choose|j: int|
                            0 <= j < i + 1 && #[trigger] archives.keys()[j] == u32_be(other);
                        if j == i {
                            crate::bytes::lemma_u32_be_injective(other, id);
                        } else {
                            assert(archives.keys()[j] == u32_be(other));
                        }
                    }
                    if other == id {
                        assert(archives.keys()[i as int] == u32_be(other));
                    }
                }
            }
            i = i + 1;
        }
        proof {
            assert forall|key: Seq<u8>| #[trigger]
                rows_of(archives).contains_key(key) implies key.len() == 4 by {
                let j = choose|j: int| crate::table::key_at(archives.keys(), key, j);
                assert(archives.keys()[j].len() == 4);
            }
            assert forall|id: u32| #[trigger]
                archive_ids@.contains(id) <==> rows_of(archives).contains_key(u32_be(id)) by {
                if archive_ids@.contains(id) {
                    let j = choose|j: int|
                        0 <= j < n && #[trigger] archives.keys()[j] == u32_be(id);
                    archives.lemma_found(u32_be(id), j);
                }
                if rows_of(archives).contains_key(u32_be(id)) {
                    let j = choose|j: int| crate::table::key_at(archives.keys(), u32_be(id), j);
                    assert(archives.keys()[j] == u32_be(id));
                }
            }
        }
        Ok(ArchiveManager { archives, package_entries, block_handles, key_blocks, archive_ids })
    }

    /// The ids of the archives that are not made of whole segments. Rows
    /// of the archive column whose key is not an archive id are passed over.
    pub fn verify_archives(&self) -> (broken: Vec<u32>)
        requires
            self.wf(),
        ensures
            forall|id: u32| #[trigger]
                broken@.contains(id) <==> self.columns().archives.contains_key(u32_be(id))
                    && !well_framed(self.columns().archives[u32_be(id)]),
    {
        let mut broken: Vec<u32> = Vec::new();
        let n = self.archives.keys.len();
        let mut i: usize = 0;
        while i < n
            invariant
                self.wf(),
                n == self.archives.keys@.len(),
                i <= n,
                forall|id: u32| #[trigger]
                    broken@.contains(id) <==> exists|j: int|
                        0 <= j < i && #[trigger] self.archives.keys()[j] == u32_be(id)
                            && !well_framed(self.archives.values@[j]@),
            decreases n - i,
        {
            let ghost before = broken@;
            if let Ok(id) = archive_id_from_key(self.archives.keys[i].as_slice()) {
                proof {
                    lemma_u32_be_of_bytes(self.archives.keys()[i as int]);
                }
                if check_archive(self.archives.values[i].as_slice()).is_err() {
                    broken.push(id);
                    assert(broken@[broken@.len() - 1] == id);
                }
            }
            proof {
                assert forall|other: u32| #[trigger]
                    broken@.contains(other) <==> exists|j: int|
                        0 <= j < i + 1 && #[trigger] self.archives.keys()[j] == u32_be(other)
                            && !well_framed(self.archives.values@[j]@) by {
                    if broken@.contains(other) {
                        let k = choose|k: int| 0 <= k < broken@.len() && broken@[k] == other;
                        if k < before.len() {
                            assert(before[k] == other);
                            assert(before.contains(other));
                            let j = choose|j: int|
                                0 <= j < i && #[trigger] self.archives.keys()[j] == u32_be(other)
                                    && !well_framed(self.archives.values@[j]@);
                            assert(self.archives.keys()[j] == u32_be(other));
                        } else {
                            assert(self.archives.keys()[i as int] == u32_be(other));
                        }
                    }
                    if exists|j: int|
                        0 <= j < i + 1 && #[trigger] self.archives.keys()[j] == u32_be(other)
                            && !well_framed(self.archives.values@[j]@) {
                        let j = choose|j: int|
                            0 <= j < i + 1 && #[trigger] self.archives.keys()[j] == u32_be(other)
                                && !well_framed(self.archives.values@[j]@);
                        if j < i {
                            assert(self.archives.keys()[j] == u32_be(other));
                            assert(before.contains(other));
                            let k = choose|k: int| 0 <= k < before.len() && before[k] == other;
                            assert(broken@[k] == other);
                        } else {
                            lemma_decode_encode(0, other, 0, 0, 0);
                            assert(broken@[broken@.len() - 1] == other);
                        }
                    }
                }
            }
            i = i + 1;
        }
        proof {
            assert forall|id: u32| #[trigger]
                broken@.contains(id) <==> self.columns().archives.contains_key(u32_be(id))
                    && !well_framed(self.columns().archives[u32_be(id)]) by {
                if broken@.contains(id) {
                    let j = choose|j: int|
                        0 <= j < n && #[trigger] self.archives.keys()[j] == u32_be(id)
                            && !well_framed(self.archives.values@[j]@);
                    self.archives.lemma_found(u32_be(id), j);
                }
                if self.columns().archives.contains_key(u32_be(id)) && !well_framed(
                    self.columns().archives[u32_be(id)],
                ) {
                    let j = choose|j: int|
                        crate::table::key_at(self.archives.keys(), u32_be(id), j);
                    self.archives.lemma_found(u32_be(id), j);
                    assert(self.archives.keys()[j] == u32_be(id));
                }
            }
        }
        broken
    }

    /// Applies the writes of `batch` to the columns, as the engine does.
    pub fn write(&mut self, batch: &WriteBatch)
        requires
            old(self).wf(),
        ensures
            final(self).wf(),
            final(self).archive_ids == old(self).archive_ids,
            final(self).columns() == apply_column_writes(old(self).columns(), batch@),
    {
        let mut i: usize = 0;
        assert(batch@.take(0) =~= Seq::<Write>::empty());
        while i < batch.ops.len()
            invariant
                self.wf(),
                self.archive_ids == old(self).archive_ids,
                i <= batch.ops@.len(),
                self.columns() == apply_column_writes(old(self).columns(), batch@.take(i as int)),
            decreases batch.ops@.len() - i,
        {
            let ghost columns = self.columns();
            match &batch.ops[i] {
                BatchOp::Put { column, key, value } => {
                    let mut row: Vec<u8> = Vec::new();
                    push_bytes(&mut row, value.as_slice());
                    match column {
                        Column::Archives => row_put(&mut self.archives, key.as_slice(), row),
                        Column::PackageEntries => row_put(
                            &mut self.package_entries,
                            key.as_slice(),
                            row,
                        ),
                        Column::BlockHandles => row_put(
                            &mut self.block_handles,
                            key.as_slice(),
                            row,
                        ),
                        Column::KeyBlocks => row_put(&mut self.key_blocks, key.as_slice(), row),
                        Column::Cells => {},
                    }
                },
                BatchOp::Merge { column, key, value } => {
                    match column {
                        Column::Archives => {
                            let mut row: Vec<u8> = Vec::new();
                            if let Some(existing) = row_get(&self.archives, key.as_slice()) {
                                push_bytes(&mut row, existing);
                            }
                            push_bytes(&mut row, value.as_slice());
                            row_put(&mut self.archives, key.as_slice(), row);
                        },
                        _ => {},
                    }
                },
                BatchOp::Delete { column, key } => {
                    match column {
                        Column::Archives => row_delete(&mut self.archives, key.as_slice()),
                        Column::PackageEntries => row_delete(
                            &mut self.package_entries,
                            key.as_slice(),
                        ),
                        Column::BlockHandles => row_delete(&mut self.block_handles, key.as_slice()),
                        Column::KeyBlocks => row_delete(&mut self.key_blocks, key.as_slice()),
                        Column::Cells => {},
                    }
                },
            }
            assert(self.columns() == apply_column_write(columns, batch@[i as int]));
            i = i + 1;
            assert(batch@.take(i as int).drop_last() =~= batch@.take(i - 1));
        }
        assert(batch@.take(batch@.len() as int) =~= batch@);
    }

    /// Stores `data` as the package entry `id`.
    pub fn add_data(&mut self, id: &PackageEntryId, data: &[u8])
        requires
            old(self).wf(),
        ensures
            final(self).wf(),
            final(self).archive_ids == old(self).archive_ids,
            final(self).columns() == (Columns {
                package_entries: old(self).columns().package_entries.insert(id.key(), data@),
                ..old(self).columns()
            }),
    {
        let key = id.to_vec();
        let mut row: Vec<u8> = Vec::new();
        push_bytes(&mut row, data);
        row_put(&mut self.package_entries, key.as_slice(), row);
    }

    /// Whether the package entry `id` is stored.
    pub fn has_data(&self, id: &PackageEntryId) -> (stored: bool)
        requires
            self.wf(),
        ensures
            stored == self.columns().package_entries.contains_key(id.key()),
    {
        let key = id.to_vec();
        row_get(&self.package_entries, key.as_slice()).is_some()
    }

    /// A copy of the package entry `id`. Fails where it is not stored.
    pub fn get_data(&self, handle: &BlockHandle, id: &PackageEntryId) -> (result: Result<
        Vec<u8>,
        ArchiveManagerError,
    >)
        requires
            self.wf(),
        ensures
            result is Ok <==> self.columns().package_entries.contains_key(id.key()),
            result is Ok ==> result->Ok_0@ == self.columns().package_entries[id.key()],
            result is Err ==> result->Err_0 == ArchiveManagerError::InvalidBlockData,
    {
        match self.get_data_ref(handle, id) {
            Ok(data) => {
                let mut copy: Vec<u8> = Vec::new();
                push_bytes(&mut copy, data);
                Ok(copy)
            },
            Err(e) => Err(e),
        }
    }

    /// The package entry `id`. Fails where it is not stored.
    pub fn get_data_ref<'a>(&'a self, handle: &'a BlockHandle, id: &PackageEntryId) -> (result:
        Result<&'a [u8], ArchiveManagerError>)
        requires
            self.wf(),
        ensures
            result is Ok <==> self.columns().package_entries.contains_key(id.key()),
            result is Ok ==> result->Ok_0@ == self.columns().package_entries[id.key()],
            result is Err ==> result->Err_0 == ArchiveManagerError::InvalidBlockData,
    {
        let key = id.to_vec();
        match row_get(&self.package_entries, key.as_slice()) {
            Some(data) => Ok(data),
            None => Err(ArchiveManagerError::InvalidBlockData),
        }
    }

    /// The archive in which the blocks of `mc_seq_no` are looked up.
    pub fn get_archive_id(&self, mc_seq_no: u32) -> (found: Option<u32>)
        requires
            self.wf(),
        ensures
            found == crate::archive_ids::archive_of(self.archive_ids@, mc_seq_no),
            found is Some ==> self.archive_ids@.contains(found->0) && found->0 <= mc_seq_no
                < found->0 + ARCHIVE_PACKAGE_SIZE,
    {
        self.archive_ids.get_archive_id(mc_seq_no)
    }

    /// The slice of the archive `id` from `offset` on, at most `limit`
    /// bytes long; `None` where there is no such archive. Fails where the
    /// archive ends at or before `offset`.
    pub fn get_archive_slice(&self, id: u32, offset: usize, limit: usize) -> (result: Result<
        Option<Vec<u8>>,
        ArchiveManagerError,
    >)
        requires
            self.wf(),
        ensures
            match self.columns().archives.get(u32_be(id)) {
                None => result == Ok::<Option<Vec<u8>>, ArchiveManagerError>(None),
                Some(value) => if offset < value.len() {
                    &&& result is Ok
                    &&& result->Ok_0 is Some
                    &&& result->Ok_0->0@ == slice_of(value, offset as int, limit as int)
                } else {
                    result == Err::<Option<Vec<u8>>, ArchiveManagerError>(
                        ArchiveManagerError::InvalidOffset,
                    )
                },
            },
    {
        let key = archive_key(id);
        match row_get(&self.archives, key.as_slice()) {
            Some(value) => match archive_slice(value, offset, limit) {
                Ok(slice) => Ok(Some(slice)),
                Err(e) => Err(e),
            },
            None => Ok(None),
        }
    }

    /// Moves a block into its archive: appends its stored body and proof
    /// to the archive and stores its handle as archived, in one batch.
    ///
    /// A call for a block that is archived, or that another call has begun
    /// to move, changes nothing. Where the archive that takes the block is
    /// registered, a lookup of the block finds it.
    pub fn move_into_archive(&mut self, handle: &mut BlockHandle) -> (result: Result<
        (),
        ArchiveManagerError,
    >)
        requires
            old(self).wf(),
        ensures
            final(self).wf(),
            final(handle).meta.keeps(old(handle).meta),
            final(handle).id == old(handle).id,
            !wins_archiving(*old(handle)) ==> {
                &&& result is Ok
                &&& *final(handle) == *old(handle)
                &&& final(self).archive_ids@ == old(self).archive_ids@
                &&& final(self).columns() == old(self).columns()
            },
            wins_archiving(*old(handle)) ==> match archive_move(
                old(self).archive_ids@,
                *old(handle),
                old(self).columns().package_entries.get(
                    PackageEntryId::Block(old(handle).id).key(),
                ),
                old(self).columns().package_entries.get(
                    if old(handle).proof_is_link() {
                        PackageEntryId::ProofLink(old(handle).id).key()
                    } else {
                        PackageEntryId::Proof(old(handle).id).key()
                    },
                ),
            ) {
                Ok(writes) => {
                    let archive_id = assigned_archive(
                        old(self).archive_ids@,
                        old(handle).mc_seq_no(),
                        old(handle).meta.is_key_block,
                    );
                    &&& result is Ok
                    &&& *final(handle) == handle_archived(*old(handle))
                    &&& final(self).archive_ids@ == ids_after_assignment(
                        old(self).archive_ids@,
                        old(handle).mc_seq_no(),
                        old(handle).meta.is_key_block,
                    )
                    &&& final(self).columns() == apply_column_writes(old(self).columns(), writes)
                    &&& final(self).archive_ids@.contains(archive_id)
                        ==> crate::archive_ids::archive_of(
                        final(self).archive_ids@,
                        old(handle).mc_seq_no(),
                    ) == Some(archive_id)
                },
                Err(e) => {
                    &&& result == Err::<(), ArchiveManagerError>(e)
                    &&& *final(handle) == handle_moving(*old(handle))
                    &&& final(self).archive_ids@ == old(self).archive_ids@
                    &&& final(self).columns() == old(self).columns()
                },
            },
    {
        proof {
            crate::archive_ids::lemma_assigned_covers(
                self.archive_ids@,
                handle.mc_seq_no(),
                handle.meta.is_key_block,
            );
        }
        let block_key = PackageEntryId::Block(handle.id).to_vec();
        let proof_key = if handle.id.shard_id.is_masterchain() {
            PackageEntryId::Proof(handle.id).to_vec()
        } else {
            PackageEntryId::ProofLink(handle.id).to_vec()
        };
        let batch = {
            let block_data = row_get(&self.package_entries, block_key.as_slice());
            let proof_data = row_get(&self.package_entries, proof_key.as_slice());
            move_into_archive(&mut self.archive_ids, handle, block_data, proof_data)?
        };
        if let Some(batch) = batch {
            self.write(&batch);
        }
        Ok(())
    }

    /// Moves a block into its archive with segments that the caller has
    /// made: appends the two to the archive and stores the handle as
    /// archived, in one batch.
    ///
    /// A call for a block that is archived, or that another call has begun
    /// to move, changes nothing.
    pub fn move_into_archive_with_data(
        &mut self,
        handle: &mut BlockHandle,
        block_data: &[u8],
        block_proof_data: &[u8],
    )
        requires
            old(self).wf(),
        ensures
            final(self).wf(),
            final(handle).meta.keeps(old(handle).meta),
            final(handle).id == old(handle).id,
            !wins_archiving(*old(handle)) ==> {
                &&& *final(handle) == *old(handle)
                &&& final(self).archive_ids@ == old(self).archive_ids@
                &&& final(self).columns() == old(self).columns()
            },
            wins_archiving(*old(handle)) ==> {
                let archive_id = assigned_archive(
                    old(self).archive_ids@,
                    old(handle).mc_seq_no(),
                    old(handle).meta.is_key_block,
                );
                &&& *final(handle) == handle_archived(*old(handle))
                &&& final(self).archive_ids@ == ids_after_assignment(
                    old(self).archive_ids@,
                    old(handle).mc_seq_no(),
                    old(handle).meta.is_key_block,
                )
                &&& final(self).columns() == apply_column_writes(
                    old(self).columns(),
                    archive_merge(archive_id, Some(block_data@)) + archive_merge(
                        archive_id,
                        Some(block_proof_data@),
                    ) + handle_put(handle_archived(*old(handle))),
                )
            },
    {
        let batch = move_into_archive_with_data(
            &mut self.archive_ids,
            handle,
            block_data,
            block_proof_data,
        );
        if let Some(batch) = batch {
            self.write(&batch);
        }
    }

    /// Drops the archives that lie wholly before `until_id` and returns
    /// their ids: the ids leave the index and the rows leave the archive
    /// column. The greatest id below `until_id` stays, with all above it.
    pub fn remove_outdated_archives(&mut self, until_id: u32) -> (removed: Vec<u32>)
        requires
            old(self).wf(),
        ensures
            final(self).wf(),
            forall|id: u32|
                removed@.contains(id) <==> old(self).archive_ids@.contains(id) && exists|m: u32|
                    crate::archive_ids::is_below(old(self).archive_ids@, until_id, m) && id < m,
            forall|id: u32|
                #[trigger] final(self).archive_ids@.contains(id) <==> old(
                    self,
                ).archive_ids@.contains(id) && !removed@.contains(id),
            final(self).columns() == apply_column_writes(
                old(self).columns(),
                archive_deletes(removed@),
            ),
    {
        let (removed, batch) = remove_outdated_archives(&mut self.archive_ids, until_id);
        match batch {
            Some(batch) => {
                self.write(&batch);
            },
            None => {
                assert(archive_deletes(removed@) =~= Seq::<Write>::empty());
            },
        }
        removed
    }
}

/// Where the fate of an entry does not hang on its block being a key
/// block, the run goes on the same way whatever it is told.
pub proof fn lemma_visit_unasked(
    state: GcState,
    key: Seq<u8>,
    top_blocks: TopBlocks,
    is_key_block: bool,
    max_blocks_per_batch: Option<usize>,
)
    requires
        !gc_asks(key, top_blocks),
    ensures
        state.visit(key, top_blocks, false, max_blocks_per_batch) == state.visit(
            key,
            top_blocks,
            is_key_block,
            max_blocks_per_batch,
        ),
{
}

/// Whether `writes` is the front of `whole`.
pub open spec fn front_of(writes: Seq<Write>, whole: Seq<Write>) -> bool {
    &&& writes.len() <= whole.len()
    &&& forall|i: int| 0 <= i < writes.len() ==> #[trigger] writes[i] == whole[i]
}

/// The writes of a run of garbage collection, all of them or only those
/// in front, leave every package entry that the rules keep as it was, and
/// touch no archive.
pub proof fn lemma_gc_safe(
    columns: Columns,
    keys: Seq<Seq<u8>>,
    top_blocks: TopBlocks,
    key_blocks: Map<Seq<u8>, Seq<u8>>,
    max_blocks_per_batch: Option<usize>,
    writes: Seq<Write>,
)
    requires
        front_of(
            writes,
            gc_run(keys, top_blocks, key_blocks, max_blocks_per_batch).flushed + gc_run(
                keys,
                top_blocks,
                key_blocks,
                max_blocks_per_batch,
            ).pending,
        ),
    ensures
        apply_column_writes(columns, writes).archives == columns.archives,
        forall|key: Seq<u8>|
            gc_keeps(key, top_blocks, is_key_block_entry(key_blocks, key))
                ==> #[trigger] apply_column_writes(columns, writes).package_entries.get(key)
                == columns.package_entries.get(key),
{
    let run = gc_run(keys, top_blocks, key_blocks, max_blocks_per_batch);
    let whole = run.flushed + run.pending;
    lemma_gc_run(keys, top_blocks, key_blocks, max_blocks_per_batch, Seq::empty());
    lemma_gc_columns(keys, top_blocks, key_blocks, max_blocks_per_batch);
    assert(only_deletes(writes)) by {
        assert forall|i: int| 0 <= i < writes.len() implies #[trigger] writes[i] is Delete by {
            assert(whole[i] is Delete);
        }
    }
    assert(spares_archives(writes)) by {
        assert forall|i: int| 0 <= i < writes.len() implies column_of(#[trigger] writes[i])
            != Column::Archives by {
            assert(column_of(whole[i]) != Column::Archives);
        }
    }
    lemma_spares_archives(columns, writes);
    assert forall|key: Seq<u8>|
        gc_keeps(
            key,
            top_blocks,
            is_key_block_entry(key_blocks, key),
        ) implies #[trigger] apply_column_writes(columns, writes).package_entries.get(key)
        == columns.package_entries.get(key) by {
        lemma_gc_run(keys, top_blocks, key_blocks, max_blocks_per_batch, key);
        if removes_entry(writes, key) {
            let i = choose|i: int|
                0 <= i < writes.len() && #[trigger] writes[i] == (Write::Delete {
                    column: Column::PackageEntries,
                    key,
                });
            assert(whole[i] == writes[i]);
            assert(removes_entry(whole, key));
        }
        lemma_deletes_keep(columns, writes, key);
    }
}

impl ArchiveManager {
    /// Whether the masterchain block `seq_no` is a key block.
    pub fn is_key_block(&self, seq_no: u32) -> (found: bool)
        requires
            self.wf(),
        ensures
            found == self.columns().key_blocks.contains_key(u32_be(seq_no)),
    {
        let key = archive_key(seq_no);
        row_get(&self.key_blocks, key.as_slice()).is_some()
    }

    /// Goes through the package entries as garbage collection does and
    /// returns the writes that are to be applied, with the outcome.
    fn plan_gc(&self, max_blocks_per_batch: Option<usize>, top_blocks: &TopBlocks) -> (plan: (
        WriteBatch,
        Result<BlockGcStats, ArchiveManagerError>,
    ))
        requires
            self.wf(),
        ensures
            ({
                let keys = self.package_entries.keys();
                let valid = valid_keys(keys);
                let run = gc_run(
                    keys.take(valid),
                    *top_blocks,
                    self.columns().key_blocks,
                    max_blocks_per_batch,
                );
                &&& 0 <= valid <= keys.len()
                &&& if valid == keys.len() {
                    &&& plan.1 == Ok::<BlockGcStats, ArchiveManagerError>(run.stats)
                    &&& plan.0@ == run.flushed + run.pending
                } else {
                    &&& plan.1 == Err::<BlockGcStats, ArchiveManagerError>(
                        ArchiveManagerError::InvalidPackageEntryId,
                    )
                    &&& plan.0@ == run.flushed
                }
            }),
    {
        let mut run = BlockGc::new(max_blocks_per_batch);
        let mut applied = WriteBatch::new();
        let n = self.package_entries.keys.len();
        let ghost keys = self.package_entries.keys();
        let ghost key_blocks = self.columns().key_blocks;
        let mut i: usize = 0;
        assert(keys.take(0) =~= Seq::<Seq<u8>>::empty());
        while i < n
            invariant
                self.wf(),
                run.wf(),
                run.max_blocks_per_batch == max_blocks_per_batch,
                keys == self.package_entries.keys(),
                key_blocks == self.columns().key_blocks,
                n == keys.len(),
                i <= n,
                forall|j: int| 0 <= j < i ==> (#[trigger] keys[j]).len()
                    >= PACKAGE_ENTRY_PREFIX_LEN,
                run@ == gc_run(keys.take(i as int), *top_blocks, key_blocks, max_blocks_per_batch),
                applied@ == run@.flushed,
            decreases n - i,
        {
            let ghost before = run@;
            let ghost key = keys[i as int];
            assert(keys.take(i + 1).drop_last() =~= keys.take(i as int));
            assert(keys.take(i + 1).last() == key);
            let asked = BlockGc::needs_key_block(
                self.package_entries.keys[i].as_slice(),
                top_blocks,
            );
            let is_key_block = match asked {
                Ok(Some(seq_no)) => self.is_key_block(seq_no),
                Ok(None) => {
                    proof {
                        lemma_visit_unasked(
                            before,
                            key,
                            *top_blocks,
                            is_key_block_entry(key_blocks, key),
                            max_blocks_per_batch,
                        );
                    }
                    false
                },
                Err(e) => {
                    proof {
                        lemma_valid_keys_stop(keys, i as int);
                    }
                    return (applied, Err(e));
                },
            };
            let flushed = run.visit(
                self.package_entries.keys[i].as_slice(),
                top_blocks,
                is_key_block,
            );
            match flushed {
                Ok(Some(batch)) => {
                    applied.append(batch);
                },
                _ => {},
            }
            i = i + 1;
        }
        assert(keys.take(n as int) =~= keys);
        proof {
            lemma_valid_keys_all(keys);
        }
        let (last, stats) = run.finish();
        if let Some(batch) = last {
            applied.append(batch);
        }
        (applied, Ok(stats))
    }

    /// Collects the blocks that are no longer needed: goes through the
    /// package entries and removes each one that is neither at or past the
    /// frontier of `top_blocks`, nor the first block of its shard, nor a
    /// key block of the masterchain, together with the handle of its
    /// block. A batch is written at every `max_blocks_per_batch` removals,
    /// and one at the end.
    ///
    /// Fails at the first key that is too short to be the key of a package
    /// entry; the batches that were written before stay written. Whatever
    /// the outcome, no entry is removed that the rules keep, and no archive
    /// is touched.
    pub fn gc(&mut self, max_blocks_per_batch: Option<usize>, top_blocks: &TopBlocks) -> (result:
        Result<BlockGcStats, ArchiveManagerError>)
        requires
            old(self).wf(),
        ensures
            final(self).wf(),
            final(self).archive_ids == old(self).archive_ids,
            ({
                let keys = old(self).package_entries.keys();
                let key_blocks = old(self).columns().key_blocks;
                let valid = valid_keys(keys);
                let run = gc_run(keys.take(valid), *top_blocks, key_blocks, max_blocks_per_batch);
                if valid == keys.len() {
                    &&& result == Ok::<BlockGcStats, ArchiveManagerError>(run.stats)
                    &&& final(self).columns() == apply_column_writes(
                        old(self).columns(),
                        run.flushed + run.pending,
                    )
                } else {
                    &&& result == Err::<BlockGcStats, ArchiveManagerError>(
                        ArchiveManagerError::InvalidPackageEntryId,
                    )
                    &&& final(self).columns() == apply_column_writes(
                        old(self).columns(),
                        run.flushed,
                    )
                }
            }),
            forall|key: Seq<u8>|
                gc_keeps(
                    key,
                    *top_blocks,
                    is_key_block_entry(old(self).columns().key_blocks, key),
                ) ==> #[trigger] final(self).columns().package_entries.get(key) == old(
                    self,
                ).columns().package_entries.get(key),
            final(self).columns().archives == old(self).columns().archives,
    {
        let (applied, result) = self.plan_gc(max_blocks_per_batch, top_blocks);
        proof {
            let keys = self.package_entries.keys();
            lemma_gc_safe(
                self.columns(),
                keys.take(valid_keys(keys)),
                *top_blocks,
                self.columns().key_blocks,
                max_blocks_per_batch,
                applied@,
            );
        }
        self.write(&applied);
        result
    }
}

/// No write of a run of garbage collection goes to the archive column.
pub proof fn lemma_gc_columns(
    keys: Seq<Seq<u8>>,
    top_blocks: TopBlocks,
    key_blocks: Map<Seq<u8>, Seq<u8>>,
    max_blocks_per_batch: Option<usize>,
)
    ensures
        ({
            let run = gc_run(keys, top_blocks, key_blocks, max_blocks_per_batch);
            spares_archives(run.flushed + run.pending)
        }),
    decreases keys.len(),
{
    if keys.len() > 0 {
        let before = gc_run(keys.drop_last(), top_blocks, key_blocks, max_blocks_per_batch);
        let run = gc_run(keys, top_blocks, key_blocks, max_blocks_per_batch);
        let last = keys.last();
        lemma_gc_columns(keys.drop_last(), top_blocks, key_blocks, max_blocks_per_batch);
        let old_writes = before.flushed + before.pending;
        let writes = run.flushed + run.pending;
        if gc_keeps(last, top_blocks, is_key_block_entry(key_blocks, last)) {
            assert(writes =~= old_writes);
        } else {
            assert(writes =~= old_writes + gc_deletes(last));
            assert forall|i: int| 0 <= i < writes.len() implies column_of(#[trigger] writes[i])
                != Column::Archives by {
                if i < old_writes.len() {
                    assert(column_of(old_writes[i]) != Column::Archives);
                }
            }
        }
    } else {
        assert(GcState::start().flushed + GcState::start().pending =~= Seq::<Write>::empty());
    }
}

/// One end of a range of archive ids.
#[derive(Clone, Copy, Debug, PartialEq, Eq, Structural)]
pub enum IdBound {
    /// The range goes up to, or starts at, the id.
    Included(u32),
    /// The range stops before, or starts behind, the id.
    Excluded(u32),
    /// The range has no end on this side.
    Unbounded,
}

/// An archive as it is read from the archive column.
pub struct Archive {
    pub id: u32,
    pub data: Vec<u8>,
}

/// An archive id and the position of its row in the archive column.
#[derive(Clone, Copy)]
pub struct ArchiveRow {
    pub id: u32,
    pub at: usize,
}

/// Whether `id` lies in the range from `start` to `end`.
pub open spec fn id_in_range(start: IdBound, end: IdBound, id: u32) -> bool {
    &&& match start {
        IdBound::Included(first) => id >= first,
        IdBound::Excluded(before) => id > before,
        IdBound::Unbounded => true,
    }
    &&& match end {
        IdBound::Included(last) => id <= last,
        IdBound::Excluded(behind) => id < behind,
        IdBound::Unbounded => true,
    }
}

/// Whether `id` lies in the range from `start` to `end`.
pub fn in_range(start: IdBound, end: IdBound, id: u32) -> (holds: bool)
    ensures
        holds == id_in_range(start, end, id),
{
    let from_start = match start {
        IdBound::Included(first) => id >= first,
        IdBound::Excluded(before) => id > before,
        IdBound::Unbounded => true,
    };
    let to_end = match end {
        IdBound::Included(last) => id <= last,
        IdBound::Excluded(behind) => id < behind,
        IdBound::Unbounded => true,
    };
    from_start && to_end
}

/// The least id that a range that starts at `start` can hold: where the
/// archives are gone through in the order of their ids, the first archive
/// of the range is the first with that id or a greater one. `None` where
/// the range starts behind the greatest id and holds none.
pub fn first_in_range(start: IdBound) -> (first: Option<u32>)
    ensures
        match first {
            Some(least) => forall|id: u32| #[trigger]
                id_in_range(start, IdBound::Unbounded, id) <==> id >= least,
            None => forall|id: u32| !#[trigger] id_in_range(start, IdBound::Unbounded, id),
        },
{
    match start {
        IdBound::Included(first) => Some(first),
        IdBound::Excluded(before) => if before == u32::MAX {
            None
        } else {
            Some(before + 1)
        },
        IdBound::Unbounded => Some(0),
    }
}

impl ArchiveManager {
    /// The archive with the least id that is not below `lower` and not
    /// behind `end`: its id and the position of its row.
    fn next_archive(&self, lower: u64, end: IdBound) -> (found: Option<ArchiveRow>)
        requires
            self.wf(),
        ensures
            match found {
                Some(at) => {
                    &&& at.at < self.archives.keys().len()
                    &&& self.archives.keys()[at.at as int] == u32_be(at.id)
                    &&& at.id >= lower
                    &&& id_in_range(IdBound::Unbounded, end, at.id)
                    &&& forall|id: u32|
                        id >= lower && id_in_range(IdBound::Unbounded, end, id)
                            && #[trigger] self.columns().archives.contains_key(u32_be(id)) ==> at.id
                            <= id
                },
                None => forall|id: u32|
                    id >= lower && id_in_range(IdBound::Unbounded, end, id) ==> !(
                    #[trigger] self.columns().archives.contains_key(u32_be(id))),
            },
    {
        let mut best: Option<ArchiveRow> = None;
        let n = self.archives.keys.len();
        let mut i: usize = 0;
        while i < n
            invariant
                self.wf(),
                n == self.archives.keys().len(),
                i <= n,
                match best {
                    Some(at) => {
                        &&& at.at < i
                        &&& self.archives.keys()[at.at as int] == u32_be(at.id)
                        &&& at.id >= lower
                        &&& id_in_range(IdBound::Unbounded, end, at.id)
                    },
                    None => true,
                },
                forall|j: int, id: u32|
                    0 <= j < i && #[trigger] self.archives.keys()[j] == #[trigger] u32_be(id) && id
                        >= lower && id_in_range(IdBound::Unbounded, end, id) ==> best is Some
                        && best->0.id <= id,
            decreases n - i,
        {
            if let Ok(id) = archive_id_from_key(self.archives.keys[i].as_slice()) {
                proof {
                    lemma_u32_be_of_bytes(self.archives.keys()[i as int]);
                }
                let below_end = in_range(IdBound::Unbounded, end, id);
                let better = match best {
                    Some(at) => id < at.id,
                    None => true,
                };
                if id as u64 >= lower && below_end && better {
                    best = Some(ArchiveRow { id, at: i });
                }
            }
            proof {
                assert forall|j: int, id: u32|
                    0 <= j < i + 1 && #[trigger] self.archives.keys()[j] == #[trigger] u32_be(id)
                        && id >= lower && id_in_range(
                        IdBound::Unbounded,
                        end,
                        id,
                    ) implies best is Some && best->0.id <= id by {
                    if j == i {
                        lemma_decode_encode(0, id, 0, 0, 0);
                    }
                }
            }
            i = i + 1;
        }
        proof {
            assert forall|id: u32|
                id >= lower && id_in_range(IdBound::Unbounded, end, id)
                    && #[trigger] self.columns().archives.contains_key(
                    u32_be(id),
                ) implies best is Some && best->0.id <= id by {
                let j = choose|j: int| crate::table::key_at(self.archives.keys(), u32_be(id), j);
                assert(self.archives.keys()[j] == u32_be(id));
            }
        }
        best
    }

    /// The archives whose ids lie in the range from `start` to `end`, in
    /// the order of their ids.
    pub fn get_archives(&self, start: IdBound, end: IdBound) -> (found: Vec<Archive>)
        requires
            self.wf(),
        ensures
            forall|k: int|
                0 <= k < found@.len() ==> {
                    let archive = #[trigger] found@[k];
                    &&& id_in_range(start, end, archive.id)
                    &&& self.columns().archives.contains_key(u32_be(archive.id))
                    &&& self.columns().archives[u32_be(archive.id)] == archive.data@
                },
            forall|k: int, l: int|
                0 <= k < l < found@.len() ==> (#[trigger] found@[k]).id < (#[trigger] found@[l]).id,
            forall|id: u32|
                id_in_range(start, end, id) && #[trigger] self.columns().archives.contains_key(
                    u32_be(id),
                ) ==> exists|k: int| 0 <= k < found@.len() && (#[trigger] found@[k]).id == id,
    {
        let mut found: Vec<Archive> = Vec::new();
        let mut lower: u64 = match first_in_range(start) {
            Some(least) => least as u64,
            None => {
                assert forall|id: u32| !id_in_range(start, end, id) by {
                    assert(!id_in_range(start, IdBound::Unbounded, id));
                }
                return found;
            },
        };
        assert forall|id: u32| id >= lower implies #[trigger] id_in_range(
            start,
            IdBound::Unbounded,
            id,
        ) by {}
        assert forall|id: u32| id < lower implies !#[trigger] id_in_range(start, end, id) by {
            assert(!id_in_range(start, IdBound::Unbounded, id));
        }
        loop
            invariant
                self.wf(),
                lower <= 0x1_0000_0000,
                forall|id: u32| id_in_range(start, end, id) <==> id_in_range(
                    start,
                    IdBound::Unbounded,
                    id,
                ) && id_in_range(IdBound::Unbounded, end, id),
                forall|id: u32| id >= lower ==> #[trigger] id_in_range(
                    start,
                    IdBound::Unbounded,
                    id,
                ),
                forall|k: int|
                    0 <= k < found@.len() ==> {
                        let archive = #[trigger] found@[k];
                        &&& archive.id < lower
                        &&& id_in_range(start, end, archive.id)
                        &&& self.columns().archives.contains_key(u32_be(archive.id))
                        &&& self.columns().archives[u32_be(archive.id)] == archive.data@
                    },
                forall|k: int, l: int|
                    0 <= k < l < found@.len() ==> (#[trigger] found@[k]).id < (
                    #[trigger] found@[l]).id,
                forall|id: u32|
                    id < lower && id_in_range(start, end, id)
                        && #[trigger] self.columns().archives.contains_key(u32_be(id))
                        ==> exists|k: int|
                        0 <= k < found@.len() && (#[trigger] found@[k]).id == id,
            ensures
                forall|k: int|
                    0 <= k < found@.len() ==> {
                        let archive = #[trigger] found@[k];
                        &&& id_in_range(start, end, archive.id)
                        &&& self.columns().archives.contains_key(u32_be(archive.id))
                        &&& self.columns().archives[u32_be(archive.id)] == archive.data@
                    },
                forall|k: int, l: int|
                    0 <= k < l < found@.len() ==> (#[trigger] found@[k]).id < (
                    #[trigger] found@[l]).id,
                forall|id: u32|
                    id_in_range(start, end, id) && #[trigger] self.columns().archives.contains_key(
                        u32_be(id),
                    ) ==> exists|k: int| 0 <= k < found@.len() && (#[trigger] found@[k]).id == id,
            decreases 0x1_0000_0000 - lower,
        {
            let (id, at) = match self.next_archive(lower, end) {
                Some(next) => (next.id, next.at),
                None => {
                    break ;
                },
            };
            proof {
                self.archives.lemma_found(u32_be(id), at as int);
            }
            let mut data: Vec<u8> = Vec::new();
            push_bytes(&mut data, self.archives.values[at].as_slice());
            let ghost before = found@;
            found.push(Archive { id, data });
            proof {
                let after = found@;
                assert forall|other: u32|
                    other < id + 1 && id_in_range(start, end, other)
                        && #[trigger] self.columns().archives.contains_key(
                        u32_be(other),
                    ) implies exists|k: int|
                    0 <= k < after.len() && (#[trigger] after[k]).id == other by {
                    if other < lower {
                        let k = choose|k: int|
                            0 <= k < before.len() && (#[trigger] before[k]).id == other;
                        assert(after[k].id == other);
                    } else {
                        assert(other == id);
                        assert(after[after.len() - 1].id == other);
                    }
                }
            }
            lower = id as u64 + 1;
        }
        found
    }
}

} // verus!
