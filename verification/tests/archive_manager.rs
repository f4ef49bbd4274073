use ton_indexer::archive_ids::{ArchiveIds, ARCHIVE_PACKAGE_SIZE, ARCHIVE_SLICE_SIZE};
use ton_indexer::archive_manager::{
    archive_id_from_key, archive_key, archive_slice, first_in_range, in_range, move_into_archive,
    move_into_archive_with_data, remove_outdated_archives, ArchiveManager, ArchiveManagerError,
    BlockGc, BlockGcStats, IdBound,
};
use ton_indexer::archive_package::{
    check_archive, make_archive_segment, ArchivePackageError, ArchivePackageVerifier,
    ENTRY_HEADER_MAGIC,
};
use ton_indexer::batch::{BatchOp, Column, WriteBatch};
use ton_indexer::block_handle::{BlockHandle, BlockMeta};
use ton_indexer::block_id::{BlockId, ShardIdent, ShardTop, TopBlocks, MASTERCHAIN_ID};
use ton_indexer::package_entry_id::{PackageEntryId, PackageEntryIdPrefix};
use ton_indexer::table::Table;

const MC: ShardIdent = ShardIdent {
    workchain_id: MASTERCHAIN_ID,
    shard_prefix: 0x8000_0000_0000_0000,
};

const SHARD_A: ShardIdent = ShardIdent {
    workchain_id: 0,
    shard_prefix: 0x4000_0000_0000_0000,
};

fn block_id(shard_id: ShardIdent, seq_no: u32) -> BlockId {
    let mut root_hash = [0u8; 32];
    root_hash[..4].copy_from_slice(&seq_no.to_le_bytes());
    root_hash[4] = shard_id.workchain_id as u8;
    root_hash[5] = 1;
    let mut file_hash = root_hash;
    file_hash[5] = 2;
    BlockId {
        shard_id,
        seq_no,
        root_hash,
        file_hash,
    }
}

fn empty_manager() -> ArchiveManager {
    ArchiveManager::with_db(Table::new(), Table::new(), Table::new(), Table::new()).unwrap()
}

fn reload(manager: ArchiveManager) -> ArchiveManager {
    ArchiveManager::with_db(
        manager.archives,
        manager.package_entries,
        manager.block_handles,
        manager.key_blocks,
    )
    .unwrap()
}

/// Stores body and proof of a masterchain block and moves it into its archive.
fn archive_mc_block(manager: &mut ArchiveManager, seq_no: u32, is_key_block: bool) -> BlockHandle {
    let id = block_id(MC, seq_no);
    let mut meta = BlockMeta::new(seq_no);
    manager.add_data(&PackageEntryId::Block(id), &[1, 2, 3]);
    assert!(meta.set_has_data());
    manager.add_data(&PackageEntryId::Proof(id), &[4, 5]);
    assert!(meta.set_has_proof());
    if is_key_block {
        assert!(meta.set_is_key_block());
    }
    let mut handle = BlockHandle::new(id, meta);
    manager.move_into_archive(&mut handle).unwrap();
    assert!(handle.meta().is_archived());
    assert!(handle.meta().is_moving_to_archive());
    handle
}

fn archive_keys(manager: &ArchiveManager) -> Vec<u32> {
    let mut ids: Vec<u32> = manager
        .archives
        .keys
        .iter()
        .map(|key| archive_id_from_key(key).unwrap())
        .collect();
    ids.sort();
    ids
}

/// Number of segments in an archive.
fn segments(value: &[u8]) -> usize {
    let mut at = 0;
    let mut count = 0;
    while at < value.len() {
        let name = u16::from_le_bytes([value[at + 2], value[at + 3]]) as usize;
        let data = u32::from_le_bytes([value[at + 4], value[at + 5], value[at + 6], value[at + 7]])
            as usize;
        at += 8 + name + data;
        count += 1;
    }
    count
}

#[test]
fn constants() {
    assert_eq!(ARCHIVE_PACKAGE_SIZE, 100);
    assert_eq!(ARCHIVE_SLICE_SIZE, 20_000);
}

#[test]
fn archives_of_250_blocks() {
    let mut manager = empty_manager();
    for seq_no in 20000..20250 {
        archive_mc_block(&mut manager, seq_no, false);
    }
    assert_eq!(archive_keys(&manager), vec![20000, 20100, 20200]);
    assert_eq!(manager.get_archive_id(20150), Some(20100));
    assert_eq!(manager.get_archive_id(20299), Some(20200));
    assert_eq!(manager.get_archive_id(20300), None);
    // the first archive was never opened by a block of its own: it is
    // registered once the archive column is read again
    assert_eq!(manager.archive_ids.ids, vec![20100, 20200]);
    assert_eq!(manager.get_archive_id(20050), None);

    let manager = reload(manager);
    assert_eq!(manager.archive_ids.ids, vec![20000, 20100, 20200]);
    assert_eq!(manager.get_archive_id(20000), Some(20000));
    assert_eq!(manager.get_archive_id(20050), Some(20000));
    assert_eq!(manager.get_archive_id(20150), Some(20100));
    assert_eq!(manager.get_archive_id(20299), Some(20200));
    assert_eq!(manager.get_archive_id(20300), None);
    assert_eq!(manager.get_archive_id(19999), None);
    assert!(manager.verify_archives().is_empty());

    for id in [20000u32, 20100] {
        let value = manager.get_archive_slice(id, 0, usize::MAX).unwrap().unwrap();
        assert_eq!(segments(&value), 200);
    }
    let value = manager.get_archive_slice(20200, 0, usize::MAX).unwrap().unwrap();
    assert_eq!(segments(&value), 100);
}

#[test]
fn key_block_opens_an_archive() {
    let mut manager = empty_manager();
    for seq_no in 20000..20250 {
        if seq_no != 20050 {
            archive_mc_block(&mut manager, seq_no, false);
        }
    }
    let mut manager = reload(manager);
    assert_eq!(manager.archive_ids.ids, vec![20000, 20100, 20200]);

    archive_mc_block(&mut manager, 20050, true);
    assert_eq!(manager.archive_ids.ids, vec![20000, 20050, 20100, 20200]);
    for seq_no in 20050..20100 {
        assert_eq!(manager.get_archive_id(seq_no), Some(20050));
    }
    assert_eq!(manager.get_archive_id(20049), Some(20000));
    assert_eq!(manager.get_archive_id(20100), Some(20100));
    let value = manager.get_archive_slice(20050, 0, usize::MAX).unwrap().unwrap();
    assert_eq!(segments(&value), 2);
}

#[test]
fn key_block_in_the_stream_shifts_the_archives() {
    let mut ids = ArchiveIds::new();
    let mut assigned = Vec::new();
    for seq_no in 20000..20250u32 {
        assigned.push(ids.compute_archive_id(seq_no, seq_no == 20050));
    }
    assert_eq!(ids.ids, vec![20050, 20150]);
    assert!(assigned[..50].iter().all(|id| *id == 20000));
    assert!(assigned[50..150].iter().all(|id| *id == 20050));
    assert!(assigned[150..].iter().all(|id| *id == 20150));
    for seq_no in 20050..20100 {
        assert_eq!(ids.get_archive_id(seq_no), Some(20050));
    }
}

#[test]
fn archive_ids_index() {
    let mut ids = ArchiveIds::new();
    assert_eq!(ids.len(), 0);
    assert_eq!(ids.get_archive_id(5), None);
    assert_eq!(ids.latest_at_most(5), None);
    for id in [300u32, 100, 200, 100] {
        ids.insert(id);
    }
    assert_eq!(ids.ids, vec![100, 200, 300]);
    assert_eq!(ids.len(), 3);
    assert!(ids.contains(200));
    assert!(!ids.contains(201));
    assert_eq!(ids.latest_at_most(99), None);
    assert_eq!(ids.latest_at_most(100), Some(100));
    assert_eq!(ids.latest_at_most(299), Some(200));
    assert_eq!(ids.latest_at_most(u32::MAX), Some(300));
    assert_eq!(ids.get_archive_id(199), Some(100));
    assert_eq!(ids.get_archive_id(399), Some(300));
    assert_eq!(ids.get_archive_id(400), None);

    // a block far behind the last archive opens a new one
    assert_eq!(ids.compute_archive_id(450, false), 450);
    assert_eq!(ids.ids, vec![100, 200, 300, 450]);
    // one within the span of the last archive joins it
    assert_eq!(ids.compute_archive_id(460, false), 450);
    // the aligned id counts where it is past the registered ones
    assert_eq!(ids.compute_archive_id(20010, false), 20000);
    assert_eq!(ids.ids, vec![100, 200, 300, 450]);
    assert_eq!(ids.compute_archive_id(u32::MAX, true), u32::MAX);
    assert_eq!(ids.get_archive_id(u32::MAX), Some(u32::MAX));
}

#[test]
fn outdated_archives_are_dropped_below_the_last_one_before() {
    let mut ids = ArchiveIds::new();
    for id in [100u32, 200, 300, 400] {
        ids.insert(id);
    }
    // 300 is the greatest id below 350: it stays
    let (removed, batch) = remove_outdated_archives(&mut ids, 350);
    assert_eq!(removed, vec![100, 200]);
    assert_eq!(ids.ids, vec![300, 400]);
    let batch = batch.unwrap();
    assert_eq!(batch.len(), 2);
    match &batch.ops[1] {
        BatchOp::Delete { column, key } => {
            assert_eq!(*column, Column::Archives);
            assert_eq!(key.as_slice(), &200u32.to_be_bytes()[..]);
        }
        _ => panic!("archives are deleted"),
    }

    let (removed, batch) = remove_outdated_archives(&mut ids, 300);
    assert!(removed.is_empty());
    assert!(batch.is_none());
    let (removed, batch) = remove_outdated_archives(&mut ids, 301);
    assert!(removed.is_empty());
    assert!(batch.is_none());
    assert_eq!(ids.ids, vec![300, 400]);
    let (removed, _) = remove_outdated_archives(&mut ids, u32::MAX);
    assert_eq!(removed, vec![300]);
    assert_eq!(ids.ids, vec![400]);
}

#[test]
fn manager_drops_outdated_archives() {
    let mut manager = empty_manager();
    for seq_no in 20000..20250 {
        archive_mc_block(&mut manager, seq_no, false);
    }
    let mut manager = reload(manager);
    let removed = manager.remove_outdated_archives(20250);
    assert_eq!(removed, vec![20000, 20100]);
    assert_eq!(archive_keys(&manager), vec![20200]);
    assert_eq!(manager.get_archive_slice(20000, 0, 1), Ok(None));
    assert_eq!(manager.get_archive_id(20150), None);
    assert_eq!(manager.get_archive_id(20210), Some(20200));
}

#[test]
fn slices_join_to_the_archive() {
    let mut manager = empty_manager();
    for seq_no in 20000..20010 {
        archive_mc_block(&mut manager, seq_no, false);
    }
    let whole = manager.get_archive_slice(20000, 0, usize::MAX).unwrap().unwrap();
    assert!(whole.len() > 100);
    for width in [1usize, 7, 64, 100, whole.len(), whole.len() + 5] {
        let mut joined = Vec::new();
        let mut k = 0;
        loop {
            match manager.get_archive_slice(20000, k * width, width) {
                Ok(Some(slice)) => {
                    assert!(slice.len() <= width);
                    joined.extend_from_slice(&slice);
                }
                Err(e) => {
                    assert_eq!(e, ArchiveManagerError::InvalidOffset);
                    break;
                }
                Ok(None) => panic!("the archive is there"),
            }
            k += 1;
        }
        assert_eq!(joined, whole);
    }
    assert_eq!(
        manager.get_archive_slice(20000, whole.len(), 10),
        Err(ArchiveManagerError::InvalidOffset)
    );
    assert_eq!(manager.get_archive_slice(20001, 0, 10), Ok(None));
    assert_eq!(archive_slice(&[1, 2, 3, 4], 1, 2), Ok(vec![2, 3]));
    assert_eq!(archive_slice(&[1, 2, 3, 4], 3, usize::MAX), Ok(vec![4]));
    assert_eq!(
        archive_slice(&[], 0, 1),
        Err(ArchiveManagerError::InvalidOffset)
    );
}

#[test]
fn segments_are_framed() {
    let made = make_archive_segment(b"name", &[9, 8, 7]).unwrap();
    assert_eq!(
        made,
        vec![0x8b, 0x1e, 4, 0, 3, 0, 0, 0, b'n', b'a', b'm', b'e', 9, 8, 7]
    );
    assert_eq!(ENTRY_HEADER_MAGIC, 0x1e8b);
    assert_eq!(check_archive(&made), Ok(()));
    assert_eq!(check_archive(&[]), Ok(()));

    let mut two = made.clone();
    two.extend_from_slice(&make_archive_segment(b"", &[]).unwrap());
    assert_eq!(check_archive(&two), Ok(()));

    // the last segment is cut short
    assert_eq!(
        check_archive(&two[..two.len() - 1]),
        Err(ArchivePackageError::UnexpectedEntryEof)
    );
    assert_eq!(
        check_archive(&made[..made.len() - 1]),
        Err(ArchivePackageError::UnexpectedEntryEof)
    );
    let mut bad = made.clone();
    bad[0] = 0;
    assert_eq!(
        check_archive(&bad),
        Err(ArchivePackageError::InvalidArchiveEntryHeader)
    );
    let long_name = vec![b'a'; 0x1_0000];
    assert_eq!(
        make_archive_segment(&long_name, &[]),
        Err(ArchivePackageError::TooLongFilename)
    );
}

#[test]
fn broken_archives_are_reported_and_stay_readable() {
    let mut archives = Table::new();
    archives.insert_new(&20000u32.to_be_bytes(), make_archive_segment(b"a", &[1]).unwrap());
    archives.insert_new(&20100u32.to_be_bytes(), vec![1, 2, 3]);
    let manager =
        ArchiveManager::with_db(archives, Table::new(), Table::new(), Table::new()).unwrap();
    assert_eq!(manager.archive_ids.ids, vec![20000, 20100]);
    assert_eq!(manager.verify_archives(), vec![20100]);
    assert_eq!(manager.get_archive_slice(20100, 1, 5), Ok(Some(vec![2, 3])));
}

#[test]
fn archive_keys_must_be_ids() {
    let mut archives = Table::new();
    archives.insert_new(&[0, 0, 1], vec![]);
    assert_eq!(
        ArchiveManager::with_db(archives, Table::new(), Table::new(), Table::new()).err(),
        Some(ArchiveManagerError::InvalidArchiveKey)
    );
    assert_eq!(archive_id_from_key(&[0, 0, 0x4e, 0x20]), Ok(20000));
    assert_eq!(archive_key(20000), vec![0, 0, 0x4e, 0x20]);
    assert_eq!(
        archive_id_from_key(&[0, 0, 0, 0, 0]),
        Err(ArchiveManagerError::InvalidArchiveKey)
    );
}

#[test]
fn archives_are_listed_in_order() {
    let mut archives = Table::new();
    for id in [300u32, 100, 200, u32::MAX] {
        archives.insert_new(&id.to_be_bytes(), vec![id as u8]);
    }
    let manager =
        ArchiveManager::with_db(archives, Table::new(), Table::new(), Table::new()).unwrap();
    let ids = |start, end| -> Vec<u32> {
        manager
            .get_archives(start, end)
            .iter()
            .map(|archive| archive.id)
            .collect()
    };
    assert_eq!(
        ids(IdBound::Unbounded, IdBound::Unbounded),
        vec![100, 200, 300, u32::MAX]
    );
    assert_eq!(ids(IdBound::Included(100), IdBound::Excluded(300)), vec![100, 200]);
    assert_eq!(ids(IdBound::Excluded(100), IdBound::Included(300)), vec![200, 300]);
    assert_eq!(ids(IdBound::Excluded(u32::MAX), IdBound::Unbounded), Vec::<u32>::new());
    assert_eq!(ids(IdBound::Included(301), IdBound::Unbounded), vec![u32::MAX]);
    let found = manager.get_archives(IdBound::Included(200), IdBound::Included(200));
    assert_eq!(found.len(), 1);
    assert_eq!(found[0].data, vec![200]);
}

#[test]
fn moving_a_block_builds_one_batch() {
    let id = block_id(SHARD_A, 7);
    let mut meta = BlockMeta::new(20007);
    meta.set_has_data();
    meta.set_has_proof_link();
    let mut handle = BlockHandle::new(id, meta);
    let mut ids = ArchiveIds::new();

    let batch = move_into_archive(&mut ids, &mut handle, Some(&[1, 2]), Some(&[3]))
        .unwrap()
        .unwrap();
    assert_eq!(batch.len(), 3);
    let name = PackageEntryId::Block(id).filename();
    match &batch.ops[0] {
        BatchOp::Merge { column, key, value } => {
            assert_eq!(*column, Column::Archives);
            assert_eq!(key.as_slice(), &20000u32.to_be_bytes()[..]);
            assert_eq!(value, &make_archive_segment(&name, &[1, 2]).unwrap());
        }
        _ => panic!("the body is merged"),
    }
    let name = PackageEntryId::ProofLink(id).filename();
    match &batch.ops[1] {
        BatchOp::Merge { value, .. } => {
            assert_eq!(value, &make_archive_segment(&name, &[3]).unwrap());
        }
        _ => panic!("the proof link is merged"),
    }
    match &batch.ops[2] {
        BatchOp::Put { column, key, value } => {
            assert_eq!(*column, Column::BlockHandles);
            assert_eq!(key.as_slice(), &id.root_hash[..]);
            assert_eq!(value, &handle.meta().to_vec());
        }
        _ => panic!("the handle is stored"),
    }
    assert!(handle.meta().is_archived());

    // a second call finds the block archived
    assert!(move_into_archive(&mut ids, &mut handle, Some(&[1, 2]), Some(&[3]))
        .unwrap()
        .is_none());
}

#[test]
fn moving_is_left_to_the_call_that_began() {
    let id = block_id(MC, 20007);
    let mut meta = BlockMeta::new(20007);
    meta.set_has_data();
    meta.set_is_moving_to_archive();
    let mut handle = BlockHandle::new(id, meta);
    let mut ids = ArchiveIds::new();
    assert!(move_into_archive(&mut ids, &mut handle, Some(&[1]), None)
        .unwrap()
        .is_none());
    assert!(!handle.meta().is_archived());
    assert!(move_into_archive_with_data(&mut ids, &mut handle, &[1], &[2]).is_none());
    assert!(ids.ids.is_empty());
}

#[test]
fn moving_fails_without_the_stored_entry() {
    let id = block_id(MC, 20007);
    let mut meta = BlockMeta::new(20007);
    meta.set_has_data();
    let mut handle = BlockHandle::new(id, meta);
    let mut ids = ArchiveIds::new();
    assert_eq!(
        move_into_archive(&mut ids, &mut handle, None, None).err(),
        Some(ArchiveManagerError::InvalidBlockData)
    );
    // the mark of the call that began stays
    assert!(handle.meta().is_moving_to_archive());
    assert!(!handle.meta().is_archived());

    let mut manager = empty_manager();
    let mut meta = BlockMeta::new(20008);
    meta.set_has_proof();
    let mut handle = BlockHandle::new(block_id(MC, 20008), meta);
    assert_eq!(
        manager.move_into_archive(&mut handle),
        Err(ArchiveManagerError::InvalidBlockData)
    );
    assert!(manager.archives.keys.is_empty());
}

#[test]
fn moving_with_data_merges_what_it_is_given() {
    let mut manager = empty_manager();
    let id = block_id(MC, 40123);
    let mut handle = BlockHandle::new(id, BlockMeta::new(40123));
    manager.move_into_archive_with_data(&mut handle, &[1, 2], &[3]);
    assert!(handle.meta().is_archived());
    // 40123 is more than an archive away from 40000
    assert_eq!(manager.archive_ids.ids, vec![40123]);
    assert_eq!(
        manager.get_archive_slice(40123, 0, 10),
        Ok(Some(vec![1, 2, 3]))
    );
    assert_eq!(
        manager.block_handles.get(&id.root_hash).map(|row| row.as_slice()),
        Some(handle.meta().to_vec().as_slice())
    );
    manager.move_into_archive_with_data(&mut handle, &[9], &[9]);
    assert_eq!(
        manager.get_archive_slice(40123, 0, 10),
        Ok(Some(vec![1, 2, 3]))
    );
}

#[test]
fn package_entries_are_stored_and_read() {
    let mut manager = empty_manager();
    let id = block_id(SHARD_A, 5);
    let handle = BlockHandle::new(id, BlockMeta::new(1));
    let entry = PackageEntryId::Block(id);
    assert!(!manager.has_data(&entry));
    assert_eq!(
        manager.get_data(&handle, &entry),
        Err(ArchiveManagerError::InvalidBlockData)
    );
    manager.add_data(&entry, &[1, 2, 3]);
    assert!(manager.has_data(&entry));
    assert!(!manager.has_data(&PackageEntryId::Proof(id)));
    assert_eq!(manager.get_data(&handle, &entry), Ok(vec![1, 2, 3]));
    assert_eq!(manager.get_data_ref(&handle, &entry), Ok(&[1u8, 2, 3][..]));
    manager.add_data(&entry, &[4]);
    assert_eq!(manager.get_data(&handle, &entry), Ok(vec![4]));
}

fn gc_corpus() -> (ArchiveManager, TopBlocks) {
    let mut manager = empty_manager();
    for (shard, seq_no) in [(SHARD_A, 999u32), (SHARD_A, 1000), (MC, 500), (MC, 501)] {
        let id = block_id(shard, seq_no);
        manager.add_data(&PackageEntryId::Block(id), &[1]);
        let mut batch = WriteBatch::new();
        batch.put_cf(Column::BlockHandles, &id.root_hash, &BlockMeta::new(seq_no).to_vec());
        manager.write(&batch);
    }
    let mut batch = WriteBatch::new();
    batch.put_cf(Column::KeyBlocks, &500u32.to_be_bytes(), &[]);
    manager.write(&batch);
    let top_blocks = TopBlocks {
        mc_seq_no: 600,
        shard_heights: vec![ShardTop {
            shard_id: SHARD_A,
            seq_no: 1000,
        }],
    };
    (manager, top_blocks)
}

fn has_block(manager: &ArchiveManager, shard: ShardIdent, seq_no: u32) -> (bool, bool) {
    let id = block_id(shard, seq_no);
    (
        manager.has_data(&PackageEntryId::Block(id)),
        manager.block_handles.get(&id.root_hash).is_some(),
    )
}

#[test]
fn gc_keeps_the_frontier_and_key_blocks() {
    let (mut manager, top_blocks) = gc_corpus();
    let stats = manager.gc(None, &top_blocks).unwrap();
    assert_eq!(stats.total_package_entries_removed, 2);
    assert_eq!(stats.mc_package_entries_removed, 1);
    assert_eq!(stats.total_handles_removed, 2);

    assert_eq!(has_block(&manager, SHARD_A, 1000), (true, true));
    assert_eq!(has_block(&manager, MC, 500), (true, true));
    assert_eq!(has_block(&manager, SHARD_A, 999), (false, false));
    assert_eq!(has_block(&manager, MC, 501), (false, false));

    // nothing is left to collect
    let stats = manager.gc(Some(1), &top_blocks).unwrap();
    assert_eq!(stats.total_package_entries_removed, 0);
}

#[test]
fn gc_keeps_the_first_block_of_a_shard() {
    let mut manager = empty_manager();
    let zero = block_id(SHARD_A, 0);
    let other = block_id(ShardIdent { workchain_id: 0, shard_prefix: 0xc000_0000_0000_0000 }, 3);
    manager.add_data(&PackageEntryId::Block(zero), &[1]);
    manager.add_data(&PackageEntryId::Proof(other), &[1]);
    manager.add_data(&PackageEntryId::ProofLink(other), &[1]);
    let top_blocks = TopBlocks {
        mc_seq_no: 10,
        shard_heights: vec![ShardTop { shard_id: SHARD_A, seq_no: 1000 }],
    };
    let stats = manager.gc(Some(10), &top_blocks).unwrap();
    // a shard without a frontier has no block in use
    assert_eq!(stats.total_package_entries_removed, 2);
    assert_eq!(stats.mc_package_entries_removed, 0);
    assert!(manager.has_data(&PackageEntryId::Block(zero)));
    assert!(!manager.has_data(&PackageEntryId::Proof(other)));
}

#[test]
fn gc_hands_out_batches_of_the_given_size() {
    let top_blocks = TopBlocks { mc_seq_no: 100, shard_heights: vec![] };
    let mut run = BlockGc::new(Some(2));
    let mut batches = Vec::new();
    for seq_no in 1..6u32 {
        let key = PackageEntryId::Block(block_id(SHARD_A, seq_no)).to_vec();
        assert_eq!(BlockGc::needs_key_block(&key, &top_blocks), Ok(None));
        if let Some(batch) = run.visit(&key, &top_blocks, false).unwrap() {
            batches.push(batch.len());
        }
    }
    // a masterchain block below the frontier hangs on being a key block
    let key = PackageEntryId::Block(block_id(MC, 50)).to_vec();
    assert_eq!(BlockGc::needs_key_block(&key, &top_blocks), Ok(Some(50)));
    assert!(run.visit(&key, &top_blocks, true).unwrap().is_none());
    let key = PackageEntryId::Block(block_id(MC, 100)).to_vec();
    assert_eq!(BlockGc::needs_key_block(&key, &top_blocks), Ok(None));

    let (last, stats) = run.finish();
    assert_eq!(batches, vec![4, 4]);
    assert_eq!(last.unwrap().len(), 2);
    assert_eq!(stats.total_package_entries_removed, 5);
    assert_eq!(stats.total_handles_removed, 5);
    assert_eq!(stats.mc_package_entries_removed, 0);
}

#[test]
fn gc_stops_at_a_short_key() {
    let (mut manager, top_blocks) = gc_corpus();
    manager.package_entries.insert_new(&[1, 2, 3], vec![]);
    let late = block_id(SHARD_A, 1);
    manager.add_data(&PackageEntryId::Block(late), &[1]);

    assert_eq!(
        manager.gc(Some(1), &top_blocks).err(),
        Some(ArchiveManagerError::InvalidPackageEntryId)
    );
    // what was written before the short key stays written
    assert_eq!(has_block(&manager, SHARD_A, 999), (false, false));
    assert_eq!(has_block(&manager, MC, 501), (false, false));
    assert_eq!(has_block(&manager, SHARD_A, 1000), (true, true));
    assert!(manager.has_data(&PackageEntryId::Block(late)));

    let (mut manager, top_blocks) = gc_corpus();
    manager.package_entries.insert_new(&[1, 2, 3], vec![]);
    assert!(manager.gc(None, &top_blocks).is_err());
    // without batches in between nothing was written
    assert_eq!(has_block(&manager, SHARD_A, 999), (true, true));
}

#[test]
fn gc_removes_an_entry_without_a_root_hash_alone() {
    let top_blocks = TopBlocks { mc_seq_no: 100, shard_heights: vec![] };
    let mut run = BlockGc::new(None);
    let key = &PackageEntryId::Block(block_id(SHARD_A, 4)).to_vec()[..47];
    assert!(run.visit(key, &top_blocks, false).unwrap().is_none());
    let (last, stats) = run.finish();
    assert_eq!(last.unwrap().len(), 1);
    assert_eq!(stats.total_package_entries_removed, 1);
    assert_eq!(stats.total_handles_removed, 0);
    let stats = BlockGcStats::default();
    assert_eq!(stats.total_package_entries_removed, 0);
}

#[test]
fn top_blocks_hold_the_frontier() {
    let top_blocks = TopBlocks {
        mc_seq_no: 600,
        shard_heights: vec![ShardTop { shard_id: SHARD_A, seq_no: 1000 }],
    };
    assert!(top_blocks.contains(&block_id(SHARD_A, 1000)));
    assert!(top_blocks.contains(&block_id(SHARD_A, 1001)));
    assert!(!top_blocks.contains(&block_id(SHARD_A, 999)));
    assert!(top_blocks.contains_shard_seq_no(&MC, 600));
    assert!(!top_blocks.contains_shard_seq_no(&MC, 599));
    assert!(!top_blocks.contains_shard_seq_no(
        &ShardIdent { workchain_id: 1, shard_prefix: 0x4000_0000_0000_0000 },
        5000
    ));
    assert!(MC.is_masterchain());
    assert!(!SHARD_A.is_masterchain());
}

#[test]
fn package_entry_keys() {
    let id = BlockId {
        shard_id: MC,
        seq_no: 0x0102_0304,
        root_hash: [0xab; 32],
        file_hash: [0xcd; 32],
    };
    let key = PackageEntryId::Proof(id).to_vec();
    assert_eq!(key.len(), 49);
    assert_eq!(&key[..4], &[0xff, 0xff, 0xff, 0xff]);
    assert_eq!(&key[4..12], &[0x80, 0, 0, 0, 0, 0, 0, 0]);
    assert_eq!(&key[12..16], &[1, 2, 3, 4]);
    assert_eq!(&key[16..48], &[0xab; 32]);
    assert_eq!(key[48], 1);
    assert_eq!(PackageEntryId::Block(id).to_vec()[48], 0);
    assert_eq!(PackageEntryId::ProofLink(id).to_vec()[48], 2);

    let prefix = PackageEntryIdPrefix::from_slice(&key).unwrap();
    assert_eq!(prefix.shard_ident, MC);
    assert_eq!(prefix.seq_no, 0x0102_0304);
    assert!(PackageEntryIdPrefix::from_slice(&key[..15]).is_err());
    let prefix = PackageEntryIdPrefix::from_slice(&key[..16]).unwrap();
    assert_eq!(prefix.seq_no, 0x0102_0304);

    let low = BlockId {
        shard_id: ShardIdent { workchain_id: i32::MIN, shard_prefix: 1 },
        seq_no: 0,
        root_hash: [0; 32],
        file_hash: [0; 32],
    };
    let key = PackageEntryId::Block(low).to_vec();
    assert_eq!(&key[..4], &[0x80, 0, 0, 0]);
    let prefix = PackageEntryIdPrefix::from_slice(&key).unwrap();
    assert_eq!(prefix.shard_ident.workchain_id, i32::MIN);
    assert_eq!(prefix.shard_ident.shard_prefix, 1);
}

#[test]
fn package_entry_names() {
    let id = BlockId {
        shard_id: MC,
        seq_no: 1234,
        root_hash: [0xab; 32],
        file_hash: [0x0d; 32],
    };
    let expected = format!(
        "proof_(-1,8000000000000000,1234):{}:{}",
        "AB".repeat(32),
        "0D".repeat(32)
    );
    assert_eq!(PackageEntryId::Proof(id).filename(), expected.into_bytes());
    let shard = BlockId {
        shard_id: ShardIdent { workchain_id: 0, shard_prefix: 0x4000_0000_0000_0000 },
        seq_no: 0,
        root_hash: [0; 32],
        file_hash: [0xff; 32],
    };
    let expected = format!(
        "block_(0,4000000000000000,0):{}:{}",
        "00".repeat(32),
        "FF".repeat(32)
    );
    assert_eq!(PackageEntryId::Block(shard).filename(), expected.into_bytes());
    let far = BlockId {
        shard_id: ShardIdent { workchain_id: i32::MIN, shard_prefix: 0xa },
        seq_no: u32::MAX,
        root_hash: [0x12; 32],
        file_hash: [0x9a; 32],
    };
    let expected = format!(
        "prooflink_(-2147483648,000000000000000a,4294967295):{}:{}",
        "12".repeat(32),
        "9A".repeat(32)
    );
    assert_eq!(PackageEntryId::ProofLink(far).filename(), expected.into_bytes());
}

#[test]
fn handle_flags_only_accumulate() {
    let mut meta = BlockMeta::new(77);
    assert_eq!(meta.to_vec(), vec![77, 0, 0, 0, 0, 0, 0, 0]);
    assert!(meta.set_has_data());
    assert!(!meta.set_has_data());
    assert!(meta.has_data());
    assert!(meta.set_is_archived());
    assert!(meta.set_has_next1());
    assert!(meta.set_is_key_block());
    assert!(!meta.set_is_archived());
    assert!(meta.has_data() && meta.is_archived() && meta.has_next1() && meta.is_key_block());
    assert!(!meta.has_proof() && !meta.has_proof_link() && !meta.is_applied());
    assert_eq!(meta.to_vec(), vec![77, 0, 0, 0, 0x01 | 0x08 | 0x20 | 0x80, 0, 0, 0]);
    assert!(meta.set_has_proof());
    assert!(meta.set_has_proof_link());
    assert!(meta.set_is_applied());
    assert!(meta.set_is_moving_to_archive());
    assert_eq!(meta.to_vec(), vec![77, 0, 0, 0, 0xff, 0, 0, 0]);
    assert_eq!(meta.masterchain_ref_seqno(), 77);

    let shard = BlockHandle::new(block_id(SHARD_A, 5), meta);
    let mut is_link = false;
    assert!(shard.has_proof_or_link(&mut is_link));
    assert!(is_link);
    assert_eq!(shard.masterchain_ref_seqno(), 77);
    let mut only_link = BlockMeta::new(3);
    only_link.set_has_proof_link();
    let mc = BlockHandle::new(block_id(MC, 5), only_link);
    assert!(!mc.has_proof_or_link(&mut is_link));
    assert!(!is_link);
    assert_eq!(mc.masterchain_ref_seqno(), 5);
    assert_eq!(mc.id().seq_no, 5);
}

#[test]
fn verifier_takes_an_archive_in_parts() {
    let mut archive = make_archive_segment(b"first", &[1, 2, 3]).unwrap();
    archive.extend_from_slice(&make_archive_segment(b"", &[]).unwrap());
    archive.extend_from_slice(&make_archive_segment(b"third", &[7; 300]).unwrap());

    for width in [1usize, 2, 3, 7, 8, 9, 64, 1000] {
        let mut verifier = ArchivePackageVerifier::default();
        for part in archive.chunks(width) {
            assert_eq!(verifier.verify(part), Ok(()));
        }
        assert_eq!(verifier.final_check(), Ok(()));

        // the same archive without its last byte ends inside a segment
        let mut verifier = ArchivePackageVerifier::default();
        for part in archive[..archive.len() - 1].chunks(width) {
            assert_eq!(verifier.verify(part), Ok(()));
        }
        assert_eq!(
            verifier.final_check(),
            Err(ArchivePackageError::UnexpectedEntryEof)
        );
    }

    let verifier = ArchivePackageVerifier::default();
    assert_eq!(verifier.final_check(), Ok(()));

    let mut verifier = ArchivePackageVerifier::default();
    assert_eq!(verifier.verify(&archive[..5]), Ok(()));
    assert_eq!(
        verifier.final_check(),
        Err(ArchivePackageError::UnexpectedEntryEof)
    );

    let mut broken = archive.clone();
    broken[16] ^= 0xff;
    let mut verifier = ArchivePackageVerifier::default();
    assert_eq!(verifier.verify(&broken[..20]), Ok(()));
    assert_eq!(
        verifier.verify(&broken[20..30]),
        Err(ArchivePackageError::InvalidArchiveEntryHeader)
    );
    assert_eq!(
        verifier.verify(&[]),
        Err(ArchivePackageError::InvalidArchiveEntryHeader)
    );
    assert_eq!(
        verifier.final_check(),
        Err(ArchivePackageError::InvalidArchiveEntryHeader)
    );
    assert_eq!(check_archive(&broken), verifier.final_check());
}

#[test]
fn ranges_of_archive_ids() {
    assert_eq!(first_in_range(IdBound::Unbounded), Some(0));
    assert_eq!(first_in_range(IdBound::Included(7)), Some(7));
    assert_eq!(first_in_range(IdBound::Excluded(7)), Some(8));
    assert_eq!(first_in_range(IdBound::Included(u32::MAX)), Some(u32::MAX));
    assert_eq!(first_in_range(IdBound::Excluded(u32::MAX)), None);

    assert!(in_range(IdBound::Unbounded, IdBound::Unbounded, 0));
    assert!(in_range(IdBound::Included(5), IdBound::Included(5), 5));
    assert!(!in_range(IdBound::Excluded(5), IdBound::Included(9), 5));
    assert!(in_range(IdBound::Excluded(5), IdBound::Included(9), 6));
    assert!(in_range(IdBound::Excluded(5), IdBound::Included(9), 9));
    assert!(!in_range(IdBound::Excluded(5), IdBound::Excluded(9), 9));
    assert!(!in_range(IdBound::Included(5), IdBound::Unbounded, 4));
    assert!(!in_range(IdBound::Excluded(u32::MAX), IdBound::Unbounded, u32::MAX));
}
