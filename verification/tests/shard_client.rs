use std::sync::Arc;

use ton_indexer::block_handle::BlockMeta;
use ton_indexer::block_id::{BlockId, ShardIdent, MASTERCHAIN_ID};
use ton_indexer::shard_client::{
    check_signature_weight, check_validator_set_hash, has_quorum, load_next_masterchain_block,
    load_shard_blocks, process_block_broadcast, total_weight, validate_broadcast,
    walk_masterchain_blocks, walk_shard_blocks, BroadcastAction, BroadcastFacts, Downloaded,
    NextBlockAction, NextBlockFacts, ProofCheck, ShardBlock, ShardClientError, StoredData,
    WalkAction, SHARD_APPLY_LAG,
};
use ton_indexer::shard_state_cache::{ShardStateCache, ShardStateCacheOptions};

fn id(workchain_id: i32, seq_no: u32) -> BlockId {
    BlockId {
        shard_id: ShardIdent {
            workchain_id,
            shard_prefix: 0x8000_0000_0000_0000,
        },
        seq_no,
        root_hash: [seq_no as u8; 32],
        file_hash: [7; 32],
    }
}

#[test]
fn two_thirds_is_not_a_quorum() {
    assert!(!has_quorum(200, 300));
    assert!(has_quorum(201, 300));
    assert!(!has_quorum(2, 3));
    assert!(has_quorum(3, 3));
    assert!(!has_quorum(0, 0));
    assert!(has_quorum(1, 0));
    assert!(has_quorum(u64::MAX, u64::MAX as u128));
    assert!(!has_quorum(u64::MAX, 3 * (u64::MAX as u128)));
    assert!(!has_quorum(u64::MAX, u128::MAX));
    // the boundary at the top of the range
    let total = (u64::MAX as u128 / 2) * 3;
    assert!(!has_quorum(u64::MAX - 1, total));
    assert!(has_quorum(u64::MAX, total));
}

#[test]
fn weights_add_up() {
    assert_eq!(total_weight(&[]), 0);
    assert_eq!(total_weight(&[1, 2, 3]), 6);
    assert_eq!(
        total_weight(&[u64::MAX, u64::MAX, 2]),
        2 * (u64::MAX as u128) + 2
    );
}

#[test]
fn broadcast_with_two_thirds_is_rejected() {
    let weights = [100u64, 100, 100];
    assert_eq!(
        validate_broadcast(5, 5, &weights, 200),
        Err(ShardClientError::InsufficientSignatureWeight)
    );
    assert_eq!(validate_broadcast(5, 5, &weights, 201), Ok(()));
    assert_eq!(
        validate_broadcast(5, 6, &weights, 300),
        Err(ShardClientError::BadValidatorSetHash)
    );
    assert_eq!(check_validator_set_hash(1, 1), Ok(()));
    assert_eq!(
        check_validator_set_hash(1, 2),
        Err(ShardClientError::BadValidatorSetHash)
    );
    assert_eq!(
        check_signature_weight(&weights, 0),
        Err(ShardClientError::InsufficientSignatureWeight)
    );
    assert_eq!(check_signature_weight(&[], 1), Ok(()));
}

/// Takes the steps of the handler in turn and fills in what each finds.
fn run_broadcast(
    mut facts: BroadcastFacts,
    signed_weight: u64,
    last_applied: u32,
    shards_client: u32,
    master_ref: Option<u32>,
) -> Vec<BroadcastAction> {
    let mut actions = Vec::new();
    loop {
        let action = process_block_broadcast(&facts);
        actions.push(action);
        match action {
            BroadcastAction::LoadHandle => facts.has_data = Some(false),
            BroadcastAction::ReadProof => facts.prev_key_block_seqno = Some(0),
            BroadcastAction::LoadLastAppliedMcBlock => {
                facts.last_applied_mc_seq_no = Some(last_applied)
            }
            BroadcastAction::LoadKeyBlockHandle { seq_no } => facts.key_block_seq_no = Some(seq_no),
            BroadcastAction::LoadZerostate | BroadcastAction::LoadKeyBlockProof => {
                facts.validator_set_loaded = true
            }
            BroadcastAction::CalcSubset => {
                facts.validators_hash_short = Some(42);
                facts.total_weight = Some(300);
            }
            BroadcastAction::CheckSignatures => facts.signed_weight = Some(signed_weight),
            BroadcastAction::CheckProof { .. } => facts.proof_checked = true,
            BroadcastAction::StoreBlockData => {
                facts.data_stored = Some(StoredData { updated: true, has_proof: false })
            }
            BroadcastAction::StoreBlockProof => facts.proof_stored = Some(true),
            BroadcastAction::ReadMasterRef => facts.master_ref_seq_no = Some(master_ref),
            BroadcastAction::LoadShardsClientMcBlock => {
                facts.shards_client_mc_seq_no = Some(shards_client)
            }
            BroadcastAction::ApplyBlock { .. } => facts.applied = true,
            BroadcastAction::Done | BroadcastAction::Fail { .. } => return actions,
        }
    }
}

#[test]
fn masterchain_broadcast_is_stored_and_applied() {
    let facts = BroadcastFacts::new(&id(MASTERCHAIN_ID, 11), 42);
    let actions = run_broadcast(facts, 201, 10, 0, None);
    assert_eq!(
        actions,
        vec![
            BroadcastAction::LoadHandle,
            BroadcastAction::ReadProof,
            BroadcastAction::LoadLastAppliedMcBlock,
            BroadcastAction::LoadKeyBlockHandle { seq_no: 0 },
            BroadcastAction::LoadZerostate,
            BroadcastAction::CalcSubset,
            BroadcastAction::CheckSignatures,
            BroadcastAction::CheckProof { check: ProofCheck::WithZerostate },
            BroadcastAction::StoreBlockData,
            BroadcastAction::StoreBlockProof,
            BroadcastAction::ApplyBlock { mc_seq_no: 11, pre_apply: false },
            BroadcastAction::Done,
        ]
    );
}

#[test]
fn broadcast_with_too_little_weight_stores_nothing() {
    let facts = BroadcastFacts::new(&id(MASTERCHAIN_ID, 11), 42);
    let actions = run_broadcast(facts, 200, 10, 0, None);
    assert_eq!(
        actions.last(),
        Some(&BroadcastAction::Fail {
            error: ShardClientError::InsufficientSignatureWeight
        })
    );
    assert!(!actions.contains(&BroadcastAction::StoreBlockData));

    let facts = BroadcastFacts::new(&id(MASTERCHAIN_ID, 11), 43);
    let actions = run_broadcast(facts, 300, 10, 0, None);
    assert_eq!(
        actions.last(),
        Some(&BroadcastAction::Fail { error: ShardClientError::BadValidatorSetHash })
    );
    assert!(!actions.contains(&BroadcastAction::CheckSignatures));
}

#[test]
fn duplicate_broadcast_is_a_no_op() {
    let mut facts = BroadcastFacts::new(&id(MASTERCHAIN_ID, 11), 42);
    assert_eq!(process_block_broadcast(&facts), BroadcastAction::LoadHandle);
    facts.has_data = Some(true);
    assert_eq!(process_block_broadcast(&facts), BroadcastAction::Done);
}

#[test]
fn broadcast_ahead_of_the_key_block_is_passed_over() {
    let mut facts = BroadcastFacts::new(&id(0, 11), 42);
    facts.has_data = Some(false);
    facts.prev_key_block_seqno = Some(100);
    facts.last_applied_mc_seq_no = Some(99);
    assert_eq!(process_block_broadcast(&facts), BroadcastAction::Done);
    facts.last_applied_mc_seq_no = Some(100);
    assert_eq!(
        process_block_broadcast(&facts),
        BroadcastAction::LoadKeyBlockHandle { seq_no: 100 }
    );
    facts.key_block_seq_no = Some(100);
    assert_eq!(process_block_broadcast(&facts), BroadcastAction::LoadKeyBlockProof);
}

#[test]
fn masterchain_broadcast_is_applied_only_as_the_next_block() {
    for (last_applied, applies) in [(9u32, false), (10, true), (11, false), (u32::MAX, false)] {
        let facts = BroadcastFacts::new(&id(MASTERCHAIN_ID, 11), 42);
        let actions = run_broadcast(facts, 300, last_applied, 0, None);
        let applied = actions
            .iter()
            .any(|action| matches!(action, BroadcastAction::ApplyBlock { .. }));
        // a key block ahead of the last applied block ends the run early
        assert_eq!(applied, applies);
        assert_eq!(actions.last(), Some(&BroadcastAction::Done));
    }
}

#[test]
fn shard_broadcast_is_applied_within_the_lag() {
    assert_eq!(SHARD_APPLY_LAG, 8);
    for (shards_client, master_ref, applies) in [
        (92u32, 100u32, true),
        (91, 100, false),
        (100, 100, true),
        (u32::MAX, 5, true),
        (u32::MAX - 8, u32::MAX, true),
        (u32::MAX - 9, u32::MAX, false),
    ] {
        let facts = BroadcastFacts::new(&id(0, 11), 42);
        let actions = run_broadcast(facts, 201, 10, shards_client, Some(master_ref));
        assert!(actions.contains(&BroadcastAction::CheckProof { check: ProofCheck::ProofLink }));
        let wanted = BroadcastAction::ApplyBlock { mc_seq_no: shards_client, pre_apply: true };
        assert_eq!(actions.contains(&wanted), applies);
        assert_eq!(actions.last(), Some(&BroadcastAction::Done));
    }
    let facts = BroadcastFacts::new(&id(0, 11), 42);
    let actions = run_broadcast(facts, 201, 10, 0, None);
    assert_eq!(
        actions.last(),
        Some(&BroadcastAction::Fail { error: ShardClientError::InvalidBlockExtra })
    );
}

#[test]
fn broadcast_that_another_path_owns_is_left_alone() {
    let mut facts = BroadcastFacts::new(&id(MASTERCHAIN_ID, 11), 42);
    facts.has_data = Some(false);
    facts.prev_key_block_seqno = Some(5);
    facts.last_applied_mc_seq_no = Some(10);
    facts.key_block_seq_no = Some(5);
    facts.validator_set_loaded = true;
    facts.validators_hash_short = Some(42);
    facts.total_weight = Some(3);
    facts.signed_weight = Some(3);
    assert_eq!(
        process_block_broadcast(&facts),
        BroadcastAction::CheckProof { check: ProofCheck::WithKeyBlockProof }
    );
    facts.proof_checked = true;
    facts.data_stored = Some(StoredData { updated: false, has_proof: false });
    assert_eq!(process_block_broadcast(&facts), BroadcastAction::Done);
    facts.data_stored = Some(StoredData { updated: true, has_proof: false });
    facts.proof_stored = Some(false);
    assert_eq!(process_block_broadcast(&facts), BroadcastAction::Done);
    facts.data_stored = Some(StoredData { updated: true, has_proof: true });
    assert_eq!(
        process_block_broadcast(&facts),
        BroadcastAction::ApplyBlock { mc_seq_no: 11, pre_apply: false }
    );
}

#[test]
fn next_masterchain_block_along_the_edge() {
    let mut facts = NextBlockFacts::new(10);
    assert_eq!(load_next_masterchain_block(&facts), NextBlockAction::LoadPrevHandle);
    facts.prev_handle = Some(None);
    assert_eq!(
        load_next_masterchain_block(&facts),
        NextBlockAction::Fail { error: ShardClientError::MasterchainBlockNotFound }
    );
    let mut meta = BlockMeta::new(10);
    meta.set_has_next1();
    facts.prev_handle = Some(Some(meta));
    assert_eq!(load_next_masterchain_block(&facts), NextBlockAction::LoadNext1);
    facts.next1_seq_no = Some(11);
    assert_eq!(
        load_next_masterchain_block(&facts),
        NextBlockAction::DownloadAndApply { mc_seq_no: 11 }
    );
    facts.applied = true;
    assert_eq!(load_next_masterchain_block(&facts), NextBlockAction::Done { seq_no: 11 });
}

#[test]
fn next_masterchain_block_by_download() {
    let mut facts = NextBlockFacts::new(10);
    facts.prev_handle = Some(Some(BlockMeta::new(10)));
    assert_eq!(load_next_masterchain_block(&facts), NextBlockAction::DownloadNext);
    facts.downloaded = Some(Downloaded { seq_no: 12, is_link: false });
    assert_eq!(
        load_next_masterchain_block(&facts),
        NextBlockAction::Fail { error: ShardClientError::BlockIdMismatch }
    );
    facts.downloaded = Some(Downloaded { seq_no: 11, is_link: true });
    assert_eq!(
        load_next_masterchain_block(&facts),
        NextBlockAction::Fail { error: ShardClientError::InvalidBlockProof }
    );
    facts.downloaded = Some(Downloaded { seq_no: 11, is_link: false });
    assert_eq!(load_next_masterchain_block(&facts), NextBlockAction::CheckProof);
    facts.proof_checked = true;
    assert_eq!(load_next_masterchain_block(&facts), NextBlockAction::LoadHandle);

    // a handle without data is filled in
    facts.handle = Some(Some(BlockMeta::new(11)));
    assert_eq!(
        load_next_masterchain_block(&facts),
        NextBlockAction::StoreBlockData { partially_initialized: true }
    );
    facts.handle = Some(None);
    assert_eq!(
        load_next_masterchain_block(&facts),
        NextBlockAction::StoreBlockData { partially_initialized: false }
    );
    let mut stored = BlockMeta::new(11);
    stored.set_has_data();
    facts.stored = Some(stored);
    assert_eq!(load_next_masterchain_block(&facts), NextBlockAction::StoreBlockProof);
    facts.proof_stored = true;
    assert_eq!(
        load_next_masterchain_block(&facts),
        NextBlockAction::ApplyBlock { mc_seq_no: 11 }
    );
    facts.applied = true;
    assert_eq!(load_next_masterchain_block(&facts), NextBlockAction::Done { seq_no: 11 });

    // a handle with data and proof needs no storing
    let mut facts = NextBlockFacts::new(u32::MAX);
    facts.prev_handle = Some(Some(BlockMeta::new(0)));
    facts.downloaded = Some(Downloaded { seq_no: 0, is_link: false });
    assert_eq!(
        load_next_masterchain_block(&facts),
        NextBlockAction::Fail { error: ShardClientError::BlockIdMismatch }
    );
    let mut facts = NextBlockFacts::new(10);
    facts.prev_handle = Some(Some(BlockMeta::new(10)));
    facts.downloaded = Some(Downloaded { seq_no: 11, is_link: false });
    facts.proof_checked = true;
    let mut full = BlockMeta::new(11);
    full.set_has_data();
    full.set_has_proof();
    facts.handle = Some(Some(full));
    assert_eq!(
        load_next_masterchain_block(&facts),
        NextBlockAction::ApplyBlock { mc_seq_no: 11 }
    );
}

#[test]
fn applied_shard_blocks_are_skipped() {
    let mut applied = BlockMeta::new(1);
    applied.set_is_applied();
    let blocks = vec![
        ShardBlock { id: id(0, 1), handle: None },
        ShardBlock { id: id(0, 2), handle: Some(applied) },
        ShardBlock { id: id(0, 3), handle: Some(BlockMeta::new(1)) },
    ];
    let pending: Vec<u32> = load_shard_blocks(&blocks).iter().map(|id| id.seq_no).collect();
    assert_eq!(pending, vec![1, 3]);
    assert!(load_shard_blocks(&[]).is_empty());
}

#[test]
fn walkers_stop_on_shutdown_and_stay_on_failure() {
    assert_eq!(walk_masterchain_blocks(false, 5, Some(6)), WalkAction::Stop);
    assert_eq!(
        walk_masterchain_blocks(true, 5, Some(6)),
        WalkAction::Continue { seq_no: 6 }
    );
    assert_eq!(
        walk_masterchain_blocks(true, 5, None),
        WalkAction::Continue { seq_no: 5 }
    );
    let meta = BlockMeta::new(5);
    assert_eq!(
        walk_shard_blocks(true, None, 5),
        Err(ShardClientError::ShardchainBlockHandleNotFound)
    );
    assert_eq!(walk_shard_blocks(false, Some(&meta), 5), Ok(WalkAction::Stop));
    assert_eq!(
        walk_shard_blocks(true, Some(&meta), 5),
        Ok(WalkAction::Continue { seq_no: 5 })
    );
}

#[test]
fn cache_that_is_switched_off_finds_nothing() {
    let cache: ShardStateCache<u32> = ShardStateCache::new(None);
    assert!(!cache.is_enabled());
    let mut made = false;
    cache.set(&id(0, 1), || {
        made = true;
        Arc::new(1)
    });
    assert!(!made);
    assert!(cache.get(&id(0, 1)).is_none());
}

#[test]
fn cache_holds_what_was_set() {
    let cache: ShardStateCache<u32> = ShardStateCache::new(Some(ShardStateCacheOptions {
        ttl_sec: 3600,
        capacity: 2,
    }));
    assert!(cache.is_enabled());
    cache.set(&id(0, 1), || Arc::new(10));
    cache.set(&id(0, 2), || Arc::new(20));
    assert_eq!(cache.get(&id(0, 1)).as_deref(), Some(&10));
    assert_eq!(cache.get(&id(0, 2)).as_deref(), Some(&20));
    assert!(cache.get(&id(0, 3)).is_none());
    // the least recently used entry makes room
    cache.set(&id(0, 3), || Arc::new(30));
    assert!(cache.get(&id(0, 1)).is_none());
    assert_eq!(cache.get(&id(0, 3)).as_deref(), Some(&30));

    let expired: ShardStateCache<u32> = ShardStateCache::new(Some(ShardStateCacheOptions {
        ttl_sec: 0,
        capacity: 2,
    }));
    expired.set(&id(0, 1), || Arc::new(10));
    assert!(expired.get(&id(0, 1)).is_none());
}

#[test]
fn cache_options_are_tested_before_a_cache_is_made() {
    use_options(1, 0, true);
    use_options(2, 3600, true);
    use_options(1, u32::MAX as u64, true);
    // no room for an entry
    use_options(0, 60, false);
    // more seconds than can be added to a point of time
    use_options(1, u32::MAX as u64 + 1, false);
    use_options(1, u64::MAX, false);
    // more entries than can be reserved
    use_options(usize::MAX, 60, false);
    use_options(usize::MAX / 256, 60, true);
    use_options(usize::MAX / 256 + 1, 60, false);
}

fn use_options(capacity: usize, ttl_sec: u64, valid: bool) {
    let options = ShardStateCacheOptions { ttl_sec, capacity };
    assert_eq!(options.is_valid(), valid);
    if valid && capacity <= 16 {
        let cache: ShardStateCache<u32> = ShardStateCache::new(Some(options));
        cache.set(&id(0, 1), || Arc::new(1));
        cache.set(&id(0, 2), || Arc::new(2));
        let _ = cache.get(&id(0, 1));
        cache.set(&id(0, 3), || Arc::new(3));
        assert!(cache.get(&id(0, 9)).is_none());
    }
}
