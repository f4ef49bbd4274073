//! The decisions of the block walkers and of the broadcast handler.
//!
//! Walking the chains and taking in a broadcast are runs of downloads,
//! reads, checks and writes that other parts of the node carry out. What is
//! decided here is which of them comes next. The caller keeps a record of
//! what it has found out so far; a function of this module reads the record
//! and names the next thing to do, or the outcome.

use vstd::prelude::*;
use crate::block_handle::BlockMeta;
use crate::block_id::BlockId;

verus! {

/// How far the shard client may lag behind the masterchain block that a
/// broadcast shard block refers to, for the block to be applied.
pub const SHARD_APPLY_LAG: u32 = 8;

/// Why a walker or the broadcast handler gave up.
#[derive(Clone, Copy, Debug, PartialEq, Eq, Structural)]
pub enum ShardClientError {
    /// The masterchain block to start from has no handle.
    MasterchainBlockNotFound,
    /// The masterchain block to start the shard walk from has no handle.
    ShardchainBlockHandleNotFound,
    /// The next masterchain block does not follow the previous one.
    BlockIdMismatch,
    /// A masterchain block came with a proof link in place of a proof.
    InvalidBlockProof,
    /// A shard block does not say which masterchain block it refers to.
    InvalidBlockExtra,
    /// The validator subset of a broadcast is not the one that was derived.
    BadValidatorSetHash,
    /// The signatures of a broadcast do not carry more than two thirds of
    /// the weight.
    InsufficientSignatureWeight,
}

/// The sum of `weights`.
pub open spec fn weight_sum(weights: Seq<u64>) -> nat
    decreases weights.len(),
{
    if weights.len() == 0 {
        0
    } else {
        weight_sum(weights.drop_last()) + weights.last() as nat
    }
}

/// Whether `weight` is more than two thirds of `total_weight`.
pub open spec fn quorum(weight: nat, total_weight: nat) -> bool {
    weight * 3 > total_weight * 2
}

/// The sum of a list of weights is below the product of its length and
/// the bound of a weight.
pub proof fn lemma_weight_sum_bound(weights: Seq<u64>)
    ensures
        weight_sum(weights) <= weights.len() * 0xffff_ffff_ffff_ffff,
    decreases weights.len(),
{
    if weights.len() > 0 {
        lemma_weight_sum_bound(weights.drop_last());
        assert((weights.len() - 1) * 0xffff_ffff_ffff_ffff + 0xffff_ffff_ffff_ffff
            == weights.len() * 0xffff_ffff_ffff_ffff) by (nonlinear_arith);
    }
}

/// The total weight of a validator subset.
pub fn total_weight(weights: &[u64]) -> (total: u128)
    ensures
        total == weight_sum(weights@),
{
    let mut total: u128 = 0;
    let mut i: usize = 0;
    assert(weights@.take(0) =~= Seq::<u64>::empty());
    while i < weights.len()
        invariant
            i <= weights.len(),
            total == weight_sum(weights@.take(i as int)),
        decreases weights.len() - i,
    {
        proof {
            lemma_weight_sum_bound(weights@.take(i as int));
            assert(i * 0xffff_ffff_ffff_ffff <= 0xffff_ffff_ffff_ffff * 0xffff_ffff_ffff_ffff)
                by (nonlinear_arith)
                requires
                    i <= 0xffff_ffff_ffff_ffff,
            ;
            assert(weights@.take(i + 1).drop_last() =~= weights@.take(i as int));
        }
        total = total + weights[i] as u128;
        i = i + 1;
    }
    assert(weights@.take(weights@.len() as int) =~= weights@);
    total
}

/// Whether signatures of `weight` carry a broadcast among validators of
/// `total_weight`: they must weigh more than two thirds of it, so that
/// exactly two thirds is not enough.
pub fn has_quorum(weight: u64, total_weight: u128) -> (enough: bool)
    ensures
        enough == quorum(weight as nat, total_weight as nat),
{
    if total_weight > 0x2_0000_0000_0000_0000 {
        // three times any weight is below twice such a total
        false
    } else {
        weight as u128 * 3 > total_weight * 2
    }
}

/// Holds the validator subset that was derived for a broadcast against the
/// one that the broadcast names.
pub fn check_validator_set_hash(validators_hash_short: u32, validator_set_hash: u32) -> (result:
    Result<(), ShardClientError>)
    ensures
        result is Ok <==> validators_hash_short == validator_set_hash,
        result is Err ==> result->Err_0 == ShardClientError::BadValidatorSetHash,
{
    if validators_hash_short != validator_set_hash {
        Err(ShardClientError::BadValidatorSetHash)
    } else {
        Ok(())
    }
}

/// Holds the weight of the valid signatures of a broadcast against the
/// weights of the validator subset.
pub fn check_signature_weight(validator_weights: &[u64], weight: u64) -> (result: Result<
    (),
    ShardClientError,
>)
    ensures
        result is Ok <==> quorum(weight as nat, weight_sum(validator_weights@)),
        result is Err ==> result->Err_0 == ShardClientError::InsufficientSignatureWeight,
{
    if has_quorum(weight, total_weight(validator_weights)) {
        Ok(())
    } else {
        Err(ShardClientError::InsufficientSignatureWeight)
    }
}

/// Validates a broadcast against the validator subset that was derived for
/// it: the subset must be the one that the broadcast names, and the valid
/// signatures must weigh more than two thirds of the subset.
pub fn validate_broadcast(
    validators_hash_short: u32,
    validator_set_hash: u32,
    validator_weights: &[u64],
    weight: u64,
) -> (result: Result<(), ShardClientError>)
    ensures
        validators_hash_short != validator_set_hash ==> result == Err::<(), ShardClientError>(
            ShardClientError::BadValidatorSetHash,
        ),
        validators_hash_short == validator_set_hash && !quorum(
            weight as nat,
            weight_sum(validator_weights@),
        ) ==> result == Err::<(), ShardClientError>(ShardClientError::InsufficientSignatureWeight),
        validators_hash_short == validator_set_hash && quorum(
            weight as nat,
            weight_sum(validator_weights@),
        ) ==> result is Ok,
{
    check_validator_set_hash(validators_hash_short, validator_set_hash)?;
    check_signature_weight(validator_weights, weight)
}

/// Two thirds of the weight is not a quorum, and the least weight above it
/// is: the boundary lies between the two.
pub proof fn lemma_quorum_boundary(weight: nat, total_weight: nat)
    ensures
        weight * 3 == total_weight * 2 ==> !quorum(weight, total_weight) && quorum(
            weight + 1,
            total_weight,
        ),
        quorum(weight, total_weight) ==> quorum(weight + 1, total_weight),
        !quorum(weight + 1, total_weight) ==> !quorum(weight, total_weight),
{
}

/// What the handler of a broadcast block has found out so far. A field is
/// `None` until the step that finds it out has been taken.
pub struct BroadcastFacts {
    /// Whether the block belongs to the masterchain.
    pub is_masterchain: bool,
    /// Sequence number of the block.
    pub seq_no: u32,
    /// The validator subset that the broadcast names.
    pub validator_set_hash: u32,
    /// Whether the block has a handle that says its data is stored.
    pub has_data: Option<bool>,
    /// Sequence number of the key block before the block, by its proof.
    pub prev_key_block_seqno: Option<u32>,
    /// Sequence number of the last applied masterchain block.
    pub last_applied_mc_seq_no: Option<u32>,
    /// Sequence number by the handle of that key block.
    pub key_block_seq_no: Option<u32>,
    /// Whether the validator set and the catchain configuration were read
    /// from the zerostate or the proof of the key block.
    pub validator_set_loaded: bool,
    /// The validator subset that was derived, and the weights of its members.
    pub validators_hash_short: Option<u32>,
    /// Total weight of the derived subset.
    pub total_weight: Option<u128>,
    /// Weight of the valid signatures.
    pub signed_weight: Option<u64>,
    /// Whether the proof of the block was checked.
    pub proof_checked: bool,
    /// What storing the data did.
    pub data_stored: Option<StoredData>,
    /// Whether storing the proof made a change.
    pub proof_stored: Option<bool>,
    /// The masterchain block that a shard block refers to, if it names one.
    pub master_ref_seq_no: Option<Option<u32>>,
    /// Sequence number of the masterchain block that the shard client has
    /// reached.
    pub shards_client_mc_seq_no: Option<u32>,
    /// Whether the block was handed to be applied.
    pub applied: bool,
}

/// What storing the data of a block did.
#[derive(Clone, Copy, Debug, PartialEq, Eq, Structural)]
pub struct StoredData {
    /// Whether storing made a change.
    pub updated: bool,
    /// Whether the handle says, after it, that the proof is stored.
    pub has_proof: bool,
}

/// A block as it was downloaded.
#[derive(Clone, Copy, Debug, PartialEq, Eq, Structural)]
pub struct Downloaded {
    /// Sequence number of the block.
    pub seq_no: u32,
    /// Whether its proof is a proof link.
    pub is_link: bool,
}

/// How the proof of a broadcast block is checked.
#[derive(Clone, Copy, Debug, PartialEq, Eq, Structural)]
pub enum ProofCheck {
    /// Against the proof of the previous key block.
    WithKeyBlockProof,
    /// Against the zerostate of the masterchain.
    WithZerostate,
    /// As a proof link, by itself.
    ProofLink,
}

/// What the handler of a broadcast does next.
#[derive(Clone, Copy, Debug, PartialEq, Eq, Structural)]
pub enum BroadcastAction {
    /// Load the handle of the block.
    LoadHandle,
    /// Read the proof and find the key block before the block.
    ReadProof,
    /// Load the id of the last applied masterchain block.
    LoadLastAppliedMcBlock,
    /// Load the handle of the key block `seq_no`.
    LoadKeyBlockHandle { seq_no: u32 },
    /// Load the zerostate and read validator set and catchain
    /// configuration from it; keep it for the check of the proof.
    LoadZerostate,
    /// Load the proof of the key block and read validator set and catchain
    /// configuration from it.
    LoadKeyBlockProof,
    /// Derive the validator subset of the block.
    CalcSubset,
    /// Check the signatures against the subset and add up their weight.
    CheckSignatures,
    /// Check the proof of the block.
    CheckProof { check: ProofCheck },
    /// Read the block and store its data.
    StoreBlockData,
    /// Store the proof of the block.
    StoreBlockProof,
    /// Read from the block which masterchain block it refers to.
    ReadMasterRef,
    /// Load the id of the masterchain block that the shard client reached.
    LoadShardsClientMcBlock,
    /// Apply the block.
    ApplyBlock { mc_seq_no: u32, pre_apply: bool },
    /// Nothing is left to do.
    Done,
    /// The broadcast is refused.
    Fail { error: ShardClientError },
}

impl BroadcastFacts {
    /// Whether the broadcast passed the checks that come before anything
    /// is stored: the subset is the named one, the signatures carry more
    /// than two thirds of the weight, and the proof was checked.
    pub open spec fn validated(self) -> bool {
        &&& self.validators_hash_short == Some(self.validator_set_hash)
        &&& self.total_weight is Some
        &&& self.signed_weight is Some
        &&& quorum(self.signed_weight->0 as nat, self.total_weight->0 as nat)
        &&& self.proof_checked
    }

    /// The check that the proof of the block calls for.
    pub open spec fn proof_check(self) -> ProofCheck {
        if !self.is_masterchain {
            ProofCheck::ProofLink
        } else if self.key_block_seq_no == Some(0u32) {
            ProofCheck::WithZerostate
        } else {
            ProofCheck::WithKeyBlockProof
        }
    }

    /// What the record was made with: an empty record for a broadcast.
    pub open spec fn start(is_masterchain: bool, seq_no: u32, validator_set_hash: u32) -> Self {
        BroadcastFacts {
            is_masterchain,
            seq_no,
            validator_set_hash,
            has_data: None,
            prev_key_block_seqno: None,
            last_applied_mc_seq_no: None,
            key_block_seq_no: None,
            validator_set_loaded: false,
            validators_hash_short: None,
            total_weight: None,
            signed_weight: None,
            proof_checked: false,
            data_stored: None,
            proof_stored: None,
            master_ref_seq_no: None,
            shards_client_mc_seq_no: None,
            applied: false,
        }
    }

    /// The step that follows from the record.
    ///
    /// A block whose data is stored needs nothing. A block whose key block
    /// lies ahead of the last applied masterchain block is passed over. The
    /// validator set comes from the zerostate where the key block is the
    /// first block, else from the proof of the key block. Nothing is stored
    /// before subset, signatures and proof were checked. Where storing
    /// makes no change, another path owns the block. A masterchain block is
    /// applied only as the next after the last applied one, a shard block
    /// only where the shard client is at most [`SHARD_APPLY_LAG`] blocks
    /// behind the masterchain block that the block refers to.
    pub open spec fn next(self) -> BroadcastAction {
        if self.has_data is None {
            BroadcastAction::LoadHandle
        } else if self.has_data->0 {
            BroadcastAction::Done
        } else if self.prev_key_block_seqno is None {
            BroadcastAction::ReadProof
        } else if self.last_applied_mc_seq_no is None {
            BroadcastAction::LoadLastAppliedMcBlock
        } else if self.prev_key_block_seqno->0 > self.last_applied_mc_seq_no->0 {
            BroadcastAction::Done
        } else if self.key_block_seq_no is None {
            BroadcastAction::LoadKeyBlockHandle { seq_no: self.prev_key_block_seqno->0 }
        } else if !self.validator_set_loaded {
            if self.key_block_seq_no->0 == 0 {
                BroadcastAction::LoadZerostate
            } else {
                BroadcastAction::LoadKeyBlockProof
            }
        } else if self.validators_hash_short is None || self.total_weight is None {
            BroadcastAction::CalcSubset
        } else if self.validators_hash_short->0 != self.validator_set_hash {
            BroadcastAction::Fail { error: ShardClientError::BadValidatorSetHash }
        } else if self.signed_weight is None {
            BroadcastAction::CheckSignatures
        } else if !quorum(self.signed_weight->0 as nat, self.total_weight->0 as nat) {
            BroadcastAction::Fail { error: ShardClientError::InsufficientSignatureWeight }
        } else if !self.proof_checked {
            BroadcastAction::CheckProof { check: self.proof_check() }
        } else if self.data_stored is None {
            BroadcastAction::StoreBlockData
        } else if !self.data_stored->0.updated {
            BroadcastAction::Done
        } else if !self.data_stored->0.has_proof && self.proof_stored is None {
            BroadcastAction::StoreBlockProof
        } else if !self.data_stored->0.has_proof && !self.proof_stored->0 {
            BroadcastAction::Done
        } else if self.applied {
            BroadcastAction::Done
        } else if self.is_masterchain {
            if self.seq_no == self.last_applied_mc_seq_no->0 + 1 {
                BroadcastAction::ApplyBlock { mc_seq_no: self.seq_no, pre_apply: false }
            } else {
                BroadcastAction::Done
            }
        } else if self.master_ref_seq_no is None {
            BroadcastAction::ReadMasterRef
        } else if self.master_ref_seq_no->0 is None {
            BroadcastAction::Fail { error: ShardClientError::InvalidBlockExtra }
        } else if self.shards_client_mc_seq_no is None {
            BroadcastAction::LoadShardsClientMcBlock
        } else if self.shards_client_mc_seq_no->0 + SHARD_APPLY_LAG
            >= self.master_ref_seq_no->0->0 {
            BroadcastAction::ApplyBlock {
                mc_seq_no: self.shards_client_mc_seq_no->0,
                pre_apply: true,
            }
        } else {
            BroadcastAction::Done
        }
    }

    /// An empty record for a broadcast of the block `id` that names the
    /// validator subset `validator_set_hash`.
    pub fn new(id: &BlockId, validator_set_hash: u32) -> (facts: Self)
        ensures
            facts == Self::start(id.shard_id.masterchain(), id.seq_no, validator_set_hash),
    {
        BroadcastFacts {
            is_masterchain: id.shard_id.is_masterchain(),
            seq_no: id.seq_no,
            validator_set_hash,
            has_data: None,
            prev_key_block_seqno: None,
            last_applied_mc_seq_no: None,
            key_block_seq_no: None,
            validator_set_loaded: false,
            validators_hash_short: None,
            total_weight: None,
            signed_weight: None,
            proof_checked: false,
            data_stored: None,
            proof_stored: None,
            master_ref_seq_no: None,
            shards_client_mc_seq_no: None,
            applied: false,
        }
    }
}

/// Names what the handler of a broadcast does next, given what it has
/// found out so far.
pub fn process_block_broadcast(facts: &BroadcastFacts) -> (action: BroadcastAction)
    ensures
        action == facts.next(),
        action is ApplyBlock || action is StoreBlockData || action is StoreBlockProof
            ==> facts.validated(),
        action is ApplyBlock ==> if facts.is_masterchain {
            facts.seq_no == facts.last_applied_mc_seq_no->0 + 1 && !action->pre_apply
        } else {
            facts.shards_client_mc_seq_no->0 + SHARD_APPLY_LAG >= facts.master_ref_seq_no->0->0
                && action->pre_apply
        },
{
    let has_data = match facts.has_data {
        Some(has_data) => has_data,
        None => {
            return BroadcastAction::LoadHandle;
        },
    };
    if has_data {
        return BroadcastAction::Done;
    }
    let prev_key_block_seqno = match facts.prev_key_block_seqno {
        Some(seq_no) => seq_no,
        None => {
            return BroadcastAction::ReadProof;
        },
    };
    let last_applied = match facts.last_applied_mc_seq_no {
        Some(seq_no) => seq_no,
        None => {
            return BroadcastAction::LoadLastAppliedMcBlock;
        },
    };
    if prev_key_block_seqno > last_applied {
        return BroadcastAction::Done;
    }
    let key_block_seq_no = match facts.key_block_seq_no {
        Some(seq_no) => seq_no,
        None => {
            return BroadcastAction::LoadKeyBlockHandle { seq_no: prev_key_block_seqno };
        },
    };
    if !facts.validator_set_loaded {
        return if key_block_seq_no == 0 {
            BroadcastAction::LoadZerostate
        } else {
            BroadcastAction::LoadKeyBlockProof
        };
    }
    let (validators_hash_short, total) = match (facts.validators_hash_short, facts.total_weight) {
        (Some(hash), Some(total)) => (hash, total),
        _ => {
            return BroadcastAction::CalcSubset;
        },
    };
    if validators_hash_short != facts.validator_set_hash {
        return BroadcastAction::Fail { error: ShardClientError::BadValidatorSetHash };
    }
    let signed = match facts.signed_weight {
        Some(weight) => weight,
        None => {
            return BroadcastAction::CheckSignatures;
        },
    };
    if !has_quorum(signed, total) {
        return BroadcastAction::Fail { error: ShardClientError::InsufficientSignatureWeight };
    }
    if !facts.proof_checked {
        let check = if !facts.is_masterchain {
            ProofCheck::ProofLink
        } else if key_block_seq_no == 0 {
            ProofCheck::WithZerostate
        } else {
            ProofCheck::WithKeyBlockProof
        };
        return BroadcastAction::CheckProof { check };
    }
    let stored = match facts.data_stored {
        Some(stored) => stored,
        None => {
            return BroadcastAction::StoreBlockData;
        },
    };
    if !stored.updated {
        return BroadcastAction::Done;
    }
    if !stored.has_proof {
        match facts.proof_stored {
            None => {
                return BroadcastAction::StoreBlockProof;
            },
            Some(false) => {
                return BroadcastAction::Done;
            },
            Some(true) => {},
        }
    }
    if facts.applied {
        return BroadcastAction::Done;
    }
    if facts.is_masterchain {
        return if facts.seq_no as u64 == last_applied as u64 + 1 {
            BroadcastAction::ApplyBlock { mc_seq_no: facts.seq_no, pre_apply: false }
        } else {
            BroadcastAction::Done
        };
    }
    let master_ref = match facts.master_ref_seq_no {
        None => {
            return BroadcastAction::ReadMasterRef;
        },
        Some(None) => {
            return BroadcastAction::Fail { error: ShardClientError::InvalidBlockExtra };
        },
        Some(Some(seq_no)) => seq_no,
    };
    let shards_client = match facts.shards_client_mc_seq_no {
        Some(seq_no) => seq_no,
        None => {
            return BroadcastAction::LoadShardsClientMcBlock;
        },
    };
    if shards_client as u64 + SHARD_APPLY_LAG as u64 >= master_ref as u64 {
        BroadcastAction::ApplyBlock { mc_seq_no: shards_client, pre_apply: true }
    } else {
        BroadcastAction::Done
    }
}

/// What the masterchain walker has found out about the block that follows
/// `prev_seq_no`. A field is `None` until the step that finds it out has
/// been taken.
pub struct NextBlockFacts {
    /// Sequence number of the block that the walker stands at.
    pub prev_seq_no: u32,
    /// The handle of that block, `Some(None)` where it has none.
    pub prev_handle: Option<Option<BlockMeta>>,
    /// Sequence number of the block behind the `next1` edge.
    pub next1_seq_no: Option<u32>,
    /// The block that was downloaded.
    pub downloaded: Option<Downloaded>,
    /// Whether the proof was checked against the state of the previous block.
    pub proof_checked: bool,
    /// The handle of the downloaded block, `Some(None)` where it has none.
    pub handle: Option<Option<BlockMeta>>,
    /// The handle after the data of the block was stored.
    pub stored: Option<BlockMeta>,
    /// Whether the proof of the block was stored.
    pub proof_stored: bool,
    /// Whether the block was applied.
    pub applied: bool,
}

/// What the masterchain walker does next.
#[derive(Clone, Copy, Debug, PartialEq, Eq, Structural)]
pub enum NextBlockAction {
    /// Load the handle of the block that the walker stands at.
    LoadPrevHandle,
    /// Load the block behind the `next1` edge of that block.
    LoadNext1,
    /// Download the block behind the edge and apply it.
    DownloadAndApply { mc_seq_no: u32 },
    /// Download the next masterchain block and its proof.
    DownloadNext,
    /// Check the proof against the state of the previous block.
    CheckProof,
    /// Load the handle of the downloaded block.
    LoadHandle,
    /// Store the data of the block; `partially_initialized` where a handle
    /// without data was found.
    StoreBlockData { partially_initialized: bool },
    /// Store the proof of the block.
    StoreBlockProof,
    /// Apply the block.
    ApplyBlock { mc_seq_no: u32 },
    /// The walker moves on to the block `seq_no`.
    Done { seq_no: u32 },
    /// The step failed; the walker tries again from where it stands.
    Fail { error: ShardClientError },
}

impl NextBlockFacts {
    /// The handle with which the block is applied: the one that was found
    /// with data, else the one that storing the data gave.
    pub open spec fn block_handle(self) -> Option<BlockMeta> {
        if self.handle is Some && self.handle->0 is Some && self.handle->0->0.has_data {
            self.handle->0
        } else {
            self.stored
        }
    }

    /// The step that follows from the record.
    ///
    /// A block with a `next1` edge is followed along the edge. Else the
    /// next block is downloaded: it must follow the previous one and come
    /// with a full proof, which is checked before anything is stored.
    pub open spec fn next(self) -> NextBlockAction {
        if self.prev_handle is None {
            NextBlockAction::LoadPrevHandle
        } else if self.prev_handle->0 is None {
            NextBlockAction::Fail { error: ShardClientError::MasterchainBlockNotFound }
        } else if self.prev_handle->0->0.has_next1 {
            if self.next1_seq_no is None {
                NextBlockAction::LoadNext1
            } else if !self.applied {
                NextBlockAction::DownloadAndApply { mc_seq_no: self.next1_seq_no->0 }
            } else {
                NextBlockAction::Done { seq_no: self.next1_seq_no->0 }
            }
        } else if self.downloaded is None {
            NextBlockAction::DownloadNext
        } else if self.downloaded->0.seq_no != self.prev_seq_no + 1 {
            NextBlockAction::Fail { error: ShardClientError::BlockIdMismatch }
        } else if self.downloaded->0.is_link {
            NextBlockAction::Fail { error: ShardClientError::InvalidBlockProof }
        } else if !self.proof_checked {
            NextBlockAction::CheckProof
        } else if self.handle is None {
            NextBlockAction::LoadHandle
        } else if self.block_handle() is None {
            NextBlockAction::StoreBlockData { partially_initialized: self.handle->0 is Some }
        } else if !self.block_handle()->0.has_proof && !self.proof_stored {
            NextBlockAction::StoreBlockProof
        } else if !self.applied {
            NextBlockAction::ApplyBlock { mc_seq_no: self.downloaded->0.seq_no }
        } else {
            NextBlockAction::Done { seq_no: self.downloaded->0.seq_no }
        }
    }

    /// An empty record for the walker at the block `prev_seq_no`.
    pub fn new(prev_seq_no: u32) -> (facts: Self)
        ensures
            facts.prev_seq_no == prev_seq_no,
            facts.next() == NextBlockAction::LoadPrevHandle,
    {
        NextBlockFacts {
            prev_seq_no,
            prev_handle: None,
            next1_seq_no: None,
            downloaded: None,
            proof_checked: false,
            handle: None,
            stored: None,
            proof_stored: false,
            applied: false,
        }
    }
}

/// Names what the masterchain walker does next to get from one block to
/// the one that follows, given what it has found out so far.
pub fn load_next_masterchain_block(facts: &NextBlockFacts) -> (action: NextBlockAction)
    ensures
        action == facts.next(),
        action is StoreBlockData || action is StoreBlockProof || action is ApplyBlock ==> {
            &&& facts.downloaded is Some
            &&& facts.downloaded->0.seq_no == facts.prev_seq_no + 1
            &&& !facts.downloaded->0.is_link
            &&& facts.proof_checked
        },
{
    let prev_handle = match &facts.prev_handle {
        None => {
            return NextBlockAction::LoadPrevHandle;
        },
        Some(None) => {
            return NextBlockAction::Fail { error: ShardClientError::MasterchainBlockNotFound };
        },
        Some(Some(meta)) => meta,
    };
    if prev_handle.has_next1() {
        return match facts.next1_seq_no {
            None => NextBlockAction::LoadNext1,
            Some(seq_no) => if !facts.applied {
                NextBlockAction::DownloadAndApply { mc_seq_no: seq_no }
            } else {
                NextBlockAction::Done { seq_no }
            },
        };
    }
    let (seq_no, is_link) = match facts.downloaded {
        Some(downloaded) => (downloaded.seq_no, downloaded.is_link),
        None => {
            return NextBlockAction::DownloadNext;
        },
    };
    if seq_no as u64 != facts.prev_seq_no as u64 + 1 {
        return NextBlockAction::Fail { error: ShardClientError::BlockIdMismatch };
    }
    if is_link {
        return NextBlockAction::Fail { error: ShardClientError::InvalidBlockProof };
    }
    if !facts.proof_checked {
        return NextBlockAction::CheckProof;
    }
    let found = match &facts.handle {
        None => {
            return NextBlockAction::LoadHandle;
        },
        Some(found) => found,
    };
    let handle = match found {
        Some(meta) if meta.has_data() => Some(*meta),
        _ => facts.stored,
    };
    let handle = match handle {
        Some(meta) => meta,
        None => {
            return NextBlockAction::StoreBlockData { partially_initialized: found.is_some() };
        },
    };
    if !handle.has_proof() && !facts.proof_stored {
        return NextBlockAction::StoreBlockProof;
    }
    if !facts.applied {
        NextBlockAction::ApplyBlock { mc_seq_no: seq_no }
    } else {
        NextBlockAction::Done { seq_no }
    }
}

/// A shard block that a masterchain block refers to, with its handle
/// where it has one.
pub struct ShardBlock {
    pub id: BlockId,
    pub handle: Option<BlockMeta>,
}

impl ShardBlock {
    /// Whether the block is still to be applied.
    pub open spec fn pending(self) -> bool {
        !(self.handle is Some && self.handle->0.is_applied)
    }
}

/// The shard blocks of a masterchain block that are still to be downloaded
/// and applied: those without a handle that says they are applied, in the
/// order in which the masterchain block names them.
pub fn load_shard_blocks(shard_blocks: &[ShardBlock]) -> (pending: Vec<BlockId>)
    ensures
        pending@ == shard_blocks@.filter(|block: ShardBlock| block.pending()).map_values(
            |block: ShardBlock| block.id,
        ),
{
    let mut pending: Vec<BlockId> = Vec::new();
    let mut i: usize = 0;
    let ghost select = |block: ShardBlock| block.pending();
    let ghost id_of = |block: ShardBlock| block.id;
    assert(shard_blocks@.take(0) =~= Seq::<ShardBlock>::empty());
    assert(Seq::<ShardBlock>::empty().filter(select) =~= Seq::<ShardBlock>::empty()) by {
        reveal(Seq::filter);
    }
    while i < shard_blocks.len()
        invariant
            i <= shard_blocks@.len(),
            select == |block: ShardBlock| block.pending(),
            id_of == |block: ShardBlock| block.id,
            pending@ == shard_blocks@.take(i as int).filter(select).map_values(id_of),
        decreases shard_blocks@.len() - i,
    {
        let block = &shard_blocks[i];
        let applied = match &block.handle {
            Some(meta) => meta.is_applied(),
            None => false,
        };
        proof {
            let front = shard_blocks@.take(i as int);
            assert(shard_blocks@.take(i + 1) =~= front.push(shard_blocks@[i as int]));
            reveal(Seq::filter);
            assert(front.push(shard_blocks@[i as int]).drop_last() =~= front);
        }
        if !applied {
            pending.push(block.id);
            assert(pending@ =~= shard_blocks@.take(i + 1).filter(select).map_values(id_of));
        }
        i = i + 1;
    }
    assert(shard_blocks@.take(shard_blocks@.len() as int) =~= shard_blocks@);
    pending
}

/// What a walker does at the head of its loop.
#[derive(Clone, Copy, Debug, PartialEq, Eq, Structural)]
pub enum WalkAction {
    /// The node shuts down: the walker ends.
    Stop,
    /// Go on from the block `seq_no`.
    Continue { seq_no: u32 },
}

/// Names what the masterchain walker does at the head of its loop: it
/// ends where the node shuts down, moves on to the block that the last
/// round reached, and stays where the last round failed.
pub fn walk_masterchain_blocks(is_working: bool, seq_no: u32, loaded: Option<u32>) -> (action:
    WalkAction)
    ensures
        !is_working ==> action == WalkAction::Stop,
        is_working && loaded is Some ==> action == (WalkAction::Continue { seq_no: loaded->0 }),
        is_working && loaded is None ==> action == (WalkAction::Continue { seq_no }),
{
    if !is_working {
        WalkAction::Stop
    } else {
        match loaded {
            Some(next) => WalkAction::Continue { seq_no: next },
            None => WalkAction::Continue { seq_no },
        }
    }
}

/// Names what the shard walker does at the head of its loop: it fails
/// where the masterchain block to start from has no handle, ends where
/// the node shuts down, and else waits for the masterchain block that is
/// applied after `seq_no`.
pub fn walk_shard_blocks(is_working: bool, handle: Option<&BlockMeta>, seq_no: u32) -> (result:
    Result<WalkAction, ShardClientError>)
    ensures
        handle is None ==> result == Err::<WalkAction, ShardClientError>(
            ShardClientError::ShardchainBlockHandleNotFound,
        ),
        handle is Some && !is_working ==> result == Ok::<WalkAction, ShardClientError>(
            WalkAction::Stop,
        ),
        handle is Some && is_working ==> result == Ok::<WalkAction, ShardClientError>(
            WalkAction::Continue { seq_no },
        ),
{
    if handle.is_none() {
        return Err(ShardClientError::ShardchainBlockHandleNotFound);
    }
    if !is_working {
        Ok(WalkAction::Stop)
    } else {
        Ok(WalkAction::Continue { seq_no })
    }
}

} // verus!
