//! Block identities and the frontier of blocks that are still in use.

use vstd::prelude::*;

verus! {

/// Workchain id of the masterchain.
pub const MASTERCHAIN_ID: i32 = -1;

/// A shard: a workchain and a prefix of its account space.
#[derive(Clone, Copy, Debug, PartialEq, Eq, Structural)]
pub struct ShardIdent {
    pub workchain_id: i32,
    pub shard_prefix: u64,
}

impl ShardIdent {
    /// Whether the shard is the masterchain.
    pub open spec fn masterchain(self) -> bool {
        self.workchain_id == MASTERCHAIN_ID
    }

    /// Whether the shard is the masterchain.
    pub fn is_masterchain(&self) -> (is: bool)
        ensures
            is == self.masterchain(),
    {
        self.workchain_id == MASTERCHAIN_ID
    }
}

/// The full identity of a block. Two blocks are the same block where all
/// five parts agree.
#[derive(Clone, Copy, Debug)]
pub struct BlockId {
    pub shard_id: ShardIdent,
    pub seq_no: u32,
    pub root_hash: [u8; 32],
    pub file_hash: [u8; 32],
}

/// The newest block of one shard that is still in use.
#[derive(Clone, Copy, Debug)]
pub struct ShardTop {
    pub shard_id: ShardIdent,
    pub seq_no: u32,
}

/// The frontier of blocks that garbage collection keeps: the oldest
/// masterchain block in use and, for each shard, the oldest block in use.
pub struct TopBlocks {
    /// Sequence number of the oldest masterchain block in use.
    pub mc_seq_no: u32,
    /// The oldest block in use of each shard.
    pub shard_heights: Vec<ShardTop>,
}

impl TopBlocks {
    /// Whether the block `seq_no` of `shard` is at or past the frontier. A
    /// shard without an entry has no block in use.
    pub open spec fn holds(&self, shard: ShardIdent, seq_no: u32) -> bool {
        if shard.masterchain() {
            seq_no >= self.mc_seq_no
        } else {
            exists|i: int|
                0 <= i < self.shard_heights@.len() && (#[trigger] self.shard_heights@[i]).shard_id
                    == shard && seq_no >= self.shard_heights@[i].seq_no
        }
    }

    /// Whether the block is at or past the frontier.
    pub fn contains(&self, block_id: &BlockId) -> (kept: bool)
        ensures
            kept == self.holds(block_id.shard_id, block_id.seq_no),
    {
        self.contains_shard_seq_no(&block_id.shard_id, block_id.seq_no)
    }

    /// Whether the block `seq_no` of `shard_ident` is at or past the frontier.
    pub fn contains_shard_seq_no(&self, shard_ident: &ShardIdent, seq_no: u32) -> (kept: bool)
        ensures
            kept == self.holds(*shard_ident, seq_no),
    {
        if shard_ident.is_masterchain() {
            return seq_no >= self.mc_seq_no;
        }
        let mut i: usize = 0;
        while i < self.shard_heights.len()
            invariant
                !shard_ident.masterchain(),
                i <= self.shard_heights@.len(),
                forall|j: int|
                    0 <= j < i ==> !((#[trigger] self.shard_heights@[j]).shard_id == *shard_ident
                        && seq_no >= self.shard_heights@[j].seq_no),
            decreases self.shard_heights@.len() - i,
        {
            let top = &self.shard_heights[i];
            if top.shard_id.workchain_id == shard_ident.workchain_id && top.shard_id.shard_prefix
                == shard_ident.shard_prefix && seq_no >= top.seq_no {
                assert(self.shard_heights@[i as int].shard_id == *shard_ident);
                return true;
            }
            i = i + 1;
        }
        false
    }
}

} // verus!
