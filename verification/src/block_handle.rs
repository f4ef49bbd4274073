//! Block handles: what the node knows of a block besides its contents.
//!
//! The flags of a handle only ever go from unset to set. Each setter tells
//! its caller whether it was the one to set the flag: that caller, and no
//! other, owes the work that goes with the flag.

use vstd::prelude::*;
use crate::block_id::BlockId;
use crate::bytes::{push_u32_le, u32_le};

verus! {

/// The flags of a block and the masterchain block that refers to it.
#[derive(Clone, Copy, Debug)]
pub struct BlockMeta {
    pub has_data: bool,
    pub has_proof: bool,
    pub has_proof_link: bool,
    pub has_next1: bool,
    pub is_applied: bool,
    pub is_archived: bool,
    pub is_moving_to_archive: bool,
    pub is_key_block: bool,
    /// For a shard block, the sequence number of the masterchain block that
    /// referred to it.
    pub masterchain_ref_seq_no: u32,
}

pub const FLAG_HAS_DATA: u32 = 0x01;

pub const FLAG_HAS_PROOF: u32 = 0x02;

pub const FLAG_HAS_PROOF_LINK: u32 = 0x04;

pub const FLAG_HAS_NEXT1: u32 = 0x08;

pub const FLAG_IS_APPLIED: u32 = 0x10;

pub const FLAG_IS_ARCHIVED: u32 = 0x20;

pub const FLAG_IS_MOVING_TO_ARCHIVE: u32 = 0x40;

pub const FLAG_IS_KEY_BLOCK: u32 = 0x80;

/// `flag` where `set`, else nothing.
pub open spec fn flag_bits(set: bool, flag: u32) -> u32 {
    if set {
        flag
    } else {
        0
    }
}

impl BlockMeta {
    /// Whether every flag that is set in `before` is set in `self`, and the
    /// masterchain reference is the same.
    pub open spec fn keeps(self, before: BlockMeta) -> bool {
        &&& before.has_data ==> self.has_data
        &&& before.has_proof ==> self.has_proof
        &&& before.has_proof_link ==> self.has_proof_link
        &&& before.has_next1 ==> self.has_next1
        &&& before.is_applied ==> self.is_applied
        &&& before.is_archived ==> self.is_archived
        &&& before.is_moving_to_archive ==> self.is_moving_to_archive
        &&& before.is_key_block ==> self.is_key_block
        &&& before.masterchain_ref_seq_no == self.masterchain_ref_seq_no
    }

    /// The flags as one word, a bit for each.
    pub open spec fn flag_word(self) -> u32 {
        (flag_bits(self.has_data, FLAG_HAS_DATA) + flag_bits(self.has_proof, FLAG_HAS_PROOF)
            + flag_bits(self.has_proof_link, FLAG_HAS_PROOF_LINK) + flag_bits(
            self.has_next1,
            FLAG_HAS_NEXT1,
        ) + flag_bits(self.is_applied, FLAG_IS_APPLIED) + flag_bits(
            self.is_archived,
            FLAG_IS_ARCHIVED,
        ) + flag_bits(self.is_moving_to_archive, FLAG_IS_MOVING_TO_ARCHIVE) + flag_bits(
            self.is_key_block,
            FLAG_IS_KEY_BLOCK,
        )) as u32
    }

    /// The row of the handle: the masterchain reference and the flag word,
    /// four bytes each, little-endian.
    pub open spec fn row(self) -> Seq<u8> {
        u32_le(self.masterchain_ref_seq_no) + u32_le(self.flag_word())
    }

    /// Metadata without any flag, for a block that the masterchain block
    /// `masterchain_ref_seq_no` refers to.
    pub fn new(masterchain_ref_seq_no: u32) -> (meta: Self)
        ensures
            meta.flag_word() == 0,
            meta.masterchain_ref_seq_no == masterchain_ref_seq_no,
    {
        BlockMeta {
            has_data: false,
            has_proof: false,
            has_proof_link: false,
            has_next1: false,
            is_applied: false,
            is_archived: false,
            is_moving_to_archive: false,
            is_key_block: false,
            masterchain_ref_seq_no,
        }
    }

    pub fn has_data(&self) -> (set: bool)
        ensures
            set == self.has_data,
    {
        self.has_data
    }

    pub fn has_proof(&self) -> (set: bool)
        ensures
            set == self.has_proof,
    {
        self.has_proof
    }

    pub fn has_proof_link(&self) -> (set: bool)
        ensures
            set == self.has_proof_link,
    {
        self.has_proof_link
    }

    pub fn has_next1(&self) -> (set: bool)
        ensures
            set == self.has_next1,
    {
        self.has_next1
    }

    pub fn is_applied(&self) -> (set: bool)
        ensures
            set == self.is_applied,
    {
        self.is_applied
    }

    pub fn is_archived(&self) -> (set: bool)
        ensures
            set == self.is_archived,
    {
        self.is_archived
    }

    pub fn is_moving_to_archive(&self) -> (set: bool)
        ensures
            set == self.is_moving_to_archive,
    {
        self.is_moving_to_archive
    }

    pub fn is_key_block(&self) -> (set: bool)
        ensures
            set == self.is_key_block,
    {
        self.is_key_block
    }

    pub fn masterchain_ref_seqno(&self) -> (seq_no: u32)
        ensures
            seq_no == self.masterchain_ref_seq_no,
    {
        self.masterchain_ref_seq_no
    }

    /// Sets the flag and tells whether it was unset before.
    pub fn set_has_data(&mut self) -> (changed: bool)
        ensures
            final(self).keeps(*old(self)),
            *final(self) == (BlockMeta { has_data: true, ..*old(self) }),
            changed == !old(self).has_data,
    {
        let changed = !self.has_data;
        self.has_data = true;
        changed
    }

    /// Sets the flag and tells whether it was unset before.
    pub fn set_has_proof(&mut self) -> (changed: bool)
        ensures
            final(self).keeps(*old(self)),
            *final(self) == (BlockMeta { has_proof: true, ..*old(self) }),
            changed == !old(self).has_proof,
    {
        let changed = !self.has_proof;
        self.has_proof = true;
        changed
    }

    /// Sets the flag and tells whether it was unset before.
    pub fn set_has_proof_link(&mut self) -> (changed: bool)
        ensures
            final(self).keeps(*old(self)),
            *final(self) == (BlockMeta { has_proof_link: true, ..*old(self) }),
            changed == !old(self).has_proof_link,
    {
        let changed = !self.has_proof_link;
        self.has_proof_link = true;
        changed
    }

    /// Sets the flag and tells whether it was unset before.
    pub fn set_has_next1(&mut self) -> (changed: bool)
        ensures
            final(self).keeps(*old(self)),
            *final(self) == (BlockMeta { has_next1: true, ..*old(self) }),
            changed == !old(self).has_next1,
    {
        let changed = !self.has_next1;
        self.has_next1 = true;
        changed
    }

    /// Sets the flag and tells whether it was unset before.
    pub fn set_is_applied(&mut self) -> (changed: bool)
        ensures
            final(self).keeps(*old(self)),
            *final(self) == (BlockMeta { is_applied: true, ..*old(self) }),
            changed == !old(self).is_applied,
    {
        let changed = !self.is_applied;
        self.is_applied = true;
        changed
    }

    /// Sets the flag and tells whether it was unset before.
    pub fn set_is_archived(&mut self) -> (changed: bool)
        ensures
            final(self).keeps(*old(self)),
            *final(self) == (BlockMeta { is_archived: true, ..*old(self) }),
            changed == !old(self).is_archived,
    {
        let changed = !self.is_archived;
        self.is_archived = true;
        changed
    }

    /// Sets the flag and tells whether it was unset before.
    pub fn set_is_moving_to_archive(&mut self) -> (changed: bool)
        ensures
            final(self).keeps(*old(self)),
            *final(self) == (BlockMeta { is_moving_to_archive: true, ..*old(self) }),
            changed == !old(self).is_moving_to_archive,
    {
        let changed = !self.is_moving_to_archive;
        self.is_moving_to_archive = true;
        changed
    }

    /// Sets the flag and tells whether it was unset before.
    pub fn set_is_key_block(&mut self) -> (changed: bool)
        ensures
            final(self).keeps(*old(self)),
            *final(self) == (BlockMeta { is_key_block: true, ..*old(self) }),
            changed == !old(self).is_key_block,
    {
        let changed = !self.is_key_block;
        self.is_key_block = true;
        changed
    }

    /// The row under which the handle is stored.
    pub fn to_vec(&self) -> (row: Vec<u8>)
        ensures
            row@ == self.row(),
    {
        let mut word: u32 = 0;
        if self.has_data {
            word = word + FLAG_HAS_DATA;
        }
        if self.has_proof {
            word = word + FLAG_HAS_PROOF;
        }
        if self.has_proof_link {
            word = word + FLAG_HAS_PROOF_LINK;
        }
        if self.has_next1 {
            word = word + FLAG_HAS_NEXT1;
        }
        if self.is_applied {
            word = word + FLAG_IS_APPLIED;
        }
        if self.is_archived {
            word = word + FLAG_IS_ARCHIVED;
        }
        if self.is_moving_to_archive {
            word = word + FLAG_IS_MOVING_TO_ARCHIVE;
        }
        if self.is_key_block {
            word = word + FLAG_IS_KEY_BLOCK;
        }
        let mut row: Vec<u8> = Vec::new();
        push_u32_le(&mut row, self.masterchain_ref_seq_no);
        push_u32_le(&mut row, word);
        row
    }
}

/// A block and what the node knows of it.
#[derive(Clone, Copy, Debug)]
pub struct BlockHandle {
    pub id: BlockId,
    pub meta: BlockMeta,
}

impl BlockHandle {
    /// The masterchain block that the block belongs to: the block itself
    /// for a masterchain block, else the one that referred to it.
    pub open spec fn mc_seq_no(self) -> u32 {
        if self.id.shard_id.masterchain() {
            self.id.seq_no
        } else {
            self.meta.masterchain_ref_seq_no
        }
    }

    /// Whether the proof of the block is a proof link: so it is for every
    /// block outside the masterchain.
    pub open spec fn proof_is_link(self) -> bool {
        !self.id.shard_id.masterchain()
    }

    /// Whether the proof of the block, of the kind that its shard calls
    /// for, is stored.
    pub open spec fn proof_stored(self) -> bool {
        if self.proof_is_link() {
            self.meta.has_proof_link
        } else {
            self.meta.has_proof
        }
    }

    pub fn new(id: BlockId, meta: BlockMeta) -> (handle: Self)
        ensures
            handle.id == id,
            handle.meta == meta,
    {
        BlockHandle { id, meta }
    }

    pub fn id(&self) -> (id: &BlockId)
        ensures
            *id == self.id,
    {
        &self.id
    }

    pub fn meta(&self) -> (meta: &BlockMeta)
        ensures
            *meta == self.meta,
    {
        &self.meta
    }

    /// Tells in `is_link` which kind of proof the block has, and returns
    /// whether that proof is stored.
    pub fn has_proof_or_link(&self, is_link: &mut bool) -> (stored: bool)
        ensures
            *final(is_link) == self.proof_is_link(),
            stored == self.proof_stored(),
    {
        *is_link = !self.id.shard_id.is_masterchain();
        if *is_link {
            self.meta.has_proof_link
        } else {
            self.meta.has_proof
        }
    }

    /// The masterchain block that the block belongs to.
    pub fn masterchain_ref_seqno(&self) -> (seq_no: u32)
        ensures
            seq_no == self.mc_seq_no(),
    {
        if self.id.shard_id.is_masterchain() {
            self.id.seq_no
        } else {
            self.meta.masterchain_ref_seq_no
        }
    }
}

/// Flags only accumulate: a flag that is set stays set through every
/// number of changes that each keep the flags.
pub proof fn lemma_flags_stay(first: BlockMeta, second: BlockMeta, third: BlockMeta)
    requires
        second.keeps(first),
        third.keeps(second),
    ensures
        first.keeps(first),
        third.keeps(first),
{
}

} // verus!
