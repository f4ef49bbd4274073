//! Keys of the package entries: the stored body, proof or proof link of a block.
//!
//! The key of an entry is
//!
//! ```text
//! workchain (4 bytes, big-endian, signed) | shard prefix (8 bytes, big-endian)
//!   | sequence number (4 bytes, big-endian) | root hash (32 bytes) | kind (1 byte)
//! ```
//!
//! so that the entries of one shard stand together, in the order of their
//! sequence numbers, and the key of the block's handle can be cut out of it.

use vstd::prelude::*;
use crate::block_id::{BlockId, ShardIdent};
use crate::bytes::{
    bits_of_i32, i32_be, i32_bits, i32_from_be, i32_value, lemma_decode_encode,
    lemma_decode_prefix, push_bytes, push_u32_be, push_u64_be, read_u32_be, read_u64_be, u32_be,
    u32_from_be, u64_be, u64_from_be,
};

verus! {

/// Length of the part of a key that says which shard and sequence number
/// the block has.
pub const PACKAGE_ENTRY_PREFIX_LEN: usize = 16;

/// Length of the part of a key in front of the kind: prefix and root hash.
pub const PACKAGE_ENTRY_HANDLE_END: usize = 48;

/// Length of a key.
pub const PACKAGE_ENTRY_ID_LEN: usize = 49;

/// What is stored of a block under a package entry.
pub enum PackageEntryId {
    /// The body of the block.
    Block(BlockId),
    /// The proof of a masterchain block.
    Proof(BlockId),
    /// The proof link of a shard block.
    ProofLink(BlockId),
}

/// Why a byte string is not the key of a package entry.
#[derive(Clone, Copy, Debug, PartialEq, Eq, Structural)]
pub enum PackageEntryIdError {
    /// The byte string is shorter than the prefix of a key.
    InvalidPackageEntryId,
}

/// The hexadecimal digit of `nibble`, from `0123456789ABCDEF` where `upper`
/// and from `0123456789abcdef` else.
pub open spec fn hex_digit(nibble: int, upper: bool) -> u8 {
    if nibble < 10 {
        (48 + nibble) as u8
    } else if upper {
        (55 + nibble) as u8
    } else {
        (87 + nibble) as u8
    }
}

/// The hexadecimal text of `data`: two digits for each byte, the high half
/// first.
pub open spec fn hex_text(data: Seq<u8>, upper: bool) -> Seq<u8> {
    Seq::new(
        2 * data.len(),
        |i: int|
            if i % 2 == 0 {
                hex_digit(data[i / 2] as int / 16, upper)
            } else {
                hex_digit(data[i / 2] as int % 16, upper)
            },
    )
}

/// The upper case hexadecimal text of `data`, made with `hex::encode_upper`:
/// for each byte the digit of its high half and the digit of its low half.
#[verifier::external_body]
pub(crate) fn hex_upper(data: &[u8]) -> (text: Vec<u8>)
    ensures
        text@ == hex_text(data@, true),
{
    hex::encode_upper(data).into_bytes()
}

/// The lower case hexadecimal text of `data`, made with `hex::encode`: for
/// each byte the digit of its high half and the digit of its low half.
#[verifier::external_body]
pub(crate) fn hex_lower(data: &[u8]) -> (text: Vec<u8>)
    ensures
        text@ == hex_text(data@, false),
{
    hex::encode(data).into_bytes()
}

/// The decimal text of `x`.
pub open spec fn decimal(x: nat) -> Seq<u8>
    decreases x,
{
    if x < 10 {
        seq![(48 + x) as u8]
    } else {
        decimal(x / 10).push((48 + x % 10) as u8)
    }
}

/// The decimal text of `x`, with a minus sign where it is negative.
pub open spec fn signed_decimal(x: int) -> Seq<u8> {
    if x < 0 {
        seq![45u8] + decimal((-x) as nat)
    } else {
        decimal(x as nat)
    }
}

/// Appends the decimal text of `x` to `target`.
pub fn push_decimal(target: &mut Vec<u8>, x: u64)
    ensures
        final(target)@ == old(target)@ + decimal(x as nat),
{
    let mut digits: Vec<u8> = Vec::new();
    let mut rest: u64 = x;
    while rest >= 10
        invariant
            decimal(x as nat) == decimal(rest as nat) + digits@.reverse(),
        decreases rest,
    {
        let ghost before = digits@;
        digits.push((48 + rest % 10) as u8);
        proof {
            assert(digits@.reverse() =~= seq![(48 + rest % 10) as u8] + before.reverse());
            assert(decimal(rest as nat) == decimal((rest / 10) as nat).push(
                (48 + rest % 10) as u8,
            ));
            assert(decimal(rest as nat) + before.reverse() =~= decimal((rest / 10) as nat)
                + digits@.reverse());
        }
        rest = rest / 10;
    }
    target.push((48 + rest) as u8);
    let mut i: usize = digits.len();
    while i > 0
        invariant
            i <= digits@.len(),
            target@ == old(target)@ + decimal(rest as nat) + digits@.reverse().take(
                digits@.len() - i,
            ),
        decreases i,
    {
        i = i - 1;
        target.push(digits[i]);
        assert(digits@.reverse().take(digits@.len() - i) =~= digits@.reverse().take(
            digits@.len() - i - 1,
        ).push(digits@[i as int]));
    }
    assert(digits@.reverse().take(digits@.len() as int) =~= digits@.reverse());
}

impl PackageEntryId {
    /// The block that the entry belongs to.
    pub open spec fn block(self) -> BlockId {
        match self {
            PackageEntryId::Block(id) => id,
            PackageEntryId::Proof(id) => id,
            PackageEntryId::ProofLink(id) => id,
        }
    }

    /// The byte that tells the kind of the entry.
    pub open spec fn kind_tag(self) -> u8 {
        match self {
            PackageEntryId::Block(_) => 0,
            PackageEntryId::Proof(_) => 1,
            PackageEntryId::ProofLink(_) => 2,
        }
    }

    /// The word in front of the name of the entry's file.
    pub open spec fn filename_prefix(self) -> Seq<u8> {
        match self {
            PackageEntryId::Block(_) => seq![98u8, 108, 111, 99, 107, 95],
            PackageEntryId::Proof(_) => seq![112u8, 114, 111, 111, 102, 95],
            PackageEntryId::ProofLink(_) => seq![112u8, 114, 111, 111, 102, 108, 105, 110, 107, 95],
        }
    }

    /// The key of the entry.
    pub open spec fn key(self) -> Seq<u8> {
        let id = self.block();
        i32_be(id.shard_id.workchain_id) + u64_be(id.shard_id.shard_prefix) + u32_be(id.seq_no)
            + id.root_hash@ + seq![self.kind_tag()]
    }

    /// The name of the entry's file in an archive: the kind, then
    /// `(workchain,shard,seq_no):ROOT:FILE` with the shard prefix in sixteen
    /// hexadecimal digits and the two hashes in upper case hexadecimal.
    pub open spec fn name(self) -> Seq<u8> {
        let id = self.block();
        self.filename_prefix() + seq![40u8] + signed_decimal(id.shard_id.workchain_id as int)
            + seq![44u8] + hex_text(u64_be(id.shard_id.shard_prefix), false) + seq![44u8]
            + decimal(id.seq_no as nat) + seq![41u8, 58u8] + hex_text(id.root_hash@, true)
            + seq![58u8] + hex_text(id.file_hash@, true)
    }

    /// The block that the entry belongs to.
    pub fn block_id(&self) -> (id: &BlockId)
        ensures
            *id == self.block(),
    {
        match self {
            PackageEntryId::Block(id) => id,
            PackageEntryId::Proof(id) => id,
            PackageEntryId::ProofLink(id) => id,
        }
    }

    /// The key under which the entry is stored.
    pub fn to_vec(&self) -> (key: Vec<u8>)
        ensures
            key@ == self.key(),
            key@.len() == PACKAGE_ENTRY_ID_LEN,
    {
        let id = self.block_id();
        let tag: u8 = match self {
            PackageEntryId::Block(_) => 0,
            PackageEntryId::Proof(_) => 1,
            PackageEntryId::ProofLink(_) => 2,
        };
        let mut key: Vec<u8> = Vec::new();
        push_u32_be(&mut key, i32_bits(id.shard_id.workchain_id));
        push_u64_be(&mut key, id.shard_id.shard_prefix);
        push_u32_be(&mut key, id.seq_no);
        push_bytes(&mut key, id.root_hash.as_slice());
        key.push(tag);
        proof {
            lemma_decode_encode(0, id.seq_no, id.shard_id.shard_prefix, 0, id.shard_id.workchain_id);
        }
        assert(key@ =~= self.key());
        key
    }

    /// The name of the entry's file in an archive.
    pub fn filename(&self) -> (name: Vec<u8>)
        ensures
            name@ == self.name(),
    {
        let id = self.block_id();
        let mut name: Vec<u8> = Vec::new();
        match self {
            PackageEntryId::Block(_) => {
                name.push(98);
                name.push(108);
                name.push(111);
                name.push(99);
                name.push(107);
                name.push(95);
            },
            PackageEntryId::Proof(_) => {
                name.push(112);
                name.push(114);
                name.push(111);
                name.push(111);
                name.push(102);
                name.push(95);
            },
            PackageEntryId::ProofLink(_) => {
                name.push(112);
                name.push(114);
                name.push(111);
                name.push(111);
                name.push(102);
                name.push(108);
                name.push(105);
                name.push(110);
                name.push(107);
                name.push(95);
            },
        }
        assert(name@ =~= self.filename_prefix());
        name.push(40);
        let workchain: i32 = id.shard_id.workchain_id;
        if workchain < 0 {
            name.push(45);
            push_decimal(&mut name, (-(workchain as i64)) as u64);
        } else {
            push_decimal(&mut name, workchain as u64);
        }
        name.push(44);
        let mut shard: Vec<u8> = Vec::new();
        push_u64_be(&mut shard, id.shard_id.shard_prefix);
        let shard_text = hex_lower(shard.as_slice());
        push_bytes(&mut name, shard_text.as_slice());
        name.push(44);
        push_decimal(&mut name, id.seq_no as u64);
        name.push(41);
        name.push(58);
        let root_text = hex_upper(id.root_hash.as_slice());
        push_bytes(&mut name, root_text.as_slice());
        name.push(58);
        let file_text = hex_upper(id.file_hash.as_slice());
        push_bytes(&mut name, file_text.as_slice());
        assert(name@ =~= self.name());
        name
    }
}

/// The part of a package entry key that garbage collection goes by.
#[derive(Clone, Copy, Debug)]
pub struct PackageEntryIdPrefix {
    pub shard_ident: ShardIdent,
    pub seq_no: u32,
}

/// The shard that the first sixteen bytes of `key` name.
pub open spec fn key_shard(key: Seq<u8>) -> ShardIdent {
    ShardIdent { workchain_id: i32_from_be(key), shard_prefix: u64_from_be(key.skip(4)) }
}

/// The sequence number that the first sixteen bytes of `key` name.
pub open spec fn key_seq_no(key: Seq<u8>) -> u32 {
    u32_from_be(key.skip(12))
}

impl PackageEntryIdPrefix {
    /// Reads the shard and the sequence number in front of a key. Fails
    /// where `data` is shorter than sixteen bytes.
    pub fn from_slice(data: &[u8]) -> (result: Result<Self, PackageEntryIdError>)
        ensures
            result is Ok <==> data@.len() >= PACKAGE_ENTRY_PREFIX_LEN,
            result is Ok ==> result->Ok_0.shard_ident == key_shard(data@) && result->Ok_0.seq_no
                == key_seq_no(data@),
    {
        if data.len() < PACKAGE_ENTRY_PREFIX_LEN {
            return Err(PackageEntryIdError::InvalidPackageEntryId);
        }
        assert(data@.skip(0) =~= data@);
        let workchain_id = i32_value(read_u32_be(data, 0));
        let shard_prefix = read_u64_be(data, 4);
        let seq_no = read_u32_be(data, 12);
        Ok(PackageEntryIdPrefix { shard_ident: ShardIdent { workchain_id, shard_prefix }, seq_no })
    }
}

/// A key tells the shard and the sequence number of its block in its first
/// sixteen bytes, and the root hash in the 32 bytes behind them.
pub proof fn lemma_key_layout(id: PackageEntryId)
    ensures
        id.key().len() == PACKAGE_ENTRY_ID_LEN,
        key_shard(id.key()) == id.block().shard_id,
        key_seq_no(id.key()) == id.block().seq_no,
        id.key().subrange(16, 48) == id.block().root_hash@,
        id.key()[48] == id.kind_tag(),
{
    let b = id.block();
    let key = id.key();
    let wc = i32_be(b.shard_id.workchain_id);
    let sh = u64_be(b.shard_id.shard_prefix);
    let sq = u32_be(b.seq_no);
    let tail = b.root_hash@ + seq![id.kind_tag()];
    lemma_decode_encode(0, b.seq_no, b.shard_id.shard_prefix, 0, b.shard_id.workchain_id);
    assert(key.subrange(16, 48) =~= b.root_hash@);
    assert(key =~= wc + (sh + sq + tail));
    lemma_decode_prefix(0, bits_of_i32(b.shard_id.workchain_id), 0, sh + sq + tail);
    assert(key.skip(4) =~= sh + (sq + tail));
    lemma_decode_prefix(0, 0, b.shard_id.shard_prefix, sq + tail);
    assert(key.skip(12) =~= sq + tail);
    lemma_decode_prefix(0, b.seq_no, 0, tail);
    assert(key_shard(key) == b.shard_id);
}

} // verus!
