//! Layout of a row of the cell column, and the merge that the key-value
//! engine applies to it.
//!
//! A row is a reference count, eight bytes little-endian and signed, followed
//! by the serialized cell. Writers never read, change and write back a row:
//! they hand the engine an operand of the same layout, whose count is a
//! difference, and the engine merges it into the row.

use vstd::prelude::*;
use vstd::slice::slice_subrange;
use crate::bytes::{
    bits_of_i64, i64_bits, i64_from_le, i64_le, i64_value, lemma_decode_encode,
    lemma_decode_prefix, push_bytes, push_u64_le, read_u64_le, u64_from_le, u64_le,
};

verus! {

/// Length of the reference count in front of a row.
pub const RC_BYTES: usize = 8;

/// The reference count that a row carries; a row too short to hold one
/// counts as zero.
pub open spec fn row_refcount(row: Seq<u8>) -> i64 {
    if row.len() < 8 {
        0
    } else {
        i64_from_le(row)
    }
}

/// Whether a reader treats the row as a cell that is there.
pub open spec fn row_has_value(row: Seq<u8>) -> bool {
    row_refcount(row) > 0
}

/// What follows the reference count, for a reader: nothing when the count is
/// not positive.
pub open spec fn row_body(row: Seq<u8>) -> Option<Seq<u8>> {
    if row_has_value(row) {
        Some(row.skip(8))
    } else {
        None
    }
}

/// What follows the reference count, for the merge: nothing when the count
/// is not positive or the row ends with it.
pub open spec fn row_payload(row: Seq<u8>) -> Option<Seq<u8>> {
    if row_has_value(row) && row.len() > 8 {
        Some(row.skip(8))
    } else {
        None
    }
}

/// The operand that adds `rc` references to a cell and carries its body.
pub open spec fn positive_operand(rc: u32, data: Seq<u8>) -> Seq<u8> {
    i64_le(rc as i64) + data
}

/// The operand that takes `rc` references from a cell.
pub open spec fn negative_operand(rc: u32) -> Seq<u8> {
    i64_le(-(rc as i64) as i64)
}

/// `x`, or the nearest bound of `i64` where it lies outside.
pub open spec fn saturated(x: int) -> i64 {
    if x > i64::MAX {
        i64::MAX
    } else if x < i64::MIN {
        i64::MIN
    } else {
        x as i64
    }
}

/// The reference count of the row that merging `operand` into `existing`
/// leaves: the sum of the two counts.
pub open spec fn merged_refcount(existing: Option<Seq<u8>>, operand: Seq<u8>) -> i64 {
    let rc = match existing {
        Some(row) => row_refcount(row),
        None => 0,
    };
    saturated(rc + row_refcount(operand))
}

/// The body of the row that merging `operand` into `existing` leaves: the one
/// that was there, or else the one that a positive operand brings.
pub open spec fn merged_payload(existing: Option<Seq<u8>>, operand: Seq<u8>) -> Option<Seq<u8>> {
    let old_payload = match existing {
        Some(row) => row_payload(row),
        None => None,
    };
    if old_payload is None && row_refcount(operand) > 0 {
        row_payload(operand)
    } else {
        old_payload
    }
}

/// The row that merging `operand` into `existing` leaves. The body is kept
/// only while the count is positive.
pub open spec fn merged_row(existing: Option<Seq<u8>>, operand: Seq<u8>) -> Seq<u8> {
    let rc = merged_refcount(existing, operand);
    let payload = merged_payload(existing, operand);
    if rc > 0 && payload is Some {
        i64_le(rc) + payload->0
    } else {
        i64_le(rc)
    }
}

/// Reads the reference count in front of `bytes`.
fn read_refcount(bytes: &[u8]) -> (rc: i64)
    requires
        bytes.len() >= 8,
    ensures
        rc == i64_from_le(bytes@),
{
    assert(bytes@.skip(0) =~= bytes@);
    i64_value(read_u64_le(bytes, 0))
}

/// Whether the row holds a cell with a positive reference count.
pub fn has_value(bytes: &[u8]) -> (found: bool)
    ensures
        found == row_has_value(bytes@),
{
    if bytes.len() < RC_BYTES {
        return false;
    }
    read_refcount(bytes) > 0
}

/// The serialized cell of a row, or `None` where its reference count is not
/// positive.
pub fn strip_refcount(bytes: &[u8]) -> (body: Option<&[u8]>)
    ensures
        body is Some <==> row_has_value(bytes@),
        body is Some ==> Some(body->0@) == row_body(bytes@),
{
    if bytes.len() < RC_BYTES {
        return None;
    }
    if read_refcount(bytes) > 0 {
        let body = slice_subrange(bytes, RC_BYTES, bytes.len());
        assert(body@ =~= bytes@.skip(8));
        Some(body)
    } else {
        None
    }
}

/// The reference count of a row and, where the count is positive and
/// something follows it, the serialized cell.
pub fn decode_value_with_rc(bytes: &[u8]) -> (decoded: (i64, Option<&[u8]>))
    ensures
        decoded.0 == row_refcount(bytes@),
        decoded.1 is Some <==> row_payload(bytes@) is Some,
        decoded.1 is Some ==> Some(decoded.1->0@) == row_payload(bytes@),
{
    if bytes.len() < RC_BYTES {
        return (0, None);
    }
    let rc = read_refcount(bytes);
    if rc <= 0 || bytes.len() == RC_BYTES {
        (rc, None)
    } else {
        let body = slice_subrange(bytes, RC_BYTES, bytes.len());
        assert(body@ =~= bytes@.skip(8));
        (rc, Some(body))
    }
}

/// Appends to `target` the operand that adds `rc` references to a cell whose
/// serialized form is `data`.
pub fn add_positive_refcount(rc: u32, data: &[u8], target: &mut Vec<u8>)
    ensures
        final(target)@ == old(target)@ + positive_operand(rc, data@),
{
    push_u64_le(target, i64_bits(rc as i64));
    push_bytes(target, data);
    assert(target@ =~= old(target)@ + positive_operand(rc, data@));
}

/// The operand that takes `rc` references from a cell.
pub fn encode_negative_refcount(rc: u32) -> (operand: Vec<u8>)
    ensures
        operand@ == negative_operand(rc),
{
    let mut operand: Vec<u8> = Vec::new();
    push_u64_le(&mut operand, i64_bits(-(rc as i64)));
    assert(operand@ =~= negative_operand(rc));
    operand
}

/// The sum of two reference counts, held to the range of the type.
fn saturating_sum(a: i64, b: i64) -> (sum: i64)
    ensures
        sum == saturated(a + b),
{
    let wide: i128 = a as i128 + b as i128;
    if wide > i64::MAX as i128 {
        i64::MAX
    } else if wide < i64::MIN as i128 {
        i64::MIN
    } else {
        wide as i64
    }
}

/// Merges one operand into a row, as the engine does for the cell column.
///
/// The counts add up. The body is the one that the row had, or else the one
/// that the operand brings with a positive count, so that an operand may
/// arrive before any row exists.
pub fn merge(existing: Option<&[u8]>, operand: &[u8]) -> (row: Vec<u8>)
    ensures
        row@ == merged_row(
            match existing {
                Some(e) => Some(e@),
                None => None,
            },
            operand@,
        ),
{
    let ghost existing_view: Option<Seq<u8>> = match existing {
        Some(e) => Some(e@),
        None => None,
    };
    let (rc, payload) = match existing {
        Some(e) => decode_value_with_rc(e),
        None => (0, None),
    };
    let (delta, new_payload) = decode_value_with_rc(operand);
    let payload = if payload.is_none() && delta > 0 {
        new_payload
    } else {
        payload
    };
    let rc = saturating_sum(rc, delta);
    let mut row: Vec<u8> = Vec::new();
    push_u64_le(&mut row, i64_bits(rc));
    if rc > 0 {
        if let Some(body) = payload {
            push_bytes(&mut row, body);
        }
    }
    assert(row@ =~= merged_row(existing_view, operand@));
    row
}

/// A positive operand decodes to its count and, unless it is empty, its body.
pub proof fn lemma_positive_operand(rc: u32, data: Seq<u8>)
    ensures
        row_refcount(positive_operand(rc, data)) == rc,
        rc > 0 ==> row_body(positive_operand(rc, data)) == Some(data),
        rc > 0 && data.len() > 0 ==> row_payload(positive_operand(rc, data)) == Some(data),
{
    let row = positive_operand(rc, data);
    lemma_decode_encode(0, 0, 0, rc as i64, 0);
    lemma_le_prefix(bits_of_i64(rc as i64), data);
    assert(row.skip(8) =~= data);
}

/// A negative operand decodes to its count and carries no body.
pub proof fn lemma_negative_operand(rc: u32)
    ensures
        row_refcount(negative_operand(rc)) == -(rc as int),
        row_payload(negative_operand(rc)) is None,
{
    lemma_decode_encode(0, 0, 0, (-(rc as i64)) as i64, 0);
}

/// What follows the eight bytes of a number does not change what they decode to.
pub proof fn lemma_le_prefix(x: u64, rest: Seq<u8>)
    ensures
        (u64_le(x) + rest).len() == 8 + rest.len(),
        u64_from_le(u64_le(x) + rest) == x,
{
    lemma_decode_encode(0, 0, x, 0, 0);
    lemma_decode_prefix(0, 0, x, rest);
}

/// The merged row decodes to the merged count and, while that is positive,
/// the merged body.
pub proof fn lemma_merged_row(existing: Option<Seq<u8>>, operand: Seq<u8>)
    ensures
        row_refcount(merged_row(existing, operand)) == merged_refcount(existing, operand),
        merged_refcount(existing, operand) > 0 ==> row_payload(merged_row(existing, operand))
            == (if merged_payload(existing, operand) is Some && merged_payload(
            existing,
            operand,
        )->0.len() > 0 {
            merged_payload(existing, operand)
        } else {
            None
        }),
{
    let rc = merged_refcount(existing, operand);
    let payload = merged_payload(existing, operand);
    let row = merged_row(existing, operand);
    lemma_decode_encode(0, 0, 0, rc, 0);
    if rc > 0 && payload is Some {
        lemma_le_prefix(bits_of_i64(rc), payload->0);
        assert(row.skip(8) =~= payload->0);
    }
}

} // verus!
