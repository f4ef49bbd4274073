//! Fixed-width integer encodings used by the row and key layouts.
//!
//! Every layout in this crate is stated over `Seq<u8>`; the functions here
//! give the byte sequences of the integers that occur in them, together with
//! executable encoders and decoders that are proved against them. What a
//! proof needs to know of an encoding is stated by the lemmas of this
//! module: its length, that decoding inverts it, and that a decoder looks
//! at the bytes in front only.

use vstd::prelude::*;

verus! {

/// The two bytes of `x`, least significant first.
#[verifier::opaque]
pub open spec fn u16_le(x: u16) -> Seq<u8> {
    seq![(x % 256) as u8, (x / 256) as u8]
}

/// The four bytes of `x`, least significant first.
#[verifier::opaque]
pub open spec fn u32_le(x: u32) -> Seq<u8> {
    seq![
        (x % 256) as u8,
        ((x / 0x100) % 256) as u8,
        ((x / 0x1_0000) % 256) as u8,
        (x / 0x100_0000) as u8,
    ]
}

/// The four bytes of `x`, most significant first.
#[verifier::opaque]
pub open spec fn u32_be(x: u32) -> Seq<u8> {
    seq![
        (x / 0x100_0000) as u8,
        ((x / 0x1_0000) % 256) as u8,
        ((x / 0x100) % 256) as u8,
        (x % 256) as u8,
    ]
}

/// The eight bytes of `x`, least significant first.
#[verifier::opaque]
pub open spec fn u64_le(x: u64) -> Seq<u8> {
    u32_le((x % 0x1_0000_0000) as u32) + u32_le((x / 0x1_0000_0000) as u32)
}

/// The eight bytes of `x`, most significant first.
#[verifier::opaque]
pub open spec fn u64_be(x: u64) -> Seq<u8> {
    u32_be((x / 0x1_0000_0000) as u32) + u32_be((x % 0x1_0000_0000) as u32)
}

/// The number whose little-endian bytes are the first two bytes of `s`.
#[verifier::opaque]
pub open spec fn u16_from_le(s: Seq<u8>) -> u16
    recommends
        s.len() >= 2,
{
    (s[0] as int + 256 * (s[1] as int)) as u16
}

/// The number whose little-endian bytes are the first four bytes of `s`.
#[verifier::opaque]
pub open spec fn u32_from_le(s: Seq<u8>) -> u32
    recommends
        s.len() >= 4,
{
    (s[0] as int + 0x100 * (s[1] as int) + 0x1_0000 * (s[2] as int) + 0x100_0000 * (s[3] as int)) as u32
}

/// The number whose big-endian bytes are the first four bytes of `s`.
#[verifier::opaque]
pub open spec fn u32_from_be(s: Seq<u8>) -> u32
    recommends
        s.len() >= 4,
{
    (s[3] as int + 0x100 * (s[2] as int) + 0x1_0000 * (s[1] as int) + 0x100_0000 * (s[0] as int)) as u32
}

/// The number whose little-endian bytes are the first eight bytes of `s`.
#[verifier::opaque]
pub open spec fn u64_from_le(s: Seq<u8>) -> u64
    recommends
        s.len() >= 8,
{
    (u32_from_le(s) as int + 0x1_0000_0000 * (u32_from_le(s.skip(4)) as int)) as u64
}

/// The number whose big-endian bytes are the first eight bytes of `s`.
#[verifier::opaque]
pub open spec fn u64_from_be(s: Seq<u8>) -> u64
    recommends
        s.len() >= 8,
{
    (u32_from_be(s.skip(4)) as int + 0x1_0000_0000 * (u32_from_be(s) as int)) as u64
}

/// The signed number that the two's complement pattern `x` stands for.
pub open spec fn i64_of_bits(x: u64) -> i64 {
    if x >= 0x8000_0000_0000_0000 {
        (x - 0x1_0000_0000_0000_0000) as i64
    } else {
        x as i64
    }
}

/// The two's complement pattern of `x`.
pub open spec fn bits_of_i64(x: i64) -> u64 {
    if x < 0 {
        (x + 0x1_0000_0000_0000_0000) as u64
    } else {
        x as u64
    }
}

/// The signed number that the two's complement pattern `x` stands for.
pub open spec fn i32_of_bits(x: u32) -> i32 {
    if x >= 0x8000_0000 {
        (x - 0x1_0000_0000) as i32
    } else {
        x as i32
    }
}

/// The two's complement pattern of `x`.
pub open spec fn bits_of_i32(x: i32) -> u32 {
    if x < 0 {
        (x + 0x1_0000_0000) as u32
    } else {
        x as u32
    }
}

/// The eight bytes of the two's complement of `x`, least significant first.
pub open spec fn i64_le(x: i64) -> Seq<u8> {
    u64_le(bits_of_i64(x))
}

/// The signed number whose little-endian two's complement bytes start `s`.
pub open spec fn i64_from_le(s: Seq<u8>) -> i64
    recommends
        s.len() >= 8,
{
    i64_of_bits(u64_from_le(s))
}

/// The four bytes of the two's complement of `x`, most significant first.
pub open spec fn i32_be(x: i32) -> Seq<u8> {
    u32_be(bits_of_i32(x))
}

/// The signed number whose big-endian two's complement bytes start `s`.
pub open spec fn i32_from_be(s: Seq<u8>) -> i32
    recommends
        s.len() >= 4,
{
    i32_of_bits(u32_from_be(s))
}

/// Decoding inverts encoding, for each of the encodings of this module.
pub proof fn lemma_decode_encode(a: u16, b: u32, c: u64, d: i64, e: i32)
    ensures
        u16_le(a).len() == 2,
        u32_le(b).len() == 4,
        u32_be(b).len() == 4,
        u64_le(c).len() == 8,
        u64_be(c).len() == 8,
        i64_le(d).len() == 8,
        i32_be(e).len() == 4,
        u16_from_le(u16_le(a)) == a,
        u32_from_le(u32_le(b)) == b,
        u32_from_be(u32_be(b)) == b,
        u64_from_le(u64_le(c)) == c,
        u64_from_be(u64_be(c)) == c,
        i64_from_le(i64_le(d)) == d,
        i32_from_be(i32_be(e)) == e,
{
    lemma_lengths(a, b, c);
    lemma_lengths(a, bits_of_i32(e), bits_of_i64(d));
    lemma_u16_round_trip(a);
    lemma_u32_round_trip(b);
    lemma_u32_round_trip(bits_of_i32(e));
    lemma_u64_round_trip(c);
    lemma_u64_round_trip(bits_of_i64(d));
}

proof fn lemma_lengths(a: u16, b: u32, c: u64)
    ensures
        u16_le(a).len() == 2,
        u32_le(b).len() == 4,
        u32_be(b).len() == 4,
        u64_le(c).len() == 8,
        u64_be(c).len() == 8,
{
    reveal(u16_le);
    reveal(u32_le);
    reveal(u32_be);
    reveal(u64_le);
    reveal(u64_be);
}

/// A decoder looks at the bytes in front only: byte strings that agree
/// in as many bytes as a number takes decode to the same number.
pub proof fn lemma_decode_front(a: Seq<u8>, b: Seq<u8>)
    ensures
        a.len() >= 2 && b.len() >= 2 && a.take(2) == b.take(2) ==> u16_from_le(a)
            == u16_from_le(b),
        a.len() >= 4 && b.len() >= 4 && a.take(4) == b.take(4) ==> u32_from_le(a)
            == u32_from_le(b) && u32_from_be(a) == u32_from_be(b),
        a.len() >= 8 && b.len() >= 8 && a.take(8) == b.take(8) ==> u64_from_le(a)
            == u64_from_le(b) && u64_from_be(a) == u64_from_be(b),
{
    reveal(u16_from_le);
    reveal(u32_from_le);
    reveal(u32_from_be);
    reveal(u64_from_le);
    reveal(u64_from_be);
    if a.len() >= 2 && b.len() >= 2 && a.take(2) == b.take(2) {
        assert(a[0] == a.take(2)[0] && a[1] == a.take(2)[1]);
        assert(b[0] == b.take(2)[0] && b[1] == b.take(2)[1]);
    }
    if a.len() >= 4 && b.len() >= 4 && a.take(4) == b.take(4) {
        assert forall|i: int| 0 <= i < 4 implies a[i] == b[i] by {
            assert(a[i] == a.take(4)[i]);
            assert(b[i] == b.take(4)[i]);
        }
    }
    if a.len() >= 8 && b.len() >= 8 && a.take(8) == b.take(8) {
        assert forall|i: int| 0 <= i < 8 implies a[i] == b[i] by {
            assert(a[i] == a.take(8)[i]);
            assert(b[i] == b.take(8)[i]);
        }
        assert(a.take(4) =~= b.take(4));
        assert(a.skip(4).take(4) =~= b.skip(4).take(4));
        lemma_front_u32(a, b);
        lemma_front_u32(a.skip(4), b.skip(4));
    }
}

/// What follows the bytes of a number does not change what they decode to.
pub proof fn lemma_decode_prefix(a: u16, b: u32, c: u64, rest: Seq<u8>)
    ensures
        u16_from_le(u16_le(a) + rest) == a,
        u32_from_le(u32_le(b) + rest) == b,
        u32_from_be(u32_be(b) + rest) == b,
        u64_from_le(u64_le(c) + rest) == c,
        u64_from_be(u64_be(c) + rest) == c,
{
    lemma_lengths(a, b, c);
    lemma_u16_round_trip(a);
    lemma_u32_round_trip(b);
    lemma_u64_round_trip(c);
    assert((u16_le(a) + rest).take(2) =~= u16_le(a).take(2));
    lemma_decode_front(u16_le(a) + rest, u16_le(a));
    assert((u32_le(b) + rest).take(4) =~= u32_le(b).take(4));
    lemma_decode_front(u32_le(b) + rest, u32_le(b));
    assert((u32_be(b) + rest).take(4) =~= u32_be(b).take(4));
    lemma_decode_front(u32_be(b) + rest, u32_be(b));
    assert((u64_le(c) + rest).take(8) =~= u64_le(c).take(8));
    lemma_decode_front(u64_le(c) + rest, u64_le(c));
    assert((u64_be(c) + rest).take(8) =~= u64_be(c).take(8));
    lemma_decode_front(u64_be(c) + rest, u64_be(c));
}

proof fn lemma_u16_round_trip(a: u16)
    ensures
        u16_from_le(u16_le(a)) == a,
{
    reveal(u16_le);
    reveal(u16_from_le);
    assert(a % 256 + 256 * (a / 256) == a) by (bit_vector);
    assert(a % 256 < 256 && a / 256 < 256) by (bit_vector);
}

/// The four bytes of a number make up the number.
proof fn lemma_u32_parts(b: u32)
    ensures
        b % 256 + 0x100 * ((b / 0x100) % 256) + 0x1_0000 * ((b / 0x1_0000) % 256) + 0x100_0000 * (b
            / 0x100_0000) == b,
        b % 256 < 256,
        (b / 0x100) % 256 < 256,
        (b / 0x1_0000) % 256 < 256,
        b / 0x100_0000 < 256,
{
    assert(b % 256 + 0x100 * ((b / 0x100) % 256) + 0x1_0000 * ((b / 0x1_0000) % 256) + 0x100_0000
        * (b / 0x100_0000) == b) by (bit_vector);
    assert(b % 256 < 256 && (b / 0x100) % 256 < 256 && (b / 0x1_0000) % 256 < 256 && b
        / 0x100_0000 < 256) by (bit_vector);
}

proof fn lemma_u32_round_trip(b: u32)
    ensures
        u32_from_le(u32_le(b)) == b,
        u32_from_be(u32_be(b)) == b,
{
    reveal(u32_le);
    reveal(u32_be);
    reveal(u32_from_le);
    reveal(u32_from_be);
    lemma_u32_parts(b);
    let le = u32_le(b);
    let be = u32_be(b);
    assert(le[0] == b % 256 && le[1] == (b / 0x100) % 256 && le[2] == (b / 0x1_0000) % 256
        && le[3] == b / 0x100_0000);
    assert(be[3] == b % 256 && be[2] == (b / 0x100) % 256 && be[1] == (b / 0x1_0000) % 256
        && be[0] == b / 0x100_0000);
}

/// The two halves of a number make up the number.
proof fn lemma_u64_parts(c: u64)
    ensures
        c % 0x1_0000_0000 + 0x1_0000_0000 * (c / 0x1_0000_0000) == c,
        c % 0x1_0000_0000 < 0x1_0000_0000,
        c / 0x1_0000_0000 < 0x1_0000_0000,
{
    assert(c % 0x1_0000_0000 + 0x1_0000_0000 * (c / 0x1_0000_0000) == c) by (bit_vector);
    assert(c % 0x1_0000_0000 < 0x1_0000_0000 && c / 0x1_0000_0000 < 0x1_0000_0000)
        by (bit_vector);
}

proof fn lemma_front_u32(a: Seq<u8>, b: Seq<u8>)
    requires
        a.len() >= 4,
        b.len() >= 4,
        a.take(4) == b.take(4),
    ensures
        u32_from_le(a) == u32_from_le(b),
        u32_from_be(a) == u32_from_be(b),
{
    reveal(u32_from_le);
    reveal(u32_from_be);
    assert forall|i: int| 0 <= i < 4 implies a[i] == b[i] by {
        assert(a[i] == a.take(4)[i]);
        assert(b[i] == b.take(4)[i]);
    }
}

proof fn lemma_u64_round_trip(c: u64)
    ensures
        u64_from_le(u64_le(c)) == c,
        u64_from_be(u64_be(c)) == c,
{
    reveal(u64_le);
    reveal(u64_be);
    reveal(u64_from_le);
    reveal(u64_from_be);
    lemma_u64_parts(c);
    lemma_lengths(0, (c % 0x1_0000_0000) as u32, 0);
    lemma_lengths(0, (c / 0x1_0000_0000) as u32, 0);
    let lo = (c % 0x1_0000_0000) as u32;
    let hi = (c / 0x1_0000_0000) as u32;
    lemma_u32_round_trip(lo);
    lemma_u32_round_trip(hi);
    assert(u64_le(c).skip(4) =~= u32_le(hi));
    assert(u64_be(c).skip(4) =~= u32_be(lo));
    assert(u64_le(c).take(4) =~= u32_le(lo).take(4));
    assert(u64_be(c).take(4) =~= u32_be(hi).take(4));
    lemma_front_u32(u64_le(c), u32_le(lo));
    lemma_front_u32(u64_be(c), u32_be(hi));
}

/// Four bytes are the big-endian bytes of the number they decode to.
pub proof fn lemma_u32_be_of_bytes(s: Seq<u8>)
    requires
        s.len() == 4,
    ensures
        u32_be(u32_from_be(s)) == s,
{
    reveal(u32_be);
    reveal(u32_from_be);
    let a = s[0] as int;
    let b = s[1] as int;
    let c = s[2] as int;
    let d = s[3] as int;
    let x = d + 0x100 * c + 0x1_0000 * b + 0x100_0000 * a;
    assert(u32_from_be(s) == x);
    assert(x % 256 == d);
    assert(x / 0x100 == c + 0x100 * b + 0x1_0000 * a);
    assert((x / 0x100) % 256 == c);
    assert(x / 0x1_0000 == b + 0x100 * a);
    assert((x / 0x1_0000) % 256 == b);
    assert(x / 0x100_0000 == a);
    assert(u32_be(x as u32) =~= s);
}

/// Two numbers with the same bytes are the same number.
pub proof fn lemma_u32_be_injective(a: u32, b: u32)
    requires
        u32_be(a) == u32_be(b),
    ensures
        a == b,
{
    lemma_u32_round_trip(a);
    lemma_u32_round_trip(b);
}

/// Appends the little-endian bytes of `x` to `target`.
pub fn push_u16_le(target: &mut Vec<u8>, x: u16)
    ensures
        final(target)@ == old(target)@ + u16_le(x),
{
    proof {
        reveal(u16_le);
    }
    target.push((x % 256) as u8);
    target.push((x / 256) as u8);
    assert(target@ =~= old(target)@ + u16_le(x));
}

/// Appends the little-endian bytes of `x` to `target`.
pub fn push_u32_le(target: &mut Vec<u8>, x: u32)
    ensures
        final(target)@ == old(target)@ + u32_le(x),
{
    proof {
        reveal(u32_le);
    }
    target.push((x % 256) as u8);
    target.push(((x / 0x100) % 256) as u8);
    target.push(((x / 0x1_0000) % 256) as u8);
    target.push((x / 0x100_0000) as u8);
    assert(target@ =~= old(target)@ + u32_le(x));
}

/// Appends the big-endian bytes of `x` to `target`.
pub fn push_u32_be(target: &mut Vec<u8>, x: u32)
    ensures
        final(target)@ == old(target)@ + u32_be(x),
{
    proof {
        reveal(u32_be);
    }
    target.push((x / 0x100_0000) as u8);
    target.push(((x / 0x1_0000) % 256) as u8);
    target.push(((x / 0x100) % 256) as u8);
    target.push((x % 256) as u8);
    assert(target@ =~= old(target)@ + u32_be(x));
}

/// Appends the little-endian bytes of `x` to `target`.
pub fn push_u64_le(target: &mut Vec<u8>, x: u64)
    ensures
        final(target)@ == old(target)@ + u64_le(x),
{
    proof {
        reveal(u64_le);
    }
    push_u32_le(target, (x % 0x1_0000_0000) as u32);
    push_u32_le(target, (x / 0x1_0000_0000) as u32);
    assert(target@ =~= old(target)@ + u64_le(x));
}

/// Appends the big-endian bytes of `x` to `target`.
pub fn push_u64_be(target: &mut Vec<u8>, x: u64)
    ensures
        final(target)@ == old(target)@ + u64_be(x),
{
    proof {
        reveal(u64_be);
    }
    push_u32_be(target, (x / 0x1_0000_0000) as u32);
    push_u32_be(target, (x % 0x1_0000_0000) as u32);
    assert(target@ =~= old(target)@ + u64_be(x));
}

/// The two's complement pattern of `x`.
pub fn i64_bits(x: i64) -> (bits: u64)
    ensures
        bits == bits_of_i64(x),
{
    if x < 0 {
        // x + 2^64, computed without leaving the range of either type
        let below: u64 = (-(x + 1)) as u64;
        u64::MAX - below
    } else {
        x as u64
    }
}

/// The signed number that the two's complement pattern `bits` stands for.
pub fn i64_value(bits: u64) -> (x: i64)
    ensures
        x == i64_of_bits(bits),
{
    if bits >= 0x8000_0000_0000_0000 {
        let below: i64 = (u64::MAX - bits) as i64;
        -below - 1
    } else {
        bits as i64
    }
}

/// The two's complement pattern of `x`.
pub fn i32_bits(x: i32) -> (bits: u32)
    ensures
        bits == bits_of_i32(x),
{
    if x < 0 {
        let below: u32 = (-(x + 1)) as u32;
        u32::MAX - below
    } else {
        x as u32
    }
}

/// The signed number that the two's complement pattern `bits` stands for.
pub fn i32_value(bits: u32) -> (x: i32)
    ensures
        x == i32_of_bits(bits),
{
    if bits >= 0x8000_0000 {
        let below: i32 = (u32::MAX - bits) as i32;
        -below - 1
    } else {
        bits as i32
    }
}

/// Reads the little-endian number in the two bytes of `data` from `at` on.
pub fn read_u16_le(data: &[u8], at: usize) -> (x: u16)
    requires
        at + 2 <= data.len(),
    ensures
        x == u16_from_le(data@.skip(at as int)),
{
    proof {
        reveal(u16_from_le);
    }
    let b0: u16 = data[at] as u16;
    let b1: u16 = data[at + 1] as u16;
    b0 + 256 * b1
}

/// Reads the little-endian number in the four bytes of `data` from `at` on.
pub fn read_u32_le(data: &[u8], at: usize) -> (x: u32)
    requires
        at + 4 <= data.len(),
    ensures
        x == u32_from_le(data@.skip(at as int)),
{
    proof {
        reveal(u32_from_le);
    }
    let b0: u32 = data[at] as u32;
    let b1: u32 = data[at + 1] as u32;
    let b2: u32 = data[at + 2] as u32;
    let b3: u32 = data[at + 3] as u32;
    b0 + 0x100 * b1 + 0x1_0000 * b2 + 0x100_0000 * b3
}

/// Reads the big-endian number in the four bytes of `data` from `at` on.
pub fn read_u32_be(data: &[u8], at: usize) -> (x: u32)
    requires
        at + 4 <= data.len(),
    ensures
        x == u32_from_be(data@.skip(at as int)),
{
    proof {
        reveal(u32_from_be);
    }
    let b0: u32 = data[at] as u32;
    let b1: u32 = data[at + 1] as u32;
    let b2: u32 = data[at + 2] as u32;
    let b3: u32 = data[at + 3] as u32;
    b3 + 0x100 * b2 + 0x1_0000 * b1 + 0x100_0000 * b0
}

/// Reads the little-endian number in the eight bytes of `data` from `at` on.
pub fn read_u64_le(data: &[u8], at: usize) -> (x: u64)
    requires
        at + 8 <= data.len(),
    ensures
        x == u64_from_le(data@.skip(at as int)),
{
    proof {
        reveal(u64_from_le);
    }
    let lo: u64 = read_u32_le(data, at) as u64;
    let hi: u64 = read_u32_le(data, at + 4) as u64;
    assert(data@.skip(at as int).skip(4) =~= data@.skip(at + 4));
    lo + 0x1_0000_0000 * hi
}

/// Reads the big-endian number in the eight bytes of `data` from `at` on.
pub fn read_u64_be(data: &[u8], at: usize) -> (x: u64)
    requires
        at + 8 <= data.len(),
    ensures
        x == u64_from_be(data@.skip(at as int)),
{
    proof {
        reveal(u64_from_be);
    }
    let hi: u64 = read_u32_be(data, at) as u64;
    let lo: u64 = read_u32_be(data, at + 4) as u64;
    assert(data@.skip(at as int).skip(4) =~= data@.skip(at + 4));
    lo + 0x1_0000_0000 * hi
}

/// Appends a copy of `source` to `target`.
pub fn push_bytes(target: &mut Vec<u8>, source: &[u8])
    ensures
        final(target)@ == old(target)@ + source@,
{
    let mut i: usize = 0;
    while i < source.len()
        invariant
            i <= source@.len(),
            target@ == old(target)@ + source@.take(i as int),
        decreases source@.len() - i,
    {
        target.push(source[i]);
        i = i + 1;
        assert(target@ =~= old(target)@ + source@.take(i as int));
    }
    assert(source@.take(source@.len() as int) =~= source@);
}

/// Whether two byte strings hold the same bytes.
pub fn bytes_eq(a: &[u8], b: &[u8]) -> (same: bool)
    ensures
        same == (a@ == b@),
{
    if a.len() != b.len() {
        return false;
    }
    let mut i: usize = 0;
    while i < a.len()
        invariant
            a@.len() == b@.len(),
            i <= a@.len(),
            a@.take(i as int) == b@.take(i as int),
        decreases a@.len() - i,
    {
        if a[i] != b[i] {
            return false;
        }
        i = i + 1;
        assert(a@.take(i as int) =~= a@.take(i - 1).push(a@[i - 1]));
        assert(b@.take(i as int) =~= b@.take(i - 1).push(b@[i - 1]));
    }
    assert(a@ =~= a@.take(a@.len() as int));
    assert(b@ =~= b@.take(b@.len() as int));
    true
}

} // verus!
