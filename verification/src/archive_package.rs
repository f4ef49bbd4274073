//! The contents of an archive: segments, one behind the other.
//!
//! A segment frames one package entry:
//!
//! ```text
//! magic (2 bytes, little-endian) | length of the name (2 bytes, little-endian)
//!   | length of the data (4 bytes, little-endian) | name | data
//! ```
//!
//! The engine appends each segment that is merged into an archive, so an
//! archive can be walked from its first byte to its last.

use vstd::prelude::*;
use crate::bytes::{
    lemma_decode_encode, lemma_decode_front, lemma_decode_prefix, push_bytes, push_u16_le,
    push_u32_le, read_u16_le, read_u32_le, u16_from_le, u16_le, u32_from_le, u32_le,
};

verus! {

/// The two bytes in front of every segment.
pub const ENTRY_HEADER_MAGIC: u16 = 0x1e8b;

/// Length of what stands in front of the name in a segment.
pub const ENTRY_HEADER_LEN: usize = 8;

/// Why a segment cannot be made, or what is wrong with an archive.
#[derive(Clone, Copy, Debug, PartialEq, Eq, Structural)]
pub enum ArchivePackageError {
    /// The name is longer than a segment can say.
    TooLongFilename,
    /// The data is longer than a segment can say.
    TooBigData,
    /// A segment does not start with the magic.
    InvalidArchiveEntryHeader,
    /// The archive ends inside a segment.
    UnexpectedEntryEof,
}

/// The segment that frames `data` under `filename`.
pub open spec fn segment(filename: Seq<u8>, data: Seq<u8>) -> Seq<u8> {
    u16_le(ENTRY_HEADER_MAGIC) + u16_le(filename.len() as u16) + u32_le(data.len() as u32)
        + filename + data
}

/// Length of the segment that starts an archive, going by its header.
pub open spec fn first_segment_len(value: Seq<u8>) -> int {
    ENTRY_HEADER_LEN + u16_from_le(value.skip(2)) + u32_from_le(value.skip(4))
}

/// What is wrong with the first segment of a non-empty archive, if anything.
pub open spec fn first_segment_error(value: Seq<u8>) -> Option<ArchivePackageError> {
    if value.len() < ENTRY_HEADER_LEN {
        Some(ArchivePackageError::UnexpectedEntryEof)
    } else if u16_from_le(value) != ENTRY_HEADER_MAGIC {
        Some(ArchivePackageError::InvalidArchiveEntryHeader)
    } else if value.len() < first_segment_len(value) {
        Some(ArchivePackageError::UnexpectedEntryEof)
    } else {
        None
    }
}

/// What is wrong with the first segment of `value` that is not sound, if
/// there is one.
pub open spec fn framing_error(value: Seq<u8>) -> Option<ArchivePackageError>
    decreases value.len(),
{
    if value.len() == 0 {
        None
    } else if first_segment_error(value) is Some {
        first_segment_error(value)
    } else {
        framing_error(value.skip(first_segment_len(value)))
    }
}

/// Whether `value` is made of whole segments.
pub open spec fn well_framed(value: Seq<u8>) -> bool {
    framing_error(value) is None
}

/// Frames `data` under `filename`. Fails where one of the two is longer
/// than the header can say.
pub fn make_archive_segment(filename: &[u8], data: &[u8]) -> (result: Result<
    Vec<u8>,
    ArchivePackageError,
>)
    ensures
        filename@.len() > u16::MAX ==> result == Err::<Vec<u8>, ArchivePackageError>(
            ArchivePackageError::TooLongFilename,
        ),
        filename@.len() <= u16::MAX && data@.len() > u32::MAX ==> result == Err::<
            Vec<u8>,
            ArchivePackageError,
        >(ArchivePackageError::TooBigData),
        filename@.len() <= u16::MAX && data@.len() <= u32::MAX ==> result is Ok
            && result->Ok_0@ == segment(filename@, data@),
{
    if filename.len() > 0xffff {
        return Err(ArchivePackageError::TooLongFilename);
    }
    if data.len() > 0xffff_ffff {
        return Err(ArchivePackageError::TooBigData);
    }
    let mut out: Vec<u8> = Vec::new();
    push_u16_le(&mut out, ENTRY_HEADER_MAGIC);
    push_u16_le(&mut out, filename.len() as u16);
    push_u32_le(&mut out, data.len() as u32);
    push_bytes(&mut out, filename);
    push_bytes(&mut out, data);
    Ok(out)
}

/// Walks the segments of an archive and reports the first that is not sound.
pub fn check_archive(value: &[u8]) -> (result: Result<(), ArchivePackageError>)
    ensures
        result is Ok <==> well_framed(value@),
        result is Err ==> Some(result->Err_0) == framing_error(value@),
{
    let mut at: usize = 0;
    assert(value@.skip(0) =~= value@);
    while at < value.len()
        invariant
            at <= value.len(),
            framing_error(value@) == framing_error(value@.skip(at as int)),
        decreases value.len() - at,
    {
        let ghost rest = value@.skip(at as int);
        if value.len() - at < ENTRY_HEADER_LEN {
            return Err(ArchivePackageError::UnexpectedEntryEof);
        }
        assert(rest.skip(2) =~= value@.skip(at + 2));
        assert(rest.skip(4) =~= value@.skip(at + 4));
        if read_u16_le(value, at) != ENTRY_HEADER_MAGIC {
            return Err(ArchivePackageError::InvalidArchiveEntryHeader);
        }
        let filename_len: usize = read_u16_le(value, at + 2) as usize;
        let data_len: u64 = read_u32_le(value, at + 4) as u64;
        let total: u64 = ENTRY_HEADER_LEN as u64 + filename_len as u64 + data_len;
        if ((value.len() - at) as u64) < total {
            return Err(ArchivePackageError::UnexpectedEntryEof);
        }
        assert(rest.skip(total as int) =~= value@.skip(at + total));
        at = at + total as usize;
    }
    assert(value@.skip(at as int).len() == 0);
    Ok(())
}

/// A segment is an archive of its own.
pub proof fn lemma_segment_framed(filename: Seq<u8>, data: Seq<u8>)
    requires
        filename.len() <= u16::MAX,
        data.len() <= u32::MAX,
    ensures
        segment(filename, data).len() == ENTRY_HEADER_LEN + filename.len() + data.len(),
        first_segment_error(segment(filename, data)) is None,
        first_segment_len(segment(filename, data)) == segment(filename, data).len(),
        well_framed(segment(filename, data)),
{
    let s = segment(filename, data);
    let magic = u16_le(ENTRY_HEADER_MAGIC);
    let name_len = u16_le(filename.len() as u16);
    let data_len = u32_le(data.len() as u32);
    lemma_decode_encode(ENTRY_HEADER_MAGIC, data.len() as u32, 0, 0, 0);
    lemma_decode_encode(filename.len() as u16, 0, 0, 0, 0);
    assert(s =~= magic + (name_len + data_len + filename + data));
    lemma_decode_prefix(ENTRY_HEADER_MAGIC, 0, 0, name_len + data_len + filename + data);
    assert(s.skip(2) =~= name_len + (data_len + filename + data));
    lemma_decode_prefix(filename.len() as u16, 0, 0, data_len + filename + data);
    assert(s.skip(4) =~= data_len + (filename + data));
    lemma_decode_prefix(0, data.len() as u32, 0, filename + data);
    assert(s.skip(s.len() as int) =~= Seq::<u8>::empty());
    assert(framing_error(s.skip(first_segment_len(s))) is None);
}

/// What the header of a segment says hangs on its eight bytes only.
pub proof fn lemma_header_front(a: Seq<u8>, b: Seq<u8>)
    requires
        a.len() >= ENTRY_HEADER_LEN,
        b.len() >= ENTRY_HEADER_LEN,
        a.take(8) == b.take(8),
    ensures
        u16_from_le(a) == u16_from_le(b),
        first_segment_len(a) == first_segment_len(b),
{
    assert forall|i: int| 0 <= i < 8 implies a[i] == b[i] by {
        assert(a[i] == a.take(8)[i]);
        assert(b[i] == b.take(8)[i]);
    }
    assert(a.take(2) =~= b.take(2));
    assert(a.skip(2).take(2) =~= b.skip(2).take(2));
    assert(a.skip(4).take(4) =~= b.skip(4).take(4));
    lemma_decode_front(a, b);
    lemma_decode_front(a.skip(2), b.skip(2));
    lemma_decode_front(a.skip(4), b.skip(4));
}

/// An archive stays well framed when a well framed archive is appended to
/// it: so it does under every merge of a segment.
pub proof fn lemma_append_framed(archive: Seq<u8>, more: Seq<u8>)
    requires
        well_framed(archive),
        well_framed(more),
    ensures
        well_framed(archive + more),
    decreases archive.len(),
{
    if archive.len() == 0 {
        assert(archive + more =~= more);
    } else {
        let whole = archive + more;
        let n = first_segment_len(archive);
        assert(whole.take(8) =~= archive.take(8));
        lemma_header_front(whole, archive);
        assert(first_segment_len(whole) == n);
        assert(whole.skip(n) =~= archive.skip(n) + more);
        lemma_append_framed(archive.skip(n), more);
    }
}

/// How far a verifier has come in an archive.
pub enum Progress {
    /// It stands in the header of a segment and has read these bytes of it.
    Header(Seq<u8>),
    /// It stands behind the header of a segment, this many bytes in front
    /// of the end of the segment.
    Body(nat),
    /// It has come to a segment that does not start with the magic.
    Failed(ArchivePackageError),
}

/// Where a verifier stands after one more byte.
pub open spec fn advance(progress: Progress, byte: u8) -> Progress {
    match progress {
        Progress::Header(read) => {
            let header = read.push(byte);
            if header.len() < ENTRY_HEADER_LEN {
                Progress::Header(header)
            } else if u16_from_le(header) != ENTRY_HEADER_MAGIC {
                Progress::Failed(ArchivePackageError::InvalidArchiveEntryHeader)
            } else if first_segment_len(header) == ENTRY_HEADER_LEN {
                Progress::Header(Seq::empty())
            } else {
                Progress::Body((first_segment_len(header) - ENTRY_HEADER_LEN) as nat)
            }
        },
        Progress::Body(left) => if left <= 1 {
            Progress::Header(Seq::empty())
        } else {
            Progress::Body((left - 1) as nat)
        },
        Progress::Failed(error) => Progress::Failed(error),
    }
}

/// Where a verifier stands after `bytes`, from where it stood.
pub open spec fn scan_from(progress: Progress, bytes: Seq<u8>) -> Progress
    decreases bytes.len(),
{
    if bytes.len() == 0 {
        progress
    } else {
        advance(scan_from(progress, bytes.drop_last()), bytes.last())
    }
}

/// Where a verifier stands after the archive `bytes`, or the front of one.
pub open spec fn scan(bytes: Seq<u8>) -> Progress {
    scan_from(Progress::Header(Seq::empty()), bytes)
}

/// What is wrong with an archive that ends where the verifier stands.
pub open spec fn verdict(progress: Progress) -> Option<ArchivePackageError> {
    match progress {
        Progress::Header(read) => if read.len() == 0 {
            None
        } else {
            Some(ArchivePackageError::UnexpectedEntryEof)
        },
        Progress::Body(left) => Some(ArchivePackageError::UnexpectedEntryEof),
        Progress::Failed(error) => Some(error),
    }
}

/// Reading two runs of bytes, one after the other, is reading them as one.
pub proof fn lemma_scan_add(progress: Progress, a: Seq<u8>, b: Seq<u8>)
    ensures
        scan_from(progress, a + b) == scan_from(scan_from(progress, a), b),
    decreases b.len(),
{
    if b.len() == 0 {
        assert(a + b =~= a);
    } else {
        lemma_scan_add(progress, a, b.drop_last());
        assert((a + b).drop_last() =~= a + b.drop_last());
    }
}

/// Bytes that do not complete a header are kept.
pub proof fn lemma_scan_header(read: Seq<u8>, bytes: Seq<u8>)
    requires
        read.len() + bytes.len() < ENTRY_HEADER_LEN,
    ensures
        scan_from(Progress::Header(read), bytes) == Progress::Header(read + bytes),
    decreases bytes.len(),
{
    if bytes.len() == 0 {
        assert(read + bytes =~= read);
    } else {
        lemma_scan_header(read, bytes.drop_last());
        assert((read + bytes.drop_last()).push(bytes.last()) =~= read + bytes);
    }
}

/// Bytes inside a segment bring its end nearer, and the last of them
/// brings the next header.
pub proof fn lemma_scan_body(left: nat, bytes: Seq<u8>)
    requires
        0 < bytes.len() <= left,
    ensures
        scan_from(Progress::Body(left), bytes) == if bytes.len() == left {
            Progress::Header(Seq::empty())
        } else {
            Progress::Body((left - bytes.len()) as nat)
        },
    decreases bytes.len(),
{
    if bytes.len() > 1 {
        lemma_scan_body(left, bytes.drop_last());
    } else {
        assert(scan_from(Progress::Body(left), bytes.drop_last()) == Progress::Body(left));
    }
}

/// Once a verifier has failed, it stays so.
pub proof fn lemma_scan_failed(error: ArchivePackageError, bytes: Seq<u8>)
    ensures
        scan_from(Progress::Failed(error), bytes) == Progress::Failed(error),
    decreases bytes.len(),
{
    if bytes.len() > 0 {
        lemma_scan_failed(error, bytes.drop_last());
    }
}

/// An archive is made of whole segments exactly where a verifier that has
/// read all of it stands in front of a header; where it stands elsewhere,
/// what is wrong with the archive is what the verifier says.
pub proof fn lemma_scan_framing(value: Seq<u8>)
    ensures
        verdict(scan(value)) == framing_error(value),
    decreases value.len(),
{
    let start = Progress::Header(Seq::<u8>::empty());
    if value.len() < ENTRY_HEADER_LEN {
        lemma_scan_header(Seq::empty(), value);
        assert(Seq::<u8>::empty() + value =~= value);
    } else {
        let header = value.take(8);
        let rest = value.skip(8);
        assert(value =~= header + rest);
        lemma_scan_add(start, header, rest);
        lemma_scan_header(Seq::empty(), header.drop_last());
        assert(Seq::<u8>::empty() + header.drop_last() =~= header.drop_last());
        assert(header.drop_last().push(header.last()) =~= header);
        let after_header = scan_from(start, header);
        assert(after_header == advance(Progress::Header(header.drop_last()), header.last()));
        assert(header.take(8) =~= value.take(8));
        lemma_header_front(header, value);
        let total = first_segment_len(value);
        if u16_from_le(value) != ENTRY_HEADER_MAGIC {
            lemma_scan_failed(ArchivePackageError::InvalidArchiveEntryHeader, rest);
        } else if total == ENTRY_HEADER_LEN {
            assert(value.skip(total) =~= rest);
            lemma_scan_framing(rest);
        } else if value.len() < total {
            if rest.len() > 0 {
                lemma_scan_body((total - 8) as nat, rest);
            }
        } else {
            let body = rest.take(total - 8);
            let tail = rest.skip(total - 8);
            assert(rest =~= body + tail);
            assert(tail =~= value.skip(total));
            lemma_scan_add(after_header, body, tail);
            lemma_scan_body((total - 8) as nat, body);
            lemma_scan_framing(tail);
        }
    }
}

/// A verifier that takes an archive in parts.
pub struct ArchivePackageVerifier {
    /// The bytes of the header that was begun.
    pub header: [u8; 8],
    /// Number of bytes of that header that were read.
    pub filled: usize,
    /// Number of bytes in front of the end of the segment.
    pub remaining: u64,
    /// The error that the verifier came to.
    pub failed: Option<ArchivePackageError>,
    /// All bytes that the verifier was given.
    pub seen: Ghost<Seq<u8>>,
}

impl Default for ArchivePackageVerifier {
    fn default() -> (verifier: Self)
        ensures
            verifier.wf(),
            verifier.seen@ == Seq::<u8>::empty(),
    {
        let verifier = ArchivePackageVerifier {
            header: [0u8; 8],
            filled: 0,
            remaining: 0,
            failed: None,
            seen: Ghost(Seq::empty()),
        };
        assert(verifier.header@.take(0) =~= Seq::<u8>::empty());
        verifier
    }
}

impl ArchivePackageVerifier {
    /// Where the verifier stands.
    pub open spec fn progress(&self) -> Progress {
        match self.failed {
            Some(error) => Progress::Failed(error),
            None => if self.remaining > 0 {
                Progress::Body(self.remaining as nat)
            } else {
                Progress::Header(self.header@.take(self.filled as int))
            },
        }
    }

    /// The verifier stands where the bytes that it was given lead.
    pub open spec fn wf(&self) -> bool {
        &&& self.filled < ENTRY_HEADER_LEN
        &&& self.remaining > 0 ==> self.filled == 0
        &&& self.progress() == scan(self.seen@)
    }

    /// Takes in the next part of the archive. Fails, now and ever after,
    /// once a segment does not start with the magic.
    pub fn verify(&mut self, part: &[u8]) -> (result: Result<(), ArchivePackageError>)
        requires
            old(self).wf(),
        ensures
            final(self).wf(),
            final(self).seen@ == old(self).seen@ + part@,
            match scan(final(self).seen@) {
                Progress::Failed(error) => result == Err::<(), ArchivePackageError>(error),
                _ => result is Ok,
            },
    {
        let mut at: usize = 0;
        let ghost before = self.seen@;
        assert(part@.take(0) =~= Seq::<u8>::empty());
        assert(before + part@.take(0) =~= before);
        while at < part.len()
            invariant
                at <= part.len(),
                self.filled < ENTRY_HEADER_LEN,
                self.remaining > 0 ==> self.filled == 0,
                self.seen@ == old(self).seen@,
                self.progress() == scan(before + part@.take(at as int)),
            decreases part.len() - at,
        {
            let ghost read = before + part@.take(at as int);
            if self.failed.is_some() {
                proof {
                    let rest = part@.skip(at as int);
                    assert(before + part@ =~= read + rest);
                    lemma_scan_add(Progress::Header(Seq::empty()), read, rest);
                    lemma_scan_failed(self.failed->0, rest);
                }
                at = part.len();
                assert(part@.take(at as int) =~= part@);
            } else if self.remaining > 0 {
                let room: usize = part.len() - at;
                let step: usize = if self.remaining < room as u64 {
                    self.remaining as usize
                } else {
                    room
                };
                proof {
                    let bytes = part@.subrange(at as int, at + step);
                    assert(before + part@.take(at + step) =~= read + bytes);
                    lemma_scan_add(Progress::Header(Seq::empty()), read, bytes);
                    lemma_scan_body(self.remaining as nat, bytes);
                    assert(self.header@.take(0) =~= Seq::<u8>::empty());
                }
                self.remaining = self.remaining - step as u64;
                at = at + step;
            } else {
                let ghost so_far = self.header@.take(self.filled as int);
                self.header[self.filled] = part[at];
                self.filled = self.filled + 1;
                proof {
                    assert(before + part@.take(at + 1) =~= read.push(part@[at as int]));
                    assert(read.push(part@[at as int]).drop_last() =~= read);
                    assert(self.header@.take(self.filled as int) =~= so_far.push(
                        part@[at as int],
                    ));
                }
                at = at + 1;
                if self.filled == ENTRY_HEADER_LEN {
                    let ghost whole = self.header@;
                    assert(whole.take(8) =~= whole);
                    assert(whole.skip(0) =~= whole);
                    self.filled = 0;
                    assert(self.header@.take(0) =~= Seq::<u8>::empty());
                    if read_u16_le(self.header.as_slice(), 0) != ENTRY_HEADER_MAGIC {
                        self.failed = Some(ArchivePackageError::InvalidArchiveEntryHeader);
                    } else {
                        let name: u64 = read_u16_le(self.header.as_slice(), 2) as u64;
                        let data: u64 = read_u32_le(self.header.as_slice(), 4) as u64;
                        self.remaining = name + data;
                    }
                }
            }
        }
        assert(part@.take(part@.len() as int) =~= part@);
        self.seen = Ghost(before + part@);
        match self.failed {
            Some(error) => Err(error),
            None => Ok(()),
        }
    }

    /// Tells whether the parts that were taken in make up an archive of
    /// whole segments. An archive that ends inside a segment does not.
    pub fn final_check(&self) -> (result: Result<(), ArchivePackageError>)
        requires
            self.wf(),
        ensures
            result is Ok <==> well_framed(self.seen@),
            result is Err ==> Some(result->Err_0) == framing_error(self.seen@),
    {
        proof {
            lemma_scan_framing(self.seen@);
            if self.failed is None && self.remaining == 0 && self.filled == 0 {
                assert(self.header@.take(0) =~= Seq::<u8>::empty());
            }
        }
        match self.failed {
            Some(error) => Err(error),
            None => if self.remaining > 0 || self.filled > 0 {
                Err(ArchivePackageError::UnexpectedEntryEof)
            } else {
                Ok(())
            },
        }
    }
}

} // verus!
