//! The patch container: a four-byte marker, two variable-length sizes, a body
//! of records, and a twelve-byte footer of three little-endian checksums.

use vstd::prelude::*;

use crate::vuint::{lemma_vuint_decode_len, read_vuint, vuint_decode_usize};

verus! {

/// Why an apply or parse attempt was rejected.
#[derive(Debug, Clone, Copy, PartialEq, Eq)]
pub enum Error {
    /// The patch does not begin with the required `UPS1` marker.
    MissingHeader,
    /// A size field does not terminate, or the patch is too short to hold the
    /// marker, the two sizes and the footer.
    MalformedPatch,
    /// The supplied source bytes do not match the checksum the patch records.
    CrcMismatchOriginal,
    /// The patch bytes (all but the final four) do not match the checksum the
    /// patch records.
    CrcMismatchPatch,
    /// The reconstructed bytes do not match the checksum the patch records.
    CrcMismatchTarget,
}

/// The fixed marker every patch begins with: the ASCII bytes of `UPS1`.
pub open spec fn ups_marker() -> Seq<u8> {
    seq![0x55u8, 0x50u8, 0x53u8, 0x31u8]
}

/// The little-endian 32-bit word stored at offset `o` of `s`.
pub open spec fn le32_at(s: Seq<u8>, o: int) -> u32 {
    (s[o] as u32) | ((s[o + 1] as u32) << 8) | ((s[o + 2] as u32) << 16) | ((s[o + 3] as u32) << 24)
}

/// Everything a patch declares, read off its bytes: the two sizes, the three
/// footer checksums, and the record body that lies between them.
pub ghost struct ParsedPatch {
    pub source_size: nat,
    pub target_size: nat,
    pub source_crc: u32,
    pub target_crc: u32,
    pub patch_crc: u32,
    pub body: Seq<u8>,
}

/// Mathematical meaning of parsing a patch: either its declared contents or
/// the error that rejects it. The marker is checked first; then the two sizes
/// must decode (and fit in a `usize`); then the patch must still have room for
/// the twelve-byte footer.
pub open spec fn spec_parse(patch: Seq<u8>) -> Result<ParsedPatch, Error> {
    if patch.len() < 4 || patch.subrange(0, 4) != ups_marker() {
        Err(Error::MissingHeader)
    } else {
        match vuint_decode_usize(patch.skip(4)) {
            None => Err(Error::MalformedPatch),
            Some((a, source_size)) => match vuint_decode_usize(patch.skip(4 + a as int)) {
                None => Err(Error::MalformedPatch),
                Some((b, target_size)) => {
                    let header = 4 + a + b;
                    if patch.len() < header + 12 {
                        Err(Error::MalformedPatch)
                    } else {
                        Ok(ParsedPatch {
                            source_size,
                            target_size,
                            source_crc: le32_at(patch, patch.len() - 12),
                            target_crc: le32_at(patch, patch.len() - 8),
                            patch_crc: le32_at(patch, patch.len() - 4),
                            body: patch.subrange(header as int, patch.len() - 12),
                        })
                    }
                },
            },
        }
    }
}

/// The index of the first zero byte of `s`, if any.
pub open spec fn first_zero(s: Seq<u8>) -> Option<int>
    decreases s.len(),
{
    if s.len() == 0 {
        None
    } else if s[0] == 0 {
        Some(0)
    } else {
        match first_zero(s.skip(1)) {
            None => None,
            Some(j) => Some(j + 1),
        }
    }
}

/// A found zero byte lies inside the sequence, is a zero, and is the first.
pub proof fn lemma_first_zero_bound(s: Seq<u8>)
    ensures
        first_zero(s) matches Some(j) ==> 0 <= j < s.len() && s[j] == 0,
    decreases s.len(),
{
    if s.len() > 0 && s[0] != 0 {
        lemma_first_zero_bound(s.skip(1));
    }
}

/// A zero byte at `j`, with none before it, is the first zero.
pub proof fn lemma_first_zero_at(s: Seq<u8>, j: int)
    requires
        0 <= j < s.len(),
        s[j] == 0,
        forall|k: int| 0 <= k < j ==> s[k] != 0,
    ensures
        first_zero(s) == Some(j),
    decreases j,
{
    if j > 0 {
        assert(s.skip(1)[j - 1] == s[j]);
        assert forall|k: int| 0 <= k < j - 1 implies s.skip(1)[k] != 0 by {
            assert(s.skip(1)[k] == s[k + 1]);
        }
        lemma_first_zero_at(s.skip(1), j - 1);
    }
}

/// Without a zero byte there is no first zero.
pub proof fn lemma_first_zero_none(s: Seq<u8>)
    requires
        forall|k: int| 0 <= k < s.len() ==> s[k] != 0,
    ensures
        first_zero(s) is None,
    decreases s.len(),
{
    if s.len() > 0 {
        lemma_first_zero_none(s.skip(1));
    }
}

/// The records held by a patch body, in order: each is a copy length followed
/// by the span of bytes to XOR, which runs up to and including the first zero
/// byte after the length. The list ends where a length fails to decode or
/// where no zero byte terminates a span.
pub open spec fn sections(body: Seq<u8>) -> Seq<(nat, Seq<u8>)>
    decreases body.len() via sections_decreases
{
    match vuint_decode_usize(body) {
        None => Seq::empty(),
        Some((n, take)) => {
            let after = body.skip(n as int);
            match first_zero(after) {
                None => Seq::empty(),
                Some(j) => seq![(take, after.take(j + 1))] + sections(after.skip(j + 1)),
            }
        },
    }
}

#[via_fn]
proof fn sections_decreases(body: Seq<u8>) {
    lemma_vuint_decode_len(body);
    match vuint_decode_usize(body) {
        None => {},
        Some((n, _take)) => {
            let after = body.skip(n as int);
            lemma_first_zero_bound(after);
        },
    }
}

/// A patch's declared sizes and checksums.
#[derive(Debug, Clone, Copy, PartialEq, Eq)]
pub struct UpsPatch {
    pub source_size: usize,
    pub target_size: usize,
    pub source_crc: u32,
    pub target_crc: u32,
    pub patch_crc: u32,
}

impl UpsPatch {
    /// Whether this value carries exactly what a parse declared.
    pub open spec fn declares(&self, pp: ParsedPatch) -> bool {
        &&& self.source_size as nat == pp.source_size
        &&& self.target_size as nat == pp.target_size
        &&& self.source_crc == pp.source_crc
        &&& self.target_crc == pp.target_crc
        &&& self.patch_crc == pp.patch_crc
    }
}

/// One record of the body.
pub struct UpsSection<'d> {
    /// Number of bytes carried over unchanged from the working buffer.
    pub take: usize,
    /// Bytes XORed into the working buffer right after the carried span; the
    /// final byte is the zero that terminated the span.
    pub xor: &'d [u8],
}

/// Walks the records of a patch body, in order, one per call of `next`.
pub struct UpsSectionIter<'d> {
    data: &'d [u8],
    offset: usize,
}

impl<'d> UpsSectionIter<'d> {
    /// The cursor never passes the end of the body.
    pub closed spec fn wf(&self) -> bool {
        self.offset <= self.data@.len()
    }

    /// The part of the body not yet walked.
    pub closed spec fn remaining(&self) -> Seq<u8> {
        self.data@.skip(self.offset as int)
    }

    /// Starts a walk over `data`, which holds the body alone: no marker, no
    /// sizes, no footer.
    pub fn new(data: &'d [u8]) -> (r: Self)
        ensures
            r.wf(),
            r.remaining() == data@,
    {
        proof {
            assert(data@.skip(0) =~= data@);
        }
        UpsSectionIter { data, offset: 0 }
    }

    /// Yields the next record, or `None` when the rest of the body holds no
    /// complete record.
    #[verifier::loop_isolation(false)]
    pub fn next(&mut self) -> (r: Option<UpsSection<'d>>)
        requires
            old(self).wf(),
        ensures
            final(self).wf(),
            match r {
                Some(sec) => {
                    &&& sections(old(self).remaining()) == seq![
                        (sec.take as nat, sec.xor@),
                    ] + sections(final(self).remaining())
                    &&& sec.xor@.len() >= 1
                    &&& final(self).remaining().len() < old(self).remaining().len()
                },
                None => sections(old(self).remaining()) == Seq::<(nat, Seq<u8>)>::empty()
                    && sections(final(self).remaining()) == Seq::<(nat, Seq<u8>)>::empty(),
            },
    {
        let data: &'d [u8] = self.data;
        let start: usize = self.offset;
        let ghost rem = old(self).remaining();
        let rest = vstd::slice::slice_subrange(data, start, data.len());
        proof {
            assert(rest@ =~= rem);
        }
        let (consumed, take) = match read_vuint(rest) {
            None => {
                return None;
            },
            Some(p) => p,
        };
        proof {
            lemma_vuint_decode_len(rem);
        }
        let begin: usize = start + consumed;
        let ghost after = rem.skip(consumed as int);
        proof {
            assert(after =~= data@.skip(begin as int));
        }
        let mut off: usize = begin;
        while off < data.len()
            invariant
                self.data == data,
                self.offset == start,
                begin <= off <= data@.len(),
                forall|k: int| begin <= k < off ==> data@[k] != 0,
            decreases data@.len() - off,
        {
            let b: u8 = data[off];
            off = off + 1;
            if b == 0 {
                let xor = vstd::slice::slice_subrange(data, begin, off);
                self.offset = off;
                proof {
                    let j = off - 1 - begin;
                    assert forall|k: int| 0 <= k < j implies after[k] != 0 by {
                        assert(after[k] == data@[begin + k]);
                    }
                    assert(after[j] == data@[off - 1]);
                    lemma_first_zero_at(after, j);
                    assert(xor@ =~= after.take(j + 1));
                    assert(data@.skip(off as int) =~= after.skip(j + 1));
                    assert(sections(rem) == seq![(take as nat, xor@)] + sections(
                        data@.skip(off as int),
                    ));
                }
                return Some(UpsSection { take, xor });
            }
        }
        self.offset = off;
        proof {
            assert forall|k: int| 0 <= k < after.len() implies after[k] != 0 by {
                assert(after[k] == data@[begin + k]);
            }
            lemma_first_zero_none(after);
        }
        None
    }
}

/// Reads the little-endian 32-bit word at offset `o` of `s`.
fn read_le32(s: &[u8], o: usize) -> (r: u32)
    requires
        o + 4 <= s@.len(),
    ensures
        r == le32_at(s@, o as int),
{
    (s[o] as u32) | ((s[o + 1] as u32) << 8) | ((s[o + 2] as u32) << 16) | ((s[o + 3] as u32) << 24)
}

/// Parses a patch: checks the marker, decodes the two declared sizes, reads
/// the three footer checksums, and hands back a walker over the record body.
///
/// Returns exactly what `spec_parse` declares for `patch`: `MissingHeader`
/// when the marker is absent, `MalformedPatch` when a size does not decode or
/// the patch cannot hold the footer, and otherwise the declared metadata with
/// a walker positioned at the start of the body.
pub fn parse_patch<'d>(patch: &'d [u8]) -> (r: Result<(UpsPatch, UpsSectionIter<'d>), Error>)
    ensures
        match spec_parse(patch@) {
            Ok(pp) => r matches Ok(pair) && pair.0.declares(pp) && pair.1.wf()
                && pair.1.remaining() == pp.body,
            Err(e) => r matches Err(e2) && e2 == e,
        },
{
    if patch.len() < 4 {
        return Err(Error::MissingHeader);
    }
    proof {
        assert(forall|i: int| 0 <= i < 4 ==> patch@.subrange(0, 4)[i] == patch@[i]);
    }
    if !(patch[0] == 0x55 && patch[1] == 0x50 && patch[2] == 0x53 && patch[3] == 0x31) {
        proof {
            assert(patch@.subrange(0, 4) != ups_marker());
        }
        return Err(Error::MissingHeader);
    }
    proof {
        assert(patch@.subrange(0, 4) =~= ups_marker());
    }

    let tail = vstd::slice::slice_subrange(patch, 4, patch.len());
    proof {
        assert(tail@ =~= patch@.skip(4));
        lemma_vuint_decode_len(patch@.skip(4));
    }
    let (s_used, source_size) = match read_vuint(tail) {
        None => {
            return Err(Error::MalformedPatch);
        },
        Some(p) => p,
    };

    let tail2 = vstd::slice::slice_subrange(patch, 4 + s_used, patch.len());
    proof {
        assert(tail2@ =~= patch@.skip(4 + s_used as int));
        lemma_vuint_decode_len(patch@.skip(4 + s_used as int));
    }
    let (t_used, target_size) = match read_vuint(tail2) {
        None => {
            return Err(Error::MalformedPatch);
        },
        Some(p) => p,
    };

    let offset: usize = 4 + s_used + t_used;
    if patch.len() - offset < 12 {
        return Err(Error::MalformedPatch);
    }

    let ups_patch = UpsPatch {
        source_size,
        target_size,
        source_crc: read_le32(patch, patch.len() - 12),
        target_crc: read_le32(patch, patch.len() - 8),
        patch_crc: read_le32(patch, patch.len() - 4),
    };
    let body = vstd::slice::slice_subrange(patch, offset, patch.len() - 12);
    proof {
        assert(body@ =~= spec_parse(patch@)->Ok_0.body);
    }
    let it = UpsSectionIter::new(body);
    Ok((ups_patch, it))
}

/// Any patch whose first four bytes are not the `UPS1` marker — in particular
/// any patch shorter than four bytes — is rejected as `MissingHeader`.
pub proof fn lemma_bad_marker_missing_header(patch: Seq<u8>)
    requires
        patch.len() < 4 || patch.subrange(0, 4) != ups_marker(),
    ensures
        spec_parse(patch) == Err::<ParsedPatch, Error>(Error::MissingHeader),
{
}

/// Any patch that begins with the marker but is shorter than the minimal
/// layout — the marker, one byte per size, and the twelve-byte footer — is
/// rejected as `MalformedPatch`.
pub proof fn lemma_short_patch_malformed(patch: Seq<u8>)
    requires
        4 <= patch.len() < 18,
        patch.subrange(0, 4) == ups_marker(),
    ensures
        spec_parse(patch) == Err::<ParsedPatch, Error>(Error::MalformedPatch),
{
    lemma_vuint_decode_len(patch.skip(4));
    match vuint_decode_usize(patch.skip(4)) {
        None => {},
        Some((a, _source_size)) => {
            lemma_vuint_decode_len(patch.skip(4 + a as int));
        },
    }
}

} // verus!
