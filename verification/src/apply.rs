//! Reconstruction of the target file: resize the source buffer, replay each
//! record by skipping the copied span and XORing the record's bytes in place,
//! and check the three checksums unless asked not to.

use vstd::prelude::*;

use crate::parse::{parse_patch, sections, spec_parse, Error, ParsedPatch};

verus! {

/// Settings for `apply_patch_with`.
pub struct Options {
    /// When true, none of the three checksums is verified.
    pub skip_crc: bool,
}

impl Default for Options {
    /// Checksums are verified unless asked otherwise.
    fn default() -> (r: Self)
        ensures
            !r.skip_crc,
    {
        Options { skip_crc: false }
    }
}

/// The CRC-32 (ISO-HDLC polynomial) of a byte sequence. Its value is fixed by
/// the checksum algorithm; the library learns it only through `crc32`.
pub uninterp spec fn crc32_of(data: Seq<u8>) -> u32;

/// Relies on `crc::Crc::<u32>::checksum` with the `CRC_32_ISO_HDLC` algorithm:
/// the checksum is a function of the input bytes alone.
#[verifier::external_body]
fn crc32(data: &[u8]) -> (r: u32)
    ensures
        r == crc32_of(data@),
{
    crc::Crc::<u32>::new(&crc::CRC_32_ISO_HDLC).checksum(data)
}

/// `buf` with the bytes of `xor` XORed in starting at position `pos`; whatever
/// part of `xor` falls outside `buf` has no effect.
pub open spec fn xor_range(buf: Seq<u8>, pos: int, xor: Seq<u8>) -> Seq<u8> {
    Seq::new(
        buf.len(),
        |i: int| if pos <= i < pos + xor.len() {
            buf[i] ^ xor[i - pos]
        } else {
            buf[i]
        },
    )
}

/// `s` cut or zero-padded to exactly `n` bytes.
pub open spec fn resize_seq(s: Seq<u8>, n: nat) -> Seq<u8> {
    Seq::new(n, |i: int| if i < s.len() { s[i] } else { 0u8 })
}

/// The working buffer after every record has been replayed: each record leaves
/// `take` bytes untouched at the cursor, XORs its span in right after them, and
/// advances the cursor past both.
pub open spec fn apply_sections(buf: Seq<u8>, secs: Seq<(nat, Seq<u8>)>, cursor: nat) -> Seq<u8>
    decreases secs.len(),
{
    if secs.len() == 0 {
        buf
    } else {
        let (take, xor) = secs[0];
        apply_sections(
            xor_range(buf, (cursor + take) as int, xor),
            secs.skip(1),
            cursor + take + xor.len(),
        )
    }
}

/// Mathematical meaning of applying a patch to a source: either the
/// reconstructed bytes or the error that stops the attempt. Parsing fails
/// first; then, unless `skip_crc`, the source bytes and the patch bytes (all
/// but the final four) must match the recorded checksums; the source is then
/// resized to the larger declared size, zero-filling new bytes, and every
/// record is replayed; finally, unless `skip_crc`, the result must match the
/// recorded target checksum.
pub open spec fn spec_apply(skip_crc: bool, source: Seq<u8>, patch: Seq<u8>) -> Result<
    Seq<u8>,
    Error,
> {
    match spec_parse(patch) {
        Err(e) => Err(e),
        Ok(pp) => {
            if !skip_crc && crc32_of(source) != pp.source_crc {
                Err(Error::CrcMismatchOriginal)
            } else if !skip_crc && crc32_of(patch.take(patch.len() - 4)) != pp.patch_crc {
                Err(Error::CrcMismatchPatch)
            } else {
                let size = if pp.source_size >= pp.target_size {
                    pp.source_size
                } else {
                    pp.target_size
                };
                let out = apply_sections(resize_seq(source, size), sections(pp.body), 0);
                if !skip_crc && crc32_of(out) != pp.target_crc {
                    Err(Error::CrcMismatchTarget)
                } else {
                    Ok(out)
                }
            }
        },
    }
}

/// XORs `xor` into `target` in place, starting at `start`; whatever part of
/// `xor` falls beyond the end of `target` has no effect.
pub fn xor_slice(target: &mut Vec<u8>, start: usize, xor: &[u8])
    ensures
        final(target)@ == xor_range(old(target)@, start as int, xor@),
{
    let len: usize = target.len();
    let count: usize = if start >= len {
        0
    } else if xor.len() < len - start {
        xor.len()
    } else {
        len - start
    };
    let mut i: usize = 0;
    while i < count
        invariant
            count <= xor@.len(),
            count == 0 || start + count <= len,
            i <= count,
            target@.len() == len,
            len == old(target)@.len(),
            forall|j: int| start <= j < start + i ==> target@[j] == (old(target)@[j] ^ xor@[
                j - start
            ]),
            forall|j: int| 0 <= j < target@.len() && !(start <= j < start + i) ==> target@[j]
                == old(target)@[j],
        decreases count - i,
    {
        let pos: usize = start + i;
        let b: u8 = target[pos];
        target.set(pos, b ^ xor[i]);
        i = i + 1;
    }
    proof {
        assert(final(target)@ =~= xor_range(old(target)@, start as int, xor@));
    }
}

/// Replaying records never changes the buffer's length.
pub proof fn lemma_apply_sections_len(buf: Seq<u8>, secs: Seq<(nat, Seq<u8>)>, cursor: nat)
    ensures
        apply_sections(buf, secs, cursor).len() == buf.len(),
    decreases secs.len(),
{
    if secs.len() > 0 {
        let (take, xor) = secs[0];
        lemma_apply_sections_len(
            xor_range(buf, (cursor + take) as int, xor),
            secs.skip(1),
            cursor + take + xor.len(),
        );
    }
}

/// Applies `patch` to `source` and returns the reconstructed bytes, verifying
/// all three checksums.
///
/// Returns exactly what `spec_apply` with checksums enabled declares.
pub fn apply_patch(source: Vec<u8>, patch: &[u8]) -> (r: Result<Vec<u8>, Error>)
    ensures
        match spec_apply(false, source@, patch@) {
            Ok(t) => r matches Ok(out) && out@ == t,
            Err(e) => r matches Err(e2) && e2 == e,
        },
{
    apply_patch_with(Options { skip_crc: false }, source, patch)
}

/// Applies `patch` to `source` and returns the reconstructed bytes; checksum
/// verification is skipped when `options.skip_crc` holds.
///
/// Returns exactly what `spec_apply` declares: the parse error if parsing
/// fails; `CrcMismatchOriginal` or `CrcMismatchPatch` when a verified input
/// checksum differs; otherwise the source resized to the larger declared size
/// with every record replayed, or `CrcMismatchTarget` when that result fails
/// its verified checksum.
pub fn apply_patch_with(options: Options, source: Vec<u8>, patch: &[u8]) -> (r: Result<
    Vec<u8>,
    Error,
>)
    ensures
        match spec_apply(options.skip_crc, source@, patch@) {
            Ok(t) => r matches Ok(out) && out@ == t,
            Err(e) => r matches Err(e2) && e2 == e,
        },
{
    let ghost src: Seq<u8> = source@;

    let (p, mut it) = match parse_patch(patch) {
        Ok(pair) => pair,
        Err(e) => {
            return Err(e);
        },
    };
    let ghost pp: ParsedPatch = spec_parse(patch@)->Ok_0;

    if !options.skip_crc {
        if crc32(source.as_slice()) != p.source_crc {
            return Err(Error::CrcMismatchOriginal);
        }
        let trimmed = vstd::slice::slice_subrange(patch, 0, patch.len() - 4);
        proof {
            assert(trimmed@ =~= patch@.take(patch@.len() - 4));
        }
        if crc32(trimmed) != p.patch_crc {
            return Err(Error::CrcMismatchPatch);
        }
    }

    let new_len: usize = if p.source_size >= p.target_size {
        p.source_size
    } else {
        p.target_size
    };
    let mut target = source;
    if target.len() > new_len {
        target.truncate(new_len);
    } else {
        while target.len() < new_len
            invariant
                src.len() <= target@.len() <= new_len,
                forall|j: int| 0 <= j < src.len() ==> target@[j] == src[j],
                forall|j: int| src.len() <= j < target@.len() ==> target@[j] == 0u8,
            decreases new_len - target@.len(),
        {
            target.push(0u8);
        }
    }
    let ghost base: Seq<u8> = resize_seq(src, new_len as nat);
    proof {
        assert(target@ =~= base);
    }

    let len: usize = target.len();
    let mut cursor: usize = 0;
    let ghost mut gcursor: nat = 0nat;
    loop
        invariant
            it.wf(),
            target@.len() == len,
            cursor as nat == if gcursor <= len as nat {
                gcursor
            } else {
                len as nat
            },
            apply_sections(base, sections(pp.body), 0) == apply_sections(
                target@,
                sections(it.remaining()),
                gcursor,
            ),
        ensures
            sections(it.remaining()).len() == 0,
            target@.len() == len,
            apply_sections(base, sections(pp.body), 0) == apply_sections(
                target@,
                sections(it.remaining()),
                gcursor,
            ),
        decreases it.remaining().len(),
    {
        let sec = match it.next() {
            None => {
                break;
            },
            Some(sec) => sec,
        };
        let ghost secs_before = seq![(sec.take as nat, sec.xor@)] + sections(it.remaining());
        proof {
            assert(secs_before[0] == (sec.take as nat, sec.xor@));
            assert(secs_before.skip(1) =~= sections(it.remaining()));
        }
        let start: usize = if sec.take >= len - cursor {
            len
        } else {
            cursor + sec.take
        };
        let ghost gstart: nat = (gcursor + sec.take) as nat;
        proof {
            if gstart >= len as nat {
                assert(xor_range(target@, gstart as int, sec.xor@) =~= target@);
                assert(xor_range(target@, start as int, sec.xor@) =~= target@);
            }
        }
        xor_slice(&mut target, start, sec.xor);
        let xlen: usize = sec.xor.len();
        cursor = if xlen >= len - start {
            len
        } else {
            start + xlen
        };
        proof {
            gcursor = gstart + sec.xor@.len();
        }
    }

    if !options.skip_crc {
        if crc32(target.as_slice()) != p.target_crc {
            return Err(Error::CrcMismatchTarget);
        }
    }
    Ok(target)
}

/// Applying the same patch to the same source yields byte-identical results:
/// the outcome is a function of the inputs alone, so two runs agree.
pub proof fn lemma_apply_deterministic(
    skip_crc: bool,
    source: Seq<u8>,
    patch: Seq<u8>,
    r1: Result<Seq<u8>, Error>,
    r2: Result<Seq<u8>, Error>,
)
    requires
        r1 == spec_apply(skip_crc, source, patch),
        r2 == spec_apply(skip_crc, source, patch),
    ensures
        r1 == r2,
{
}

/// With checksums enabled, a source whose checksum differs from the one the
/// patch records is rejected as `CrcMismatchOriginal`: no buffer is returned.
pub proof fn lemma_source_crc_guard(source: Seq<u8>, patch: Seq<u8>)
    requires
        spec_parse(patch) is Ok,
        crc32_of(source) != spec_parse(patch)->Ok_0.source_crc,
    ensures
        spec_apply(false, source, patch) == Err::<Seq<u8>, Error>(Error::CrcMismatchOriginal),
{
}

/// A successful apply returns exactly the larger of the two declared sizes; in
/// particular, a patch that declares a target larger than its source yields
/// exactly `target_size` bytes, the tail rebuilt by XOR over zero-filled
/// padding.
pub proof fn lemma_apply_output_len(skip_crc: bool, source: Seq<u8>, patch: Seq<u8>)
    requires
        spec_apply(skip_crc, source, patch) is Ok,
    ensures
        spec_parse(patch) is Ok,
        spec_apply(skip_crc, source, patch)->Ok_0.len() == ({
            let pp = spec_parse(patch)->Ok_0;
            if pp.source_size >= pp.target_size {
                pp.source_size
            } else {
                pp.target_size
            }
        }),
{
    let pp = spec_parse(patch)->Ok_0;
    let size = if pp.source_size >= pp.target_size {
        pp.source_size
    } else {
        pp.target_size
    };
    lemma_apply_sections_len(resize_seq(source, size), sections(pp.body), 0);
}

} // verus!
