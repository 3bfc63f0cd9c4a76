use ups::{apply_patch, apply_patch_with, parse_patch, read_vuint, Error, Options, UpsSectionIter};

fn crc32(data: &[u8]) -> u32 {
    crc::Crc::<u32>::new(&crc::CRC_32_ISO_HDLC).checksum(data)
}

fn encode_vuint(mut v: usize) -> Vec<u8> {
    let mut out = Vec::new();
    loop {
        let x = (v & 0x7f) as u8;
        v >>= 7;
        if v == 0 {
            out.push(0x80 | x);
            return out;
        }
        out.push(x);
        v -= 1;
    }
}

fn build_patch(source: &[u8], target: &[u8], body: &[u8]) -> Vec<u8> {
    let mut p = b"UPS1".to_vec();
    p.extend(encode_vuint(source.len()));
    p.extend(encode_vuint(target.len()));
    p.extend_from_slice(body);
    p.extend(crc32(source).to_le_bytes());
    p.extend(crc32(target).to_le_bytes());
    let pc = crc32(&p);
    p.extend(pc.to_le_bytes());
    p
}

#[test]
fn vuint_single_terminal_byte() {
    assert_eq!(read_vuint(&[0x84]), Some((1, 4)));
    assert_eq!(read_vuint(&[0x80]), Some((1, 0)));
    assert_eq!(read_vuint(&[0xff]), Some((1, 0x7f)));
}

#[test]
fn vuint_continuation_bytes() {
    // 0x00 carries (0 | 0x80) = 128; the terminal 0x80 adds 0.
    assert_eq!(read_vuint(&[0x00, 0x80]), Some((2, 128)));
    // 0x00 carries 128; the terminal 0x81 adds 1 * 128.
    assert_eq!(read_vuint(&[0x00, 0x81]), Some((2, 256)));
}

#[test]
fn vuint_consumes_through_first_high_bit() {
    // The first byte with its high bit set sits at index 2, so three bytes are
    // consumed; bytes after it are ignored.
    let input = [0x01, 0x02, 0x83, 0xff];
    let expected = (1 + 128) + 128 * ((2 + 128) + 128 * 3);
    assert_eq!(read_vuint(&input), Some((3, expected)));
}

#[test]
fn vuint_without_terminal_fails() {
    assert_eq!(read_vuint(&[]), None);
    assert_eq!(read_vuint(&[0x00, 0x01, 0x7f]), None);
}

#[test]
fn parse_rejects_wrong_marker() {
    let mut p = build_patch(b"AAAA", b"AAAA", &[]);
    p[0] = b'X';
    assert_eq!(parse_patch(&p).err().unwrap(), Error::MissingHeader);
    assert_eq!(parse_patch(b"UP").err().unwrap(), Error::MissingHeader);
    assert_eq!(parse_patch(b"").err().unwrap(), Error::MissingHeader);
}

#[test]
fn parse_rejects_short_patches_as_malformed() {
    // Every patch that begins with the marker but is shorter than marker + two
    // one-byte sizes + footer is malformed.
    let full = build_patch(b"", b"", &[]);
    assert_eq!(full.len(), 18);
    for n in 4..18 {
        let p = &full[..n];
        assert_eq!(parse_patch(p).err().unwrap(), Error::MalformedPatch);
    }
}

#[test]
fn parse_rejects_unterminated_size_field() {
    // After the marker, nothing but continuation bytes: the size never ends.
    let mut p = b"UPS1".to_vec();
    p.extend_from_slice(&[0x00; 20]);
    assert_eq!(parse_patch(&p).err().unwrap(), Error::MalformedPatch);
}

#[test]
fn parse_reads_sizes_and_checksums() {
    let source = b"hello world";
    let target = b"hello verse";
    let patch = build_patch(source, target, &[0x85, 0x0a, 0x00]);
    let (meta, _it) = parse_patch(&patch).ok().unwrap();
    assert_eq!(meta.source_size, source.len());
    assert_eq!(meta.target_size, target.len());
    assert_eq!(meta.source_crc, crc32(source));
    assert_eq!(meta.target_crc, crc32(target));
    assert_eq!(meta.patch_crc, crc32(&patch[..patch.len() - 4]));
}

#[test]
fn section_iter_yields_records_in_order() {
    // Two records: (take 2, xor [0x05, 0x00]) then (take 0, xor [0x07, 0x00]).
    let body = [0x82, 0x05, 0x00, 0x80, 0x07, 0x00];
    let mut it = UpsSectionIter::new(&body);
    let first = it.next().unwrap();
    assert_eq!(first.take, 2);
    assert_eq!(first.xor, &[0x05, 0x00]);
    let second = it.next().unwrap();
    assert_eq!(second.take, 0);
    assert_eq!(second.xor, &[0x07, 0x00]);
    assert!(it.next().is_none());
}

#[test]
fn section_iter_ends_on_missing_zero() {
    // The span after the length never reaches a zero byte: no record.
    let body = [0x80, 0x01, 0x02, 0x03];
    let mut it = UpsSectionIter::new(&body);
    assert!(it.next().is_none());
}

#[test]
fn apply_minimal_patch_flips_first_byte() {
    // One record: copy nothing, XOR [0x01, 0x00] at the start.
    let source = b"AAAA";
    let target = b"\x40AAA";
    let patch = build_patch(source, target, &[0x80, 0x01, 0x00]);
    let out = apply_patch(source.to_vec(), &patch).ok().unwrap();
    assert_eq!(out, target.to_vec());
}

#[test]
fn apply_identity_patch_returns_source() {
    let source = b"same bytes";
    let patch = build_patch(source, source, &[]);
    let out = apply_patch(source.to_vec(), &patch).ok().unwrap();
    assert_eq!(out, source.to_vec());
}

#[test]
fn apply_twice_gives_identical_output() {
    let source = b"AAAA";
    let patch = build_patch(source, b"\x40AAA", &[0x80, 0x01, 0x00]);
    let opts = || Options { skip_crc: true };
    let once = apply_patch_with(opts(), source.to_vec(), &patch).ok().unwrap();
    let twice = apply_patch_with(opts(), source.to_vec(), &patch).ok().unwrap();
    assert_eq!(once, twice);
}

#[test]
fn apply_rejects_flipped_bit_in_source() {
    let source = b"AAAA";
    let patch = build_patch(source, b"\x40AAA", &[0x80, 0x01, 0x00]);
    let mut corrupted = source.to_vec();
    corrupted[2] ^= 0x10;
    let r = apply_patch(corrupted, &patch);
    assert_eq!(r.err().unwrap(), Error::CrcMismatchOriginal);
}

#[test]
fn apply_rejects_corrupted_patch_body() {
    let source = b"AAAA";
    let mut patch = build_patch(source, b"\x40AAA", &[0x80, 0x01, 0x00]);
    // Flip a bit inside the body, after the marker and sizes, before the
    // footer: the patch checksum no longer matches.
    patch[7] ^= 0x02;
    let r = apply_patch(source.to_vec(), &patch);
    assert_eq!(r.err().unwrap(), Error::CrcMismatchPatch);
}

#[test]
fn apply_rejects_wrong_target_checksum() {
    // Built by hand so the patch checksum is right while the recorded target
    // checksum is wrong.
    let source = b"AAAA";
    let mut p = b"UPS1".to_vec();
    p.extend(encode_vuint(4));
    p.extend(encode_vuint(4));
    p.extend_from_slice(&[0x80, 0x01, 0x00]);
    p.extend(crc32(source).to_le_bytes());
    p.extend(0xdeadbeefu32.to_le_bytes());
    let pc = crc32(&p);
    p.extend(pc.to_le_bytes());
    let r = apply_patch(source.to_vec(), &p);
    assert_eq!(r.err().unwrap(), Error::CrcMismatchTarget);
}

#[test]
fn apply_skip_crc_ignores_checksums() {
    let source = b"AAAA";
    let mut patch = build_patch(source, b"\x40AAA", &[0x80, 0x01, 0x00]);
    let n = patch.len();
    // Ruin all three recorded checksums.
    for b in &mut patch[n - 12..] {
        *b ^= 0xff;
    }
    let out = apply_patch_with(Options { skip_crc: true }, source.to_vec(), &patch)
        .ok()
        .unwrap();
    assert_eq!(out, b"\x40AAA".to_vec());
    // With checks on, the same patch is rejected.
    assert!(apply_patch(source.to_vec(), &patch).is_err());
}

#[test]
fn apply_grows_buffer_to_target_size() {
    // Source has two bytes, target five: the tail is rebuilt by XOR against
    // zero-filled padding.
    let source = b"AB";
    let target = b"xyzvw";
    let xor: Vec<u8> = vec![
        b'x' ^ b'A',
        b'y' ^ b'B',
        b'z',
        b'v',
        b'w',
        0x00,
    ];
    let mut body = vec![0x80];
    body.extend_from_slice(&xor);
    let patch = build_patch(source, target, &body);
    let out = apply_patch(source.to_vec(), &patch).ok().unwrap();
    assert_eq!(out.len(), target.len());
    assert_eq!(out, target.to_vec());
}

#[test]
fn apply_copies_between_records() {
    // Source "abcdef": keep two bytes, flip the third, keep two more, flip the
    // last.
    let source = b"abcdef";
    let target = b"abXdeY";
    let body = [
        0x82,
        b'c' ^ b'X',
        0x00,
        0x81,
        b'f' ^ b'Y',
        0x00,
    ];
    let patch = build_patch(source, target, &body);
    let out = apply_patch(source.to_vec(), &patch).ok().unwrap();
    assert_eq!(out, target.to_vec());
}

#[test]
fn apply_propagates_parse_errors() {
    let r = apply_patch(b"src".to_vec(), b"not a patch");
    assert_eq!(r.err().unwrap(), Error::MissingHeader);
    let r = apply_patch(b"src".to_vec(), b"UPS1\x00");
    assert_eq!(r.err().unwrap(), Error::MalformedPatch);
}

#[test]
fn default_options_verify_checksums() {
    let o = Options::default();
    assert!(!o.skip_crc);
}

#[test]
fn vuint_too_large_for_usize_fails() {
    // Ten continuation bytes then a terminal byte with a full payload: the
    // value exceeds usize::MAX, so decoding reports failure.
    let mut input = vec![0x7f; 10];
    input.push(0xff);
    assert_eq!(read_vuint(&input), None);
}

#[test]
fn xor_slice_applies_in_place() {
    let mut buf = vec![0x01u8, 0x02, 0x03, 0x04];
    ups::xor_slice(&mut buf, 1, &[0xf0, 0x0f]);
    assert_eq!(buf, vec![0x01, 0xf2, 0x0c, 0x04]);
}

#[test]
fn xor_slice_ignores_bytes_past_the_end() {
    let mut buf = vec![0xaau8, 0xbb];
    ups::xor_slice(&mut buf, 1, &[0x01, 0x02, 0x03]);
    assert_eq!(buf, vec![0xaa, 0xba]);
    ups::xor_slice(&mut buf, 5, &[0xff]);
    assert_eq!(buf, vec![0xaa, 0xba]);
}
