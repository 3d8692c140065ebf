use fastlz_rs::compress::{fastlz_hash, peek4, L1Output, L2Output};
use fastlz_rs::util::{BufOutput, OutputSink, VecOutput};
use fastlz_rs::{
    decompress_to_buf, decompress_to_vec, CompressError, CompressState, CompressionLevel,
    DecompressError,
};

fn sample(n: usize, seed: u32) -> Vec<u8> {
    // bytes with long repeats and some noise, from a small generator
    let mut v = Vec::with_capacity(n);
    let mut x = seed;
    while v.len() < n {
        x = x.wrapping_mul(1664525).wrapping_add(1013904223);
        let run = 1 + ((x >> 24) % 40) as usize;
        let byte = (x >> 16) as u8 % 7;
        for k in 0..run {
            if v.len() < n {
                v.push(if k % 5 == 4 { byte.wrapping_add(k as u8) } else { byte });
            }
        }
    }
    v
}

fn lv1_writer(out: &mut [u8]) -> L1Output<BufOutput<'_>> {
    L1Output(BufOutput::new(out))
}

fn lv2_writer(out: &mut [u8]) -> L2Output<BufOutput<'_>> {
    L2Output(BufOutput::new(out))
}

#[test]
fn round_trip_level1() {
    for n in [0usize, 1, 2, 3, 4, 5, 6, 31, 32, 33, 64, 65, 300, 5000, 70000] {
        let inp = sample(n, n as u32 + 1);
        let mut state = CompressState::new();
        let comp = state.compress_to_vec(&inp, CompressionLevel::Level1).unwrap();
        assert_eq!(decompress_to_vec(&comp, None).unwrap(), inp);
    }
}

#[test]
fn round_trip_level2() {
    for n in [0usize, 1, 2, 3, 4, 5, 6, 31, 32, 33, 64, 65, 300, 5000, 70000] {
        let inp = sample(n, n as u32 + 7);
        let mut state = CompressState::new();
        let comp = state.compress_to_vec(&inp, CompressionLevel::Level2).unwrap();
        if n > 0 {
            assert_eq!(comp[0] >> 5, 1);
        }
        assert_eq!(decompress_to_vec(&comp, Some(n)).unwrap(), inp);
    }
}

#[test]
fn round_trip_default_level() {
    let mut state = CompressState::new();
    let small = sample(65535, 3);
    let comp = state.compress_to_vec(&small, CompressionLevel::Default).unwrap();
    assert_eq!(comp[0] >> 5, 0);
    assert_eq!(
        comp,
        state.compress_to_vec(&small, CompressionLevel::Level1).unwrap()
    );
    assert_eq!(decompress_to_vec(&comp, None).unwrap(), small);

    let large = sample(65536, 3);
    let comp = state.compress_to_vec(&large, CompressionLevel::Default).unwrap();
    assert_eq!(comp[0] >> 5, 1);
    assert_eq!(
        comp,
        state.compress_to_vec(&large, CompressionLevel::Level2).unwrap()
    );
    assert_eq!(decompress_to_vec(&comp, None).unwrap(), large);
}

#[test]
fn round_trip_far_matches() {
    // the same 40 bytes come back 9000 bytes later: only level 2 reaches them
    let mut inp = Vec::new();
    let motif: Vec<u8> = (0..40u8).map(|k| k.wrapping_mul(37).wrapping_add(11)).collect();
    inp.extend_from_slice(&motif);
    let mut x = 12345u32;
    for _ in 0..9000 {
        x = x.wrapping_mul(1103515245).wrapping_add(12345);
        inp.push((x >> 16) as u8 | 0x80);
    }
    inp.extend_from_slice(&motif);
    let mut state = CompressState::new();
    let lv1 = state.compress_to_vec(&inp, CompressionLevel::Level1).unwrap();
    let lv2 = state.compress_to_vec(&inp, CompressionLevel::Level2).unwrap();
    assert_eq!(decompress_to_vec(&lv1, None).unwrap(), inp);
    assert_eq!(decompress_to_vec(&lv2, None).unwrap(), inp);
    assert!(lv2.len() < lv1.len());
}

#[test]
fn far_match_does_not_end_the_stream() {
    // 8 bytes, 8192 others that hold none of them, the same 8 bytes again
    let motif = [1u8, 2, 3, 4, 5, 6, 7, 8];
    let mut inp = Vec::new();
    inp.extend_from_slice(&motif);
    for k in 0..8192usize {
        inp.push(0x80 | (k % 3) as u8 | (((k / 3) % 2) as u8) << 4);
    }
    inp.extend_from_slice(&motif);
    let mut state = CompressState::new();
    let comp = state.compress_to_vec(&inp, CompressionLevel::Level2).unwrap();
    // the stream ends with a far match of 7 bytes and then the literal 8
    let n = comp.len();
    assert_eq!(&comp[n - 6..], &[0xbf, 0xff, 0x00, 0x08, 0x00, 8]);
    assert_eq!(decompress_to_vec(&comp, None).unwrap(), inp);
}

#[test]
fn state_is_reusable() {
    let mut state = CompressState::new();
    let a = sample(4000, 1);
    let b = sample(4000, 2);
    let first = state.compress_to_vec(&a, CompressionLevel::Level1).unwrap();
    let _ = state.compress_to_vec(&b, CompressionLevel::Level2).unwrap();
    let again = state.compress_to_vec(&a, CompressionLevel::Level1).unwrap();
    assert_eq!(first, again);
    let mut boxed = CompressState::new_boxed();
    assert_eq!(
        boxed.compress_to_vec(&a, CompressionLevel::Level1).unwrap(),
        first
    );
}

#[test]
fn empty_input() {
    let mut state = CompressState::new();
    for level in [
        CompressionLevel::Default,
        CompressionLevel::Level1,
        CompressionLevel::Level2,
    ] {
        assert_eq!(state.compress_to_vec(&[], level).unwrap(), Vec::<u8>::new());
        let mut out = [7u8; 2];
        assert_eq!(state.compress_to_buf(&[], &mut out, level), Ok(0));
        assert_eq!(out, [7, 7]);
    }
    assert_eq!(decompress_to_vec(&[], None).unwrap(), Vec::<u8>::new());
    let mut out = [7u8; 2];
    assert_eq!(decompress_to_buf(&[], &mut out), Ok(0));
    assert_eq!(out, [7, 7]);
    let mut none = [0u8; 0];
    assert_eq!(decompress_to_buf(&[], &mut none), Ok(0));
}

#[test]
fn default_level_is_default() {
    assert_eq!(CompressionLevel::default(), CompressionLevel::Default);
}

#[test]
fn short_inputs_are_literals() {
    let mut state = CompressState::new();
    // with fewer than five bytes no position has four bytes to look at
    let comp = state
        .compress_to_vec(&[1, 1, 1, 1], CompressionLevel::Level1)
        .unwrap();
    assert_eq!(comp, [0x03, 1, 1, 1, 1]);
    let comp = state
        .compress_to_vec(&[1, 1, 1, 1], CompressionLevel::Level2)
        .unwrap();
    assert_eq!(comp, [0x23, 1, 1, 1, 1]);
    let comp = state.compress_to_vec(&[9], CompressionLevel::Level2).unwrap();
    assert_eq!(comp, [0x20, 9]);
}

#[test]
fn level2_marks_the_first_byte() {
    let mut state = CompressState::new();
    let comp = state
        .compress_to_vec(&[1, 1, 1, 1, 1], CompressionLevel::Level2)
        .unwrap();
    assert_eq!(comp, [0x20, 1, 0x40, 0x00]);
    let mut out = [0u8; 6];
    let len = state
        .compress_to_buf(&[1, 1, 1, 1, 1], &mut out, CompressionLevel::Level2)
        .unwrap();
    assert_eq!(len, 4);
    assert_eq!(out, [0x20, 1, 0x40, 0x00, 0, 0]);
}

#[test]
fn compress_overflow_keeps_a_prefix() {
    let inp = sample(500, 9);
    let mut state = CompressState::new();
    let full = state.compress_to_vec(&inp, CompressionLevel::Level1).unwrap();
    for cap in [0usize, 1, 2, 3, 10, full.len() - 1] {
        let mut out = vec![0xaau8; cap];
        assert_eq!(
            state.compress_to_buf(&inp, &mut out, CompressionLevel::Level1),
            Err(CompressError::OutputTooSmall)
        );
        assert_eq!(out, &full[..cap]);
    }
    let mut out = vec![0xaau8; full.len() + 3];
    assert_eq!(
        state.compress_to_buf(&inp, &mut out, CompressionLevel::Level1),
        Ok(full.len())
    );
    assert_eq!(&out[..full.len()], &full[..]);
    assert_eq!(&out[full.len()..], &[0xaa, 0xaa, 0xaa]);
}

#[test]
fn compress_overflow_at_level2_keeps_a_prefix() {
    let inp = sample(500, 9);
    let mut state = CompressState::new();
    let full = state.compress_to_vec(&inp, CompressionLevel::Level2).unwrap();
    assert_eq!(full[0] >> 5, 1);
    for cap in [0usize, 1, 2, 3, 10, full.len() - 1] {
        let mut out = vec![0xaau8; cap];
        assert_eq!(
            state.compress_to_buf(&inp, &mut out, CompressionLevel::Level2),
            Err(CompressError::OutputTooSmall)
        );
        assert_eq!(out, &full[..cap]);
    }
    // the smallest case: one byte of input, one byte of room
    let mut out = [0u8; 1];
    assert_eq!(
        state.compress_to_buf(&[9], &mut out, CompressionLevel::Level2),
        Err(CompressError::OutputTooSmall)
    );
    assert_eq!(out, [0x20]);
    assert_eq!(
        state.compress_to_vec(&[9], CompressionLevel::Level2).unwrap(),
        [0x20, 9]
    );
}

#[test]
fn decompress_overflow_keeps_a_prefix() {
    let inp = sample(700, 4);
    let mut state = CompressState::new();
    for level in [CompressionLevel::Level1, CompressionLevel::Level2] {
        let comp = state.compress_to_vec(&inp, level).unwrap();
        for cap in [0usize, 1, 2, 33, 699] {
            let mut out = vec![0x55u8; cap];
            assert_eq!(
                decompress_to_buf(&comp, &mut out),
                Err(DecompressError::OutputTooSmall)
            );
            assert_eq!(out, &inp[..cap]);
        }
        let mut out = vec![0x55u8; 702];
        assert_eq!(decompress_to_buf(&comp, &mut out), Ok(700));
        assert_eq!(&out[..700], &inp[..]);
        assert_eq!(&out[700..], &[0x55, 0x55]);
    }
}

#[test]
fn decompress_errors() {
    // a literal run that the input cuts short
    assert_eq!(
        decompress_to_vec(&[0x02, b'A', b'B'], None),
        Err(DecompressError::InputTruncated)
    );
    // a short match without its displacement byte
    assert_eq!(
        decompress_to_vec(&[0x00, b'A', 0x20], None),
        Err(DecompressError::InputTruncated)
    );
    // a long match without its displacement byte, at both levels
    assert_eq!(
        decompress_to_vec(&[0x00, b'A', 0xe0, 0x00], None),
        Err(DecompressError::InputTruncated)
    );
    assert_eq!(
        decompress_to_vec(&[0x20, b'A', 0xe0, 0xff], None),
        Err(DecompressError::InputTruncated)
    );
    // a far displacement without its two bytes
    assert_eq!(
        decompress_to_vec(&[0x20, b'A', 0x3f, 0xff, 0x00], None),
        Err(DecompressError::InputTruncated)
    );
    // a backreference before the start of the output
    assert_eq!(
        decompress_to_vec(&[0x00, b'A', 0x20, 0x01], None),
        Err(DecompressError::InvalidBackreference)
    );
    // a first byte that marks no level
    for first in [0x40u8, 0x60, 0x80, 0xa0, 0xc0, 0xe0, 0xff] {
        assert_eq!(
            decompress_to_vec(&[first, 0, 0], None),
            Err(DecompressError::InvalidCompressionLevel)
        );
    }
    // the buffer is too small
    let mut out = [0u8; 1];
    assert_eq!(
        decompress_to_buf(&[0x01, b'A', b'B'], &mut out),
        Err(DecompressError::OutputTooSmall)
    );
    assert_eq!(out, [b'A']);
}

#[test]
fn decompress_error_keeps_earlier_output() {
    let mut out = [0u8; 4];
    assert_eq!(
        decompress_to_buf(&[0x01, b'A', b'B', 0x20, 0x07], &mut out),
        Err(DecompressError::InvalidBackreference)
    );
    assert_eq!(out, [b'A', b'B', 0, 0]);
    // an error of the stream comes before the overflow that a later record would bring
    let mut out = [0u8; 2];
    assert_eq!(
        decompress_to_buf(&[0x01, b'A', b'B', 0x02, b'C'], &mut out),
        Err(DecompressError::InputTruncated)
    );
    assert_eq!(out, [b'A', b'B']);
}

#[test]
fn level1_ignores_far_displacement_bytes() {
    // at level 1 a displacement of 8191 is followed by the next record
    let mut inp = vec![0u8; 0];
    let mut lits = Vec::new();
    for k in 0..8192usize {
        lits.push((k % 251) as u8);
    }
    for chunk in lits.chunks(32) {
        inp.push((chunk.len() - 1) as u8);
        inp.extend_from_slice(chunk);
    }
    inp.extend_from_slice(&[0x3f, 0xff, 0x00, b'Z']);
    let out = decompress_to_vec(&inp, None).unwrap();
    assert_eq!(out.len(), 8192 + 3 + 1);
    assert_eq!(&out[8192..8195], &lits[0..3]);
    assert_eq!(out[8195], b'Z');
    // at level 2 the same bytes give a displacement of 8191 + 0x005a
    inp[0] |= 0x20;
    assert_eq!(
        decompress_to_vec(&inp, None),
        Err(DecompressError::InvalidBackreference)
    );
}

#[test]
fn literal_run_boundaries() {
    for n in [1usize, 32, 33, 64] {
        let lits: Vec<u8> = (0..n).map(|k| k as u8 + 100).collect();
        let mut expected = Vec::new();
        for chunk in lits.chunks(32) {
            expected.push((chunk.len() - 1) as u8);
            expected.extend_from_slice(chunk);
        }
        let mut out = vec![0u8; expected.len()];
        {
            let mut w = lv1_writer(&mut out);
            w.put_lits(&lits).unwrap();
        }
        assert_eq!(out, expected);
        let mut out = vec![0u8; expected.len()];
        {
            let mut w = lv2_writer(&mut out);
            w.put_lits(&lits).unwrap();
        }
        assert_eq!(out, expected);
    }
    // 33 literals: a full run and a run of one
    let lits = [9u8; 33];
    let mut out = [0u8; 35];
    {
        let mut w = lv1_writer(&mut out);
        w.put_lits(&lits).unwrap();
    }
    assert_eq!(out[0], 0x1f);
    assert_eq!(out[33], 0x00);
    assert_eq!(out[34], 9);
}

#[test]
fn backref_boundaries_level1() {
    let cases: [(usize, usize, &[u8]); 6] = [
        (1, 3, &[0x20, 0x01]),
        (1, 8, &[0xc0, 0x01]),
        (1, 9, &[0xe0, 0x00, 0x01]),
        (1, 264, &[0xe0, 0xff, 0x01]),
        (1, 265, &[0xe0, 0xfd, 0x01, 0x20, 0x01]),
        (8191, 3, &[0x3f, 0xff]),
    ];
    for (disp, len, expected) in cases {
        let mut out = vec![0u8; expected.len()];
        {
            let mut w = lv1_writer(&mut out);
            w.put_backref(disp, len).unwrap();
        }
        assert_eq!(out, expected);
    }
}

#[test]
fn backref_boundaries_level2() {
    let cases: [(usize, usize, &[u8]); 9] = [
        (1, 3, &[0x20, 0x01]),
        (1, 8, &[0xc0, 0x01]),
        (1, 9, &[0xe0, 0x00, 0x01]),
        (2, 263, &[0xe0, 0xfe, 0x02]),
        (2, 264, &[0xe0, 0xff, 0x00, 0x02]),
        (2, 265, &[0xe0, 0xff, 0x01, 0x02]),
        (8190, 3, &[0x3f, 0xfe]),
        (8191, 3, &[0x3f, 0xff, 0x00, 0x00]),
        (8191 + 65535, 3, &[0x3f, 0xff, 0xff, 0xff]),
    ];
    for (disp, len, expected) in cases {
        let mut out = vec![0u8; expected.len()];
        {
            let mut w = lv2_writer(&mut out);
            w.put_backref(disp, len).unwrap();
        }
        assert_eq!(out, expected);
    }
}

#[test]
fn writers_decode_again() {
    // what the writers encode, the decoder reads as the same copy
    for (disp, len) in [(0usize, 3usize), (2, 8), (1, 9), (2, 264), (1, 265), (0, 526), (2, 1000)] {
        for level2 in [false, true] {
            let mut stream = VecOutput::from(Vec::new());
            let mut expected = vec![b'x', b'y', b'z'];
            if level2 {
                let mut w = L2Output(stream);
                w.put_lits(&expected).unwrap();
                w.put_backref(disp, len).unwrap();
                stream = w.0;
                stream.vec[0] |= 0x20;
            } else {
                let mut w = L1Output(stream);
                w.put_lits(&expected).unwrap();
                w.put_backref(disp, len).unwrap();
                stream = w.0;
            }
            for _ in 0..len {
                let b = expected[expected.len() - 1 - disp];
                expected.push(b);
            }
            assert_eq!(decompress_to_vec(&stream.vec, None).unwrap(), expected);
        }
    }
}

#[test]
fn writer_overflow_stops_at_the_limit() {
    let mut out = [0u8; 4];
    {
        let mut w = lv2_writer(&mut out);
        assert_eq!(
            w.put_backref(8192, 265),
            Err(CompressError::OutputTooSmall)
        );
        assert_eq!(w.0.pos, 4);
    }
    assert_eq!(out, [0xff, 0xff, 0x01, 0xff]);
}

#[test]
fn hash_is_the_top_bits_of_the_product() {
    for v in [0u32, 1, 2, 0x123456, 0xffffff] {
        let expected = (v.wrapping_mul(0x9e3779b9) >> 19) as usize;
        assert_eq!(fastlz_hash(v), expected);
        assert!(fastlz_hash(v) < 8192);
    }
    assert_eq!(fastlz_hash(0), 0);
}

#[test]
fn peek4_reads_little_endian() {
    let inp = [0x11u8, 0x22, 0x33, 0x44, 0x55];
    assert_eq!(peek4(&inp, 0), Some(0x44332211));
    assert_eq!(peek4(&inp, 1), Some(0x55443322));
    assert_eq!(peek4(&inp, 2), None);
    assert_eq!(peek4(&inp, 5), None);
}

#[test]
fn error_messages() {
    assert_eq!(
        CompressError::OutputTooSmall.message(),
        "output buffer was insufficient"
    );
    assert_eq!(
        DecompressError::InputTruncated.message(),
        "input was truncated"
    );
    assert_eq!(
        DecompressError::InvalidBackreference.message(),
        "invalid backreference"
    );
    assert_eq!(
        DecompressError::InvalidCompressionLevel.message(),
        "invalid compression level"
    );
    assert_eq!(
        DecompressError::OutputTooSmall.message(),
        "output buffer was insufficient"
    );
}
