use fastlz_rs::util::{BufOutput, OutputSink, VecOutput};
use fastlz_rs::{decompress_to_buf, DecompressError};

#[test]
fn test_buf_out_lits() {
    {
        let mut out = [0u8; 3];
        let mut outbuf: BufOutput = BufOutput::new(&mut out[..]);
        outbuf.put_lits(&[1]).unwrap();
        assert_eq!(outbuf.buf, [1, 0, 0]);
        // test overflow
        outbuf.put_lits(&[2, 3, 4]).expect_err("");
        assert_eq!(outbuf.buf, [1, 2, 3]);
    }

    {
        let mut out = [0u8; 3];
        let mut outbuf: BufOutput = BufOutput::new(&mut out[..]);
        // test exact fit
        outbuf.put_lits(&[1, 2, 3]).unwrap();
        assert_eq!(outbuf.buf, [1, 2, 3]);
        outbuf.put_lits(&[4]).expect_err("");
        assert_eq!(outbuf.buf, [1, 2, 3]);
    }
}

#[test]
fn test_buf_out_backref() {
    {
        let mut out = [0u8; 8];
        let mut outbuf: BufOutput = BufOutput::new(&mut out[..]);
        outbuf.put_lits(&[1, 2, 3]).unwrap();

        // invalid, before the start
        assert_eq!(
            outbuf.put_backref(3, 5),
            Err(DecompressError::InvalidBackreference)
        );

        // overflow, but should still write up to limit
        assert_eq!(
            outbuf.put_backref(1, 6),
            Err(DecompressError::OutputTooSmall)
        );

        assert_eq!(outbuf.buf, [1, 2, 3, 2, 3, 2, 3, 2])
    }

    {
        let mut out = [0u8; 8];
        let mut outbuf: BufOutput = BufOutput::new(&mut out[..]);
        outbuf.put_lits(&[1, 2, 3]).unwrap();

        // exact fit
        outbuf.put_backref(2, 5).unwrap();
        assert_eq!(outbuf.buf, [1, 2, 3, 1, 2, 3, 1, 2]);
    }

    // note: we already tested the "hard" case of len > disp
}

#[test]
fn test_vec_out_lits() {
    let out = Vec::new();
    let mut outbuf: VecOutput = out.into();
    outbuf.put_lits(&[1]).unwrap();
    assert_eq!(outbuf.vec, [1]);
    outbuf.put_lits(&[2, 3, 4]).unwrap();
    assert_eq!(outbuf.vec, [1, 2, 3, 4]);
}

#[test]
fn test_vec_out_backref() {
    let out = Vec::new();
    let mut outbuf: VecOutput = out.into();
    outbuf.put_lits(&[1, 2, 3]).unwrap();
    outbuf.put_backref(1, 6).unwrap();
    assert_eq!(outbuf.vec, [1, 2, 3, 2, 3, 2, 3, 2, 3]);
}

#[test]
fn test_lv1_manual_lits() {
    let mut out = [0u8; 5];
    let len = decompress_to_buf(&[0x01, b'A', b'B', 0x02, b'C', b'D', b'E'], &mut out).unwrap();
    assert_eq!(len, 5);
    assert_eq!(out, [b'A', b'B', b'C', b'D', b'E']);
}

#[test]
fn test_lv1_manual_short_match() {
    let mut out = [0u8; 5];
    let len = decompress_to_buf(&[0x01, b'A', b'B', 0x20, 0x01], &mut out).unwrap();
    assert_eq!(len, 5);
    assert_eq!(out, [b'A', b'B', b'A', b'B', b'A']);
}

#[test]
fn test_lv1_manual_long_match() {
    let mut out = [0u8; 11];
    let len = decompress_to_buf(&[0x01, b'A', b'B', 0xe0, 0x00, 0x01], &mut out).unwrap();
    assert_eq!(len, 11);
    assert_eq!(
        out,
        [b'A', b'B', b'A', b'B', b'A', b'B', b'A', b'B', b'A', b'B', b'A']
    );
}

#[test]
fn test_lv2_manual_short_match() {
    let mut out = [0u8; 5];
    let len = decompress_to_buf(&[0x21, b'A', b'B', 0x20, 0x01], &mut out).unwrap();
    assert_eq!(len, 5);
    assert_eq!(out, [b'A', b'B', b'A', b'B', b'A']);
}

#[test]
fn test_lv2_manual_long_match() {
    let mut out = [0u8; 11];
    let len = decompress_to_buf(&[0x21, b'A', b'B', 0xe0, 0x00, 0x01], &mut out).unwrap();
    assert_eq!(len, 11);
    assert_eq!(
        out,
        [b'A', b'B', b'A', b'B', b'A', b'B', b'A', b'B', b'A', b'B', b'A']
    );
}

#[test]
fn test_lv2_manual_verylong_match() {
    let mut out = [0u8; 266];
    let len = decompress_to_buf(&[0x21, b'A', b'B', 0xe0, 0xff, 0x00, 0x01], &mut out).unwrap();
    assert_eq!(len, 266);
    for i in 0..(266 / 2) {
        assert_eq!(out[i * 2], b'A');
        assert_eq!(out[i * 2 + 1], b'B');
    }
}

#[test]
fn test_lv2_manual_verylong_disp() {
    let mut out = [0u8; 0x2004];
    let len = decompress_to_buf(
        &[
            0x21, b'A', 0x00, 0xE0, 0xFF, 0xFF, 0xFF, 0xFF, 0xFF, 0xFF, 0xFF, 0xFF, 0xFF, 0xFF,
            0xFF, 0xFF, 0xFF, 0xFF, 0xFF, 0xFF, 0xFF, 0xFF, 0xFF, 0xFF, 0xFF, 0xFF, 0xFF, 0xFF,
            0xFF, 0xFF, 0xFF, 0xFF, 0xFF, 0xFF, 0xFF, 0xFF, 0x15, 0x00, 0x3F, 0xFF, 0x00, 0x00,
            0x00, b'Z',
        ],
        &mut out,
    )
    .unwrap();
    assert_eq!(len, 0x2004);
    for i in 0..0x2004 {
        if i == 0 {
            assert_eq!(out[i], b'A');
        } else if i == 0x2000 {
            assert_eq!(out[i], b'A');
        } else if i == 0x2003 {
            assert_eq!(out[i], b'Z');
        } else {
            assert_eq!(out[i], 0);
        }
    }
}
