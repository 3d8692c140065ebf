use fastlz_rs::compress::{fastlz_hash, L1Output, L2Output};
use fastlz_rs::util::{BufOutput, OutputSink};
use fastlz_rs::{CompressState, CompressionLevel};

#[test]
fn test_lv1_encoding_lit() {
    {
        let mut out = [0u8; 3];
        let mut outbuf: L1Output<BufOutput> = L1Output(BufOutput::new(&mut out[..]));
        outbuf.put_lits(&[1, 2]).unwrap();
        assert_eq!(outbuf.0.buf, [0x01, 1, 2]);
    }

    {
        let mut out = [0u8; 2];
        let mut outbuf: L1Output<BufOutput> = L1Output(BufOutput::new(&mut out[..]));
        outbuf.put_lits(&[1, 2]).expect_err("");
        assert_eq!(outbuf.0.buf, [0x01, 1]);
    }

    {
        let mut out = [0u8; 0];
        let mut outbuf: L1Output<BufOutput> = L1Output(BufOutput::new(&mut out[..]));
        outbuf.put_lits(&[0]).expect_err("");
    }
}

#[test]
fn test_lv1_encoding_short() {
    {
        let mut out = [0u8; 2];
        let mut outbuf: L1Output<BufOutput> = L1Output(BufOutput::new(&mut out[..]));
        outbuf.put_backref(1, 5).unwrap();
        assert_eq!(outbuf.0.buf, [0x60, 0x01]);
    }

    {
        let mut out = [0u8; 1];
        let mut outbuf: L1Output<BufOutput> = L1Output(BufOutput::new(&mut out[..]));
        outbuf.put_backref(1, 5).expect_err("");
        assert_eq!(outbuf.0.buf, [0x60]);
    }
}

#[test]
fn test_lv1_encoding_long() {
    {
        let mut out = [0u8; 3];
        let mut outbuf: L1Output<BufOutput> = L1Output(BufOutput::new(&mut out[..]));
        outbuf.put_backref(1, 9).unwrap();
        assert_eq!(outbuf.0.buf, [0xe0, 0x00, 0x01]);
    }

    {
        let mut out = [0u8; 3];
        let mut outbuf: L1Output<BufOutput> = L1Output(BufOutput::new(&mut out[..]));
        outbuf.put_backref(1, 264).unwrap();
        assert_eq!(outbuf.0.buf, [0xe0, 0xff, 0x01]);
    }

    {
        let mut out = [0u8; 1];
        let mut outbuf: L1Output<BufOutput> = L1Output(BufOutput::new(&mut out[..]));
        outbuf.put_backref(1, 9).expect_err("");
        assert_eq!(outbuf.0.buf, [0xe0]);
    }
}

#[test]
fn test_lv1_encoding_verylong() {
    {
        // exactly overflows len 3 into next
        let mut out = [0u8; 5];
        let mut outbuf: L1Output<BufOutput> = L1Output(BufOutput::new(&mut out[..]));
        outbuf.put_backref(1, 265).unwrap();
        assert_eq!(outbuf.0.buf, [0xe0, 0xfd, 0x01, 0x20, 0x01]);
    }

    {
        // exactly overflows len 264 (max) into next
        let mut out = [0u8; 6];
        let mut outbuf: L1Output<BufOutput> = L1Output(BufOutput::new(&mut out[..]));
        outbuf.put_backref(1, 526).unwrap();
        assert_eq!(outbuf.0.buf, [0xe0, 0xfd, 0x01, 0xe0, 0xff, 0x01]);
    }

    {
        // overflows twice
        let mut out = [0u8; 8];
        let mut outbuf: L1Output<BufOutput> = L1Output(BufOutput::new(&mut out[..]));
        outbuf.put_backref(1, 527).unwrap();
        assert_eq!(
            outbuf.0.buf,
            [0xe0, 0xfd, 0x01, 0xe0, 0xfd, 0x01, 0x20, 0x01]
        );
    }
}

#[test]
fn test_lv2_encoding_lit() {
    {
        let mut out = [0u8; 3];
        let mut outbuf: L2Output<BufOutput> = L2Output(BufOutput::new(&mut out[..]));
        outbuf.put_lits(&[1, 2]).unwrap();
        assert_eq!(outbuf.0.buf, [0x01, 1, 2]);
    }

    {
        let mut out = [0u8; 2];
        let mut outbuf: L2Output<BufOutput> = L2Output(BufOutput::new(&mut out[..]));
        outbuf.put_lits(&[1, 2]).expect_err("");
        assert_eq!(outbuf.0.buf, [0x01, 1]);
    }

    {
        let mut out = [0u8; 0];
        let mut outbuf: L2Output<BufOutput> = L2Output(BufOutput::new(&mut out[..]));
        outbuf.put_lits(&[0]).expect_err("");
    }
}

#[test]
fn test_lv2_encoding_short() {
    {
        let mut out = [0u8; 2];
        let mut outbuf: L2Output<BufOutput> = L2Output(BufOutput::new(&mut out[..]));
        outbuf.put_backref(1, 5).unwrap();
        assert_eq!(outbuf.0.buf, [0x60, 0x01]);
    }

    {
        let mut out = [0u8; 1];
        let mut outbuf: L2Output<BufOutput> = L2Output(BufOutput::new(&mut out[..]));
        outbuf.put_backref(1, 5).expect_err("");
        assert_eq!(outbuf.0.buf, [0x60]);
    }
}

#[test]
fn test_lv2_encoding_longlen() {
    {
        let mut out = [0u8; 3];
        let mut outbuf: L2Output<BufOutput> = L2Output(BufOutput::new(&mut out[..]));
        outbuf.put_backref(1, 9).unwrap();
        assert_eq!(outbuf.0.buf, [0xe0, 0x00, 0x01]);
    }

    {
        let mut out = [0u8; 4];
        let mut outbuf: L2Output<BufOutput> = L2Output(BufOutput::new(&mut out[..]));
        outbuf.put_backref(2, 9 + 0xff + 1).unwrap();
        assert_eq!(outbuf.0.buf, [0xe0, 0xff, 0x01, 0x02]);
    }
}

#[test]
fn test_lv2_encoding_longdisp() {
    {
        let mut out = [0u8; 4];
        let mut outbuf: L2Output<BufOutput> = L2Output(BufOutput::new(&mut out[..]));
        outbuf.put_backref(8191, 3).unwrap();
        assert_eq!(outbuf.0.buf, [0x3f, 0xff, 0x00, 0x00]);
    }

    {
        let mut out = [0u8; 4];
        let mut outbuf: L2Output<BufOutput> = L2Output(BufOutput::new(&mut out[..]));
        outbuf.put_backref(8192, 3).unwrap();
        assert_eq!(outbuf.0.buf, [0x3f, 0xff, 0x00, 0x01]);
    }
}

#[test]
fn test_lv2_encoding_longboth() {
    {
        let mut out = [0u8; 6];
        let mut outbuf: L2Output<BufOutput> = L2Output(BufOutput::new(&mut out[..]));
        outbuf.put_backref(8192, 9 + 0xff + 1).unwrap();
        assert_eq!(outbuf.0.buf, [0xff, 0xff, 0x01, 0xff, 0x00, 0x01]);
    }
}

#[test]
fn test_ref_hashes() {
    assert_eq!(fastlz_hash(1), 5062);
    assert_eq!(fastlz_hash(2), 1933);
    assert_eq!(fastlz_hash(3), 6996);
    assert_eq!(fastlz_hash(4), 3867);
    assert_eq!(fastlz_hash(0xaa), 538);
    assert_eq!(fastlz_hash(0xbb), 4688);
    assert_eq!(fastlz_hash(0xff), 4904);
}

#[test]
fn test_short_and_uncompressible() {
    {
        let mut state = CompressState::new();
        let mut out = [0u8; 3];
        let len = state
            .compress_to_buf(&[1, 2], &mut out, CompressionLevel::Level1)
            .unwrap();
        assert_eq!(len, out.len());
        assert_eq!(out, [0x01, 1, 2]);
    }

    {
        let mut state = CompressState::new();
        let mut out = [0u8; 6];
        let len = state
            .compress_to_buf(&[1, 2, 3, 4, 5], &mut out, CompressionLevel::Level1)
            .unwrap();
        assert_eq!(len, out.len());
        assert_eq!(out, [0x04, 1, 2, 3, 4, 5]);
    }
}

#[test]
fn test_simple_backref() {
    {
        let mut state = CompressState::new();
        let mut out = [0u8; 4];
        let len = state
            .compress_to_buf(&[1, 1, 1, 1, 1], &mut out, CompressionLevel::Level1)
            .unwrap();
        assert_eq!(len, out.len());
        assert_eq!(out, [0x00, 1, 0x40, 0x00]);
    }
    {
        // test trailing nonmatch
        let mut state = CompressState::new();
        let mut out = [0u8; 6];
        let len = state
            .compress_to_buf(&[1, 1, 1, 1, 1, 2], &mut out, CompressionLevel::Level1)
            .unwrap();
        assert_eq!(len, out.len());
        assert_eq!(out, [0x00, 1, 0x40, 0x00, 0x00, 2]);
    }
    {
        // test longer match, ending at end
        let mut state = CompressState::new();
        let mut out = [0u8; 6];
        let len = state
            .compress_to_buf(
                &[1, 2, 3, 1, 2, 3, 1, 2, 3],
                &mut out,
                CompressionLevel::Level1,
            )
            .unwrap();
        assert_eq!(len, out.len());
        assert_eq!(out, [0x02, 1, 2, 3, 0x80, 0x02]);
    }
    {
        // test longer match, not ending at end
        let mut state = CompressState::new();
        let mut out = [0u8; 8];
        let len = state
            .compress_to_buf(
                &[1, 2, 3, 1, 2, 3, 1, 2, 3, 4],
                &mut out,
                CompressionLevel::Level1,
            )
            .unwrap();
        assert_eq!(len, out.len());
        assert_eq!(out, [0x02, 1, 2, 3, 0x80, 0x02, 0x00, 4]);
    }
}

#[test]
fn test_rehash_at_boundary() {
    {
        let mut state = CompressState::new();
        let mut out = [0u8; 8];
        let len = state
            .compress_to_buf(
                &[1, 2, 3, 1, 2, 3, 1, 2, 3, 2, 3, 2, 3],
                &mut out,
                CompressionLevel::Level1,
            )
            .unwrap();
        assert_eq!(len, out.len());
        assert_eq!(out, [0x02, 1, 2, 3, 0x80, 0x02, 0x40, 0x01]);
    }
    {
        let mut state = CompressState::new();
        let mut out = [0u8; 8];
        let len = state
            .compress_to_buf(
                &[1, 2, 3, 1, 2, 3, 1, 2, 3, 3, 3, 3, 3],
                &mut out,
                CompressionLevel::Level1,
            )
            .unwrap();
        assert_eq!(len, out.len());
        assert_eq!(out, [0x02, 1, 2, 3, 0x80, 0x02, 0x40, 0x00]);
    }
}
