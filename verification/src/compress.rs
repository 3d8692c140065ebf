//! Compression: the two opcode writers and the hash-indexed match finder.

use crate::util::{OutputHelper, OutputSink, Sink, SinkState};
use crate::util::{lemma_emit_emit, lemma_emit_empty, lemma_emit_overflow, mark};
use vstd::prelude::*;
use vstd::slice::slice_subrange;

verus! {

/// Compression errors
#[derive(Debug, PartialEq, Eq, Structural)]
#[non_exhaustive]
pub enum CompressError {
    /// The output buffer was too small to hold all the output.
    ///
    /// The output that has been written *is* valid, but has been truncated.
    OutputTooSmall,
}

impl CompressError {
    /// A short description of the error.
    pub fn message(&self) -> (r: &'static str)
        ensures
            r@ == "output buffer was insufficient"@,
    {
        "output buffer was insufficient"
    }
}

/// What a write of `n` bytes reports on a sink with content `s`.
pub open spec fn outcome(s: SinkState, n: int) -> Result<(), CompressError> {
    if s.fits(n) {
        Ok(())
    } else {
        Err(CompressError::OutputTooSmall)
    }
}

/// The content after the stream `e` was offered to a sink with content `s`, and
/// the result that the writer reports.
pub open spec fn offered(s: SinkState, e: Seq<u8>) -> (SinkState, Result<(), CompressError>) {
    (s.emit(e), outcome(s, e.len() as int))
}

/// The encoding of a literal run: full runs of 32 bytes, each behind the opcode
/// 31, and then the rest behind the opcode that holds its length minus one.
/// Nothing is encoded for no literals.
pub open spec fn lit_run(lits: Seq<u8>) -> Seq<u8>
    decreases lits.len(),
{
    if lits.len() == 0 {
        Seq::empty()
    } else if lits.len() <= 32 {
        seq![(lits.len() - 1) as u8] + lits
    } else {
        seq![31u8] + lits.take(32) + lit_run(lits.skip(32))
    }
}

/// The level-1 encoding of a backreference. A length over 264 is split into
/// matches of 262 bytes at the same displacement, so that the last one has at
/// least 3 bytes; a length up to 8 takes two bytes, a longer one three.
pub open spec fn l1_backref(disp: int, len: int) -> Seq<u8>
    decreases len,
{
    if len > 264 {
        seq![(224 + disp / 256) as u8, 253u8, (disp % 256) as u8] + l1_backref(disp, len - 262)
    } else if len <= 8 {
        seq![((len - 2) * 32 + disp / 256) as u8, (disp % 256) as u8]
    } else {
        seq![(224 + disp / 256) as u8, (len - 9) as u8, (disp % 256) as u8]
    }
}

/// The length-extension bytes of a level-2 long match for the value `n`: bytes
/// of 255 and then one byte below 255, which sum up to `n`.
pub open spec fn len_ext(n: int) -> Seq<u8>
    decreases n,
{
    if n < 255 {
        seq![n as u8]
    } else {
        seq![255u8] + len_ext(n - 255)
    }
}

/// The level-2 encoding of a backreference: the opcode with the length less 2,
/// up to 7, and the high bits of the displacement, up to 8191; the length
/// extension where the opcode holds 7; the low displacement byte; and, where
/// the displacement is 8191 or more, what exceeds 8191 as two bytes, high first.
pub open spec fn l2_backref(disp: int, len: int) -> Seq<u8> {
    let early_disp = if disp < 8191 {
        disp
    } else {
        8191
    };
    let early_len = if len - 2 < 7 {
        len - 2
    } else {
        7
    };
    seq![(early_len * 32 + early_disp / 256) as u8] + (if early_len == 7 {
        len_ext(len - 9)
    } else {
        Seq::empty()
    }) + seq![(early_disp % 256) as u8] + (if early_disp == 8191 {
        seq![((disp - 8191) / 256) as u8, ((disp - 8191) % 256) as u8]
    } else {
        Seq::empty()
    })
}

/// The encoding of a backreference at either level.
pub open spec fn backref(level2: bool, disp: int, len: int) -> Seq<u8> {
    if level2 {
        l2_backref(disp, len)
    } else {
        l1_backref(disp, len)
    }
}

/// The largest displacement that a level can encode.
pub open spec fn max_disp_of(level2: bool) -> int {
    if level2 {
        73726
    } else {
        8191
    }
}

/// One more piece of a stream is offered to a sink that took all of the stream
/// so far: the sink then holds what it would hold had it been offered both at
/// once, and if the piece did not fit, what it would hold had it been offered
/// the whole stream.
pub proof fn lemma_step(s0: SinkState, done: Seq<u8>, piece: Seq<u8>, rest: Seq<u8>, total: Seq<u8>)
    requires
        s0.fits(done.len() as int),
        total =~= done + piece + rest,
    ensures
        s0.emit(done).emit(piece) == s0.emit(done + piece),
        s0.emit(done).fits(piece.len() as int) <==> s0.fits((done + piece).len() as int),
        !s0.emit(done).fits(piece.len() as int) ==> offered(s0, total) == (
            s0.emit(done + piece),
            Err::<(), CompressError>(CompressError::OutputTooSmall),
        ),
        rest.len() == 0 ==> offered(s0, total) == (
            s0.emit(done + piece),
            outcome(s0.emit(done), piece.len() as int),
        ),
{
    lemma_emit_emit(s0, done, piece);
    if !s0.emit(done).fits(piece.len() as int) {
        assert((done + piece).is_prefix_of(total));
        lemma_emit_overflow(s0, done + piece, total);
    }
    if rest.len() == 0 {
        assert(total =~= done + piece);
    }
}

/// How the opcode bytes of a backreference are packed: the length field in
/// the top three bits, the high bits of the displacement below them, and the
/// low byte of the displacement on its own.
pub proof fn lemma_opcode_bits(l: u32, d: u32)
    by (bit_vector)
    requires
        l <= 7,
        d <= 8191,
    ensures
        ((l << 5) | (d >> 8)) as u8 == l * 32 + d / 256,
        0xe0u8 | ((d >> 8) as u8) == 224 + d / 256,
        d as u8 == d % 256,
{
}

/// The two bytes of a 16-bit value, high and low.
pub proof fn lemma_halves(m: u32)
    by (bit_vector)
    requires
        m <= 65535,
    ensures
        (m >> 8) as u8 == m / 256,
        m as u8 == m % 256,
{
}

/// What a write reports that fitted or did not.
fn fitted(fit: bool) -> (r: Result<(), CompressError>)
    ensures
        r == (if fit {
            Ok::<(), CompressError>(())
        } else {
            Err::<(), CompressError>(CompressError::OutputTooSmall)
        }),
{
    if fit {
        Ok(())
    } else {
        Err(CompressError::OutputTooSmall)
    }
}

/// Write the encoding of a literal run, which is the same at both levels.
pub fn put_lit_run<S: OutputHelper + ?Sized>(mem: &mut S, pos: &mut usize, lits: &[u8]) -> (r:
    Result<(), CompressError>)
    requires
        old(mem).wf_at(*old(pos)),
        lits@.len() >= 1,
    ensures
        final(mem).wf_at(*final(pos)),
        (final(mem).state_at(*final(pos)), r) == offered(
            old(mem).state_at(*old(pos)),
            lit_run(lits@),
        ),
{
    let ghost s0 = mem.state_at(*pos);
    let ghost total = lit_run(lits@);
    let ghost mut done = Seq::<u8>::empty();
    let mut at: usize = 0;
    proof {
        lemma_emit_empty(s0);
        assert(lits@.skip(0) =~= lits@);
        assert(done + total =~= total);
    }
    while lits.len() - at > 32
        invariant
            at <= lits@.len(),
            lits@.len() - at >= 1,
            mem.wf_at(*pos),
            mem.state_at(*pos) == s0.emit(done),
            s0.fits(done.len() as int),
            done + lit_run(lits@.skip(at as int)) == total,
            s0 == old(mem).state_at(*old(pos)),
            total == lit_run(lits@),
        decreases lits@.len() - at,
    {
        let ghost here = lits@.skip(at as int);
        let ghost later = lit_run(here.skip(32));
        let chunk = slice_subrange(lits, at, at + 32);
        proof {
            assert(chunk@ =~= here.take(32));
            assert(total =~= done + seq![31u8] + (chunk@ + later));
        }
        let fit = mem.putc(pos, 31);
        proof {
            lemma_step(s0, done, seq![31u8], chunk@ + later, total);
            done = done + seq![31u8];
        }
        if !fit {
            return Err(CompressError::OutputTooSmall);
        }
        let fit = mem.put_buf(pos, chunk);
        proof {
            assert(total =~= done + chunk@ + later);
            lemma_step(s0, done, chunk@, later, total);
            done = done + chunk@;
        }
        if !fit {
            return Err(CompressError::OutputTooSmall);
        }
        at += 32;
        proof {
            assert(lits@.skip(at as int) =~= here.skip(32));
        }
    }
    let ghost here = lits@.skip(at as int);
    let tail = slice_subrange(lits, at, lits.len());
    // 1 byte opcode, len bytes literals
    let op: u8 = (lits.len() - at - 1) as u8;
    proof {
        assert(tail@ =~= here);
        assert(total =~= done + seq![op] + tail@);
    }
    let fit = mem.putc(pos, op);
    proof {
        lemma_step(s0, done, seq![op], tail@, total);
        done = done + seq![op];
    }
    if !fit {
        return Err(CompressError::OutputTooSmall);
    }
    let fit = mem.put_buf(pos, tail);
    proof {
        assert(total =~= done + tail@ + Seq::<u8>::empty());
        lemma_step(s0, done, tail@, Seq::<u8>::empty(), total);
    }
    fitted(fit)
}

/// Write the level-1 encoding of a backreference.
pub fn put_backref_lv1<S: OutputHelper + ?Sized>(
    mem: &mut S,
    pos: &mut usize,
    disp: usize,
    len: usize,
) -> (r: Result<(), CompressError>)
    requires
        old(mem).wf_at(*old(pos)),
        disp <= 8191,
        len >= 3,
    ensures
        final(mem).wf_at(*final(pos)),
        (final(mem).state_at(*final(pos)), r) == offered(
            old(mem).state_at(*old(pos)),
            l1_backref(disp as int, len as int),
        ),
{
    let ghost s0 = mem.state_at(*pos);
    let ghost total = l1_backref(disp as int, len as int);
    let ghost mut done = Seq::<u8>::empty();
    let d: u32 = disp as u32;
    let hi: u8 = 0b111_00000 | ((d >> 8) as u8);
    let lo: u8 = d as u8;
    let mut left: usize = len;
    proof {
        lemma_opcode_bits(7, d);
        lemma_emit_empty(s0);
        assert(done + total =~= total);
    }
    // the length is too long for a single backref, so it is broken up
    // into several with the same displacement, the last one of 3 or more
    while left > 0xff + 9
        invariant
            left >= 3,
            disp <= 8191,
            hi == 224 + disp / 256,
            lo == disp % 256,
            mem.wf_at(*pos),
            mem.state_at(*pos) == s0.emit(done),
            s0.fits(done.len() as int),
            done + l1_backref(disp as int, left as int) == total,
            s0 == old(mem).state_at(*old(pos)),
            total == l1_backref(disp as int, len as int),
        decreases left,
    {
        let ghost later = l1_backref(disp as int, left - 262);
        proof {
            assert(total =~= done + seq![hi] + (seq![253u8, lo] + later));
        }
        let fit = mem.putc(pos, hi);
        proof {
            lemma_step(s0, done, seq![hi], seq![253u8, lo] + later, total);
            done = done + seq![hi];
            assert(total =~= done + seq![253u8] + (seq![lo] + later));
        }
        if !fit {
            return Err(CompressError::OutputTooSmall);
        }
        let fit = mem.putc(pos, 0xff - 2);
        proof {
            lemma_step(s0, done, seq![253u8], seq![lo] + later, total);
            done = done + seq![253u8];
            assert(total =~= done + seq![lo] + later);
        }
        if !fit {
            return Err(CompressError::OutputTooSmall);
        }
        let fit = mem.putc(pos, lo);
        proof {
            lemma_step(s0, done, seq![lo], later, total);
            done = done + seq![lo];
        }
        if !fit {
            return Err(CompressError::OutputTooSmall);
        }
        left -= 0xff - 2 + 9;
    }
    if left <= 8 {
        // 2 bytes opcode
        let b0: u8 = ((((left - 2) as u32) << 5) | (d >> 8)) as u8;
        proof {
            lemma_opcode_bits((left - 2) as u32, d);
            assert(total =~= done + seq![b0] + seq![lo]);
        }
        let fit = mem.putc(pos, b0);
        proof {
            lemma_step(s0, done, seq![b0], seq![lo], total);
            done = done + seq![b0];
            assert(total =~= done + seq![lo] + Seq::<u8>::empty());
        }
        if !fit {
            return Err(CompressError::OutputTooSmall);
        }
        let fit = mem.putc(pos, lo);
        proof {
            lemma_step(s0, done, seq![lo], Seq::<u8>::empty(), total);
        }
        fitted(fit)
    } else {
        // 3 bytes opcode
        let b1: u8 = (left - 9) as u8;
        proof {
            assert(total =~= done + seq![hi] + seq![b1, lo]);
        }
        let fit = mem.putc(pos, hi);
        proof {
            lemma_step(s0, done, seq![hi], seq![b1, lo], total);
            done = done + seq![hi];
            assert(total =~= done + seq![b1] + seq![lo]);
        }
        if !fit {
            return Err(CompressError::OutputTooSmall);
        }
        let fit = mem.putc(pos, b1);
        proof {
            lemma_step(s0, done, seq![b1], seq![lo], total);
            done = done + seq![b1];
            assert(total =~= done + seq![lo] + Seq::<u8>::empty());
        }
        if !fit {
            return Err(CompressError::OutputTooSmall);
        }
        let fit = mem.putc(pos, lo);
        proof {
            lemma_step(s0, done, seq![lo], Seq::<u8>::empty(), total);
        }
        fitted(fit)
    }
}

/// Write the level-2 encoding of a backreference.
pub fn put_backref_lv2<S: OutputHelper + ?Sized>(
    mem: &mut S,
    pos: &mut usize,
    disp: usize,
    len: usize,
) -> (r: Result<(), CompressError>)
    requires
        old(mem).wf_at(*old(pos)),
        disp <= 8191 + 65535,
        len >= 3,
    ensures
        final(mem).wf_at(*final(pos)),
        (final(mem).state_at(*final(pos)), r) == offered(
            old(mem).state_at(*old(pos)),
            l2_backref(disp as int, len as int),
        ),
{
    let ghost s0 = mem.state_at(*pos);
    let ghost total = l2_backref(disp as int, len as int);
    let ghost mut done = Seq::<u8>::empty();
    let earlydisp: usize = if disp < 8191 {
        disp
    } else {
        8191
    };
    let adjlen: usize = len - 2;
    let earlylen: usize = if adjlen < 7 {
        adjlen
    } else {
        7
    };
    let d: u32 = earlydisp as u32;
    let b0: u8 = (((earlylen as u32) << 5) | (d >> 8)) as u8;
    let lo: u8 = d as u8;
    let ghost ext = if earlylen == 7 {
        len_ext(len - 9)
    } else {
        Seq::<u8>::empty()
    };
    let ghost far = if earlydisp == 8191 {
        seq![((disp - 8191) / 256) as u8, ((disp - 8191) % 256) as u8]
    } else {
        Seq::<u8>::empty()
    };
    proof {
        lemma_opcode_bits(earlylen as u32, d);
        lemma_emit_empty(s0);
        assert(total =~= done + seq![b0] + (ext + seq![lo] + far));
    }
    let fit = mem.putc(pos, b0);
    proof {
        lemma_step(s0, done, seq![b0], ext + seq![lo] + far, total);
        done = done + seq![b0];
    }
    if !fit {
        return Err(CompressError::OutputTooSmall);
    }
    if earlylen == 7 {
        let mut left: usize = adjlen - 7;
        while left >= 0xff
            invariant
                mem.wf_at(*pos),
                mem.state_at(*pos) == s0.emit(done),
                s0.fits(done.len() as int),
                total =~= done + len_ext(left as int) + (seq![lo] + far),
                s0 == old(mem).state_at(*old(pos)),
                total == l2_backref(disp as int, len as int),
            decreases left,
        {
            let ghost later = len_ext(left - 255);
            proof {
                assert(total =~= done + seq![255u8] + (later + (seq![lo] + far)));
            }
            let fit = mem.putc(pos, 0xff);
            proof {
                lemma_step(s0, done, seq![255u8], later + (seq![lo] + far), total);
                done = done + seq![255u8];
                assert(total =~= done + later + (seq![lo] + far));
            }
            if !fit {
                return Err(CompressError::OutputTooSmall);
            }
            left -= 0xff;
        }
        let last: u8 = left as u8;
        proof {
            assert(total =~= done + seq![last] + (seq![lo] + far));
        }
        let fit = mem.putc(pos, last);
        proof {
            lemma_step(s0, done, seq![last], seq![lo] + far, total);
            done = done + seq![last];
        }
        if !fit {
            return Err(CompressError::OutputTooSmall);
        }
    }
    proof {
        assert(total =~= done + seq![lo] + far);
    }
    let fit = mem.putc(pos, lo);
    proof {
        lemma_step(s0, done, seq![lo], far, total);
        done = done + seq![lo];
    }
    if earlydisp != 8191 || !fit {
        return fitted(fit);
    }
    let moredisp: u32 = (disp - earlydisp) as u32;
    let m1: u8 = (moredisp >> 8) as u8;
    let m0: u8 = moredisp as u8;
    proof {
        lemma_halves(moredisp);
        assert(total =~= done + seq![m1] + seq![m0]);
    }
    let fit = mem.putc(pos, m1);
    proof {
        lemma_step(s0, done, seq![m1], seq![m0], total);
        done = done + seq![m1];
        assert(total =~= done + seq![m0] + Seq::<u8>::empty());
    }
    if !fit {
        return Err(CompressError::OutputTooSmall);
    }
    let fit = mem.putc(pos, m0);
    proof {
        lemma_step(s0, done, seq![m0], Seq::<u8>::empty(), total);
    }
    fitted(fit)
}

/// A sink of the compressor that writes level-1 opcodes.
pub struct L1Output<O>(pub O);

/// A sink of the compressor that writes level-2 opcodes.
pub struct L2Output<O>(pub O);

impl<O: OutputHelper> Sink for L1Output<O> {
    open spec fn wf(&self) -> bool {
        O::own_cursor() && self.0.wf_at(0)
    }

    open spec fn state(&self) -> SinkState {
        self.0.state_at(0)
    }
}

impl<O: OutputHelper> Sink for L2Output<O> {
    open spec fn wf(&self) -> bool {
        O::own_cursor() && self.0.wf_at(0)
    }

    open spec fn state(&self) -> SinkState {
        self.0.state_at(0)
    }
}

impl<O: OutputHelper> OutputSink<CompressError> for L1Output<O> {
    open spec fn accepts_lits(lits: Seq<u8>) -> bool {
        lits.len() >= 1
    }

    open spec fn accepts_backref(disp: usize, len: usize) -> bool {
        disp <= 8191 && len >= 3
    }

    open spec fn lits_result(s: SinkState, lits: Seq<u8>) -> (
        SinkState,
        Result<(), CompressError>,
    ) {
        offered(s, lit_run(lits))
    }

    open spec fn backref_result(s: SinkState, disp: usize, len: usize) -> (
        SinkState,
        Result<(), CompressError>,
    ) {
        offered(s, l1_backref(disp as int, len as int))
    }

    fn put_lits(&mut self, lits: &[u8]) -> (r: Result<(), CompressError>) {
        let mut pos: usize = 0;
        let r = put_lit_run(&mut self.0, &mut pos, lits);
        proof {
            self.0.lemma_own_cursor(pos, 0);
        }
        r
    }

    fn put_backref(&mut self, disp: usize, len: usize) -> (r: Result<(), CompressError>) {
        let mut pos: usize = 0;
        let r = put_backref_lv1(&mut self.0, &mut pos, disp, len);
        proof {
            self.0.lemma_own_cursor(pos, 0);
        }
        r
    }
}

impl<O: OutputHelper> OutputSink<CompressError> for L2Output<O> {
    open spec fn accepts_lits(lits: Seq<u8>) -> bool {
        lits.len() >= 1
    }

    open spec fn accepts_backref(disp: usize, len: usize) -> bool {
        disp <= 8191 + 65535 && len >= 3
    }

    open spec fn lits_result(s: SinkState, lits: Seq<u8>) -> (
        SinkState,
        Result<(), CompressError>,
    ) {
        offered(s, lit_run(lits))
    }

    open spec fn backref_result(s: SinkState, disp: usize, len: usize) -> (
        SinkState,
        Result<(), CompressError>,
    ) {
        offered(s, l2_backref(disp as int, len as int))
    }

    fn put_lits(&mut self, lits: &[u8]) -> (r: Result<(), CompressError>) {
        let mut pos: usize = 0;
        let r = put_lit_run(&mut self.0, &mut pos, lits);
        proof {
            self.0.lemma_own_cursor(pos, 0);
        }
        r
    }

    fn put_backref(&mut self, disp: usize, len: usize) -> (r: Result<(), CompressError>) {
        let mut pos: usize = 0;
        let r = put_backref_lv2(&mut self.0, &mut pos, disp, len);
        proof {
            self.0.lemma_own_cursor(pos, 0);
        }
        r
    }
}

/// Compression level
#[derive(Debug, Clone, Copy, PartialEq, Eq, Structural)]
pub enum CompressionLevel {
    /// Default compression (i.e. level 1 if the input is less than 64 KiB, level 2 otherwise)
    Default,
    /// Level 1
    Level1,
    /// Level 2
    Level2,
}

impl Default for CompressionLevel {
    fn default() -> (r: Self)
        ensures
            r == CompressionLevel::Default,
    {
        Self::Default
    }
}

/// Whether an input of `n` bytes is compressed at level 2 when `level` is asked for.
pub open spec fn uses_level2(level: CompressionLevel, n: int) -> bool {
    match level {
        CompressionLevel::Default => n >= 65536,
        CompressionLevel::Level1 => false,
        CompressionLevel::Level2 => true,
    }
}

/// The number of bits of a hash.
pub const HTAB_LOG2: u32 = 13;

/// The number of entries of the hash table.
pub const HTAB_SZ: usize = 8192;

/// The multiplicative hash of a 24-bit key: the top 13 bits of the low 32 bits
/// of the key times 2654435769.
#[verifier::opaque]
pub open spec fn hash_of(v: u32) -> int {
    ((v as int * 2654435769) % 0x1_0000_0000) / 0x8_0000
}

/// The hash of `v`, an index into the hash table.
pub fn fastlz_hash(v: u32) -> (h: usize)
    ensures
        h == hash_of(v),
        h < HTAB_SZ,
{
    let h: u32 = v.wrapping_mul(2654435769);
    let h: u32 = h >> (32 - HTAB_LOG2);
    proof {
        reveal(hash_of);
        let w: u32 = vstd::wrapping::u32_specs::wrapping_mul(v, 2654435769);
        assert(w >> 19 == w / 0x8_0000 && (w >> 19) < 8192) by (bit_vector);
    }
    h as usize
}

/// The four bytes of `s` from `at`, read as a little-endian number.
pub open spec fn le32(s: Seq<u8>, at: int) -> int {
    s[at] as int + s[at + 1] as int * 0x100 + s[at + 2] as int * 0x1_0000 + s[at + 3] as int
        * 0x100_0000
}

/// The three bytes of `s` from `at`, read as a little-endian number: the key
/// under which the position `at` is entered into the hash table.
pub open spec fn key_at(s: Seq<u8>, at: int) -> int {
    s[at] as int + s[at + 1] as int * 0x100 + s[at + 2] as int * 0x1_0000
}

/// The hash table entry that belongs to the position `at` of `s`.
pub open spec fn hash_at(s: Seq<u8>, at: int) -> int {
    hash_of(key_at(s, at) as u32)
}

/// The next four bytes of `inp` from `at` on as a little-endian number, where
/// there are four.
pub fn peek4(inp: &[u8], at: usize) -> (r: Option<u32>)
    ensures
        r is Some <==> at + 4 <= inp@.len(),
        r is Some ==> r->Some_0 == le32(inp@, at as int),
{
    if at > inp.len() || inp.len() - at < 4 {
        None
    } else {
        let b0: u32 = inp[at] as u32;
        let b1: u32 = inp[at + 1] as u32;
        let b2: u32 = inp[at + 2] as u32;
        let b3: u32 = inp[at + 3] as u32;
        Some(b0 + b1 * 0x100 + b2 * 0x1_0000 + b3 * 0x100_0000)
    }
}

/// The low three bytes of a four-byte little-endian number are the key of its
/// first position, the high three bytes that of the next.
pub proof fn lemma_keys(s: Seq<u8>, at: int, v: u32)
    requires
        0 <= at,
        at + 4 <= s.len(),
        v == le32(s, at),
    ensures
        v & 0xffffff == key_at(s, at),
        (v >> 8) & 0xffffff == key_at(s, at + 1),
{
    assert(v & 0xffffff == v % 0x100_0000 && (v >> 8) & 0xffffff == v / 0x100) by (bit_vector);
}

/// How many bytes of `s` from `a` on agree with those from `b` on, one by one,
/// before the first difference or the end of `s`; `a` lies before `b`.
pub open spec fn common(s: Seq<u8>, a: int, b: int) -> nat
    decreases s.len() - b,
{
    if 0 <= a < b < s.len() && s[a] == s[b] {
        1 + common(s, a + 1, b + 1)
    } else {
        0
    }
}

/// The literal run that ends a stream: everything from `anchor` on.
pub open spec fn tail(s: Seq<u8>, anchor: int) -> Seq<u8> {
    lit_run(s.subrange(anchor, s.len() as int))
}

/// Whether the hash table points from the position `i` to an earlier position
/// `r` within reach at which the same three bytes stand.
pub open spec fn candidate(level2: bool, s: Seq<u8>, r: int, i: int) -> bool {
    &&& 0 <= r < i
    &&& i - r - 1 <= max_disp_of(level2)
    &&& s[i] == s[r]
    &&& s[i + 1] == s[r + 1]
    &&& s[i + 2] == s[r + 2]
}

/// Whether a candidate at `r` for the position `i` is a far match: one at
/// level 2 with a displacement of 8191 or more.
pub open spec fn is_far(level2: bool, r: int, i: int) -> bool {
    level2 && i - r - 1 >= 8191
}

/// Whether a candidate at `r` for the position `i` is taken as a match: a far
/// match must agree in five bytes, not only in three.
pub open spec fn confirmed(level2: bool, s: Seq<u8>, r: int, i: int) -> bool {
    is_far(level2, r, i) ==> s[i + 3] == s[r + 3] && s[i + 4] == s[r + 4]
}

/// The length of the backreference for a match of the position `i` with `r`:
/// as far as the bytes agree, less one for a far match that reaches the end of
/// the input.
pub open spec fn match_len(level2: bool, s: Seq<u8>, r: int, i: int) -> int {
    let full = 3 + common(s, r + 3, i + 3) as int;
    if is_far(level2, r, i) && i + full == s.len() {
        full - 1
    } else {
        full
    }
}

/// What the match finder emits for `s` from the position `i` on, with the
/// literals from `anchor` on still to be written and with the hash table `htab`.
///
/// With fewer than four bytes left the rest goes out as literals. Otherwise
/// the position is entered into the table in place of the one found there. A
/// candidate found there is taken as a match, except at level 2 and from a
/// displacement of 8191 on, where it must agree in five bytes: with only four
/// bytes left the scan ends, and a shorter agreement is passed over. A match
/// is extended as far as the bytes agree; at level 2 a far match that reaches
/// the end of the input gives up its last byte. The pending literals and the
/// backreference go out, the last two positions of the match are entered into
/// the table where four bytes are left at the first of them, and the scan goes
/// on behind the match.
#[verifier::opaque]
pub open spec fn scan(level2: bool, s: Seq<u8>, htab: Seq<int>, i: int, anchor: int) -> Seq<u8>
    decreases s.len() - i,
{
    if i + 4 > s.len() {
        tail(s, anchor)
    } else {
        let h = hash_at(s, i);
        let r = htab[h];
        let seen = htab.update(h, i);
        if !candidate(level2, s, r, i) {
            scan(level2, s, seen, i + 1, anchor)
        } else if is_far(level2, r, i) && i + 5 > s.len() {
            tail(s, anchor)
        } else if !confirmed(level2, s, r, i) {
            scan(level2, s, seen, i + 1, anchor)
        } else {
            let len = match_len(level2, s, r, i);
            let head = lit_run(s.subrange(anchor, i)) + backref(level2, i - r - 1, len);
            let j = i + len - 2;
            if j + 4 > s.len() {
                head + tail(s, i + len)
            } else {
                head + scan(
                    level2,
                    s,
                    seen.update(hash_at(s, j), j).update(hash_at(s, j + 1), j + 1),
                    j + 2,
                    i + len,
                )
            }
        }
    }
}

/// The scan ends where fewer than four bytes are left, or where a far
/// candidate is found with only four bytes left.
pub proof fn lemma_scan_stop(level2: bool, s: Seq<u8>, htab: Seq<int>, i: int, anchor: int)
    requires
        i + 4 > s.len() || ({
            let r = htab[hash_at(s, i)];
            candidate(level2, s, r, i) && is_far(level2, r, i) && i + 5 > s.len()
        }),
    ensures
        scan(level2, s, htab, i, anchor) == tail(s, anchor),
{
    reveal_with_fuel(scan, 1);
}

/// The scan passes over a position at which no match is taken.
pub proof fn lemma_scan_pass(level2: bool, s: Seq<u8>, htab: Seq<int>, i: int, anchor: int)
    requires
        i + 4 <= s.len(),
        ({
            let r = htab[hash_at(s, i)];
            !candidate(level2, s, r, i) || (i + 5 <= s.len() && !confirmed(level2, s, r, i))
        }),
    ensures
        scan(level2, s, htab, i, anchor) == scan(
            level2,
            s,
            htab.update(hash_at(s, i), i),
            i + 1,
            anchor,
        ),
{
    reveal_with_fuel(scan, 1);
}

/// What the scan emits at a position at which a match is taken, where the scan
/// ends behind the match.
pub proof fn lemma_scan_match_end(level2: bool, s: Seq<u8>, htab: Seq<int>, i: int, anchor: int)
    requires
        i + 4 <= s.len(),
        ({
            let r = htab[hash_at(s, i)];
            &&& candidate(level2, s, r, i)
            &&& confirmed(level2, s, r, i)
            &&& is_far(level2, r, i) ==> i + 5 <= s.len()
            &&& i + match_len(level2, s, r, i) + 2 > s.len()
        }),
    ensures
        ({
            let r = htab[hash_at(s, i)];
            let len = match_len(level2, s, r, i);
            scan(level2, s, htab, i, anchor) == lit_run(s.subrange(anchor, i)) + backref(
                level2,
                i - r - 1,
                len,
            ) + tail(s, i + len)
        }),
{
    reveal_with_fuel(scan, 1);
}

/// What the scan emits at a position at which a match is taken, where the scan
/// goes on behind the match.
pub proof fn lemma_scan_match_on(level2: bool, s: Seq<u8>, htab: Seq<int>, i: int, anchor: int)
    requires
        i + 4 <= s.len(),
        ({
            let r = htab[hash_at(s, i)];
            &&& candidate(level2, s, r, i)
            &&& confirmed(level2, s, r, i)
            &&& is_far(level2, r, i) ==> i + 5 <= s.len()
            &&& i + match_len(level2, s, r, i) + 2 <= s.len()
        }),
    ensures
        ({
            let r = htab[hash_at(s, i)];
            let len = match_len(level2, s, r, i);
            let j = i + len - 2;
            scan(level2, s, htab, i, anchor) == lit_run(s.subrange(anchor, i)) + backref(
                level2,
                i - r - 1,
                len,
            ) + scan(
                level2,
                s,
                htab.update(hash_at(s, i), i).update(hash_at(s, j), j).update(
                    hash_at(s, j + 1),
                    j + 1,
                ),
                j + 2,
                i + len,
            )
        }),
{
    reveal_with_fuel(scan, 1);
}

/// Whether the input holds the same three bytes at `ref_pos` and at `i`.
pub fn same3(inp: &[u8], ref_pos: usize, i: usize) -> (r: bool)
    requires
        ref_pos < i,
        i + 3 <= inp@.len(),
    ensures
        r == (inp@[i as int] == inp@[ref_pos as int] && inp@[i + 1] == inp@[ref_pos + 1] && inp@[i
            + 2] == inp@[ref_pos + 2]),
{
    inp[i] == inp[ref_pos] && inp[i + 1] == inp[ref_pos + 1] && inp[i + 2] == inp[ref_pos + 2]
}

/// Whether the input that holds the same three bytes at `ref_pos` and at `i`
/// holds the same two bytes behind them as well.
pub fn same5(inp: &[u8], ref_pos: usize, i: usize) -> (r: bool)
    requires
        ref_pos < i,
        i + 5 <= inp@.len(),
    ensures
        r == (inp@[i + 3] == inp@[ref_pos + 3] && inp@[i + 4] == inp@[ref_pos + 4]),
{
    let n: usize = inp.len();
    n - i >= 5 && inp[i + 3] == inp[ref_pos + 3] && inp[i + 4] == inp[ref_pos + 4]
}

/// The number of bytes in which the input agrees from `ref_pos` and from `i`
/// on, given that it agrees in the first three.
pub fn match_length(inp: &[u8], ref_pos: usize, i: usize) -> (len: usize)
    requires
        ref_pos < i,
        i + 3 <= inp@.len(),
    ensures
        len == 3 + common(inp@, ref_pos + 3, i + 3),
        len <= inp@.len() - i,
{
    let n: usize = inp.len();
    let mut len: usize = 3;
    while len < n - i && inp[ref_pos + len] == inp[i + len]
        invariant
            3 <= len <= n - i,
            ref_pos < i <= n,
            n == inp@.len(),
            len - 3 + common(inp@, ref_pos + len, i + len) == common(inp@, ref_pos + 3, i + 3),
        decreases n - i - len,
    {
        len += 1;
    }
    len
}

/// The stream that the match finder emits for the input `s`, before a level-2
/// stream is marked: nothing for no input; else the scan from the second byte
/// on, with an empty hash table, in which every entry is 0.
pub open spec fn raw_stream(s: Seq<u8>, level2: bool) -> Seq<u8> {
    if s.len() == 0 {
        Seq::empty()
    } else {
        scan(level2, s, Seq::new(HTAB_SZ as nat, |k: int| 0int), 1, 0)
    }
}

/// The compressed stream of the input `s` at the given level: what the match
/// finder emits, with the first byte marked at level 2.
pub open spec fn compressed(s: Seq<u8>, level2: bool) -> Seq<u8> {
    if level2 {
        mark(raw_stream(s, true))
    } else {
        raw_stream(s, false)
    }
}

/// Overflow: the start of a marked stream is the marked start of the stream.
/// So a store that is marked after it took as much of a stream as fits holds
/// the start of the compressed stream, as a store that is large enough does.
pub proof fn lemma_truncated_stream(s: Seq<u8>, level2: bool, cap: int)
    requires
        0 <= cap <= raw_stream(s, level2).len(),
    ensures
        compressed(s, level2).take(cap) == (if level2 {
            mark(raw_stream(s, level2).take(cap))
        } else {
            raw_stream(s, level2).take(cap)
        }),
{
    let raw = raw_stream(s, level2);
    if level2 {
        assert(mark(raw.take(cap)) =~= mark(raw).take(cap));
    }
}

/// The far-match rule at the end of a level-2 stream: a far match that would
/// reach the end of the input goes out one byte shorter, and the last byte of
/// the input goes out as a literal behind it.
pub proof fn lemma_far_match_at_end(s: Seq<u8>, htab: Seq<int>, i: int, anchor: int)
    requires
        0 <= anchor <= i,
        i + 5 <= s.len(),
        ({
            let r = htab[hash_at(s, i)];
            &&& candidate(true, s, r, i)
            &&& confirmed(true, s, r, i)
            &&& is_far(true, r, i)
            &&& i + 3 + common(s, r + 3, i + 3) == s.len()
        }),
    ensures
        ({
            let r = htab[hash_at(s, i)];
            let full = 3 + common(s, r + 3, i + 3);
            scan(true, s, htab, i, anchor) == lit_run(s.subrange(anchor, i)) + backref(
                true,
                i - r - 1,
                full - 1,
            ) + seq![0u8, s[s.len() - 1]]
        }),
{
    let r = htab[hash_at(s, i)];
    lemma_scan_match_end(true, s, htab, i, anchor);
    let last = s.subrange(s.len() - 1, s.len() as int);
    assert(last =~= seq![s[s.len() - 1]]);
    assert(lit_run(last) =~= seq![0u8, s[s.len() - 1]]);
}

/// Mark what has been written as a level-2 stream, where the level is 2 and
/// anything has been written.
pub fn mark_level<S: OutputHelper + ?Sized>(mem: &mut S, pos: usize, level2: bool)
    requires
        old(mem).wf_at(pos),
    ensures
        final(mem).wf_at(pos),
        final(mem).state_at(pos) == (if level2 {
            old(mem).state_at(pos).marked()
        } else {
            old(mem).state_at(pos)
        }),
{
    if level2 && mem.filled(pos) > 0 {
        mem.poke_l2(pos);
    }
}

/// Write the literals of `inp` from `anchor` up to `i`, if there are any, and
/// then a backreference.
pub fn put_match<S: OutputHelper + ?Sized>(
    mem: &mut S,
    pos: &mut usize,
    level2: bool,
    inp: &[u8],
    anchor: usize,
    i: usize,
    disp: usize,
    len: usize,
) -> (r: Result<(), CompressError>)
    requires
        old(mem).wf_at(*old(pos)),
        anchor <= i <= inp@.len(),
        disp <= max_disp_of(level2),
        len >= 3,
    ensures
        final(mem).wf_at(*final(pos)),
        (final(mem).state_at(*final(pos)), r) == offered(
            old(mem).state_at(*old(pos)),
            lit_run(inp@.subrange(anchor as int, i as int)) + backref(
                level2,
                disp as int,
                len as int,
            ),
        ),
{
    let ghost s0 = mem.state_at(*pos);
    let ghost lits_enc = lit_run(inp@.subrange(anchor as int, i as int));
    let ghost br = backref(level2, disp as int, len as int);
    let ghost none = Seq::<u8>::empty();
    proof {
        lemma_emit_empty(s0);
        assert(lits_enc + br =~= none + lits_enc + br);
    }
    // any accumulated lits?
    if i > anchor {
        let lits = slice_subrange(inp, anchor, i);
        let r1 = put_lit_run(mem, pos, lits);
        proof {
            lemma_step(s0, none, lits_enc, br, lits_enc + br);
            assert(none + lits_enc =~= lits_enc);
        }
        if r1.is_err() {
            return r1;
        }
    } else {
        proof {
            assert(inp@.subrange(anchor as int, i as int) =~= none);
        }
    }
    proof {
        assert(lits_enc + br =~= lits_enc + br + none);
        lemma_step(s0, lits_enc, br, none, lits_enc + br);
    }
    if level2 {
        put_backref_lv2(mem, pos, disp, len)
    } else {
        put_backref_lv1(mem, pos, disp, len)
    }
}

/// What the hash table holds when the match finder has run over `s` from the
/// position `i` on, with the table `htab` and a sink with content `sink` for
/// the stream. Each position that the scan reaches is entered in place of the
/// one found under its hash, and behind a match its last two positions where
/// four bytes are left at the first of them. Nothing more is entered once the
/// scan has ended, or once a match and the literals before it did not fit
/// into the sink.
#[verifier::opaque]
pub open spec fn scan_table(
    level2: bool,
    s: Seq<u8>,
    htab: Seq<int>,
    i: int,
    anchor: int,
    sink: SinkState,
) -> Seq<int>
    decreases s.len() - i,
{
    if i + 4 > s.len() {
        htab
    } else {
        let h = hash_at(s, i);
        let r = htab[h];
        let seen = htab.update(h, i);
        if !candidate(level2, s, r, i) {
            scan_table(level2, s, seen, i + 1, anchor, sink)
        } else if is_far(level2, r, i) && i + 5 > s.len() {
            seen
        } else if !confirmed(level2, s, r, i) {
            scan_table(level2, s, seen, i + 1, anchor, sink)
        } else {
            let len = match_len(level2, s, r, i);
            let piece = lit_run(s.subrange(anchor, i)) + backref(level2, i - r - 1, len);
            let j = i + len - 2;
            if !sink.fits(piece.len() as int) || j + 4 > s.len() {
                seen
            } else {
                scan_table(
                    level2,
                    s,
                    seen.update(hash_at(s, j), j).update(hash_at(s, j + 1), j + 1),
                    j + 2,
                    i + len,
                    sink.emit(piece),
                )
            }
        }
    }
}

/// What the hash table holds after a compression of `s` whose stream goes to
/// a sink with content `sink`: for no input, what it held before; else what
/// the scan from the second byte on leaves in a cleared table.
pub open spec fn table_after(s: Seq<u8>, level2: bool, before: Seq<int>, sink: SinkState) -> Seq<
    int,
> {
    if s.len() == 0 {
        before
    } else {
        scan_table(level2, s, cleared_table(), 1, 0, sink)
    }
}

/// Where the scan ends, the table stays as it is; where it ends at a far
/// candidate, the position of the candidate has been entered.
pub proof fn lemma_table_stop(
    level2: bool,
    s: Seq<u8>,
    htab: Seq<int>,
    i: int,
    anchor: int,
    sink: SinkState,
)
    ensures
        i + 4 > s.len() ==> scan_table(level2, s, htab, i, anchor, sink) == htab,
        i + 4 <= s.len() && ({
            let r = htab[hash_at(s, i)];
            candidate(level2, s, r, i) && is_far(level2, r, i) && i + 5 > s.len()
        }) ==> scan_table(level2, s, htab, i, anchor, sink) == htab.update(hash_at(s, i), i),
{
    reveal_with_fuel(scan_table, 1);
}

/// A position that the scan passes over is entered.
pub proof fn lemma_table_pass(
    level2: bool,
    s: Seq<u8>,
    htab: Seq<int>,
    i: int,
    anchor: int,
    sink: SinkState,
)
    requires
        i + 4 <= s.len(),
        ({
            let r = htab[hash_at(s, i)];
            !candidate(level2, s, r, i) || (i + 5 <= s.len() && !confirmed(level2, s, r, i))
        }),
    ensures
        scan_table(level2, s, htab, i, anchor, sink) == scan_table(
            level2,
            s,
            htab.update(hash_at(s, i), i),
            i + 1,
            anchor,
            sink,
        ),
{
    reveal_with_fuel(scan_table, 1);
}

/// At a match the position is entered. Where the match and the literals
/// before it do not fit into the sink, or fewer than four bytes are left at
/// the last but one position of the match, that is the last entry; else the
/// last two positions of the match are entered and the scan goes on behind it.
pub proof fn lemma_table_match(
    level2: bool,
    s: Seq<u8>,
    htab: Seq<int>,
    i: int,
    anchor: int,
    sink: SinkState,
)
    requires
        i + 4 <= s.len(),
        ({
            let r = htab[hash_at(s, i)];
            &&& candidate(level2, s, r, i)
            &&& confirmed(level2, s, r, i)
            &&& is_far(level2, r, i) ==> i + 5 <= s.len()
        }),
    ensures
        ({
            let r = htab[hash_at(s, i)];
            let seen = htab.update(hash_at(s, i), i);
            let len = match_len(level2, s, r, i);
            let piece = lit_run(s.subrange(anchor, i)) + backref(level2, i - r - 1, len);
            let j = i + len - 2;
            scan_table(level2, s, htab, i, anchor, sink) == (if !sink.fits(piece.len() as int) || j
                + 4 > s.len() {
                seen
            } else {
                scan_table(
                    level2,
                    s,
                    seen.update(hash_at(s, j), j).update(hash_at(s, j + 1), j + 1),
                    j + 2,
                    i + len,
                    sink.emit(piece),
                )
            })
        }),
{
    reveal_with_fuel(scan_table, 1);
}

/// The hash table `htab` of a compression holds the entries `table`, each
/// of them a position before `i`.
#[verifier::opaque]
pub open spec fn tracks(htab: Seq<usize>, table: Seq<int>, i: int) -> bool {
    &&& htab.len() == HTAB_SZ
    &&& table.len() == HTAB_SZ
    &&& forall|q: int| 0 <= q < HTAB_SZ ==> htab[q] == #[trigger] table[q] && 0 <= table[q] < i
}

/// An entry that is looked up is the one of the model, a position before `i`.
pub proof fn lemma_tracks_get(htab: Seq<usize>, table: Seq<int>, i: int, h: int)
    requires
        tracks(htab, table, i),
        0 <= h < HTAB_SZ,
    ensures
        htab[h] == table[h],
        0 <= table[h] < i,
{
    reveal(tracks);
}

/// A table that is tracked is what the entries of the hash table are.
pub proof fn lemma_tracks_table(htab: Seq<usize>, table: Seq<int>, i: int)
    requires
        tracks(htab, table, i),
    ensures
        htab.map_values(|v: usize| v as int) == table,
{
    reveal(tracks);
    assert(htab.map_values(|v: usize| v as int) =~= table);
}

/// An entry is set to the position `v`, and the scan moves on to `next`.
pub proof fn lemma_tracks_set(
    htab: Seq<usize>,
    table: Seq<int>,
    i: int,
    h: int,
    v: usize,
    next: int,
)
    requires
        tracks(htab, table, i),
        0 <= h < HTAB_SZ,
        v < next,
        i <= next,
    ensures
        tracks(htab.update(h, v), table.update(h, v as int), next),
{
    reveal(tracks);
}

/// Holds state for performing compression operations
///
/// The state is the hash table of the match finder. It is scratch space: every
/// compression of an input clears it before use, so that nothing passes from
/// one call to the next and a state serves any number of calls. After a call
/// it holds what the scan of that call entered. It is large, and a value of
/// its own lets callers decide where it lives.
pub struct CompressState {
    htab: [usize; HTAB_SZ],
}

/// The hash table in which no position has been entered: every entry is 0.
pub open spec fn cleared_table() -> Seq<int> {
    Seq::new(HTAB_SZ as nat, |k: int| 0int)
}

impl CompressState {
    /// The entries of the hash table: for each hash the position that was
    /// last entered under it.
    pub closed spec fn table(&self) -> Seq<int> {
        self.htab@.map_values(|v: usize| v as int)
    }

    /// Allocate a new compression state
    pub fn new() -> (r: Self)
        ensures
            r.table() == cleared_table(),
    {
        let r = Self { htab: [0; HTAB_SZ] };
        proof {
            assert(r.table() =~= cleared_table());
        }
        r
    }

    /// Allocate a new compression state specifically on the heap
    pub fn new_boxed() -> (r: Box<Self>)
        ensures
            r.table() == cleared_table(),
    {
        Box::new(Self::new())
    }

    /// Run the match finder over `inp` and write what it emits to `mem`, to
    /// which nothing has been written yet. A level-2 stream is marked at the
    /// end, also where the store is full before the end of the stream: it then
    /// holds the stream as far as it fits. The hash table is left as the scan
    /// filled it up to its end or up to the match that did not fit.
    #[verifier::rlimit(30)]
    pub fn compress_impl<S: OutputHelper + ?Sized>(
        &mut self,
        inp: &[u8],
        mem: &mut S,
        pos: &mut usize,
        level2: bool,
    ) -> (r: Result<(), CompressError>)
        requires
            old(mem).wf_at(*old(pos)),
            old(mem).state_at(*old(pos)).written.len() == 0,
        ensures
            final(mem).wf_at(*final(pos)),
            r == outcome(old(mem).state_at(*old(pos)), raw_stream(inp@, level2).len() as int),
            final(mem).state_at(*final(pos)) == (if level2 {
                old(mem).state_at(*old(pos)).emit(raw_stream(inp@, level2)).marked()
            } else {
                old(mem).state_at(*old(pos)).emit(raw_stream(inp@, level2))
            }),
            final(self).table() == table_after(
                inp@,
                level2,
                old(self).table(),
                old(mem).state_at(*old(pos)),
            ),
    {
        let n: usize = inp.len();
        let max_disp: usize = if level2 {
            8191 + 65535
        } else {
            8191
        };
        let ghost s = inp@;
        let ghost s0 = mem.state_at(*pos);
        let ghost total = raw_stream(s, level2);
        let ghost mut done = Seq::<u8>::empty();
        proof {
            lemma_emit_empty(s0);
        }
        if n == 0 {
            proof {
                assert(s0.marked() == s0);
            }
            return Ok(());
        }
        let mut k: usize = 0;
        while k < HTAB_SZ
            invariant
                k <= HTAB_SZ,
                forall|q: int| 0 <= q < k ==> self.htab@[q] == 0,
            decreases HTAB_SZ - k,
        {
            self.htab[k] = 0;
            k += 1;
        }
        let ghost mut table: Seq<int> = Seq::new(HTAB_SZ as nat, |k: int| 0int);
        let ghost goal = scan_table(level2, s, cleared_table(), 1, 0, s0);
        let mut anchor: usize = 0;
        // the first byte always goes out as a literal
        let mut i: usize = 1;
        proof {
            assert(done + scan(level2, s, table, 1, 0) =~= total);
            assert(tracks(self.htab@, table, 1)) by {
                reveal(tracks);
            }
            assert(table =~= cleared_table());
        }
        loop
            invariant_except_break
                done + scan(level2, s, table, i as int, anchor as int) == total,
                anchor <= i,
                tracks(self.htab@, table, i as int),
                scan_table(level2, s, table, i as int, anchor as int, s0.emit(done)) == goal,
            invariant
                1 <= i <= n,
                anchor <= n,
                n == inp@.len(),
                s == inp@,
                max_disp == max_disp_of(level2),
                mem.wf_at(*pos),
                mem.state_at(*pos) == s0.emit(done),
                s0.fits(done.len() as int),
                s0 == old(mem).state_at(*old(pos)),
                total == raw_stream(s, level2),
                anchor > 0 ==> done.len() > 0,
                goal == scan_table(level2, s, cleared_table(), 1, 0, s0),
            ensures
                done + tail(s, anchor as int) == total,
                self.table() == goal,
            decreases n - i,
        {
            let peeked = peek4(inp, i);
            if peeked.is_none() {
                proof {
                    lemma_scan_stop(level2, s, table, i as int, anchor as int);
                    lemma_table_stop(level2, s, table, i as int, anchor as int, s0.emit(done));
                    lemma_tracks_table(self.htab@, table, i as int);
                }
                break ;
            }
            let hash_head: u32 = peeked.unwrap();
            proof {
                lemma_keys(s, i as int, hash_head);
            }
            let hash: usize = fastlz_hash(hash_head & 0xffffff);
            let ghost before = table;
            let ghost held = self.htab@;
            let ref_pos: usize = self.htab[hash];
            self.htab[hash] = i;
            proof {
                lemma_tracks_get(held, before, i as int, hash as int);
                lemma_tracks_set(held, before, i as int, hash as int, i, i + 1);
                table = table.update(hash as int, i as int);
            }
            let disp: usize = i - ref_pos - 1;
            if disp <= max_disp && same3(inp, ref_pos, i) {
                // we have a match of at least three bytes
                let far: bool = level2 && disp >= 8191;
                if far && n - i < 5 {
                    // a far-away match needs five bytes to be worthwhile
                    proof {
                        lemma_scan_stop(level2, s, before, i as int, anchor as int);
                        lemma_table_stop(level2, s, before, i as int, anchor as int, s0.emit(done));
                        lemma_tracks_table(self.htab@, table, i + 1);
                    }
                    break ;
                }
                if far && !same5(inp, ref_pos, i) {
                    proof {
                        lemma_scan_pass(level2, s, before, i as int, anchor as int);
                        lemma_table_pass(level2, s, before, i as int, anchor as int, s0.emit(done));
                    }
                    i += 1;
                } else {
                    // compute the full match length
                    let mut len: usize = match_length(inp, ref_pos, i);
                    // level 2 does not allow ending a stream on a far-away match
                    if far && len == n - i {
                        proof {
                            assert(common(s, ref_pos + 3, i + 3) >= 2) by {
                                reveal_with_fuel(common, 3);
                            }
                        }
                        len -= 1;
                    }
                    let ghost piece = lit_run(s.subrange(anchor as int, i as int)) + backref(
                        level2,
                        disp as int,
                        len as int,
                    );
                    let ghost j = i + len - 2;
                    let ghost rest = if j + 4 > n {
                        tail(s, i + len)
                    } else {
                        scan(
                            level2,
                            s,
                            table.update(hash_at(s, j), j).update(hash_at(s, j + 1), j + 1),
                            j + 2,
                            i + len,
                        )
                    };
                    proof {
                        if j + 4 > n {
                            lemma_scan_match_end(level2, s, before, i as int, anchor as int);
                        } else {
                            lemma_scan_match_on(level2, s, before, i as int, anchor as int);
                        }
                        assert(total =~= done + piece + rest);
                        assert(backref(level2, disp as int, len as int).len() > 0);
                        lemma_table_match(level2, s, before, i as int, anchor as int, s0.emit(done));
                        lemma_tracks_table(self.htab@, table, i + 1);
                    }
                    // now we can finally put in the literals and the match
                    let r2 = put_match(mem, pos, level2, inp, anchor, i, disp, len);
                    proof {
                        lemma_step(s0, done, piece, rest, total);
                        done = done + piece;
                    }
                    if r2.is_err() {
                        mark_level(mem, *pos, level2);
                        return r2;
                    }
                    anchor = i + len;
                    // update hashes at the boundary
                    let ghost from = i + 1;
                    i = i + len - 2;
                    let edge = peek4(inp, i);
                    if edge.is_none() {
                        break ;
                    }
                    let edge_head: u32 = edge.unwrap();
                    proof {
                        lemma_keys(s, i as int, edge_head);
                    }
                    let hash: usize = fastlz_hash(edge_head & 0xffffff);
                    proof {
                        lemma_tracks_set(self.htab@, table, from, hash as int, i, i + 2);
                        table = table.update(hash as int, i as int);
                    }
                    self.htab[hash] = i;
                    let hash: usize = fastlz_hash((edge_head >> 8) & 0xffffff);
                    proof {
                        lemma_tracks_set(
                            self.htab@,
                            table,
                            i + 2,
                            hash as int,
                            (i + 1) as usize,
                            i + 2,
                        );
                        table = table.update(hash as int, i + 1);
                    }
                    self.htab[hash] = i + 1;
                    i += 2;
                }
            } else {
                // no match
                proof {
                    lemma_scan_pass(level2, s, before, i as int, anchor as int);
                    lemma_table_pass(level2, s, before, i as int, anchor as int, s0.emit(done));
                }
                i += 1;
            }
        }
        // if there's anything leftover, output it
        if anchor < n {
            let lits = slice_subrange(inp, anchor, n);
            proof {
                assert(total =~= done + tail(s, anchor as int) + Seq::<u8>::empty());
            }
            let r3 = put_lit_run(mem, pos, lits);
            proof {
                lemma_step(s0, done, tail(s, anchor as int), Seq::<u8>::empty(), total);
                assert(tail(s, anchor as int).len() > 0);
            }
            if r3.is_err() {
                mark_level(mem, *pos, level2);
                return r3;
            }
        } else {
            proof {
                assert(s.subrange(anchor as int, s.len() as int) =~= Seq::<u8>::empty());
                assert(total =~= done);
            }
        }
        proof {
            assert(mem.state_at(*pos) == s0.emit(total));
        }
        mark_level(mem, *pos, level2);
        Ok(())
    }

    /// Compress the input into a preallocated buffer
    ///
    /// Returns the compressed size on success: the buffer then starts with the
    /// compressed stream, and the bytes behind it are unchanged. Where the
    /// stream does not fit, the buffer is filled with the start of the
    /// compressed stream, and the call fails.
    pub fn compress_to_buf(&mut self, inp: &[u8], outp: &mut [u8], level: CompressionLevel) -> (r:
        Result<usize, CompressError>)
        ensures
            ({
                let level2 = uses_level2(level, inp@.len() as int);
                let raw = raw_stream(inp@, level2);
                let cap = old(outp)@.len();
                if raw.len() <= cap {
                    &&& r == Ok::<usize, CompressError>(raw.len() as usize)
                    &&& final(outp)@ == compressed(inp@, level2) + old(outp)@.skip(raw.len() as int)
                } else {
                    &&& r == Err::<usize, CompressError>(CompressError::OutputTooSmall)
                    &&& final(outp)@ == compressed(inp@, level2).take(cap as int)
                }
            }),
            final(self).table() == table_after(
                inp@,
                uses_level2(level, inp@.len() as int),
                old(self).table(),
                (SinkState { written: Seq::empty(), room: Some(old(outp)@) }),
            ),
    {
        let mut level = level;
        if level == CompressionLevel::Default {
            if inp.len() < 65536 {
                level = CompressionLevel::Level1;
            } else {
                level = CompressionLevel::Level2;
            }
        }
        let level2: bool = level == CompressionLevel::Level2;
        let ghost raw = raw_stream(inp@, level2);
        let ghost before = outp@;
        let ghost s0 = outp.state_at(0);
        proof {
            assert(before.take(0) =~= Seq::<u8>::empty());
            assert(before.skip(0) =~= before);
            assert(s0 == (SinkState { written: Seq::empty(), room: Some(before) }));
        }
        let mut pos: usize = 0;
        let r = self.compress_impl(inp, outp, &mut pos, level2);
        proof {
            assert(outp@ =~= outp.state_at(pos).written + outp.state_at(pos).room->Some_0);
            if r is Ok {
                assert(s0.emit(raw).written =~= raw);
            } else {
                lemma_truncated_stream(inp@, level2, before.len() as int);
                assert(s0.emit(raw).written =~= raw.take(before.len() as int));
                assert(s0.emit(raw).room->Some_0 =~= Seq::<u8>::empty());
                assert(outp@ =~= compressed(inp@, level2).take(before.len() as int));
            }
        }
        match r {
            Ok(()) => Ok(pos),
            Err(e) => Err(e),
        }
    }

    /// Compress the input into a [Vec]
    ///
    /// Returns the compressed stream; a vector takes any stream, so the call
    /// does not fail.
    pub fn compress_to_vec(&mut self, inp: &[u8], level: CompressionLevel) -> (r: Result<
        Vec<u8>,
        CompressError,
    >)
        ensures
            r is Ok,
            r->Ok_0@ == compressed(inp@, uses_level2(level, inp@.len() as int)),
            final(self).table() == table_after(
                inp@,
                uses_level2(level, inp@.len() as int),
                old(self).table(),
                (SinkState { written: Seq::empty(), room: None }),
            ),
    {
        let mut ret: Vec<u8> = Vec::new();
        let mut level = level;
        if level == CompressionLevel::Default {
            if inp.len() < 65536 {
                level = CompressionLevel::Level1;
            } else {
                level = CompressionLevel::Level2;
            }
        }
        let level2: bool = level == CompressionLevel::Level2;
        let ghost raw = raw_stream(inp@, level2);
        let mut pos: usize = 0;
        let r = self.compress_impl(inp, &mut ret, &mut pos, level2);
        proof {
            assert(ret@ =~= if level2 {
                mark(raw)
            } else {
                raw
            });
        }
        match r {
            Ok(()) => Ok(ret),
            Err(e) => Err(e),
        }
    }
}

} // verus!
