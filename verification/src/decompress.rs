//! Decompression: the record decoder of both levels and the choice between them.

use crate::util::{BufOutput, OutputHelper, OutputSink, SinkState, VecOutput};
use crate::util::{backref_bytes, lemma_backref_len, lemma_backref_split};
use crate::util::{lemma_emit_emit, lemma_emit_empty, lemma_emit_overflow};
use vstd::prelude::*;
use vstd::slice::slice_subrange;

verus! {

/// Decompression errors
#[derive(Debug, PartialEq, Eq, Structural)]
#[non_exhaustive]
pub enum DecompressError {
    /// A record asks for more bytes than the input has left.
    InputTruncated,
    /// A backreference reaches back before the start of the output.
    InvalidBackreference,
    /// The first byte marks neither a level-1 nor a level-2 stream.
    InvalidCompressionLevel,
    /// The output buffer was too small to hold all the output.
    ///
    /// The output that has been written *is* valid, but has been truncated.
    OutputTooSmall,
}

impl DecompressError {
    /// A short description of the error.
    pub fn message(&self) -> (r: &'static str)
        ensures
            r@ == (match *self {
                DecompressError::InputTruncated => "input was truncated"@,
                DecompressError::InvalidBackreference => "invalid backreference"@,
                DecompressError::InvalidCompressionLevel => "invalid compression level"@,
                DecompressError::OutputTooSmall => "output buffer was insufficient"@,
            }),
    {
        match self {
            DecompressError::InputTruncated => "input was truncated",
            DecompressError::InvalidBackreference => "invalid backreference",
            DecompressError::InvalidCompressionLevel => "invalid compression level",
            DecompressError::OutputTooSmall => "output buffer was insufficient",
        }
    }
}

/// What a stream decodes to: the bytes it yields up to its end or up to the
/// first record that is in error, and that error.
pub struct Decoded {
    pub out: Seq<u8>,
    pub err: Option<DecompressError>,
}

/// The head of a backreference record: its displacement, its length and the
/// number of bytes that it takes behind the control byte.
pub struct Header {
    pub disp: int,
    pub len: int,
    pub used: int,
}

/// The length-extension bytes of a level-2 long match at the start of `x`:
/// their sum and their number. They end with the first byte below 255; `None`
/// where `x` ends before that.
pub open spec fn len_ext_read(x: Seq<u8>) -> Option<(int, int)>
    decreases x.len(),
{
    if x.len() == 0 {
        None
    } else if x[0] != 255 {
        Some((x[0] as int, 1))
    } else {
        match len_ext_read(x.skip(1)) {
            None => None,
            Some((sum, count)) => Some((sum + 255, count + 1)),
        }
    }
}

/// The head of the level-1 backreference record with the control byte `ctrl`
/// and the bytes `x` behind it; `None` where `x` is too short.
pub open spec fn l1_backref_read(ctrl: u8, x: Seq<u8>) -> Option<Header> {
    let hi = (ctrl % 32) as int;
    let top = (ctrl / 32) as int;
    if top == 7 {
        if x.len() < 2 {
            None
        } else {
            Some(Header { disp: hi * 256 + x[1] as int, len: x[0] as int + 9, used: 2 })
        }
    } else {
        if x.len() < 1 {
            None
        } else {
            Some(Header { disp: hi * 256 + x[0] as int, len: top + 2, used: 1 })
        }
    }
}

/// The head of the level-2 backreference record with the control byte `ctrl`
/// and the bytes `x` behind it; `None` where `x` is too short.
pub open spec fn l2_backref_read(ctrl: u8, x: Seq<u8>) -> Option<Header> {
    let hi = (ctrl % 32) as int;
    let top = (ctrl / 32) as int;
    let ext = if top == 7 {
        len_ext_read(x)
    } else {
        Some((0int, 0int))
    };
    match ext {
        None => None,
        Some((sum, count)) => {
            if x.len() < count + 1 {
                None
            } else {
                let near = hi * 256 + x[count] as int;
                if near != 8191 {
                    Some(Header { disp: near, len: top + 2 + sum, used: count + 1 })
                } else if x.len() < count + 3 {
                    None
                } else {
                    Some(
                        Header {
                            disp: 8191 + x[count + 1] as int * 256 + x[count + 2] as int,
                            len: top + 2 + sum,
                            used: count + 3,
                        },
                    )
                }
            }
        },
    }
}

/// The head of a backreference record at either level.
pub open spec fn backref_read(level2: bool, ctrl: u8, x: Seq<u8>) -> Option<Header> {
    if level2 {
        l2_backref_read(ctrl, x)
    } else {
        l1_backref_read(ctrl, x)
    }
}

/// The extension bytes that are read lie within `x`.
pub proof fn lemma_len_ext_read(x: Seq<u8>)
    ensures
        len_ext_read(x) matches Some((sum, count)) ==> 1 <= count <= x.len() && 0 <= sum,
    decreases x.len(),
{
    if x.len() > 0 && x[0] == 255 {
        lemma_len_ext_read(x.skip(1));
    }
}

/// The head of a record lies within `x` and takes at least one byte.
pub proof fn lemma_backref_read(level2: bool, ctrl: u8, x: Seq<u8>)
    ensures
        backref_read(level2, ctrl, x) matches Some(h) ==> 1 <= h.used <= x.len() && 0 <= h.disp
            && 2 <= h.len,
{
    lemma_len_ext_read(x);
}

/// What the records of `x` decode to behind the output `prior`. A control byte
/// below 32 stands before that many literals plus one; any other stands
/// before the rest of a backreference, which copies from `prior` and from what
/// the record itself has yielded. Decoding ends with the input, or at the first
/// record that the input cuts short or that reaches back before the output.
#[verifier::opaque]
pub open spec fn records(level2: bool, x: Seq<u8>, prior: Seq<u8>) -> Decoded
    decreases x.len(),
    via records_decreases
{
    if x.len() == 0 {
        Decoded { out: Seq::empty(), err: None }
    } else if x[0] < 32 {
        let n = x[0] as int + 1;
        if x.len() - 1 < n {
            Decoded { out: Seq::empty(), err: Some(DecompressError::InputTruncated) }
        } else {
            let lits = x.subrange(1, 1 + n);
            let rest = records(level2, x.skip(1 + n), prior + lits);
            Decoded { out: lits + rest.out, err: rest.err }
        }
    } else {
        match backref_read(level2, x[0], x.skip(1)) {
            None => Decoded { out: Seq::empty(), err: Some(DecompressError::InputTruncated) },
            Some(h) => {
                if h.disp >= prior.len() {
                    Decoded { out: Seq::empty(), err: Some(DecompressError::InvalidBackreference) }
                } else {
                    let copy = backref_bytes(prior, h.disp, h.len as nat);
                    let rest = records(level2, x.skip(1 + h.used), prior + copy);
                    Decoded { out: copy + rest.out, err: rest.err }
                }
            },
        }
    }
}

#[via_fn]
proof fn records_decreases(level2: bool, x: Seq<u8>, prior: Seq<u8>) {
    if x.len() > 0 && x[0] >= 32 {
        lemma_backref_read(level2, x[0], x.skip(1));
    }
}

/// No records decode to nothing.
pub proof fn lemma_records_end(level2: bool, x: Seq<u8>, prior: Seq<u8>)
    requires
        x.len() == 0,
    ensures
        records(level2, x, prior) == (Decoded { out: Seq::empty(), err: None }),
{
    reveal_with_fuel(records, 1);
}

/// What a literal run at the start of `x` decodes to.
pub proof fn lemma_records_lits(level2: bool, x: Seq<u8>, prior: Seq<u8>)
    requires
        x.len() > 0,
        x[0] < 32,
    ensures
        ({
            let n = x[0] as int + 1;
            let lits = x.subrange(1, 1 + n);
            let rest = records(level2, x.skip(1 + n), prior + lits);
            records(level2, x, prior) == (if x.len() - 1 < n {
                Decoded { out: Seq::empty(), err: Some(DecompressError::InputTruncated) }
            } else {
                Decoded { out: lits + rest.out, err: rest.err }
            })
        }),
{
    reveal_with_fuel(records, 1);
}

/// What a backreference at the start of `x` decodes to.
pub proof fn lemma_records_backref(level2: bool, x: Seq<u8>, prior: Seq<u8>)
    requires
        x.len() > 0,
        x[0] >= 32,
    ensures
        records(level2, x, prior) == (match backref_read(level2, x[0], x.skip(1)) {
            None => Decoded { out: Seq::empty(), err: Some(DecompressError::InputTruncated) },
            Some(h) => {
                if h.disp >= prior.len() {
                    Decoded { out: Seq::empty(), err: Some(DecompressError::InvalidBackreference) }
                } else {
                    let copy = backref_bytes(prior, h.disp, h.len as nat);
                    let rest = records(level2, x.skip(1 + h.used), prior + copy);
                    Decoded { out: copy + rest.out, err: rest.err }
                }
            },
        }),
{
    reveal_with_fuel(records, 1);
}

/// A stream with the level mark taken off its first byte.
pub open spec fn stripped(inp: Seq<u8>) -> Seq<u8> {
    if inp.len() == 0 {
        inp
    } else {
        inp.update(0, inp[0] % 32)
    }
}

/// What the stream `inp` decodes to behind the output `prior`. The top three
/// bits of the first byte tell the level: 0 for level 1, 1 for level 2, and
/// no other value is a stream. No input decodes to no output.
pub open spec fn decoded_behind(inp: Seq<u8>, prior: Seq<u8>) -> Decoded {
    if inp.len() == 0 {
        Decoded { out: Seq::empty(), err: None }
    } else if inp[0] / 32 == 0 {
        records(false, stripped(inp), prior)
    } else if inp[0] / 32 == 1 {
        records(true, stripped(inp), prior)
    } else {
        Decoded { out: Seq::empty(), err: Some(DecompressError::InvalidCompressionLevel) }
    }
}

/// What the stream `inp` decodes to.
pub open spec fn decoded(inp: Seq<u8>) -> Decoded {
    decoded_behind(inp, Seq::empty())
}

/// What a decoder reports that wrote `d` to a sink with content `s`: that the
/// output did not fit, where it did not; else the error of the stream, if any.
pub open spec fn report(s: SinkState, d: Decoded) -> Result<(), DecompressError> {
    if !s.fits(d.out.len() as int) {
        Err(DecompressError::OutputTooSmall)
    } else {
        match d.err {
            None => Ok(()),
            Some(e) => Err(e),
        }
    }
}

/// The content of a sink with content `s` after a decoder wrote `d` to it,
/// and what the decoder reports.
pub open spec fn delivered(s: SinkState, d: Decoded) -> (SinkState, Result<(), DecompressError>) {
    (s.emit(d.out), report(s, d))
}

/// The content after `put_lits`, and its result: the literals as far as they
/// fit.
pub open spec fn lits_written(s: SinkState, lits: Seq<u8>) -> (
    SinkState,
    Result<(), DecompressError>,
) {
    (
        s.emit(lits),
        if s.fits(lits.len() as int) {
            Ok(())
        } else {
            Err(DecompressError::OutputTooSmall)
        },
    )
}

/// The content after `put_backref`, and its result: nothing is written for a
/// displacement that reaches back before the output; else the copy as far
/// as it fits.
pub open spec fn backref_written(s: SinkState, disp: usize, len: usize) -> (
    SinkState,
    Result<(), DecompressError>,
) {
    if disp >= s.written.len() {
        (s, Err(DecompressError::InvalidBackreference))
    } else {
        (
            s.emit(backref_bytes(s.written, disp as int, len as nat)),
            if s.fits(len as int) {
                Ok(())
            } else {
                Err(DecompressError::OutputTooSmall)
            },
        )
    }
}

/// Add a literal run to the output.
pub fn write_lits<S: OutputHelper + ?Sized>(mem: &mut S, pos: &mut usize, lits: &[u8]) -> (r:
    Result<(), DecompressError>)
    requires
        old(mem).wf_at(*old(pos)),
    ensures
        final(mem).wf_at(*final(pos)),
        (final(mem).state_at(*final(pos)), r) == lits_written(old(mem).state_at(*old(pos)), lits@),
{
    if mem.put_buf(pos, lits) {
        Ok(())
    } else {
        Err(DecompressError::OutputTooSmall)
    }
}

/// Add a backreference to the output: `len` bytes copied from `disp + 1`
/// places back.
pub fn write_backref<S: OutputHelper + ?Sized>(
    mem: &mut S,
    pos: &mut usize,
    disp: usize,
    len: usize,
) -> (r: Result<(), DecompressError>)
    requires
        old(mem).wf_at(*old(pos)),
    ensures
        final(mem).wf_at(*final(pos)),
        (final(mem).state_at(*final(pos)), r) == backref_written(
            old(mem).state_at(*old(pos)),
            disp,
            len,
        ),
        final(mem).state_at(*final(pos)).written.len() <= usize::MAX,
{
    if disp >= mem.filled(*pos) {
        return Err(DecompressError::InvalidBackreference);
    }
    proof {
        lemma_backref_len(mem.state_at(*pos).written, disp as int, len as nat);
    }
    if mem.put_copy(pos, disp, len) {
        Ok(())
    } else {
        Err(DecompressError::OutputTooSmall)
    }
}

impl<'a> OutputSink<DecompressError> for BufOutput<'a> {
    open spec fn accepts_lits(lits: Seq<u8>) -> bool {
        true
    }

    open spec fn accepts_backref(disp: usize, len: usize) -> bool {
        true
    }

    open spec fn lits_result(s: SinkState, lits: Seq<u8>) -> (
        SinkState,
        Result<(), DecompressError>,
    ) {
        lits_written(s, lits)
    }

    open spec fn backref_result(s: SinkState, disp: usize, len: usize) -> (
        SinkState,
        Result<(), DecompressError>,
    ) {
        backref_written(s, disp, len)
    }

    fn put_lits(&mut self, lits: &[u8]) -> (r: Result<(), DecompressError>) {
        write_lits(&mut *self.buf, &mut self.pos, lits)
    }

    fn put_backref(&mut self, disp: usize, len: usize) -> (r: Result<(), DecompressError>) {
        write_backref(&mut *self.buf, &mut self.pos, disp, len)
    }
}

impl OutputSink<DecompressError> for VecOutput {
    open spec fn accepts_lits(lits: Seq<u8>) -> bool {
        true
    }

    open spec fn accepts_backref(disp: usize, len: usize) -> bool {
        true
    }

    open spec fn lits_result(s: SinkState, lits: Seq<u8>) -> (
        SinkState,
        Result<(), DecompressError>,
    ) {
        lits_written(s, lits)
    }

    open spec fn backref_result(s: SinkState, disp: usize, len: usize) -> (
        SinkState,
        Result<(), DecompressError>,
    ) {
        backref_written(s, disp, len)
    }

    fn put_lits(&mut self, lits: &[u8]) -> (r: Result<(), DecompressError>) {
        let mut pos: usize = 0;
        write_lits(&mut self.vec, &mut pos, lits)
    }

    fn put_backref(&mut self, disp: usize, len: usize) -> (r: Result<(), DecompressError>) {
        let mut pos: usize = 0;
        write_backref(&mut self.vec, &mut pos, disp, len)
    }
}

/// The next byte of the input, if there is one.
pub fn getc(inp: &[u8], at: &mut usize) -> (r: Result<u8, DecompressError>)
    ensures
        match r {
            Ok(c) => *old(at) < inp@.len() && c == inp@[*old(at) as int] && *final(at) == *old(at)
                + 1,
            Err(e) => e == DecompressError::InputTruncated && *old(at) >= inp@.len() && *final(at)
                == *old(at),
        },
{
    if *at >= inp.len() {
        return Err(DecompressError::InputTruncated);
    }
    let c: u8 = inp[*at];
    *at += 1;
    Ok(c)
}

/// Whether the input has `min` bytes left from `at` on.
pub fn check_len(inp: &[u8], at: usize, min: usize) -> (r: Result<(), DecompressError>)
    ensures
        r == (if inp@.len() - at < min {
            Err::<(), DecompressError>(DecompressError::InputTruncated)
        } else {
            Ok::<(), DecompressError>(())
        }),
{
    if at > inp.len() || inp.len() - at < min {
        Err(DecompressError::InputTruncated)
    } else {
        Ok(())
    }
}

/// The fields of a control byte: its top three bits tell the kind of the
/// record, its low five bits hold a length or the high bits of a displacement.
pub proof fn lemma_ctrl_bits(c: u8)
    by (bit_vector)
    ensures
        c >> 5 == c / 32,
        c & 0x1f == c % 32,
        c % 32 < 32,
        c / 32 < 8,
{
}

/// Two bytes put together, the high one first.
pub proof fn lemma_byte_pair(hi: u32, lo: u32)
    by (bit_vector)
    requires
        hi < 256,
        lo < 256,
    ensures
        (hi << 8) | lo == hi * 256 + lo,
{
}

/// Read the rest of a level-1 backreference record behind its control byte:
/// its displacement and its length.
pub fn read_backref_lv1(inp: &[u8], at: &mut usize, ctrl: u8) -> (r: Result<
    (usize, usize),
    DecompressError,
>)
    requires
        *old(at) <= inp@.len(),
    ensures
        match l1_backref_read(ctrl, inp@.skip(*old(at) as int)) {
            None => r == Err::<(usize, usize), DecompressError>(DecompressError::InputTruncated),
            Some(h) => r == Ok::<(usize, usize), DecompressError>((h.disp as usize, h.len as usize))
                && h.disp <= usize::MAX && h.len <= usize::MAX && *final(at) == *old(at) + h.used,
        },
{
    let ghost x = inp@.skip(*at as int);
    proof {
        lemma_ctrl_bits(ctrl);
    }
    let hi: u32 = (ctrl & 0b000_11111) as u32;
    let len: usize = if ctrl >> 5 == 0b111 {
        // long match
        let more = match getc(inp, at) {
            Ok(c) => c,
            Err(e) => {
                return Err(e);
            },
        };
        more as usize + 9
    } else {
        (ctrl >> 5) as usize + 2
    };
    let lo: u8 = match getc(inp, at) {
        Ok(c) => c,
        Err(e) => {
            return Err(e);
        },
    };
    proof {
        lemma_byte_pair(hi, lo as u32);
    }
    let disp: usize = ((hi << 8) | (lo as u32)) as usize;
    Ok((disp, len))
}

/// Read the rest of a level-2 backreference record behind its control byte:
/// its displacement, its length, and whether that is the length in full. A
/// length beyond the largest number that the machine counts to comes back as
/// that number, and is then not the length in full.
pub fn read_backref_lv2(inp: &[u8], at: &mut usize, ctrl: u8) -> (r: Result<
    (usize, usize, bool),
    DecompressError,
>)
    requires
        *old(at) <= inp@.len(),
    ensures
        match l2_backref_read(ctrl, inp@.skip(*old(at) as int)) {
            None => r == Err::<(usize, usize, bool), DecompressError>(
                DecompressError::InputTruncated,
            ),
            Some(h) => {
                &&& r is Ok
                &&& r->Ok_0.0 == h.disp
                &&& r->Ok_0.2 ==> r->Ok_0.1 == h.len
                &&& !r->Ok_0.2 ==> r->Ok_0.1 == usize::MAX && h.len > usize::MAX
                &&& *final(at) == *old(at) + h.used
            },
        },
{
    let ghost start = *at;
    let ghost x = inp@.skip(*at as int);
    let n: usize = inp.len();
    proof {
        lemma_ctrl_bits(ctrl);
        lemma_len_ext_read(x);
    }
    let hi: u32 = (ctrl & 0b000_11111) as u32;
    let mut len: usize = (ctrl >> 5) as usize + 2;
    let mut exact: bool = true;
    let ghost mut sum: int = 0;
    if ctrl >> 5 == 0b111 {
        // long match
        proof {
            assert(x.skip(0) =~= x);
        }
        loop
            invariant_except_break
                len_ext_read(x) == (match len_ext_read(x.skip(*at - start)) {
                    None => None::<(int, int)>,
                    Some((s, c)) => Some((s + sum, c + (*at - start))),
                }),
            invariant
                start <= *at <= n,
                n == inp@.len(),
                x == inp@.skip(start as int),
                0 <= sum,
                ctrl / 32 == 7,
                x == inp@.skip(*old(at) as int),
                exact ==> len == 9 + sum,
                !exact ==> len == usize::MAX && 9 + sum > usize::MAX,
            ensures
                len_ext_read(x) == Some((sum, *at - start)),
            decreases n - *at,
        {
            let ghost here = x.skip(*at - start);
            proof {
                assert(here.len() == n - *at);
            }
            let morelen: u8 = match getc(inp, at) {
                Ok(c) => c,
                Err(e) => {
                    return Err(e);
                },
            };
            proof {
                assert(here[0] == morelen);
                assert(here.skip(1) =~= x.skip(*at - start));
                lemma_len_ext_read(here.skip(1));
                sum = sum + morelen;
            }
            match len.checked_add(morelen as usize) {
                Some(v) => {
                    len = v;
                },
                None => {
                    len = usize::MAX;
                    exact = false;
                },
            }
            if morelen != 0xff {
                break ;
            }
        }
    }
    let ghost count = *at - start;
    let lo: u8 = match getc(inp, at) {
        Ok(c) => c,
        Err(e) => {
            return Err(e);
        },
    };
    proof {
        lemma_byte_pair(hi, lo as u32);
        assert(x[count] == lo);
    }
    let mut disp: usize = ((hi << 8) | (lo as u32)) as usize;
    if disp == 0b11111_11111111 {
        let m1: u8 = match getc(inp, at) {
            Ok(c) => c,
            Err(e) => {
                return Err(e);
            },
        };
        let m0: u8 = match getc(inp, at) {
            Ok(c) => c,
            Err(e) => {
                return Err(e);
            },
        };
        proof {
            lemma_byte_pair(m1 as u32, m0 as u32);
            assert(x[count + 1] == m1);
            assert(x[count + 2] == m0);
        }
        let moredisp: usize = (((m1 as u32) << 8) | (m0 as u32)) as usize;
        disp += moredisp;
    }
    Ok((disp, len, exact))
}

/// One literal run is decoded: the sink is offered its literals, and the
/// decoder goes on behind it or ends there with the sink full.
pub proof fn lemma_lits_step(
    level2: bool,
    here: Seq<u8>,
    s0: SinkState,
    done: Seq<u8>,
    total: Decoded,
)
    requires
        here.len() > 0,
        here[0] < 32,
        s0.fits(done.len() as int),
        total.out == done + records(level2, here, s0.written + done).out,
        total.err == records(level2, here, s0.written + done).err,
    ensures
        ({
            let n = here[0] as int + 1;
            let lits = here.subrange(1, 1 + n);
            let (after, r) = lits_written(s0.emit(done), lits);
            if here.len() - 1 < n {
                delivered(s0, total) == (
                    s0.emit(done),
                    Err::<(), DecompressError>(DecompressError::InputTruncated),
                )
            } else if r is Err {
                delivered(s0, total) == (after, r)
            } else {
                &&& after == s0.emit(done + lits)
                &&& s0.fits((done + lits).len() as int)
                &&& total.out == (done + lits) + records(
                    level2,
                    here.skip(1 + n),
                    s0.written + (done + lits),
                ).out
                &&& total.err == records(level2, here.skip(1 + n), s0.written + (done + lits)).err
            }
        }),
{
    let prior = s0.written + done;
    let n = here[0] as int + 1;
    let lits = here.subrange(1, 1 + n);
    lemma_records_lits(level2, here, prior);
    if here.len() - 1 < n {
        assert(done + Seq::<u8>::empty() =~= done);
    } else {
        let rest = records(level2, here.skip(1 + n), prior + lits);
        assert(prior + lits =~= s0.written + (done + lits));
        assert(total.out =~= (done + lits) + rest.out);
        lemma_emit_emit(s0, done, lits);
        if !s0.emit(done).fits(n) {
            assert((done + lits).is_prefix_of(total.out));
            lemma_emit_overflow(s0, done + lits, total.out);
        }
    }
}

/// One backreference is decoded: the sink is offered its copy, and the
/// decoder goes on behind it or ends there, with the sink full or with the
/// backreference refused. `len` is the length of the copy or, where that is
/// beyond `usize::MAX`, that number.
pub proof fn lemma_backref_step(
    level2: bool,
    here: Seq<u8>,
    s0: SinkState,
    done: Seq<u8>,
    total: Decoded,
    disp: usize,
    len: usize,
    exact: bool,
)
    requires
        here.len() > 0,
        here[0] >= 32,
        s0.fits(done.len() as int),
        total.out == done + records(level2, here, s0.written + done).out,
        total.err == records(level2, here, s0.written + done).err,
        backref_read(level2, here[0], here.skip(1)) matches Some(h) && h.disp == disp && (exact
            ==> h.len == len) && (!exact ==> len == usize::MAX && h.len > usize::MAX),
    ensures
        ({
            let h = backref_read(level2, here[0], here.skip(1))->Some_0;
            let copy = backref_bytes(s0.written + done, disp as int, h.len as nat);
            let (after, r) = backref_written(s0.emit(done), disp, len);
            if r is Err {
                delivered(s0, total) == (after, r)
            } else if after.written.len() <= usize::MAX {
                &&& after == s0.emit(done + copy)
                &&& s0.fits((done + copy).len() as int)
                &&& total.out == (done + copy) + records(
                    level2,
                    here.skip(1 + h.used),
                    s0.written + (done + copy),
                ).out
                &&& total.err == records(
                    level2,
                    here.skip(1 + h.used),
                    s0.written + (done + copy),
                ).err
            } else {
                true
            }
        }),
{
    let prior = s0.written + done;
    let h = backref_read(level2, here[0], here.skip(1))->Some_0;
    lemma_records_backref(level2, here, prior);
    lemma_backref_read(level2, here[0], here.skip(1));
    assert(s0.emit(done).written =~= prior);
    if disp >= prior.len() {
        assert(done + Seq::<u8>::empty() =~= done);
    } else {
        let copy = backref_bytes(prior, disp as int, h.len as nat);
        let wrote = backref_bytes(prior, disp as int, len as nat);
        let rest = records(level2, here.skip(1 + h.used), prior + copy);
        lemma_backref_len(prior, disp as int, h.len as nat);
        lemma_backref_len(prior, disp as int, len as nat);
        if !exact {
            lemma_backref_split(prior, disp as int, len as nat, (h.len - len) as nat);
        }
        assert(wrote.is_prefix_of(copy));
        assert(prior + copy =~= s0.written + (done + copy));
        assert(total.out =~= (done + copy) + rest.out);
        assert((done + wrote).is_prefix_of(total.out));
        lemma_emit_emit(s0, done, wrote);
        if !s0.emit(done).fits(len as int) {
            lemma_emit_overflow(s0, done + wrote, total.out);
        } else {
            assert(s0.emit(done + wrote).written =~= prior + wrote);
        }
    }
}

/// Decode the records of a stream of the given level whose first byte is at
/// the start of `inp`, and write what they yield.
pub fn decode_records<S: OutputHelper + ?Sized>(
    level2: bool,
    inp: &[u8],
    mem: &mut S,
    pos: &mut usize,
) -> (r: Result<(), DecompressError>)
    requires
        inp@.len() > 0,
        old(mem).wf_at(*old(pos)),
    ensures
        final(mem).wf_at(*final(pos)),
        (final(mem).state_at(*final(pos)), r) == delivered(
            old(mem).state_at(*old(pos)),
            records(level2, stripped(inp@), old(mem).state_at(*old(pos)).written),
        ),
{
    let n: usize = inp.len();
    let ghost x = stripped(inp@);
    let ghost s0 = mem.state_at(*pos);
    let ghost total = records(level2, x, s0.written);
    let ghost mut done = Seq::<u8>::empty();
    // special for first control byte
    let mut ctrl: u8 = inp[0] & 0b000_11111;
    let mut at: usize = 1;
    proof {
        lemma_ctrl_bits(inp[0]);
        lemma_emit_empty(s0);
        assert(x.skip(0) =~= x);
        assert(s0.written + done =~= s0.written);
        assert(done + total.out =~= total.out);
    }
    loop
        invariant
            1 <= at <= n,
            n == inp@.len(),
            x == stripped(inp@),
            ctrl == x[at - 1],
            mem.wf_at(*pos),
            mem.state_at(*pos) == s0.emit(done),
            s0.fits(done.len() as int),
            s0 == old(mem).state_at(*old(pos)),
            total == records(level2, x, s0.written),
            total.out == done + records(level2, x.skip(at - 1), s0.written + done).out,
            total.err == records(level2, x.skip(at - 1), s0.written + done).err,
        decreases n - at,
    {
        let ghost here = x.skip(at - 1);
        proof {
            lemma_ctrl_bits(ctrl);
            assert(here[0] == ctrl);
            assert(here.skip(1) =~= inp@.skip(at as int));
        }
        if ctrl >> 5 == 0b000 {
            // literal run
            let len: usize = (ctrl & 0b000_11111) as usize + 1;
            proof {
                lemma_lits_step(level2, here, s0, done, total);
            }
            match check_len(inp, at, len) {
                Ok(()) => {},
                Err(e) => {
                    return Err(e);
                },
            }
            let lits = slice_subrange(inp, at, at + len);
            proof {
                assert(lits@ =~= here.subrange(1, 1 + len));
            }
            let r = write_lits(mem, pos, lits);
            if r.is_err() {
                return r;
            }
            at += len;
            proof {
                done = done + lits@;
                assert(here.skip(1 + len) =~= x.skip(at as int));
            }
        } else {
            // backreference
            let ghost head = backref_read(level2, ctrl, inp@.skip(at as int));
            proof {
                lemma_records_backref(level2, here, s0.written + done);
                lemma_backref_read(level2, ctrl, inp@.skip(at as int));
                assert(done + Seq::<u8>::empty() =~= done);
            }
            let (disp, len, exact) = if level2 {
                match read_backref_lv2(inp, &mut at, ctrl) {
                    Ok(found) => found,
                    Err(e) => {
                        return Err(e);
                    },
                }
            } else {
                match read_backref_lv1(inp, &mut at, ctrl) {
                    Ok((disp, len)) => (disp, len, true),
                    Err(e) => {
                        return Err(e);
                    },
                }
            };
            let ghost h = head->Some_0;
            proof {
                lemma_backref_step(level2, here, s0, done, total, disp, len, exact);
            }
            let r = write_backref(mem, pos, disp, len);
            if r.is_err() {
                return r;
            }
            proof {
                done = done + backref_bytes(s0.written + done, disp as int, h.len as nat);
                assert(here.skip(1 + h.used) =~= x.skip(at as int));
            }
        }
        // the next control byte, or the end of the stream
        match getc(inp, &mut at) {
            Ok(c) => {
                proof {
                    assert(x.skip(at - 1)[0] == c);
                }
                ctrl = c;
            },
            Err(_) => {
                proof {
                    lemma_records_end(level2, x.skip(at as int), s0.written + done);
                    assert(done + Seq::<u8>::empty() =~= done);
                }
                return Ok(());
            },
        }
    }
}

/// Decode a level-1 stream, which is not empty.
pub fn decompress_lv1<S: OutputHelper + ?Sized>(inp: &[u8], mem: &mut S, pos: &mut usize) -> (r:
    Result<(), DecompressError>)
    requires
        inp@.len() > 0,
        old(mem).wf_at(*old(pos)),
    ensures
        final(mem).wf_at(*final(pos)),
        (final(mem).state_at(*final(pos)), r) == delivered(
            old(mem).state_at(*old(pos)),
            records(false, stripped(inp@), old(mem).state_at(*old(pos)).written),
        ),
{
    decode_records(false, inp, mem, pos)
}

/// Decode a level-2 stream, which is not empty.
pub fn decompress_lv2<S: OutputHelper + ?Sized>(inp: &[u8], mem: &mut S, pos: &mut usize) -> (r:
    Result<(), DecompressError>)
    requires
        inp@.len() > 0,
        old(mem).wf_at(*old(pos)),
    ensures
        final(mem).wf_at(*final(pos)),
        (final(mem).state_at(*final(pos)), r) == delivered(
            old(mem).state_at(*old(pos)),
            records(true, stripped(inp@), old(mem).state_at(*old(pos)).written),
        ),
{
    decode_records(true, inp, mem, pos)
}

/// Decode a stream of either level, as its first byte tells.
pub fn decompress_impl<S: OutputHelper + ?Sized>(inp: &[u8], mem: &mut S, pos: &mut usize) -> (r:
    Result<(), DecompressError>)
    requires
        old(mem).wf_at(*old(pos)),
    ensures
        final(mem).wf_at(*final(pos)),
        (final(mem).state_at(*final(pos)), r) == delivered(
            old(mem).state_at(*old(pos)),
            decoded_behind(inp@, old(mem).state_at(*old(pos)).written),
        ),
{
    proof {
        lemma_emit_empty(mem.state_at(*pos));
    }
    if inp.len() == 0 {
        return Ok(());
    }
    proof {
        lemma_ctrl_bits(inp[0]);
    }
    let level: u8 = inp[0] >> 5;
    if level == 0 {
        decompress_lv1(inp, mem, pos)
    } else if level == 1 {
        decompress_lv2(inp, mem, pos)
    } else {
        Err(DecompressError::InvalidCompressionLevel)
    }
}

/// Decompress the input into a preallocated buffer
///
/// Returns the decompressed size on success: the buffer then starts with
/// what the stream decodes to, and the bytes behind it are unchanged. The same
/// holds of the output up to a record in error, with that error. Where the
/// output does not fit, the buffer is filled with its start, and the call
/// fails.
pub fn decompress_to_buf(inp: &[u8], outp: &mut [u8]) -> (r: Result<usize, DecompressError>)
    ensures
        ({
            let d = decoded(inp@);
            let cap = old(outp)@.len();
            if d.out.len() <= cap {
                &&& final(outp)@ == d.out + old(outp)@.skip(d.out.len() as int)
                &&& r == (match d.err {
                    None => Ok::<usize, DecompressError>(d.out.len() as usize),
                    Some(e) => Err::<usize, DecompressError>(e),
                })
            } else {
                &&& final(outp)@ == d.out.take(cap as int)
                &&& r == Err::<usize, DecompressError>(DecompressError::OutputTooSmall)
            }
        }),
{
    let ghost d = decoded(inp@);
    let ghost before = outp@;
    let ghost s0 = outp.state_at(0);
    proof {
        assert(before.take(0) =~= Seq::<u8>::empty());
        assert(before.skip(0) =~= before);
    }
    let mut pos: usize = 0;
    let r = decompress_impl(inp, outp, &mut pos);
    proof {
        assert(outp@ =~= outp.state_at(pos).written + outp.state_at(pos).room->Some_0);
        if d.out.len() <= before.len() {
            assert(s0.emit(d.out).written =~= d.out);
        } else {
            assert(s0.emit(d.out).written =~= d.out.take(before.len() as int));
            assert(s0.emit(d.out).room->Some_0 =~= Seq::<u8>::empty());
            assert(outp@ =~= d.out.take(before.len() as int));
        }
    }
    match r {
        Ok(()) => Ok(pos),
        Err(e) => Err(e),
    }
}

/// Decompress the input into a [Vec]
///
/// Returns what the stream decodes to, or the error of the first record
/// that is in error. `capacity_hint` is the capacity that the vector starts
/// with; it changes nothing in the result.
pub fn decompress_to_vec(inp: &[u8], capacity_hint: Option<usize>) -> (r: Result<
    Vec<u8>,
    DecompressError,
>)
    ensures
        match decoded(inp@).err {
            None => r is Ok && r->Ok_0@ == decoded(inp@).out,
            Some(e) => r == Err::<Vec<u8>, DecompressError>(e),
        },
{
    let mut ret: Vec<u8> = if let Some(capacity_hint) = capacity_hint {
        Vec::with_capacity(capacity_hint)
    } else {
        Vec::new()
    };
    let mut pos: usize = 0;
    let r = decompress_impl(inp, &mut ret, &mut pos);
    proof {
        assert(ret@ =~= decoded(inp@).out);
    }
    match r {
        Ok(()) => Ok(ret),
        Err(e) => Err(e),
    }
}

} // verus!
