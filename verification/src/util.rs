//! Output sinks: a bounded byte region with a cursor, and a growable vector.

use vstd::prelude::*;

verus! {

/// The mathematical content of a sink: the bytes written so far and, for a
/// bounded sink, the bytes of its region that no write has reached yet.
/// A growable sink has no such region (`room` is `None`).
pub struct SinkState {
    pub written: Seq<u8>,
    pub room: Option<Seq<u8>>,
}

impl SinkState {
    /// Whether `n` more bytes can be written without truncation.
    pub open spec fn fits(self, n: int) -> bool {
        match self.room {
            None => true,
            Some(r) => n <= r.len(),
        }
    }

    /// How many of `n` offered bytes the sink accepts.
    pub open spec fn accepted(self, n: int) -> int {
        match self.room {
            None => n,
            Some(r) => if n <= r.len() {
                n
            } else {
                r.len() as int
            },
        }
    }

    /// The sink after `e` was offered to it: it takes every byte that fits, in
    /// order, and drops the rest.
    pub open spec fn emit(self, e: Seq<u8>) -> SinkState {
        match self.room {
            None => SinkState { written: self.written + e, room: None },
            Some(r) => {
                let k = self.accepted(e.len() as int);
                SinkState { written: self.written + e.take(k), room: Some(r.skip(k)) }
            },
        }
    }

    /// The sink with bit 5 of the first byte written set: the mark of a
    /// level-2 stream. Where nothing was written, nothing changes.
    pub open spec fn marked(self) -> SinkState {
        SinkState { written: mark(self.written), room: self.room }
    }
}

/// A stream with bit 5 of its first byte set; the empty stream stays empty.
pub open spec fn mark(t: Seq<u8>) -> Seq<u8> {
    if t.len() == 0 {
        t
    } else {
        t.update(0, t[0] | 0x20)
    }
}

/// Offering `a` and then `b` is the same as offering `a + b` at once.
pub proof fn lemma_emit_emit(s: SinkState, a: Seq<u8>, b: Seq<u8>)
    ensures
        s.emit(a).emit(b) == s.emit(a + b),
        s.emit(a).fits(b.len() as int) && s.fits(a.len() as int) <==> s.fits((a + b).len() as int),
{
    match s.room {
        None => {
            assert((s.written + a) + b =~= s.written + (a + b));
        },
        Some(r) => {
            let k1 = s.accepted(a.len() as int);
            let k2 = s.emit(a).accepted(b.len() as int);
            let k = s.accepted((a + b).len() as int);
            assert(k == k1 + k2);
            assert((a + b).take(k) =~= a.take(k1) + b.take(k2));
            assert((s.written + a.take(k1)) + b.take(k2) =~= s.written + (a + b).take(k));
            assert(r.skip(k1).skip(k2) =~= r.skip(k));
        },
    }
}

/// Once a prefix of a stream no longer fits, the rest of the stream changes
/// nothing: the sink holds the same bytes whether it was offered the prefix or
/// the whole.
pub proof fn lemma_emit_overflow(s: SinkState, p: Seq<u8>, t: Seq<u8>)
    requires
        p.is_prefix_of(t),
        !s.fits(p.len() as int),
    ensures
        s.emit(p) == s.emit(t),
        !s.fits(t.len() as int),
{
    let r = s.room->Some_0;
    let k = r.len() as int;
    assert(p.take(k) =~= t.take(k));
}

/// Nothing offered, nothing changed.
pub proof fn lemma_emit_empty(s: SinkState)
    ensures
        s.emit(Seq::<u8>::empty()) == s,
{
    match s.room {
        None => {
            assert(s.written + Seq::<u8>::empty() =~= s.written);
        },
        Some(r) => {
            assert(s.written + Seq::<u8>::empty().take(0) =~= s.written);
            assert(r.skip(0) =~= r);
        },
    }
}

/// The bytes that a backreference adds behind `prior`: `len` bytes, each a
/// copy of the byte that stands `disp + 1` places before it, so that a length
/// over `disp + 1` repeats what was just written. `disp` is less than the
/// length of `prior`.
pub open spec fn backref_bytes(prior: Seq<u8>, disp: int, len: nat) -> Seq<u8>
    decreases len,
{
    if len == 0 {
        Seq::empty()
    } else {
        let b = prior[prior.len() - 1 - disp];
        seq![b] + backref_bytes(prior.push(b), disp, (len - 1) as nat)
    }
}

/// A backreference of `len` bytes adds `len` bytes.
pub proof fn lemma_backref_len(prior: Seq<u8>, disp: int, len: nat)
    ensures
        backref_bytes(prior, disp, len).len() == len,
    decreases len,
{
    if len > 0 {
        let b = prior[prior.len() - 1 - disp];
        lemma_backref_len(prior.push(b), disp, (len - 1) as nat);
    }
}

/// A backreference of `a + b` bytes is one of `a` bytes followed by one of `b`
/// bytes at the same displacement.
pub proof fn lemma_backref_split(prior: Seq<u8>, disp: int, a: nat, b: nat)
    ensures
        backref_bytes(prior, disp, a + b) == backref_bytes(prior, disp, a) + backref_bytes(
            prior + backref_bytes(prior, disp, a),
            disp,
            b,
        ),
    decreases a,
{
    if a == 0 {
        assert(prior + Seq::<u8>::empty() =~= prior);
        assert(Seq::<u8>::empty() + backref_bytes(prior, disp, b) =~= backref_bytes(
            prior,
            disp,
            b,
        ));
    } else {
        let c = prior[prior.len() - 1 - disp];
        let next = prior.push(c);
        lemma_backref_split(next, disp, (a - 1) as nat, b);
        let first = backref_bytes(next, disp, (a - 1) as nat);
        assert(prior + (seq![c] + first) =~= next + first);
        assert(seq![c] + (first + backref_bytes(next + first, disp, b)) =~= (seq![c] + first)
            + backref_bytes(next + first, disp, b));
    }
}

/// Where bytes are written: a byte region that is filled from its start, or
/// a vector that grows. A region has no cursor of its own: `pos` is the
/// number of bytes written to it so far. A store that knows its own end takes
/// no notice of `pos`.
pub trait OutputHelper {
    /// The store is usable with this cursor.
    spec fn wf_at(&self, pos: usize) -> bool;

    /// The content of the store.
    spec fn state_at(&self, pos: usize) -> SinkState;

    /// Whether stores of this type hold their own cursor.
    spec fn own_cursor() -> bool;

    /// A store that holds its own cursor is the same whatever cursor it is
    /// handed.
    proof fn lemma_own_cursor(&self, p: usize, q: usize)
        ensures
            Self::own_cursor() ==> self.wf_at(p) == self.wf_at(q),
            Self::own_cursor() ==> self.state_at(p) == self.state_at(q),
    ;

    /// The number of bytes written so far.
    fn filled(&self, pos: usize) -> (n: usize)
        requires
            self.wf_at(pos),
        ensures
            n == self.state_at(pos).written.len(),
    ;

    /// Write one byte, if there is room for it. Tells whether there was.
    fn putc(&mut self, pos: &mut usize, c: u8) -> (fit: bool)
        requires
            old(self).wf_at(*old(pos)),
        ensures
            final(self).wf_at(*final(pos)),
            final(self).state_at(*final(pos)) == old(self).state_at(*old(pos)).emit(seq![c]),
            fit == old(self).state_at(*old(pos)).fits(1),
    ;

    /// Write as many bytes of `buf` as fit, from its start. Tells whether all did.
    fn put_buf(&mut self, pos: &mut usize, buf: &[u8]) -> (fit: bool)
        requires
            old(self).wf_at(*old(pos)),
        ensures
            final(self).wf_at(*final(pos)),
            final(self).state_at(*final(pos)) == old(self).state_at(*old(pos)).emit(buf@),
            fit == old(self).state_at(*old(pos)).fits(buf@.len() as int),
    ;

    /// Copy `len` bytes from `disp + 1` places back, one byte at a time, as many
    /// as fit. Tells whether all did.
    fn put_copy(&mut self, pos: &mut usize, disp: usize, len: usize) -> (fit: bool)
        requires
            old(self).wf_at(*old(pos)),
            disp < old(self).state_at(*old(pos)).written.len(),
        ensures
            final(self).wf_at(*final(pos)),
            final(self).state_at(*final(pos)) == old(self).state_at(*old(pos)).emit(
                backref_bytes(old(self).state_at(*old(pos)).written, disp as int, len as nat),
            ),
            fit == old(self).state_at(*old(pos)).fits(len as int),
            final(self).state_at(*final(pos)).written.len() <= usize::MAX,
    ;

    /// Set bit 5 of the first byte written.
    fn poke_l2(&mut self, pos: usize)
        requires
            old(self).wf_at(pos),
            old(self).state_at(pos).written.len() > 0,
        ensures
            final(self).wf_at(pos),
            final(self).state_at(pos) == old(self).state_at(pos).marked(),
    ;
}

impl OutputHelper for [u8] {
    open spec fn wf_at(&self, pos: usize) -> bool {
        pos <= self@.len()
    }

    open spec fn state_at(&self, pos: usize) -> SinkState {
        SinkState { written: self@.take(pos as int), room: Some(self@.skip(pos as int)) }
    }

    open spec fn own_cursor() -> bool {
        false
    }

    proof fn lemma_own_cursor(&self, p: usize, q: usize) {
    }

    fn filled(&self, pos: usize) -> (n: usize) {
        pos
    }

    fn putc(&mut self, pos: &mut usize, c: u8) -> (fit: bool) {
        let fit = *pos < self.len();
        if fit {
            self[*pos] = c;
            *pos += 1;
        }
        proof {
            let s = old(self).state_at(*old(pos));
            assert(self.state_at(*pos).written =~= s.emit(seq![c]).written);
            assert(self.state_at(*pos).room->Some_0 =~= s.emit(seq![c]).room->Some_0);
        }
        fit
    }

    fn put_buf(&mut self, pos: &mut usize, buf: &[u8]) -> (fit: bool) {
        let room: usize = self.len() - *pos;
        let fit = buf.len() <= room;
        let len: usize = if fit {
            buf.len()
        } else {
            room
        };
        let start: usize = *pos;
        let mut i: usize = 0;
        while i < len
            invariant
                i <= len,
                len <= buf@.len(),
                start + len <= self@.len() <= usize::MAX,
                *pos == start,
                self@.len() == old(self)@.len(),
                self@.take(start as int) == old(self)@.take(start as int),
                self@.subrange(start as int, start + i) == buf@.take(i as int),
                self@.skip(start + i) == old(self)@.skip(start + i),
            decreases len - i,
        {
            let ghost before = self@;
            self[start + i] = buf[i];
            proof {
                assert(self@.take(start as int) =~= before.take(start as int));
                assert(self@.subrange(start as int, start + i + 1) =~= before.subrange(
                    start as int,
                    start + i,
                ).push(buf@[i as int]));
                assert(buf@.take(i + 1) =~= buf@.take(i as int).push(buf@[i as int]));
                assert(self@.skip(start + i + 1) =~= before.skip(start + i).skip(1));
                assert(old(self)@.skip(start + i + 1) =~= old(self)@.skip(start + i).skip(1));
            }
            i += 1;
        }
        *pos += len;
        proof {
            let s = old(self).state_at(start);
            assert(self.state_at(*pos).written =~= s.emit(buf@).written) by {
                assert(self@.take(start + len) =~= self@.take(start as int) + self@.subrange(
                    start as int,
                    start + len,
                ));
            }
            assert(self.state_at(*pos).room->Some_0 =~= s.emit(buf@).room->Some_0) by {
                assert(old(self)@.skip(start + len) =~= old(self)@.skip(start as int).skip(
                    len as int,
                ));
            }
        }
        fit
    }

    fn put_copy(&mut self, pos: &mut usize, disp: usize, len: usize) -> (fit: bool) {
        let room: usize = self.len() - *pos;
        let fit = len <= room;
        let n: usize = if fit {
            len
        } else {
            room
        };
        let start: usize = *pos;
        let ghost prior = self@.take(start as int);
        let ghost total = backref_bytes(prior, disp as int, len as nat);
        let mut i: usize = 0;
        proof {
            lemma_backref_len(prior, disp as int, len as nat);
            assert(self@.subrange(start as int, start as int) + total =~= total);
        }
        while i < n
            invariant
                i <= n <= len,
                start + n <= self@.len() <= usize::MAX,
                disp < start,
                *pos == start,
                self@.len() == old(self)@.len(),
                self@.take(start as int) == prior,
                self@.skip(start + i) == old(self)@.skip(start + i),
                self@.subrange(start as int, start + i) + backref_bytes(
                    self@.take(start + i),
                    disp as int,
                    (len - i) as nat,
                ) == total,
            decreases n - i,
        {
            let ghost before = self@;
            let b: u8 = self[start + i - disp - 1];
            self[start + i] = b;
            proof {
                let w = before.take(start + i);
                assert(w[w.len() - 1 - disp] == b);
                assert(self@.take(start + i + 1) =~= w.push(b));
                assert(self@.take(start as int) =~= before.take(start as int));
                assert(self@.subrange(start as int, start + i + 1) =~= before.subrange(
                    start as int,
                    start + i,
                ) + seq![b]);
                assert((before.subrange(start as int, start + i) + seq![b]) + backref_bytes(
                    w.push(b),
                    disp as int,
                    (len - i - 1) as nat,
                ) =~= before.subrange(start as int, start + i) + (seq![b] + backref_bytes(
                    w.push(b),
                    disp as int,
                    (len - i - 1) as nat,
                )));
                assert(self@.skip(start + i + 1) =~= before.skip(start + i).skip(1));
                assert(old(self)@.skip(start + i + 1) =~= old(self)@.skip(start + i).skip(1));
            }
            i += 1;
        }
        *pos += n;
        proof {
            let s = old(self).state_at(start);
            let d = self@.subrange(start as int, start + n);
            assert(d =~= total.take(n as int));
            assert(self.state_at(*pos).written =~= s.emit(total).written) by {
                assert(self@.take(start + n) =~= self@.take(start as int) + d);
            }
            assert(self.state_at(*pos).room->Some_0 =~= s.emit(total).room->Some_0) by {
                assert(old(self)@.skip(start + n) =~= old(self)@.skip(start as int).skip(n as int));
            }
        }
        fit
    }

    fn poke_l2(&mut self, pos: usize) {
        let b: u8 = self[0];
        self[0] = b | 0b001_00000;
        proof {
            let s = old(self).state_at(pos);
            assert(self.state_at(pos).written =~= s.marked().written);
            assert(self.state_at(pos).room->Some_0 =~= s.room->Some_0);
        }
    }
}

impl OutputHelper for Vec<u8> {
    open spec fn wf_at(&self, pos: usize) -> bool {
        true
    }

    open spec fn state_at(&self, pos: usize) -> SinkState {
        SinkState { written: self@, room: None }
    }

    open spec fn own_cursor() -> bool {
        true
    }

    proof fn lemma_own_cursor(&self, p: usize, q: usize) {
    }

    fn filled(&self, pos: usize) -> (n: usize) {
        self.len()
    }

    fn putc(&mut self, pos: &mut usize, c: u8) -> (fit: bool) {
        self.push(c);
        proof {
            assert(self@ =~= old(self)@ + seq![c]);
        }
        true
    }

    fn put_buf(&mut self, pos: &mut usize, buf: &[u8]) -> (fit: bool) {
        self.extend_from_slice(buf);
        proof {
            assert(self@ =~= old(self)@ + buf@);
        }
        true
    }

    fn put_copy(&mut self, pos: &mut usize, disp: usize, len: usize) -> (fit: bool) {
        let ghost prior = self@;
        let ghost total = backref_bytes(prior, disp as int, len as nat);
        let mut i: usize = 0;
        proof {
            assert(prior + Seq::<u8>::empty() =~= prior);
            assert(Seq::<u8>::empty() + total =~= total);
        }
        while i < len
            invariant
                i <= len,
                disp < prior.len(),
                prior.len() + i == self@.len(),
                self@.take(prior.len() as int) == prior,
                self@.skip(prior.len() as int) + backref_bytes(
                    self@,
                    disp as int,
                    (len - i) as nat,
                ) == total,
            decreases len - i,
        {
            let ghost before = self@;
            let b: u8 = self[self.len() - 1 - disp];
            self.push(b);
            proof {
                assert(self@.take(prior.len() as int) =~= before.take(prior.len() as int));
                assert(self@.skip(prior.len() as int) =~= before.skip(prior.len() as int) + seq![b]);
                assert((before.skip(prior.len() as int) + seq![b]) + backref_bytes(
                    before.push(b),
                    disp as int,
                    (len - i - 1) as nat,
                ) =~= before.skip(prior.len() as int) + (seq![b] + backref_bytes(
                    before.push(b),
                    disp as int,
                    (len - i - 1) as nat,
                )));
            }
            i += 1;
        }
        proof {
            assert(self@.skip(prior.len() as int) =~= total);
            assert(self@ =~= prior + total);
            assert(self@.len() == self.len());
        }
        true
    }

    fn poke_l2(&mut self, pos: usize) {
        let b: u8 = self[0];
        self[0] = b | 0b001_00000;
        proof {
            assert(self@ =~= old(self)@.update(0, b | 0x20));
        }
    }
}

/// What every sink has: a validity condition and a mathematical content.
pub trait Sink {
    /// The sink is usable: its cursor lies inside its region.
    spec fn wf(&self) -> bool;

    /// The content of the sink.
    spec fn state(&self) -> SinkState;
}

/// A sink that takes literal runs and backreferences. What each of the two does
/// to the content, and which result it reports, is fixed by the implementing
/// type through `lits_result` and `backref_result`.
pub trait OutputSink<ErrTy>: Sink {
    /// The literal runs that `put_lits` may be given.
    spec fn accepts_lits(lits: Seq<u8>) -> bool;

    /// The backreferences that `put_backref` may be given.
    spec fn accepts_backref(disp: usize, len: usize) -> bool;

    /// The content after `put_lits` on content `s`, and the result it reports.
    spec fn lits_result(s: SinkState, lits: Seq<u8>) -> (SinkState, Result<(), ErrTy>);

    /// The content after `put_backref` on content `s`, and the result it reports.
    spec fn backref_result(s: SinkState, disp: usize, len: usize) -> (SinkState, Result<(), ErrTy>);

    /// Add the given literal run to the output, writing all the way up to the
    /// limit of a bounded sink.
    fn put_lits(&mut self, lits: &[u8]) -> (r: Result<(), ErrTy>)
        requires
            old(self).wf(),
            Self::accepts_lits(lits@),
        ensures
            final(self).wf(),
            (final(self).state(), r) == Self::lits_result(old(self).state(), lits@),
    ;

    /// Add a backreference to the output. A `disp` of 0 means the byte just
    /// before the current position; `len` may exceed `disp + 1`.
    fn put_backref(&mut self, disp: usize, len: usize) -> (r: Result<(), ErrTy>)
        requires
            old(self).wf(),
            Self::accepts_backref(disp, len),
        ensures
            final(self).wf(),
            (final(self).state(), r) == Self::backref_result(old(self).state(), disp, len),
    ;
}

/// A bounded sink: a caller's byte region and the number of bytes written to it.
pub struct BufOutput<'a> {
    pub pos: usize,
    pub buf: &'a mut [u8],
}

impl<'a> Sink for BufOutput<'a> {
    open spec fn wf(&self) -> bool {
        self.pos <= self.buf@.len()
    }

    open spec fn state(&self) -> SinkState {
        SinkState {
            written: self.buf@.take(self.pos as int),
            room: Some(self.buf@.skip(self.pos as int)),
        }
    }
}

impl<'a> BufOutput<'a> {
    /// A sink over the whole of `buf`, with nothing written yet. Whatever the
    /// sink later holds is what the caller's region holds.
    pub fn new(buf: &'a mut [u8]) -> (ret: Self)
        ensures
            ret.pos == 0,
            ret.buf@ == old(buf)@,
            final(buf)@ == final(ret.buf)@,
    {
        Self { pos: 0, buf }
    }
}

/// A growable sink: the vector of the bytes written.
pub struct VecOutput {
    pub vec: Vec<u8>,
}

impl Sink for VecOutput {
    open spec fn wf(&self) -> bool {
        true
    }

    open spec fn state(&self) -> SinkState {
        SinkState { written: self.vec@, room: None }
    }
}

impl From<Vec<u8>> for VecOutput {
    fn from(vec: Vec<u8>) -> (ret: Self) {
        Self { vec }
    }
}

impl vstd::std_specs::convert::FromSpecImpl<Vec<u8>> for VecOutput {
    open spec fn obeys_from_spec() -> bool {
        true
    }

    open spec fn from_spec(vec: Vec<u8>) -> Self {
        VecOutput { vec }
    }
}

impl<'a> OutputHelper for BufOutput<'a> {
    open spec fn wf_at(&self, pos: usize) -> bool {
        self.pos <= self.buf@.len()
    }

    open spec fn state_at(&self, pos: usize) -> SinkState {
        SinkState {
            written: self.buf@.take(self.pos as int),
            room: Some(self.buf@.skip(self.pos as int)),
        }
    }

    open spec fn own_cursor() -> bool {
        true
    }

    proof fn lemma_own_cursor(&self, p: usize, q: usize) {
    }

    fn filled(&self, pos: usize) -> (n: usize) {
        self.pos
    }

    fn putc(&mut self, pos: &mut usize, c: u8) -> (fit: bool) {
        self.buf.putc(&mut self.pos, c)
    }

    fn put_buf(&mut self, pos: &mut usize, buf: &[u8]) -> (fit: bool) {
        self.buf.put_buf(&mut self.pos, buf)
    }

    fn put_copy(&mut self, pos: &mut usize, disp: usize, len: usize) -> (fit: bool) {
        self.buf.put_copy(&mut self.pos, disp, len)
    }

    fn poke_l2(&mut self, pos: usize) {
        self.buf.poke_l2(self.pos)
    }
}

impl OutputHelper for VecOutput {
    open spec fn wf_at(&self, pos: usize) -> bool {
        true
    }

    open spec fn state_at(&self, pos: usize) -> SinkState {
        SinkState { written: self.vec@, room: None }
    }

    open spec fn own_cursor() -> bool {
        true
    }

    proof fn lemma_own_cursor(&self, p: usize, q: usize) {
    }

    fn filled(&self, pos: usize) -> (n: usize) {
        self.vec.len()
    }

    fn putc(&mut self, pos: &mut usize, c: u8) -> (fit: bool) {
        self.vec.putc(pos, c)
    }

    fn put_buf(&mut self, pos: &mut usize, buf: &[u8]) -> (fit: bool) {
        self.vec.put_buf(pos, buf)
    }

    fn put_copy(&mut self, pos: &mut usize, disp: usize, len: usize) -> (fit: bool) {
        self.vec.put_copy(pos, disp, len)
    }

    fn poke_l2(&mut self, pos: usize) {
        self.vec.poke_l2(pos)
    }
}

} // verus!
