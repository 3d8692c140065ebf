//! What is compressed decompresses to the input again.

use crate::compress::{
    backref, candidate, common, compressed, confirmed, hash_at, is_far, l1_backref, l2_backref,
    lemma_scan_match_end, lemma_scan_match_on, lemma_scan_pass, lemma_scan_stop, len_ext, lit_run,
    match_len, max_disp_of, scan, uses_level2, CompressionLevel,
};
use crate::decompress::{
    decoded, l1_backref_read, l2_backref_read, lemma_records_backref, lemma_records_end,
    lemma_records_lits, len_ext_read, records, stripped, Decoded, Header,
};
use crate::util::{backref_bytes, lemma_backref_len, lemma_backref_split, mark};
use vstd::prelude::*;

verus! {

/// The decoder reads an encoded literal run as the literals that were encoded,
/// and goes on behind it.
pub proof fn lemma_lit_run_decodes(level2: bool, lits: Seq<u8>, y: Seq<u8>, prior: Seq<u8>)
    ensures
        records(level2, lit_run(lits) + y, prior) == (Decoded {
            out: lits + records(level2, y, prior + lits).out,
            err: records(level2, y, prior + lits).err,
        }),
    decreases lits.len(),
{
    let x = lit_run(lits) + y;
    if lits.len() == 0 {
        assert(x =~= y);
        assert(prior + lits =~= prior);
        assert(lits + records(level2, y, prior).out =~= records(level2, y, prior).out);
    } else if lits.len() <= 32 {
        let n = lits.len() as int;
        assert(x[0] == (n - 1) as u8);
        lemma_records_lits(level2, x, prior);
        assert(x.subrange(1, 1 + n) =~= lits);
        assert(x.skip(1 + n) =~= y);
    } else {
        let first = lits.take(32);
        let later = lits.skip(32);
        let z = lit_run(later) + y;
        assert(x =~= seq![31u8] + first + z);
        assert(x[0] == 31u8);
        lemma_records_lits(level2, x, prior);
        assert(x.subrange(1, 33) =~= first);
        assert(x.skip(33) =~= z);
        lemma_lit_run_decodes(level2, later, y, prior + first);
        assert((prior + first) + later =~= prior + lits);
        assert(first + (later + records(level2, y, prior + lits).out) =~= lits + records(
            level2,
            y,
            prior + lits,
        ).out);
    }
}

/// The decoder reads the length-extension bytes of a value as that value.
pub proof fn lemma_len_ext_decodes(n: int, z: Seq<u8>)
    requires
        0 <= n,
    ensures
        len_ext_read(len_ext(n) + z) == Some((n, len_ext(n).len() as int)),
    decreases n,
{
    let x = len_ext(n) + z;
    if n < 255 {
        assert(x[0] == n as u8);
    } else {
        assert(x[0] == 255u8);
        assert(x.skip(1) =~= len_ext(n - 255) + z);
        lemma_len_ext_decodes(n - 255, z);
    }
}

/// The decoder reads the level-1 encoding of a backreference as that
/// backreference, and goes on behind it.
pub proof fn lemma_l1_backref_decodes(disp: int, len: int, y: Seq<u8>, prior: Seq<u8>)
    requires
        0 <= disp <= 8191,
        disp < prior.len(),
        3 <= len,
    ensures
        ({
            let copy = backref_bytes(prior, disp, len as nat);
            records(false, l1_backref(disp, len) + y, prior) == (Decoded {
                out: copy + records(false, y, prior + copy).out,
                err: records(false, y, prior + copy).err,
            })
        }),
    decreases len,
{
    let x = l1_backref(disp, len) + y;
    let hi = disp / 256;
    let lo = disp % 256;
    if len > 264 {
        let z = l1_backref(disp, len - 262) + y;
        assert(x =~= seq![(224 + hi) as u8, 253u8, lo as u8] + z);
        assert(x[0] == (224 + hi) as u8);
        lemma_records_backref(false, x, prior);
        let t = x.skip(1);
        assert(t[0] == 253u8 && t[1] == lo as u8);
        let h = l1_backref_read(x[0], t)->Some_0;
        assert(h == (Header { disp: disp, len: 262, used: 2 }));
        assert(x.skip(3) =~= z);
        let first = backref_bytes(prior, disp, 262);
        lemma_backref_len(prior, disp, 262);
        lemma_l1_backref_decodes(disp, len - 262, y, prior + first);
        lemma_backref_split(prior, disp, 262, (len - 262) as nat);
        let second = backref_bytes(prior + first, disp, (len - 262) as nat);
        let copy = backref_bytes(prior, disp, len as nat);
        assert((prior + first) + second =~= prior + copy);
        assert(first + (second + records(false, y, prior + copy).out) =~= copy + records(
            false,
            y,
            prior + copy,
        ).out);
    } else if len <= 8 {
        assert(x =~= seq![((len - 2) * 32 + hi) as u8, lo as u8] + y);
        assert(x[0] == ((len - 2) * 32 + hi) as u8);
        lemma_records_backref(false, x, prior);
        let t = x.skip(1);
        assert(t[0] == lo as u8);
        let h = l1_backref_read(x[0], t)->Some_0;
        assert(h == (Header { disp: disp, len: len, used: 1 }));
        assert(x.skip(2) =~= y);
    } else {
        assert(x =~= seq![(224 + hi) as u8, (len - 9) as u8, lo as u8] + y);
        assert(x[0] == (224 + hi) as u8);
        lemma_records_backref(false, x, prior);
        let t = x.skip(1);
        assert(t[0] == (len - 9) as u8 && t[1] == lo as u8);
        let h = l1_backref_read(x[0], t)->Some_0;
        assert(h == (Header { disp: disp, len: len, used: 2 }));
        assert(x.skip(3) =~= y);
    }
}

/// The decoder reads the level-2 encoding of a backreference as that
/// backreference, and goes on behind it.
pub proof fn lemma_l2_backref_decodes(disp: int, len: int, y: Seq<u8>, prior: Seq<u8>)
    requires
        0 <= disp <= 8191 + 65535,
        disp < prior.len(),
        3 <= len,
    ensures
        ({
            let copy = backref_bytes(prior, disp, len as nat);
            records(true, l2_backref(disp, len) + y, prior) == (Decoded {
                out: copy + records(true, y, prior + copy).out,
                err: records(true, y, prior + copy).err,
            })
        }),
{
    let x = l2_backref(disp, len) + y;
    let ed = if disp < 8191 {
        disp
    } else {
        8191
    };
    let el = if len - 2 < 7 {
        len - 2
    } else {
        7
    };
    let hi = ed / 256;
    let lo = ed % 256;
    let ext = if el == 7 {
        len_ext(len - 9)
    } else {
        Seq::<u8>::empty()
    };
    let far = if ed == 8191 {
        seq![((disp - 8191) / 256) as u8, ((disp - 8191) % 256) as u8]
    } else {
        Seq::<u8>::empty()
    };
    let c = ext.len() as int;
    assert(x =~= seq![(el * 32 + hi) as u8] + (ext + (seq![lo as u8] + far + y)));
    assert(x[0] == (el * 32 + hi) as u8);
    lemma_records_backref(true, x, prior);
    let t = x.skip(1);
    assert(t =~= ext + (seq![lo as u8] + far + y));
    if el == 7 {
        lemma_len_ext_decodes(len - 9, seq![lo as u8] + far + y);
    }
    assert(t[c] == lo as u8);
    if ed == 8191 {
        assert(t[c + 1] == ((disp - 8191) / 256) as u8);
        assert(t[c + 2] == ((disp - 8191) % 256) as u8);
        let h = l2_backref_read(x[0], t)->Some_0;
        assert(h == (Header { disp: disp, len: len, used: c + 3 }));
        assert(x.skip(1 + c + 3) =~= y);
    } else {
        let h = l2_backref_read(x[0], t)->Some_0;
        assert(h == (Header { disp: disp, len: len, used: c + 1 }));
        assert(x.skip(1 + c + 1) =~= y);
    }
}

/// The decoder reads the encoding of a backreference at either level as that
/// backreference, and goes on behind it.
pub proof fn lemma_backref_decodes(level2: bool, disp: int, len: int, y: Seq<u8>, prior: Seq<u8>)
    requires
        0 <= disp <= max_disp_of(level2),
        disp < prior.len(),
        3 <= len,
    ensures
        ({
            let copy = backref_bytes(prior, disp, len as nat);
            records(level2, backref(level2, disp, len) + y, prior) == (Decoded {
                out: copy + records(level2, y, prior + copy).out,
                err: records(level2, y, prior + copy).err,
            })
        }),
{
    if level2 {
        lemma_l2_backref_decodes(disp, len, y, prior);
    } else {
        lemma_l1_backref_decodes(disp, len, y, prior);
    }
}

/// The bytes that `common` counts agree, and lie within `s`.
pub proof fn lemma_common_agrees(s: Seq<u8>, a: int, b: int)
    requires
        0 <= a < b <= s.len(),
    ensures
        b + common(s, a, b) <= s.len(),
        forall|p: int| b <= p < b + common(s, a, b) ==> #[trigger] s[p] == s[p - (b - a)],
    decreases s.len() - b,
{
    if b < s.len() && s[a] == s[b] {
        lemma_common_agrees(s, a + 1, b + 1);
    }
}

/// A backreference to bytes that agree with those that follow in `s` copies
/// those that follow.
pub proof fn lemma_match_copy(s: Seq<u8>, i: int, disp: int, len: nat)
    requires
        0 <= disp < i,
        i + len <= s.len(),
        forall|p: int| i <= p < i + len ==> #[trigger] s[p] == s[p - disp - 1],
    ensures
        backref_bytes(s.take(i), disp, len) == s.subrange(i, i + len),
    decreases len,
{
    if len == 0 {
        assert(s.subrange(i, i) =~= Seq::<u8>::empty());
    } else {
        let b = s.take(i)[i - 1 - disp];
        assert(b == s[i]);
        assert(s.take(i).push(b) =~= s.take(i + 1));
        lemma_match_copy(s, i + 1, disp, (len - 1) as nat);
        assert(seq![b] + s.subrange(i + 1, i + len) =~= s.subrange(i, i + len));
    }
}

/// A match that the scan takes has at least 3 bytes, lies within `s`, and its
/// bytes agree with those at the place that it refers to.
pub proof fn lemma_match_sound(level2: bool, s: Seq<u8>, r: int, i: int)
    requires
        i + 4 <= s.len(),
        candidate(level2, s, r, i),
        confirmed(level2, s, r, i),
        is_far(level2, r, i) ==> i + 5 <= s.len(),
    ensures
        3 <= match_len(level2, s, r, i),
        i + match_len(level2, s, r, i) <= s.len(),
        forall|p: int|
            i <= p < i + match_len(level2, s, r, i) ==> #[trigger] s[p] == s[p - (i - r)],
{
    lemma_common_agrees(s, r + 3, i + 3);
    let c = common(s, r + 3, i + 3);
    if is_far(level2, r, i) {
        reveal_with_fuel(common, 3);
        assert(c >= 2);
    }
}

/// What the scan emits decodes to the input from the anchor on.
pub proof fn lemma_scan_decodes(level2: bool, s: Seq<u8>, htab: Seq<int>, i: int, anchor: int)
    requires
        0 <= anchor <= i <= s.len(),
    ensures
        records(level2, scan(level2, s, htab, i, anchor), s.take(anchor)) == (Decoded {
            out: s.skip(anchor),
            err: None,
        }),
    decreases s.len() - i,
{
    let none = Seq::<u8>::empty();
    let r = htab[hash_at(s, i)];
    let seen = htab.update(hash_at(s, i), i);
    if i + 4 > s.len() || (candidate(level2, s, r, i) && is_far(level2, r, i) && i + 5 > s.len()) {
        lemma_scan_stop(level2, s, htab, i, anchor);
        let lits = s.subrange(anchor, s.len() as int);
        lemma_lit_run_decodes(level2, lits, none, s.take(anchor));
        lemma_records_end(level2, none, s.take(anchor) + lits);
        assert(lit_run(lits) + none =~= lit_run(lits));
        assert(lits + none =~= s.skip(anchor));
    } else if !candidate(level2, s, r, i) || !confirmed(level2, s, r, i) {
        lemma_scan_pass(level2, s, htab, i, anchor);
        lemma_scan_decodes(level2, s, seen, i + 1, anchor);
    } else {
        let len = match_len(level2, s, r, i);
        let disp = i - r - 1;
        let j = i + len - 2;
        lemma_match_sound(level2, s, r, i);
        let table = seen.update(hash_at(s, j), j).update(hash_at(s, j + 1), j + 1);
        let next = scan(level2, s, table, i + len, i + len);
        if j + 4 > s.len() {
            lemma_scan_match_end(level2, s, htab, i, anchor);
            lemma_scan_stop(level2, s, table, i + len, i + len);
        } else {
            lemma_scan_match_on(level2, s, htab, i, anchor);
        }
        let lits = s.subrange(anchor, i);
        let br = backref(level2, disp, len);
        assert(scan(level2, s, htab, i, anchor) =~= lit_run(lits) + (br + next));
        lemma_lit_run_decodes(level2, lits, br + next, s.take(anchor));
        assert(s.take(anchor) + lits =~= s.take(i));
        lemma_backref_decodes(level2, disp, len, next, s.take(i));
        lemma_match_copy(s, i, disp, len as nat);
        let copy = s.subrange(i, i + len);
        assert(s.take(i) + copy =~= s.take(i + len));
        lemma_scan_decodes(level2, s, table, i + len, i + len);
        assert(lits + (copy + s.skip(i + len)) =~= s.skip(anchor));
    }
}

/// An encoded literal run starts with a control byte below 32.
pub proof fn lemma_lit_run_head(lits: Seq<u8>)
    requires
        lits.len() > 0,
    ensures
        lit_run(lits).len() > 0,
        lit_run(lits)[0] < 32,
{
}

/// With literals pending the scan emits a literal run first.
pub proof fn lemma_scan_head(level2: bool, s: Seq<u8>, htab: Seq<int>, i: int, anchor: int)
    requires
        0 <= anchor < i <= s.len(),
    ensures
        scan(level2, s, htab, i, anchor).len() > 0,
        scan(level2, s, htab, i, anchor)[0] < 32,
    decreases s.len() - i,
{
    let r = htab[hash_at(s, i)];
    let seen = htab.update(hash_at(s, i), i);
    if i + 4 > s.len() || (candidate(level2, s, r, i) && is_far(level2, r, i) && i + 5 > s.len()) {
        lemma_scan_stop(level2, s, htab, i, anchor);
        lemma_lit_run_head(s.subrange(anchor, s.len() as int));
    } else if !candidate(level2, s, r, i) || !confirmed(level2, s, r, i) {
        lemma_scan_pass(level2, s, htab, i, anchor);
        lemma_scan_head(level2, s, seen, i + 1, anchor);
    } else {
        lemma_match_sound(level2, s, r, i);
        if i + match_len(level2, s, r, i) + 2 > s.len() {
            lemma_scan_match_end(level2, s, htab, i, anchor);
        } else {
            lemma_scan_match_on(level2, s, htab, i, anchor);
        }
        lemma_lit_run_head(s.subrange(anchor, i));
    }
}

/// The mark of level 2 on a control byte below 32 shows in its top three
/// bits and leaves its low five bits as they are.
pub proof fn lemma_mark_bits(b: u8)
    by (bit_vector)
    requires
        b < 32,
    ensures
        (b | 0x20) / 32 == 1,
        (b | 0x20) % 32 == b,
        b / 32 == 0,
        b % 32 == b,
{
}

/// Round trip: what the compressor makes of an input at a level, the
/// decompressor reads as that input, without an error.
pub proof fn lemma_round_trip_at(s: Seq<u8>, level2: bool)
    ensures
        decoded(compressed(s, level2)) == (Decoded { out: s, err: None }),
{
    if s.len() == 0 {
        assert(s =~= Seq::<u8>::empty());
    } else {
        let table = Seq::new(crate::compress::HTAB_SZ as nat, |k: int| 0int);
        let raw = scan(level2, s, table, 1, 0);
        lemma_scan_head(level2, s, table, 1, 0);
        lemma_scan_decodes(level2, s, table, 1, 0);
        lemma_mark_bits(raw[0]);
        assert(s.take(0) =~= Seq::<u8>::empty());
        assert(s.skip(0) =~= s);
        assert(stripped(compressed(s, level2)) =~= raw);
    }
}

/// Round trip: for every input and every level that can be asked for, the
/// compressed stream decompresses to the input.
pub proof fn lemma_round_trip(s: Seq<u8>, level: CompressionLevel)
    ensures
        decoded(compressed(s, uses_level2(level, s.len() as int))) == (Decoded {
            out: s,
            err: None,
        }),
{
    lemma_round_trip_at(s, uses_level2(level, s.len() as int));
}

/// No input compresses to no output, and no input decompresses to no output.
pub proof fn lemma_empty(level2: bool)
    ensures
        compressed(Seq::<u8>::empty(), level2) == Seq::<u8>::empty(),
        decoded(Seq::<u8>::empty()) == (Decoded { out: Seq::<u8>::empty(), err: None }),
{
}

} // verus!
