//! PX decompression: literal bytes, 4-nibble patterns selected by control flags, and copies of
//! earlier output.
use crate::bytes::StBytes;
use crate::python::ErrorKind;
use crate::python::PyErr;
use crate::python::PyResult;
use vstd::prelude::*;

verus! {

/// How hard the compressor works.
#[derive(PartialEq, Eq, Structural, Clone, Copy, Debug)]
pub enum PxCompLevel {
    /// No compression: every operation copies one byte as it is.
    Level0,
    /// 4-byte patterns, using only control flag 0.
    Level1,
    /// 4-byte patterns, using all control flags.
    Level2,
    /// All of the above, and copies of sequences already written.
    Level3,
}

/// The number of bytes a copy command writes at least.
pub const PX_MIN_MATCH_SEQLEN: usize = 3;

/// What decompressing gives: the output, or how it failed.
pub enum PxOutcome {
    Done(Seq<u8>),
    /// A copy reaches back before the start of the output.
    OutOfBound,
    /// A copy reads past the end of the output written so far.
    ReadFail,
    /// The data ends inside a copy command.
    Truncated,
}

/// Index of the first control flag equal to `hi`.
pub open spec fn px_flag_index(flags: Seq<u8>, hi: u8) -> Option<nat>
    decreases flags.len(),
{
    if flags.len() == 0 {
        None
    } else if flags.last() == hi {
        match px_flag_index(flags.drop_last(), hi) {
            Some(i) => Some(i),
            None => Some((flags.len() - 1) as nat),
        }
    } else {
        px_flag_index(flags.drop_last(), hi)
    }
}

pub open spec fn wrap_inc(v: u8) -> u8 {
    if v == 255 {
        0
    } else {
        (v + 1) as u8
    }
}

pub open spec fn wrap_dec(v: u8) -> u8 {
    if v == 0 {
        255
    } else {
        (v - 1) as u8
    }
}

/// The four nibbles that control flag `idx` stands for with base nibble `lo` (arithmetic on
/// bytes wraps around).
pub open spec fn px_nibbles(idx: nat, lo: u8) -> Seq<u8> {
    let base = if idx == 1 {
        wrap_inc(lo)
    } else if idx == 5 {
        wrap_dec(lo)
    } else {
        lo
    };
    let ns = seq![base, base, base, base];
    if 1 <= idx <= 4 {
        ns.update(idx - 1, wrap_dec(base))
    } else {
        ns.update(idx - 5, wrap_inc(base))
    }
}

/// The two bytes a pattern command writes.
pub open spec fn px_pattern(idx: nat, lo: u8) -> Seq<u8> {
    if idx == 0 {
        let n = ((lo << 4u8) | lo) as u8;
        seq![n, n]
    } else {
        let ns = px_nibbles(idx, lo);
        seq![((ns[0] << 4u8) | ns[1]) as u8, ((ns[2] << 4u8) | ns[3]) as u8]
    }
}

/// Decompression from read position `pos` with output `out`, inside a control byte `ctrl`
/// of which `b` bits are still to be used.
pub open spec fn px_run(data: Seq<u8>, flags: Seq<u8>, pos: int, out: Seq<u8>, ctrl: u8, b: nat) -> PxOutcome
    decreases data.len() - pos,
{
    if pos >= data.len() || pos < 0 {
        PxOutcome::Done(out)
    } else if b == 0 {
        px_run(data, flags, pos + 1, out, data[pos], 8)
    } else if ctrl & (1u8 << ((b - 1) as u8)) > 0 {
        px_run(data, flags, pos + 1, out.push(data[pos]), ctrl, (b - 1) as nat)
    } else {
        let next = data[pos];
        let hi = (next >> 4u8) & 0xFu8;
        let lo = next & 0xFu8;
        match px_flag_index(flags, hi) {
            Some(i) => px_run(data, flags, pos + 1, out + px_pattern(i, lo), ctrl, (b - 1) as nat),
            None => if pos + 1 >= data.len() {
                PxOutcome::Truncated
            } else {
                let offset = -4096 + (lo as int) * 256 + (data[pos + 1] as int);
                let count = hi + PX_MIN_MATCH_SEQLEN;
                if offset < -(out.len() as int) {
                    PxOutcome::OutOfBound
                } else if out.len() + offset + count > out.len() {
                    PxOutcome::ReadFail
                } else {
                    let start = out.len() + offset;
                    px_run(data, flags, pos + 2, out + out.subrange(start, start + count), ctrl, (b - 1) as nat)
                }
            },
        }
    }
}

pub open spec fn px_decompress(data: Seq<u8>, flags: Seq<u8>) -> PxOutcome {
    px_run(data, flags, 0, Seq::<u8>::empty(), 0, 0)
}

/// Decoder of PX compressed data.
pub struct PxDecompressor;

impl PxDecompressor {
    fn matches_flags(flags: &[u8], hinibble: u8) -> (r: Option<usize>)
        ensures
            match px_flag_index(flags@, hinibble) {
                Some(i) => r == Some(i as usize),
                None => r is None,
            },
    {
        let mut idx: usize = 0;
        while idx < flags.len()
            invariant
                idx <= flags@.len(),
                px_flag_index(flags@.take(idx as int), hinibble) is None,
            decreases flags@.len() - idx,
        {
            proof {
                assert(flags@.take(idx as int + 1).drop_last() == flags@.take(idx as int));
            }
            if flags[idx] == hinibble {
                proof {
                    lemma_flag_index_prefix(flags@, idx as int + 1, hinibble);
                }
                return Some(idx);
            }
            proof {
                lemma_flag_index_prefix(flags@, idx as int + 1, hinibble);
            }
            idx = idx + 1;
        }
        proof {
            assert(flags@.take(flags@.len() as int) == flags@);
        }
        None
    }

    fn compute_four_nibbles_pattern(idx_ctrl_flags: usize, lonibble: u8) -> (r: (u8, u8))
        requires
            idx_ctrl_flags <= 8,
        ensures
            seq![r.0, r.1] == px_pattern(idx_ctrl_flags as nat, lonibble),
    {
        if idx_ctrl_flags == 0 {
            let n: u8 = lonibble << 4 | lonibble;
            (n, n)
        } else {
            let mut nibble_base: u8 = lonibble;
            if idx_ctrl_flags == 1 {
                nibble_base = nibble_base.wrapping_add(1);
            } else if idx_ctrl_flags == 5 {
                nibble_base = nibble_base.wrapping_sub(1);
            }
            assert(nibble_base == (if idx_ctrl_flags == 1 { wrap_inc(lonibble) } else if idx_ctrl_flags == 5 { wrap_dec(lonibble) } else { lonibble }));
            let mut ns: [u8; 4] = [nibble_base, nibble_base, nibble_base, nibble_base];
            if 1 <= idx_ctrl_flags && idx_ctrl_flags <= 4 {
                let v = ns[idx_ctrl_flags - 1].wrapping_sub(1);
                ns[idx_ctrl_flags - 1] = v;
            } else {
                let v = ns[idx_ctrl_flags - 5].wrapping_add(1);
                ns[idx_ctrl_flags - 5] = v;
            }
            assert(ns@ == px_nibbles(idx_ctrl_flags as nat, lonibble));
            (ns[0] << 4 | ns[1], ns[2] << 4 | ns[3])
        }
    }

    /// Decompresses `buffer` with the control flags `flags` (`max_size` is only a capacity hint).
    pub fn run(buffer: &[u8], flags: &[u8], max_size: u16) -> (r: PyResult<StBytes>)
        requires
            flags@.len() <= 9,
            !(px_decompress(buffer@, flags@) is Truncated),
        ensures
            match px_decompress(buffer@, flags@) {
                PxOutcome::Done(o) => r matches Ok(v) && v@ == o,
                PxOutcome::OutOfBound => r matches Err(e) && e.kind == ErrorKind::ValueError,
                PxOutcome::ReadFail => r matches Err(e) && e.kind == ErrorKind::IoError,
                PxOutcome::Truncated => false,
            },
    {
        let data = buffer;
        let len = data.len();
        let mut out: Vec<u8> = Vec::new();
        let mut pos: usize = 0;
        let ghost goal = px_decompress(buffer@, flags@);
        while pos < len
            invariant
                len == data@.len(),
                data@ == buffer@,
                pos <= len,
                flags@.len() <= 9,
                px_run(data@, flags@, pos as int, out@, 0, 0) == goal,
                !(goal is Truncated),
                goal == px_decompress(buffer@, flags@),
            decreases len - pos,
        {
            let ctrl = data[pos];
            pos = pos + 1;
            let mut b: u8 = 8;
            let ghost p_start = pos;
            while b > 0 && pos < len
                invariant
                    pos >= p_start,
                    len == data@.len(),
                    data@ == buffer@,
                    pos <= len,
                    b <= 8,
                    flags@.len() <= 9,
                    px_run(data@, flags@, pos as int, out@, ctrl, b as nat) == goal,
                    !(goal is Truncated),
                    goal == px_decompress(buffer@, flags@),
                decreases len - pos,
            {
                let bit: u8 = b - 1;
                if ctrl & (1u8 << bit) > 0 {
                    out.push(data[pos]);
                    pos = pos + 1;
                } else {
                    let next = data[pos];
                    let hinibble: u8 = (next >> 4) & 0xF;
                    let lonibble: u8 = next & 0xF;
                    assert(lonibble <= 15 && hinibble <= 15) by (bit_vector)
                        requires lonibble == next & 0xF, hinibble == (next >> 4) & 0xF;
                    proof {
                        lemma_flag_index_bound(flags@, hinibble);
                    }
                    match Self::matches_flags(flags, hinibble) {
                        Some(x) => {
                            let (p0, p1) = Self::compute_four_nibbles_pattern(x, lonibble);
                            let ghost before = out@;
                            out.push(p0);
                            out.push(p1);
                            assert(out@ == before + px_pattern(x as nat, lonibble));
                            pos = pos + 1;
                        },
                        None => {
                            let nb = data[pos + 1];
                            let lo_sh: i64 = (lonibble as i64) << 8;
                            assert(lo_sh == (lonibble as i64) * 256) by (bit_vector)
                                requires lonibble <= 15, lo_sh == (lonibble as i64) << 8;
                            let basev: i64 = -0x1000 + lo_sh;
                            let nbi: i64 = nb as i64;
                            let offset: i64 = basev | nbi;
                            assert(offset == -4096 + lo_sh + nbi) by (bit_vector)
                                requires
                                    lo_sh == (lonibble as i64) * 256,
                                    lonibble <= 15,
                                    0 <= nbi < 256,
                                    basev == -4096 + lo_sh,
                                    offset == basev | nbi;
                            let back: usize = (-offset) as usize;
                            let ghost offs = -4096 + (lonibble as int) * 256 + (data@[pos + 1] as int);
                            assert(offs == offset);
                            assert(px_flag_index(flags@, hinibble) is None);
                            assert(ctrl & (1u8 << ((b - 1) as u8)) == 0);
                            if back > out.len() {
                                assert(offs < -(out@.len() as int));
                                assert(px_run(data@, flags@, pos as int, out@, ctrl, b as nat) is OutOfBound);
                                return Err(PyErr::new(
                                    ErrorKind::ValueError,
                                    "Sequence to copy out of bound! Either the data to decompress is not valid PX compressed data, or something happened with our cursor that made us read the wrong bytes..",
                                ));
                            }
                            let bytes_to_copy: usize = hinibble as usize + PX_MIN_MATCH_SEQLEN;
                            if bytes_to_copy > back {
                                assert(px_run(data@, flags@, pos as int, out@, ctrl, b as nat) is ReadFail);
                                return Err(PyErr::new(ErrorKind::IoError, "failed to fill whole buffer"));
                            }
                            let start: usize = out.len() - back;
                            let piece = crate::bytes::copy_range(out.as_slice(), start, start + bytes_to_copy);
                            let ghost before = out@;
                            crate::bytes::push_all(&mut out, piece.as_slice());
                            assert(out@ == before + before.subrange(start as int, start + bytes_to_copy));
                            pos = pos + 2;
                        },
                    }
                }
                b = b - 1;
            }
        }
        Ok(StBytes(out))
    }
}

proof fn lemma_flag_index_prefix(flags: Seq<u8>, k: int, hi: u8)
    requires
        0 < k <= flags.len(),
        px_flag_index(flags.take(k - 1), hi) is None,
    ensures
        flags[k - 1] == hi ==> px_flag_index(flags.take(k), hi) == Some((k - 1) as nat),
        flags[k - 1] != hi ==> px_flag_index(flags.take(k), hi) is None,
        flags[k - 1] == hi ==> px_flag_index(flags, hi) == Some((k - 1) as nat),
    decreases flags.len() - k,
{
    assert(flags.take(k).drop_last() == flags.take(k - 1));
    assert(flags.take(k).last() == flags[k - 1]);
    if flags[k - 1] == hi && k < flags.len() {
        lemma_flag_index_extend(flags, k, hi);
    }
    if k == flags.len() {
        assert(flags.take(k) == flags);
    }
}

proof fn lemma_flag_index_bound(flags: Seq<u8>, hi: u8)
    ensures
        px_flag_index(flags, hi) matches Some(i) ==> i < flags.len(),
    decreases flags.len(),
{
    if flags.len() > 0 {
        lemma_flag_index_bound(flags.drop_last(), hi);
    }
}

proof fn lemma_flag_index_extend(flags: Seq<u8>, k: int, hi: u8)
    requires
        0 < k <= flags.len(),
        px_flag_index(flags.take(k), hi) is Some,
    ensures
        px_flag_index(flags, hi) == px_flag_index(flags.take(k), hi),
    decreases flags.len() - k,
{
    if k < flags.len() {
        assert(flags.take(k + 1).drop_last() == flags.take(k));
        lemma_flag_index_extend(flags, k + 1, hi);
    } else {
        assert(flags.take(k) == flags);
    }
}


// ---------------------------------------------------------------------------------------------
// Compression.

/// How far back the compressor looks for a matching sequence.
pub const PX_LOOKBACK_BUFFER_SIZE: usize = 4096;

/// The longest sequence a copy command can write.
pub const PX_MAX_MATCH_SEQLEN: usize = 18;

/// How many distinct copy lengths can be used: the 16 high-nibble values less the 9 flags.
pub const PX_NB_POSSIBLE_SEQUENCES_LEN: usize = 7;

/// What one compressed command does.
#[derive(PartialEq, Eq, Structural, Clone, Copy, Debug)]
pub enum Operation {
    /// A byte stored as it is.
    CopyAsis,
    /// A 4-nibble pattern; the number is the control flag it is stored with (0 to 8).
    CopyNybble(u8),
    /// A copy of earlier output.
    CopySequence,
}

/// One compressed command: its kind, the nibbles it stores and, for a copy, the second byte.
#[derive(PartialEq, Eq, Structural, Clone, Copy, Debug)]
pub struct CompOp {
    pub typ: Operation,
    pub highnybble: u8,
    pub lownybble: u8,
    pub nextbytevalue: u8,
}

/// The nibble that all four nibbles of the two bytes at `p` equal, if they are all equal.
pub open spec fn px_two_in_one(d: Seq<u8>, p: int) -> Option<u8> {
    if p + 2 > d.len() {
        None
    } else {
        let (a, b) = (d[p], d[p + 1]);
        let l = (b % 16) as u8;
        if a / 16 == l && a % 16 == l && b / 16 == l {
            Some(l)
        } else {
            None
        }
    }
}

/// How many of the four nibbles equal `x`.
pub open spec fn nib_count(x: u8, n0: u8, n1: u8, n2: u8, n3: u8) -> int {
    (if n0 == x { 1int } else { 0int }) + (if n1 == x { 1int } else { 0int }) + (if n2 == x { 1int } else { 0int }) + (
    if n3 == x { 1int } else { 0int })
}

/// The position of the first of the four nibbles equal to `x`.
pub open spec fn nib_first(x: u8, n0: u8, n1: u8, n2: u8) -> nat {
    if n0 == x {
        0
    } else if n1 == x {
        1
    } else if n2 == x {
        2
    } else {
        3
    }
}

pub open spec fn nib_at(i: nat, n0: u8, n1: u8, n2: u8, n3: u8) -> u8 {
    if i == 0 {
        n0
    } else if i == 1 {
        n1
    } else if i == 2 {
        n2
    } else {
        n3
    }
}

pub open spec fn min4(n0: u8, n1: u8, n2: u8, n3: u8) -> u8 {
    let a = if n0 <= n1 { n0 } else { n1 };
    let b = if n2 <= n3 { n2 } else { n3 };
    if a <= b { a } else { b }
}

pub open spec fn max4(n0: u8, n1: u8, n2: u8, n3: u8) -> u8 {
    let a = if n0 >= n1 { n0 } else { n1 };
    let b = if n2 >= n3 { n2 } else { n3 };
    if a >= b { a } else { b }
}

/// The control flag and low nibble with which the two bytes at `p` can be stored as one, where
/// three of their nibbles are equal and the fourth differs from them by one: flags 1 to 4 for
/// a smaller fourth nibble, 5 to 8 for a larger one.
pub open spec fn px_manip(d: Seq<u8>, p: int) -> Option<(nat, u8)> {
    if p + 2 > d.len() {
        None
    } else {
        let (n0, n1, n2, n3) = ((d[p] / 16) as u8, (d[p] % 16) as u8, (d[p + 1] / 16) as u8, (d[p + 1] % 16) as u8);
        let threes = (if nib_count(n0, n0, n1, n2, n3) == 3 { 1int } else { 0int }) + (if nib_count(n1, n0, n1, n2, n3) == 3 {
            1int
        } else {
            0int
        }) + (if nib_count(n2, n0, n1, n2, n3) == 3 { 1int } else { 0int }) + (if nib_count(n3, n0, n1, n2, n3) == 3 {
            1int
        } else {
            0int
        });
        let nmin = min4(n0, n1, n2, n3);
        let nmax = max4(n0, n1, n2, n3);
        if threes >= 3 && nmax - nmin == 1 {
            let is = nib_first(nmin, n0, n1, n2);
            let il = nib_first(nmax, n0, n1, n2);
            if nib_count(nib_at(is, n0, n1, n2, n3), n0, n1, n2, n3) == 1 {
                Some(((1 + is) as nat, if is == 0 { n0 } else { (nib_at(is, n0, n1, n2, n3) + 1) as u8 }))
            } else {
                Some(((5 + il) as nat, if il == 0 { n0 } else { (nib_at(il, n0, n1, n2, n3) - 1) as u8 }))
            }
        } else {
            None
        }
    }
}

/// How many bytes from `f1` (before `l1`) equal those from `f2` (before `l2`), up to the first
/// difference.
pub open spec fn px_count_eq(d: Seq<u8>, f1: int, l1: int, f2: int, l2: int) -> int
    decreases l1 - f1,
{
    if f1 >= l1 || f2 >= l2 || d[f1] != d[f2] {
        0
    } else {
        1 + px_count_eq(d, f1 + 1, l1, f2 + 1, l2)
    }
}

/// Looks, from `cur` on, for earlier occurrences (ending before `send`) of the three bytes at
/// `p`: the first position with the longest match with the bytes from `p` (before `pend`), each
/// match at most 18 long and ending before `send`; the search stops at a match of 18.
pub open spec fn px_scan(d: Seq<u8>, cur: int, send: int, p: int, pend: int, bp: int, bl: int) -> (int, int)
    decreases send - cur,
{
    if cur + 3 > send {
        (bp, bl)
    } else if d.subrange(cur, cur + 3) == d.subrange(p, p + 3) {
        let lim = if cur + 18 <= send { cur + 18 } else { send };
        let nb = px_count_eq(d, cur, lim, p, pend);
        let (bp2, bl2) = if bl < nb { (cur, nb) } else { (bp, bl) };
        if nb == 18 {
            (bp2, bl2)
        } else {
            px_scan(d, cur + 1, send, p, pend, bp2, bl2)
        }
    } else {
        px_scan(d, cur + 1, send, p, pend, bp, bl)
    }
}

/// `s` with `v` inserted before its first larger value.
pub open spec fn insert_sorted(s: Seq<usize>, v: usize) -> Seq<usize>
    decreases s.len(),
{
    if s.len() == 0 {
        seq![v]
    } else if s[0] > v {
        seq![v] + s
    } else {
        seq![s[0]] + insert_sorted(s.drop_first(), v)
    }
}

/// Whether copy length `v` (less 3) can be used, and the allowed lengths after reserving it
/// where there is room.
pub open spec fn px_check_add(lens: Seq<usize>, v: usize) -> (bool, Seq<usize>) {
    if lens.contains(v) {
        (true, lens)
    } else if lens.len() < 7 {
        (true, insert_sorted(lens, v))
    } else {
        (false, lens)
    }
}

/// The last of the first `k` allowed lengths that is shorter than a match of `sl` bytes.
pub open spec fn px_last_cand(lens: Seq<usize>, sl: int, k: nat, acc: usize) -> usize
    decreases k,
{
    if k == 0 {
        acc
    } else {
        let a = px_last_cand(lens, sl, (k - 1) as nat, acc);
        if lens[k - 1] + 3 < sl { lens[k - 1] } else { a }
    }
}

/// The copy command for the bytes at `pos`, if a match of at least 3 bytes is found in the 4096
/// bytes before, and the allowed lengths after it; its length is shortened to an allowed one
/// where no more lengths can be reserved.
pub open spec fn px_match(d: Seq<u8>, pos: int, lens: Seq<usize>) -> Option<(CompOp, Seq<usize>)> {
    let lb = if pos > 4096 { pos - 4096 } else { 0 };
    let end = if pos + 18 <= d.len() { pos + 18 } else { d.len() as int };
    if end - pos < 3 {
        None
    } else {
        let (sp, sl) = px_scan(d, lb, pos, pos, end, pos, 0);
        if sl < 3 {
            None
        } else {
            let v = (sl - 3) as usize;
            let (ok, lens2) = px_check_add(lens, v);
            let valid = if ok { v } else { px_last_cand(lens, sl, lens.len(), v) };
            let u = 65536 - (pos - sp);
            Some((CompOp { typ: Operation::CopySequence, highnybble: valid as u8, lownybble: ((u / 256) % 16) as u8, nextbytevalue: (u % 256) as u8 }, lens2))
        }
    }
}

/// The command for the bytes at `pos`, where the next command starts, and the allowed copy
/// lengths after it.
pub open spec fn px_step(d: Seq<u8>, pos: int, lens: Seq<usize>, level: nat, ssf: bool) -> (CompOp, int, Seq<usize>) {
    let m = if level >= 3 { px_match(d, pos, lens) } else { None };
    if ssf && m is Some {
        let (op, l2) = m->0;
        (op, pos + op.highnybble + 3, l2)
    } else if level >= 1 && px_two_in_one(d, pos) is Some {
        (CompOp { typ: Operation::CopyNybble(0), highnybble: 0, lownybble: px_two_in_one(d, pos)->0, nextbytevalue: 0 }, pos + 2, lens)
    } else if level >= 2 && px_manip(d, pos) is Some {
        let (idx, l) = px_manip(d, pos)->0;
        (CompOp { typ: Operation::CopyNybble(idx as u8), highnybble: 0, lownybble: l, nextbytevalue: 0 }, pos + 2, lens)
    } else if !ssf && m is Some {
        let (op, l2) = m->0;
        (op, pos + op.highnybble + 3, l2)
    } else {
        (CompOp { typ: Operation::CopyAsis, highnybble: (d[pos] / 16) as u8, lownybble: (d[pos] % 16) as u8, nextbytevalue: 0 }, pos + 1, lens)
    }
}

/// The commands for the bytes from `pos` on, and the allowed copy lengths at the end.
pub open spec fn px_ops(d: Seq<u8>, pos: int, lens: Seq<usize>, level: nat, ssf: bool) -> (Seq<CompOp>, Seq<usize>)
    decreases (if pos < d.len() { d.len() - pos } else { 0 }),
{
    if pos >= d.len() {
        (Seq::<CompOp>::empty(), lens)
    } else {
        let (op, np, l2) = px_step(d, pos, lens, level, ssf);
        if np <= pos {
            (Seq::<CompOp>::empty(), lens)
        } else {
            let (rest, lf) = px_ops(d, np, l2, level, ssf);
            (seq![op] + rest, lf)
        }
    }
}

/// The allowed copy lengths filled up with the smallest unused values below 15 to 7 lengths.
pub open spec fn px_fill_lens(lens: Seq<usize>, v: nat) -> Seq<usize>
    decreases 15 - v,
{
    if v >= 15 || lens.len() >= 7 {
        lens
    } else {
        px_fill_lens(if lens.contains(v as usize) { lens } else { lens.push(v as usize) }, v + 1)
    }
}

/// The control flags: the values from `v` on below 15 that are no copy length, in order, into
/// the slots from `it` on.
pub open spec fn px_flag_values(lens: Seq<usize>, v: nat, it: nat, flags: Seq<u8>) -> Seq<u8>
    decreases 15 - v,
{
    if v >= 15 {
        flags
    } else if !lens.contains(v as usize) && it < 9 {
        px_flag_values(lens, v + 1, it + 1, flags.update(it as int, v as u8))
    } else {
        px_flag_values(lens, v + 1, it, flags)
    }
}

/// The control flags for the copy lengths that were reserved.
pub open spec fn px_flags(lens: Seq<usize>) -> Seq<u8> {
    let full = if lens.len() != 7 { px_fill_lens(lens, 0) } else { lens };
    px_flag_values(full, 0, 0, Seq::new(9, |i: int| 0u8))
}

/// The bytes of one command.
pub open spec fn px_op_bytes(op: CompOp, flags: Seq<u8>) -> Seq<u8> {
    match op.typ {
        Operation::CopyAsis => seq![((op.highnybble << 4u8) & 0xF0u8) | op.lownybble],
        Operation::CopySequence => seq![((op.highnybble << 4u8) & 0xF0u8) | op.lownybble, op.nextbytevalue],
        Operation::CopyNybble(i) => seq![(flags[i as int] << 4u8) | op.lownybble],
    }
}

/// The command byte of a group of up to 8 commands after its first `i` commands: a set bit for
/// each byte stored as it is, the first command in the highest bit.
pub open spec fn px_cmd_byte(g: Seq<CompOp>, i: nat) -> u8
    decreases i,
{
    if i == 0 {
        0
    } else {
        px_cmd_byte(g, (i - 1) as nat) | (if g[i - 1].typ is CopyAsis { 1u8 << (7 - (i - 1)) as u8 } else { 0u8 })
    }
}

/// The bytes of the first `k` commands.
pub open spec fn px_ops_bytes(g: Seq<CompOp>, flags: Seq<u8>, k: nat) -> Seq<u8>
    decreases k,
{
    if k == 0 {
        Seq::<u8>::empty()
    } else {
        px_ops_bytes(g, flags, (k - 1) as nat) + px_op_bytes(g[k - 1], flags)
    }
}

/// The `k`-th group of 8 commands (the last may be shorter).
pub open spec fn px_group(ops: Seq<CompOp>, k: int) -> Seq<CompOp> {
    if 8 * k + 8 <= ops.len() {
        ops.subrange(8 * k, 8 * k + 8)
    } else {
        ops.subrange(8 * k, ops.len() as int)
    }
}

/// The output for the first `k` groups of commands: each group's command byte, then its
/// commands.
pub open spec fn px_output(ops: Seq<CompOp>, flags: Seq<u8>, k: nat) -> Seq<u8>
    decreases k,
{
    if k == 0 {
        Seq::<u8>::empty()
    } else {
        let g = px_group(ops, k - 1);
        px_output(ops, flags, (k - 1) as nat) + seq![px_cmd_byte(g, g.len())] + px_ops_bytes(g, flags, g.len())
    }
}

/// The number of a compression level.
pub open spec fn px_level(l: PxCompLevel) -> nat {
    match l {
        PxCompLevel::Level0 => 0,
        PxCompLevel::Level1 => 1,
        PxCompLevel::Level2 => 2,
        PxCompLevel::Level3 => 3,
    }
}

/// What PX compression of `d` gives: the compressed data and the control flags.
pub open spec fn px_compress(d: Seq<u8>, level: PxCompLevel, ssf: bool) -> (Seq<u8>, Seq<u8>) {
    let (ops, lens) = px_ops(d, 0, seq![0usize, 15usize], px_level(level), ssf);
    let flags = px_flags(lens);
    (px_output(ops, flags, ((ops.len() + 7) / 8) as nat), flags)
}

proof fn lemma_count_eq_bounds(d: Seq<u8>, f1: int, l1: int, f2: int, l2: int)
    ensures
        0 <= px_count_eq(d, f1, l1, f2, l2),
        f1 <= l1 ==> px_count_eq(d, f1, l1, f2, l2) <= l1 - f1,
        f2 <= l2 ==> px_count_eq(d, f1, l1, f2, l2) <= l2 - f2,
    decreases l1 - f1,
{
    if !(f1 >= l1 || f2 >= l2 || d[f1] != d[f2]) {
        lemma_count_eq_bounds(d, f1 + 1, l1, f2 + 1, l2);
    }
}

/// The first position from `cur` on whose three bytes (ending before `send`) equal those at `p`.
pub open spec fn px_next_match(d: Seq<u8>, cur: int, send: int, p: int) -> Option<int>
    decreases send - cur,
{
    if cur + 3 > send {
        None
    } else if d.subrange(cur, cur + 3) == d.subrange(p, p + 3) {
        Some(cur)
    } else {
        px_next_match(d, cur + 1, send, p)
    }
}

proof fn lemma_next_match_scan(d: Seq<u8>, cur: int, send: int, p: int, pend: int, bp: int, bl: int)
    ensures
        px_next_match(d, cur, send, p) matches Some(q) ==> cur <= q && q + 3 <= send && d.subrange(q, q + 3) == d.subrange(p, p + 3)
            && px_scan(d, cur, send, p, pend, bp, bl) == px_scan(d, q, send, p, pend, bp, bl),
        px_next_match(d, cur, send, p) is None ==> px_scan(d, cur, send, p, pend, bp, bl) == (bp, bl),
    decreases send - cur,
{
    if cur + 3 > send {
    } else if d.subrange(cur, cur + 3) == d.subrange(p, p + 3) {
    } else {
        lemma_next_match_scan(d, cur + 1, send, p, pend, bp, bl);
    }
}

proof fn lemma_scan_bounds(d: Seq<u8>, cur: int, send: int, p: int, pend: int, bp: int, bl: int, lo: int, init: int)
    requires
        lo <= cur,
        p <= pend,
        0 <= bl <= 18,
        bl <= pend - p,
        bl > 0 ==> lo <= bp && bp + 3 <= send,
        bl == 0 ==> bp == init,
    ensures
        ({
            let (rp, rl) = px_scan(d, cur, send, p, pend, bp, bl);
            &&& 0 <= rl <= 18
            &&& rl <= pend - p
            &&& (rl > 0 ==> lo <= rp && rp + 3 <= send)
            &&& (rl == 0 ==> rp == init)
        }),
    decreases send - cur,
{
    if cur + 3 > send {
    } else if d.subrange(cur, cur + 3) == d.subrange(p, p + 3) {
        let lim = if cur + 18 <= send { cur + 18 } else { send };
        lemma_count_eq_bounds(d, cur, lim, p, pend);
        let nb = px_count_eq(d, cur, lim, p, pend);
        let (bp2, bl2) = if bl < nb { (cur, nb) } else { (bp, bl) };
        if nb != 18 {
            lemma_scan_bounds(d, cur + 1, send, p, pend, bp2, bl2, lo, init);
        }
    } else {
        lemma_scan_bounds(d, cur + 1, send, p, pend, bp, bl, lo, init);
    }
}

proof fn lemma_insert_sorted(s: Seq<usize>, v: usize, i: int)
    requires
        0 <= i <= s.len(),
        forall|j: int| 0 <= j < i ==> s[j] <= v,
        i < s.len() ==> s[i] > v,
    ensures
        insert_sorted(s, v) == s.take(i).push(v) + s.skip(i),
    decreases s.len(),
{
    if s.len() == 0 {
        assert(s.take(0).push(v) + s.skip(0) =~= seq![v]);
    } else if i == 0 {
        assert(s.take(0).push(v) + s.skip(0) =~= seq![v] + s);
    } else {
        lemma_insert_sorted(s.drop_first(), v, i - 1);
        assert(s.take(i).push(v) + s.skip(i) =~= seq![s[0]] + (s.drop_first().take(i - 1).push(v) + s.drop_first().skip(i - 1)));
    }
}

proof fn lemma_last_cand(lens: Seq<usize>, sl: int, k: nat, acc: usize)
    requires
        k <= lens.len(),
    ensures
        px_last_cand(lens, sl, k, acc) == acc || px_last_cand(lens, sl, k, acc) + 3 < sl,
    decreases k,
{
    if k > 0 {
        lemma_last_cand(lens, sl, (k - 1) as nat, acc);
    }
}

/// Whether `s` holds `v`.
fn vec_contains(s: &Vec<usize>, v: usize) -> (r: bool)
    ensures
        r == s@.contains(v),
{
    let mut i: usize = 0;
    while i < s.len()
        invariant
            i <= s@.len(),
            forall|j: int| 0 <= j < i ==> s@[j] != v,
        decreases s@.len() - i,
    {
        if s[i] == v {
            assert(s@[i as int] == v);
            return true;
        }
        i = i + 1;
    }
    false
}

/// The commands and output of PX compression.
pub struct PxCompressor;

impl PxCompressor {
    /// The nibble all four nibbles of the two bytes at `pos` equal, if they do.
    fn can_compress_to_2_in_1_byte(d: &[u8], pos: usize) -> (r: Option<u8>)
        ensures
            r == px_two_in_one(d@, pos as int),
    {
        let n = d.len();
        if pos >= n || n - pos < 2 {
            return None;
        }
        let a = d[pos];
        let b = d[pos + 1];
        let l: u8 = b % 16;
        if a / 16 == l && a % 16 == l && b / 16 == l {
            Some(l)
        } else {
            None
        }
    }

    /// The control flag and low nibble with which the two bytes at `pos` are stored as one
    /// (see `px_manip`).
    fn can_compress_to_2_in_1_byte_with_manipulation(d: &[u8], pos: usize) -> (r: Option<(u8, u8)>)
        ensures
            match px_manip(d@, pos as int) {
                Some((i, l)) => r == Some((i as u8, l)),
                None => r is None,
            },
    {
        let n = d.len();
        if pos >= n || n - pos < 2 {
            return None;
        }
        let n0: u8 = d[pos] / 16;
        let n1: u8 = d[pos] % 16;
        let n2: u8 = d[pos + 1] / 16;
        let n3: u8 = d[pos + 1] % 16;
        let c0: u8 = (if n0 == n0 { 1u8 } else { 0 }) + (if n1 == n0 { 1u8 } else { 0 }) + (if n2 == n0 { 1u8 } else { 0 }) + (if n3 == n0 { 1u8 } else { 0 });
        let c1: u8 = (if n0 == n1 { 1u8 } else { 0 }) + (if n1 == n1 { 1u8 } else { 0 }) + (if n2 == n1 { 1u8 } else { 0 }) + (if n3 == n1 { 1u8 } else { 0 });
        let c2: u8 = (if n0 == n2 { 1u8 } else { 0 }) + (if n1 == n2 { 1u8 } else { 0 }) + (if n2 == n2 { 1u8 } else { 0 }) + (if n3 == n2 { 1u8 } else { 0 });
        let c3: u8 = (if n0 == n3 { 1u8 } else { 0 }) + (if n1 == n3 { 1u8 } else { 0 }) + (if n2 == n3 { 1u8 } else { 0 }) + (if n3 == n3 { 1u8 } else { 0 });
        let threes: u8 = (if c0 == 3 { 1u8 } else { 0 }) + (if c1 == 3 { 1u8 } else { 0 }) + (if c2 == 3 { 1u8 } else { 0 }) + (if c3 == 3 { 1u8 } else { 0 });
        let a: u8 = if n0 <= n1 { n0 } else { n1 };
        let b: u8 = if n2 <= n3 { n2 } else { n3 };
        let nmin: u8 = if a <= b { a } else { b };
        let a2: u8 = if n0 >= n1 { n0 } else { n1 };
        let b2: u8 = if n2 >= n3 { n2 } else { n3 };
        let nmax: u8 = if a2 >= b2 { a2 } else { b2 };
        if threes >= 3 && nmax - nmin == 1 {
            let is: u8 = if n0 == nmin { 0 } else if n1 == nmin { 1 } else if n2 == nmin { 2 } else { 3 };
            let il: u8 = if n0 == nmax { 0 } else if n1 == nmax { 1 } else if n2 == nmax { 2 } else { 3 };
            let vs: u8 = if is == 0 { n0 } else if is == 1 { n1 } else if is == 2 { n2 } else { n3 };
            let vl: u8 = if il == 0 { n0 } else if il == 1 { n1 } else if il == 2 { n2 } else { n3 };
            let cs: u8 = if is == 0 { c0 } else if is == 1 { c1 } else if is == 2 { c2 } else { c3 };
            if cs == 1 {
                Some((1 + is, if is == 0 { n0 } else { vs + 1 }))
            } else {
                Some((5 + il, if il == 0 { n0 } else { vl - 1 }))
            }
        } else {
            None
        }
    }

    /// How many bytes from `first_1` equal those from `first_2`, up to the first difference.
    fn count_equal_consecutive_elem(data: &[u8], first_1: usize, last_1: usize, first_2: usize, last_2: usize) -> (r: usize)
        requires
            first_1 <= last_1 <= data@.len(),
            first_2 <= last_2 <= data@.len(),
        ensures
            r == px_count_eq(data@, first_1 as int, last_1 as int, first_2 as int, last_2 as int),
    {
        let mut f1 = first_1;
        let mut f2 = first_2;
        let mut count: usize = 0;
        proof {
            lemma_count_eq_bounds(data@, first_1 as int, last_1 as int, first_2 as int, last_2 as int);
        }
        while f1 != last_1 && f2 != last_2 && data[f1] == data[f2]
            invariant
                first_1 <= f1 <= last_1 <= data@.len(),
                first_2 <= f2 <= last_2 <= data@.len(),
                f1 - first_1 == count,
                f2 - first_2 == count,
                count + px_count_eq(data@, f1 as int, last_1 as int, f2 as int, last_2 as int)
                    == px_count_eq(data@, first_1 as int, last_1 as int, first_2 as int, last_2 as int),
            decreases last_1 - f1,
        {
            count = count + 1;
            f1 = f1 + 1;
            f2 = f2 + 1;
        }
        count
    }

    /// The offset from `cur` of the first occurrence (before `send`) of the three bytes at `p`.
    fn find_subsequence(data: &[u8], cur: usize, send: usize, p: usize) -> (r: Option<usize>)
        requires
            cur <= send <= data@.len(),
            p + 3 <= data@.len(),
        ensures
            match px_next_match(data@, cur as int, send as int, p as int) {
                Some(q) => r == Some((q - cur) as usize),
                None => r is None,
            },
    {
        let mut c = cur;
        while c < send && send - c >= 3
            invariant
                cur <= c <= send <= data@.len(),
                p + 3 <= data@.len(),
                px_next_match(data@, cur as int, send as int, p as int) == px_next_match(data@, c as int, send as int, p as int),
            decreases send - c,
        {
            if data[c] == data[p] && data[c + 1] == data[p + 1] && data[c + 2] == data[p + 2] {
                assert(data@.subrange(c as int, c + 3) =~= data@.subrange(p as int, p + 3));
                return Some(c - cur);
            }
            assert(data@.subrange(c as int, c + 3)[0] == data@[c as int]);
            assert(data@.subrange(c as int, c + 3)[1] == data@[c + 1]);
            assert(data@.subrange(c as int, c + 3)[2] == data@[c + 2]);
            assert(data@.subrange(c as int, c + 3) != data@.subrange(p as int, p + 3));
            c = c + 1;
        }
        None
    }

    /// The first position from `searchbeg` (matches ending before `searchend`) with the longest
    /// match with the bytes from `tofindbeg` (before `tofindend`); see `px_scan`.
    fn find_longest_matching_sequence(data: &[u8], searchbeg: usize, searchend: usize, tofindbeg: usize, tofindend: usize) -> (r: (usize, usize))
        requires
            searchbeg <= searchend <= tofindbeg,
            tofindbeg + 3 <= tofindend <= data@.len(),
        ensures
            (r.0 as int, r.1 as int) == px_scan(data@, searchbeg as int, searchend as int, tofindbeg as int, tofindend as int, searchend as int, 0),
    {
        let ghost goal = px_scan(data@, searchbeg as int, searchend as int, tofindbeg as int, tofindend as int, searchend as int, 0);
        let mut best_pos: usize = searchend;
        let mut best_len: usize = 0;
        let mut cur = searchbeg;
        while cur < searchend
            invariant
                searchbeg <= cur <= searchend <= tofindbeg,
                tofindbeg + 3 <= tofindend <= data@.len(),
                best_len <= 18,
                goal == px_scan(data@, searchbeg as int, searchend as int, tofindbeg as int, tofindend as int, searchend as int, 0),
                px_scan(data@, cur as int, searchend as int, tofindbeg as int, tofindend as int, best_pos as int, best_len as int) == goal,
            decreases searchend - cur,
        {
            match Self::find_subsequence(data, cur, searchend, tofindbeg) {
                Some(x) => {
                    proof {
                        lemma_next_match_scan(data@, cur as int, searchend as int, tofindbeg as int, tofindend as int, best_pos as int, best_len as int);
                    }
                    cur = cur + x;
                },
                None => {
                    proof {
                        lemma_next_match_scan(data@, cur as int, searchend as int, tofindbeg as int, tofindend as int, best_pos as int, best_len as int);
                    }
                    return (best_pos, best_len);
                },
            }
            let lim: usize = if searchend - cur >= 18 { cur + 18 } else { searchend };
            let nb = Self::count_equal_consecutive_elem(data, cur, lim, tofindbeg, tofindend);
            proof {
                lemma_count_eq_bounds(data@, cur as int, lim as int, tofindbeg as int, tofindend as int);
            }
            if best_len < nb {
                best_len = nb;
                best_pos = cur;
            }
            if nb == 18 {
                return (best_pos, best_len);
            }
            cur = cur + 1;
        }
        (best_pos, best_len)
    }

    /// Whether copy length `hnybbleorlen` (less 3) can be used; reserves it where there is
    /// room (see `px_check_add`).
    fn check_sequence_high_nibble_valid_or_add(lens: &mut Vec<usize>, hnybbleorlen: usize) -> (r: bool)
        requires
            old(lens)@.len() <= 7,
        ensures
            (r, final(lens)@) == px_check_add(old(lens)@, hnybbleorlen),
    {
        if !vec_contains(lens, hnybbleorlen) {
            if lens.len() < PX_NB_POSSIBLE_SEQUENCES_LEN {
                let n = lens.len();
                let mut i: usize = 0;
                while i < n && lens[i] <= hnybbleorlen
                    invariant
                        i <= n,
                        n == lens@.len(),
                        lens@ == old(lens)@,
                        forall|j: int| 0 <= j < i ==> lens@[j] <= hnybbleorlen,
                    decreases n - i,
                {
                    i = i + 1;
                }
                proof {
                    lemma_insert_sorted(lens@, hnybbleorlen, i as int);
                }
                lens.insert(i, hnybbleorlen);
                assert(lens@ =~= old(lens)@.take(i as int).push(hnybbleorlen) + old(lens)@.skip(i as int));
                return true;
            }
            return false;
        }
        true
    }

}

impl PxCompressor {
    /// The copy command for the bytes at `pos`, reserving its length where needed (see
    /// `px_match`).
    fn can_use_a_matching_sequence(d: &[u8], pos: usize, lens: &mut Vec<usize>) -> (r: Option<CompOp>)
        requires
            pos < d@.len(),
            old(lens)@.len() <= 7,
        ensures
            match px_match(d@, pos as int, old(lens)@) {
                None => r is None && final(lens)@ == old(lens)@,
                Some((op, l2)) => r == Some(op) && final(lens)@ == l2,
            },
    {
        let n = d.len();
        let lb: usize = if pos > PX_LOOKBACK_BUFFER_SIZE { pos - PX_LOOKBACK_BUFFER_SIZE } else { 0 };
        let end: usize = if n - pos >= PX_MAX_MATCH_SEQLEN { pos + PX_MAX_MATCH_SEQLEN } else { n };
        if end - pos < PX_MIN_MATCH_SEQLEN {
            return None;
        }
        let (sp, sl) = Self::find_longest_matching_sequence(d, lb, pos, pos, end);
        proof {
            lemma_scan_bounds(d@, lb as int, pos as int, pos as int, end as int, pos as int, 0, lb as int, pos as int);
        }
        if sl < PX_MIN_MATCH_SEQLEN {
            return None;
        }
        let ghost l0 = lens@;
        let mut valid: usize = sl - PX_MIN_MATCH_SEQLEN;
        if !Self::check_sequence_high_nibble_valid_or_add(lens, valid) {
            let mut k: usize = 0;
            let v0 = valid;
            while k < lens.len()
                invariant
                    k <= lens@.len(),
                    lens@ == l0,
                    valid == px_last_cand(l0, sl as int, k as nat, v0),
                decreases lens@.len() - k,
            {
                if lens[k] < sl && sl - lens[k] > PX_MIN_MATCH_SEQLEN {
                    valid = lens[k];
                }
                k = k + 1;
            }
        }
        proof {
            lemma_last_cand(l0, sl as int, l0.len(), (sl - 3) as usize);
        }
        let u: usize = 65536 - (pos - sp);
        let op = CompOp {
            typ: Operation::CopySequence,
            highnybble: #[verifier::truncate] (valid as u8),
            lownybble: ((u / 256) % 16) as u8,
            nextbytevalue: (u % 256) as u8,
        };
        Some(op)
    }

    /// The command for the bytes at `pos` and where the next command starts (see `px_step`).
    fn determine_best_operation(d: &[u8], pos: usize, lens: &mut Vec<usize>, level: PxCompLevel, should_search_first: bool) -> (r: (CompOp, usize))
        requires
            pos < d@.len(),
            old(lens)@.len() <= 7,
        ensures
            (r.0, r.1 as int, final(lens)@) == px_step(d@, pos as int, old(lens)@, px_level(level), should_search_first),
            pos < r.1 <= d@.len(),
            final(lens)@.len() <= 7,
            r.0.typ matches Operation::CopyNybble(i) ==> i < 9,
    {
        let lv: u8 = match level {
            PxCompLevel::Level0 => 0,
            PxCompLevel::Level1 => 1,
            PxCompLevel::Level2 => 2,
            PxCompLevel::Level3 => 3,
        };
        let ghost l0 = lens@;
        let ghost m = if px_level(level) >= 3 { px_match(d@, pos as int, l0) } else { None };
        proof {
            if m is Some {
                let lb = if pos > 4096 { pos - 4096 } else { 0 };
                let end = if pos + 18 <= d@.len() { pos + 18 } else { d@.len() as int };
                lemma_scan_bounds(d@, lb, pos as int, pos as int, end, pos as int, 0, lb, pos as int);
                let (sp, sl) = px_scan(d@, lb, pos as int, pos as int, end, pos as int, 0);
                let v = (sl - 3) as usize;
                lemma_last_cand(l0, sl, l0.len(), v);
                let (ok, l2) = px_check_add(l0, v);
                if ok && !l0.contains(v) {
                    lemma_insert_len(l0, v);
                }
                let valid = if ok { v } else { px_last_cand(l0, sl, l0.len(), v) };
                assert(valid + 3 <= sl);
                assert(sl <= end - pos);
                assert(valid as u8 == valid);
                let (mop, ml) = m->0;
                assert(mop.highnybble + pos + 3 <= d@.len());
            }
        }
        let n = d.len();
        if should_search_first && lv >= 3 {
            match Self::can_use_a_matching_sequence(d, pos, lens) {
                Some(op) => {
                    return (op, pos + op.highnybble as usize + PX_MIN_MATCH_SEQLEN);
                },
                None => {},
            }
        }
        if lv >= 1 {
            match Self::can_compress_to_2_in_1_byte(d, pos) {
                Some(l) => {
                    return (CompOp { typ: Operation::CopyNybble(0), highnybble: 0, lownybble: l, nextbytevalue: 0 }, pos + 2);
                },
                None => {},
            }
        }
        if lv >= 2 {
            match Self::can_compress_to_2_in_1_byte_with_manipulation(d, pos) {
                Some((idx, l)) => {
                    return (CompOp { typ: Operation::CopyNybble(idx), highnybble: 0, lownybble: l, nextbytevalue: 0 }, pos + 2);
                },
                None => {},
            }
        }
        if !should_search_first && lv >= 3 {
            match Self::can_use_a_matching_sequence(d, pos, lens) {
                Some(op) => {
                    return (op, pos + op.highnybble as usize + PX_MIN_MATCH_SEQLEN);
                },
                None => {},
            }
        }
        let b = d[pos];
        (CompOp { typ: Operation::CopyAsis, highnybble: b / 16, lownybble: b % 16, nextbytevalue: 0 }, pos + 1)
    }
}

proof fn lemma_insert_len(s: Seq<usize>, v: usize)
    ensures
        insert_sorted(s, v).len() == s.len() + 1,
    decreases s.len(),
{
    if s.len() > 0 && s[0] <= v {
        lemma_insert_len(s.drop_first(), v);
    }
}

/// Whether every pattern command names one of the 9 control flags.
pub open spec fn ops_ok(ops: Seq<CompOp>) -> bool {
    forall|j: int| 0 <= j < ops.len() ==> ((#[trigger] ops[j]).typ matches Operation::CopyNybble(i) ==> i < 9)
}

impl PxCompressor {
    /// The control flags for the reserved copy lengths (see `px_flags`).
    fn build_ctrl_flags_list(lens: Vec<usize>) -> (r: [u8; 9])
        ensures
            r@ == px_flags(lens@),
    {
        let mut lens = lens;
        let ghost l0 = lens@;
        if lens.len() != PX_NB_POSSIBLE_SEQUENCES_LEN {
            let mut v: usize = 0;
            while v < 15 && lens.len() < PX_NB_POSSIBLE_SEQUENCES_LEN
                invariant
                    v <= 15,
                    px_fill_lens(lens@, v as nat) == px_fill_lens(l0, 0),
                decreases 15 - v,
            {
                if !vec_contains(&lens, v) {
                    lens.push(v);
                }
                v = v + 1;
            }
        }
        let ghost full = lens@;
        assert(full == (if l0.len() != 7 { px_fill_lens(l0, 0) } else { l0 }));
        let mut flags: [u8; 9] = [0u8, 0u8, 0u8, 0u8, 0u8, 0u8, 0u8, 0u8, 0u8];
        assert(flags@ =~= Seq::new(9, |i: int| 0u8));
        let mut it: usize = 0;
        let mut flagval: usize = 0;
        while flagval < 15
            invariant
                flagval <= 15,
                it <= 9,
                lens@ == full,
                px_flag_values(full, flagval as nat, it as nat, flags@) == px_flags(l0),
            decreases 15 - flagval,
        {
            if !vec_contains(&lens, flagval) && it < 9 {
                flags[it] = flagval as u8;
                it = it + 1;
            }
            flagval = flagval + 1;
        }
        flags
    }

    /// Appends the bytes of one command.
    fn output_an_operation(out: &mut Vec<u8>, operation: CompOp, flags: &[u8; 9])
        requires
            operation.typ matches Operation::CopyNybble(i) ==> i < 9,
        ensures
            final(out)@ == old(out)@ + px_op_bytes(operation, flags@),
    {
        match operation.typ {
            Operation::CopyAsis => {
                out.push(((operation.highnybble << 4u8) & 0xF0u8) | operation.lownybble);
            },
            Operation::CopySequence => {
                out.push(((operation.highnybble << 4u8) & 0xF0u8) | operation.lownybble);
                out.push(operation.nextbytevalue);
            },
            Operation::CopyNybble(i) => {
                let flag = flags[i as usize];
                out.push((flag << 4u8) | operation.lownybble);
            },
        }
    }

    /// Appends the commands in groups of 8, each group behind its command byte.
    fn output_all_operations(out: &mut Vec<u8>, ops: &[CompOp], flags: &[u8; 9])
        requires
            ops_ok(ops@),
        ensures
            final(out)@ == old(out)@ + px_output(ops@, flags@, ((ops@.len() + 7) / 8) as nat),
    {
        let n = ops.len();
        let mut start: usize = 0;
        let mut g: usize = 0;
        while start < n
            invariant
                n == ops@.len(),
                ops_ok(ops@),
                start <= n,
                start < n ==> start == 8 * g,
                start == n ==> g == (n + 7) / 8,
                g <= (n + 7) / 8,
                out@ == old(out)@ + px_output(ops@, flags@, g as nat),
            decreases n - start,
        {
            let end: usize = if n - start >= 8 { start + 8 } else { n };
            let ghost grp = px_group(ops@, g as int);
            assert(grp == ops@.subrange(start as int, end as int));
            let mut cmd: u8 = 0;
            let mut i: usize = 0;
            while i < end - start
                invariant
                    start + 8 >= end,
                    end <= n,
                    n == ops@.len(),
                    start <= end,
                    i <= end - start,
                    grp == ops@.subrange(start as int, end as int),
                    cmd == px_cmd_byte(grp, i as nat),
                decreases end - start - i,
            {
                let bit: u8 = if ops[start + i].typ == Operation::CopyAsis {
                    let sh: u8 = (7 - i) as u8;
                    1u8 << sh
                } else {
                    0u8
                };
                proof {
                    assert(grp[i as int] == ops@[start + i]);
                }
                cmd = cmd | bit;
                i = i + 1;
            }
            let ghost before = out@;
            out.push(cmd);
            let mut k: usize = 0;
            while k < end - start
                invariant
                    start + 8 >= end,
                    end <= n,
                    n == ops@.len(),
                    start <= end,
                    k <= end - start,
                    ops_ok(ops@),
                    grp == ops@.subrange(start as int, end as int),
                    out@ == before + seq![px_cmd_byte(grp, grp.len())] + px_ops_bytes(grp, flags@, k as nat),
                decreases end - start - k,
            {
                let op = ops[start + k];
                assert(op == grp[k as int]);
                assert(ops@[start + k] == op);
                Self::output_an_operation(out, op, flags);
                k = k + 1;
            }
            start = end;
            g = g + 1;
        }
    }

    /// PX-compresses `buffer` (see `px_compress`); fails where the input is longer than
    /// 2^32 - 1 bytes or the output longer than 65535 bytes.
    pub fn run(buffer: &[u8], compression_level: PxCompLevel, should_search_first: bool) -> (r: PyResult<(StBytes, [u8; 9])>)
        ensures
            buffer@.len() > u32::MAX ==> (r matches Err(e) && e.kind == ErrorKind::ValueError),
            buffer@.len() <= u32::MAX ==> ({
                let (o, f) = px_compress(buffer@, compression_level, should_search_first);
                &&& (o.len() > 65535 ==> (r matches Err(e) && e.kind == ErrorKind::ValueError))
                &&& (o.len() <= 65535 ==> (r matches Ok((b, fl)) && b@ == o && fl@ == f))
            }),
    {
        let n = buffer.len();
        if n > 0xFFFF_FFFF {
            let mut msg = String::from_str("PX Compression: The input data is too long ");
            crate::python::append_decimal(&mut msg, n);
            msg.append(".");
            return Err(PyErr { kind: ErrorKind::ValueError, value: msg, user_error: false });
        }
        let ghost level = px_level(compression_level);
        let ghost total = px_ops(buffer@, 0, seq![0usize, 15usize], level, should_search_first);
        let mut lens: Vec<usize> = Vec::new();
        lens.push(0);
        lens.push(15);
        assert(lens@ =~= seq![0usize, 15usize]);
        let mut ops: Vec<CompOp> = Vec::new();
        let mut pos: usize = 0;
        while pos < n
            invariant
                n == buffer@.len(),
                pos <= n,
                lens@.len() <= 7,
                level == px_level(compression_level),
                total == px_ops(buffer@, 0, seq![0usize, 15usize], level, should_search_first),
                ops@ + px_ops(buffer@, pos as int, lens@, level, should_search_first).0 == total.0,
                px_ops(buffer@, pos as int, lens@, level, should_search_first).1 == total.1,
                ops_ok(ops@),
            decreases n - pos,
        {
            let ghost l0 = lens@;
            let (op, np) = Self::determine_best_operation(buffer, pos, &mut lens, compression_level, should_search_first);
            proof {
                let rest = px_ops(buffer@, np as int, lens@, level, should_search_first);
                assert(px_ops(buffer@, pos as int, l0, level, should_search_first) == (seq![op] + rest.0, rest.1));
                assert(ops@.push(op) + rest.0 =~= ops@ + (seq![op] + rest.0));
            }
            ops.push(op);
            pos = np;
            proof {
                assert forall|j: int| 0 <= j < ops@.len() implies ((#[trigger] ops@[j]).typ matches Operation::CopyNybble(i) ==> i < 9) by {
                    if j < ops@.len() - 1 {
                        assert(ops@[j] == ops@.drop_last()[j]);
                    }
                }
            }
        }
        assert(ops@ =~= total.0);
        let flags = Self::build_ctrl_flags_list(lens);
        let mut out: Vec<u8> = Vec::new();
        Self::output_all_operations(&mut out, ops.as_slice(), &flags);
        assert(out@ =~= px_compress(buffer@, compression_level, should_search_first).0);
        if out.len() > 0xFFFF {
            let mut msg = String::from_str("PX Compression: Compressed size ");
            crate::python::append_decimal(&mut msg, out.len());
            msg.append(" overflows 16 bits unsigned integer!");
            return Err(PyErr { kind: ErrorKind::ValueError, value: msg, user_error: false });
        }
        Ok((StBytes(out), flags))
    }
}

/// The change that control flag `idx` makes to nibble `j` of the four a pattern command writes:
/// none for flag 0; flag 1 raises the last three, flag 5 lowers the last three; flags 2 to 4
/// lower nibble `idx - 1`, flags 6 to 8 raise nibble `idx - 5`.
pub open spec fn px_nibble_delta(idx: nat, j: int) -> int {
    if idx == 1 {
        if j == 0 { 0 } else { 1 }
    } else if idx == 5 {
        if j == 0 { 0 } else { -1 }
    } else if 2 <= idx <= 4 {
        if j == idx - 1 { -1 } else { 0 }
    } else if 6 <= idx <= 8 {
        if j == idx - 5 { 1 } else { 0 }
    } else {
        0
    }
}

proof fn lemma_nibble_pair(a: u8, b: u8)
    requires
        a < 16,
        b < 16,
    ensures
        ((a << 4u8) | b) as u8 == 16 * a + b,
{
    assert(((a << 4u8) | b) as u8 == 16 * a + b) by (bit_vector)
        requires a < 16, b < 16;
}

/// The two bytes of a pattern command: each byte holds two of its four nibbles (high nibble
/// first), and every nibble is the command's low nibble `lo` changed as the control flag says;
/// for the first flag all four are `lo` (each byte is `0x11 * lo`).
pub proof fn lemma_px_pattern_bytes(idx: nat, lo: u8)
    requires
        lo < 16,
        idx <= 8,
        forall|j: int| 0 <= j < 4 ==> 0 <= #[trigger] (lo + px_nibble_delta(idx, j)) <= 15,
    ensures
        px_pattern(idx, lo).len() == 2,
        idx == 0 ==> px_pattern(idx, lo) == seq![(0x11 * lo) as u8, (0x11 * lo) as u8],
        px_pattern(idx, lo)[0] == 16 * (lo + px_nibble_delta(idx, 0)) + (lo + px_nibble_delta(idx, 1)),
        px_pattern(idx, lo)[1] == 16 * (lo + px_nibble_delta(idx, 2)) + (lo + px_nibble_delta(idx, 3)),
{
    if idx == 0 {
        lemma_nibble_pair(lo, lo);
    } else {
        let ns = px_nibbles(idx, lo);
        assert(ns.len() == 4);
        assert(0 <= lo + px_nibble_delta(idx, 0) <= 15);
        assert(0 <= lo + px_nibble_delta(idx, 1) <= 15);
        assert(0 <= lo + px_nibble_delta(idx, 2) <= 15);
        assert(0 <= lo + px_nibble_delta(idx, 3) <= 15);
        assert forall|j: int| 0 <= j < 4 implies ns[j] == lo + px_nibble_delta(idx, j) by {}
        lemma_nibble_pair(ns[0], ns[1]);
        lemma_nibble_pair(ns[2], ns[3]);
    }
}

/// Decompressing, a command byte that is not a literal and whose high nibble is the first
/// control flag writes two bytes that both have the command's low nibble as their two nibbles.
pub proof fn lemma_px_run_first_flag(data: Seq<u8>, flags: Seq<u8>, pos: int, out: Seq<u8>, ctrl: u8, b: nat)
    requires
        0 <= pos < data.len(),
        b > 0,
        ctrl & (1u8 << ((b - 1) as u8)) == 0,
        px_flag_index(flags, (data[pos] >> 4u8) & 0xFu8) == Some(0nat),
    ensures
        px_run(data, flags, pos, out, ctrl, b) == px_run(
            data,
            flags,
            pos + 1,
            out + seq![(0x11 * (data[pos] % 16)) as u8, (0x11 * (data[pos] % 16)) as u8],
            ctrl,
            (b - 1) as nat,
        ),
{
    let next = data[pos];
    let lo = next & 0xFu8;
    assert(lo == next % 16 && lo < 16) by (bit_vector)
        requires lo == next & 0xFu8;
    lemma_px_pattern_bytes(0, lo);
}

/// Where the compressor stores two bytes as one command with the first control flag, that
/// command decompresses to those two bytes.
pub proof fn lemma_px_two_in_one_pattern(d: Seq<u8>, p: int)
    requires
        0 <= p,
        px_two_in_one(d, p) is Some,
    ensures
        px_pattern(0, px_two_in_one(d, p)->0) == d.subrange(p, p + 2),
{
    let l = px_two_in_one(d, p)->0;
    lemma_px_pattern_bytes(0, l);
    assert(d[p] == 0x11 * l);
    assert(d[p + 1] == 0x11 * l);
    assert(px_pattern(0, l) =~= d.subrange(p, p + 2));
}

/// Where the compressor stores two bytes as one command with a control flag from 1 to 8 (three
/// equal nibbles and one that differs by one), that command decompresses to those two bytes.
pub proof fn lemma_px_manip_pattern(d: Seq<u8>, p: int)
    requires
        0 <= p,
        px_manip(d, p) is Some,
    ensures
        1 <= (px_manip(d, p)->0).0 <= 8,
        (px_manip(d, p)->0).1 < 16,
        px_pattern((px_manip(d, p)->0).0, (px_manip(d, p)->0).1) == d.subrange(p, p + 2),
{
    let (idx, lo) = px_manip(d, p)->0;
    let (n0, n1, n2, n3) = ((d[p] / 16) as u8, (d[p] % 16) as u8, (d[p + 1] / 16) as u8, (d[p + 1] % 16) as u8);
    assert(d[p] == 16 * n0 + n1);
    assert(d[p + 1] == 16 * n2 + n3);
    assert(1 <= idx <= 8);
    assert(lo + px_nibble_delta(idx, 0) == n0);
    assert(lo + px_nibble_delta(idx, 1) == n1);
    assert(lo + px_nibble_delta(idx, 2) == n2);
    assert(lo + px_nibble_delta(idx, 3) == n3);
    assert(lo < 16);
    lemma_px_pattern_bytes(idx, lo);
    assert(px_pattern(idx, lo) =~= d.subrange(p, p + 2));
}

/// Decompressing, a byte whose bit in the current control byte is set is written as it is.
pub proof fn lemma_px_run_literal(data: Seq<u8>, flags: Seq<u8>, pos: int, out: Seq<u8>, ctrl: u8, b: nat)
    requires
        0 <= pos < data.len(),
        1 <= b <= 8,
        ctrl & (1u8 << ((b - 1) as u8)) != 0,
    ensures
        px_run(data, flags, pos, out, ctrl, b) == px_run(data, flags, pos + 1, out.push(data[pos]), ctrl, (b - 1) as nat),
{
    let m = 1u8 << ((b - 1) as u8);
    assert(ctrl & m > 0);
}

/// Decompressing, a command byte whose high nibble `h` is no control flag, followed by a byte
/// `x`, copies `h + 3` bytes of the output, starting `4096 - 256 * lo - x` bytes before its end
/// (`lo` the command's low nibble); it fails where that start lies before the output or the
/// copy would reach past its end.
pub proof fn lemma_px_run_copy(data: Seq<u8>, flags: Seq<u8>, pos: int, out: Seq<u8>, ctrl: u8, b: nat)
    requires
        0 <= pos,
        pos + 1 < data.len(),
        b > 0,
        ctrl & (1u8 << ((b - 1) as u8)) == 0,
        px_flag_index(flags, (data[pos] >> 4u8) & 0xFu8) is None,
    ensures
        ({
            let h = data[pos] / 16;
            let lo = data[pos] % 16;
            let back = 4096 - 256 * lo - data[pos + 1];
            let start = out.len() - back;
            &&& back > out.len() ==> px_run(data, flags, pos, out, ctrl, b) == PxOutcome::OutOfBound
            &&& back <= out.len() && start + h + 3 > out.len() ==> px_run(data, flags, pos, out, ctrl, b) == PxOutcome::ReadFail
            &&& back <= out.len() && start + h + 3 <= out.len() ==> px_run(data, flags, pos, out, ctrl, b) == px_run(
                data,
                flags,
                pos + 2,
                out + out.subrange(start, start + h + 3),
                ctrl,
                (b - 1) as nat,
            )
        }),
{
    let next = data[pos];
    let hi = (next >> 4u8) & 0xFu8;
    let lo = next & 0xFu8;
    assert(hi == next / 16 && lo == next % 16) by (bit_vector)
        requires hi == (next >> 4u8) & 0xFu8, lo == next & 0xFu8;
}

} // verus!
