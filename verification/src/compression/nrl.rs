//! Decompression of the "NRL" format shared by BMA layers and BPC tilemaps.
//!
//! A command byte below 0x80 writes `cmd + 1` null values; from 0x80 up to
//! 0xBF it reads one value and writes it `cmd - 0x7F` times; from 0xC0 it
//! copies the next `cmd - 0xBF` values as they are. What a value is depends
//! on the user of the format (see [`NrlUnit`]).
use vstd::prelude::*;

verus! {

pub const CMD_ZERO_OUT: u8 = 0x80;
pub const CMD_FILL_OUT: u8 = 0x80;
pub const CMD_COPY_BYTES: u8 = 0xC0;

/// How values are stored in the compressed data and written to the output.
#[derive(PartialEq, Eq, Structural, Clone, Copy)]
pub enum NrlUnit {
    /// Three bytes of "pair 24" packing, written as two 16-bit little-endian integers.
    Pair24,
    /// One byte, written as the high byte of a 16-bit little-endian integer.
    HighByte,
    /// One byte, written as it is.
    Byte,
}

/// The number of compressed bytes one value takes.
pub open spec fn unit_len(u: NrlUnit) -> nat {
    match u {
        NrlUnit::Pair24 => 3,
        NrlUnit::HighByte => 1,
        NrlUnit::Byte => 1,
    }
}

/// Two 12-bit values packed in three bytes, unpacked into four bytes (two LE u16).
pub open spec fn pair24_to_two_u16(b0: u8, b1: u8, b2: u8) -> Seq<u8> {
    seq![b0, (b1 % 16) as u8, ((b2 % 16) * 16 + b1 / 16) as u8, (b2 / 16) as u8]
}

/// What one value (the `unit_len(u)` bytes of `d` from `i`) is written as.
pub open spec fn expand(u: NrlUnit, d: Seq<u8>, i: int) -> Seq<u8> {
    match u {
        NrlUnit::Pair24 => pair24_to_two_u16(d[i], d[i + 1], d[i + 2]),
        NrlUnit::HighByte => seq![0u8, d[i]],
        NrlUnit::Byte => seq![d[i]],
    }
}

/// What the null value is written as.
pub open spec fn expand_null(u: NrlUnit) -> Seq<u8> {
    match u {
        NrlUnit::Pair24 => seq![0u8, 0, 0, 0],
        NrlUnit::HighByte => seq![0u8, 0],
        NrlUnit::Byte => seq![0u8],
    }
}

/// `n` copies of `x`, concatenated.
pub open spec fn repeat_seq(x: Seq<u8>, n: nat) -> Seq<u8>
    decreases n,
{
    if n == 0 {
        Seq::empty()
    } else {
        repeat_seq(x, (n - 1) as nat) + x
    }
}

/// The `n` values stored from `i` in `d`, expanded and concatenated.
pub open spec fn expand_all(u: NrlUnit, d: Seq<u8>, i: int, n: nat) -> Seq<u8>
    decreases n,
{
    if n == 0 {
        Seq::empty()
    } else {
        expand_all(u, d, i, (n - 1) as nat) + expand(u, d, i + (n - 1) * unit_len(u))
    }
}

/// One command at the start of `d`: how many bytes it takes and what it writes.
/// `None` when `d` ends inside the command.
pub open spec fn nrl_step(u: NrlUnit, d: Seq<u8>) -> Option<(nat, Seq<u8>)> {
    if d.len() == 0 {
        None
    } else {
        let cmd = d[0];
        if cmd < 0x80 {
            Some((1nat, repeat_seq(expand_null(u), cmd as nat + 1)))
        } else if cmd < 0xC0 {
            if d.len() < 1 + unit_len(u) {
                None
            } else {
                Some(((1 + unit_len(u)) as nat, repeat_seq(expand(u, d, 1), (cmd - 0x7F) as nat)))
            }
        } else {
            let count = (cmd - 0xBF) as nat;
            if d.len() < 1 + unit_len(u) * count {
                None
            } else {
                Some(((1 + unit_len(u) * count) as nat, expand_all(u, d, 1, count)))
            }
        }
    }
}

/// Runs commands until at least `remaining` bytes are written. The result is the
/// number of bytes of `d` consumed and what was written; `None` when `d` ends first.
pub open spec fn nrl_decompress(u: NrlUnit, d: Seq<u8>, remaining: nat) -> Option<(nat, Seq<u8>)>
    decreases d.len(),
{
    if remaining == 0 {
        Some((0nat, Seq::empty()))
    } else {
        match nrl_step(u, d) {
            None => None,
            Some((c, w)) => {
                if w.len() >= remaining {
                    Some((c, w))
                } else if c == 0 || c > d.len() {
                    None
                } else {
                    match nrl_decompress(u, d.skip(c as int), (remaining - w.len()) as nat) {
                        None => None,
                        Some((c2, w2)) => Some(((c + c2) as nat, w + w2)),
                    }
                }
            },
        }
    }
}

/// A decompression result with `k` more bytes consumed and `pre` written before it.
pub open spec fn shift_result(o: Option<(nat, Seq<u8>)>, k: int, pre: Seq<u8>) -> Option<(nat, Seq<u8>)> {
    match o {
        None => None,
        Some((c, w)) => Some(((k + c) as nat, pre + w)),
    }
}

pub proof fn lemma_nrl_step_consumes(u: NrlUnit, d: Seq<u8>)
    ensures
        nrl_step(u, d) matches Some((c, w)) ==> 1 <= c <= d.len(),
{
}

/// Appends what the value at `d[i..]` is written as.
fn push_expanded(u: NrlUnit, d: &[u8], i: usize, out: &mut Vec<u8>)
    requires
        i + unit_len(u) <= d@.len(),
    ensures
        final(out)@ == old(out)@ + expand(u, d@, i as int),
{
    match u {
        NrlUnit::Pair24 => {
            let b0 = d[i];
            let b1 = d[i + 1];
            let b2 = d[i + 2];
            out.push(b0);
            out.push(b1 % 16);
            out.push((b2 % 16) * 16 + b1 / 16);
            out.push(b2 / 16);
        },
        NrlUnit::HighByte => {
            out.push(0);
            out.push(d[i]);
        },
        NrlUnit::Byte => {
            out.push(d[i]);
        },
    }
    assert(final(out)@ =~= old(out)@ + expand(u, d@, i as int));
}

fn push_null(u: NrlUnit, out: &mut Vec<u8>)
    ensures
        final(out)@ == old(out)@ + expand_null(u),
{
    match u {
        NrlUnit::Pair24 => {
            out.push(0);
            out.push(0);
            out.push(0);
            out.push(0);
        },
        NrlUnit::HighByte => {
            out.push(0);
            out.push(0);
        },
        NrlUnit::Byte => {
            out.push(0);
        },
    }
    assert(final(out)@ =~= old(out)@ + expand_null(u));
}

/// Runs the command at `d[pos..]`, appending what it writes; returns the position
/// after it, or `None` when `d` ends inside the command.
pub fn decompression_step(u: NrlUnit, d: &[u8], pos: usize, out: &mut Vec<u8>) -> (r: Option<usize>)
    requires
        pos <= d@.len(),
    ensures
        r is None <==> nrl_step(u, d@.skip(pos as int)) is None,
        r is None ==> final(out)@ == old(out)@,
        r matches Some(np) ==> np == pos + nrl_step(u, d@.skip(pos as int)).unwrap().0
            && final(out)@ == old(out)@ + nrl_step(u, d@.skip(pos as int)).unwrap().1,
{
    let ghost t = d@.skip(pos as int);
    let n = d.len();
    if pos >= n {
        return None;
    }
    let k: usize = match u {
        NrlUnit::Pair24 => 3,
        NrlUnit::HighByte => 1,
        NrlUnit::Byte => 1,
    };
    let cmd = d[pos];
    assert(t[0] == cmd);
    if cmd < CMD_ZERO_OUT {
        let mut i: u8 = 0;
        while i <= cmd
            invariant
                i <= cmd + 1,
                cmd < 0x80,
                out@ == old(out)@ + repeat_seq(expand_null(u), i as nat),
            decreases cmd + 1 - i,
        {
            push_null(u, out);
            i += 1;
        }
        Some(pos + 1)
    } else if cmd < CMD_COPY_BYTES {
        if n - pos < 1 + k {
            return None;
        }
        let times = cmd - 0x7F;
        let mut i: u8 = 0;
        while i < times
            invariant
                i <= times,
                pos + 1 + k <= n,
                n == d@.len(),
                k == unit_len(u),
                t == d@.skip(pos as int),
                out@ == old(out)@ + repeat_seq(expand(u, t, 1), i as nat),
            decreases times - i,
        {
            push_expanded(u, d, pos + 1, out);
            proof {
                assert(expand(u, d@, pos + 1) =~= expand(u, t, 1));
            }
            i += 1;
        }
        Some(pos + 1 + k)
    } else {
        let count = (cmd - 0xBF) as usize;
        let avail = n - pos - 1;
        if avail / k < count {
            proof {
                assert(avail < k * count) by (nonlinear_arith)
                    requires avail / k < count, k >= 1;
            }
            return None;
        }
        proof {
            assert(k * count <= avail) by (nonlinear_arith)
                requires avail / k >= count, k >= 1;
        }
        let mut i: usize = 0;
        while i < count
            invariant
                i <= count,
                k * count <= n - pos - 1,
                n == d@.len(),
                pos < n,
                k == unit_len(u),
                k >= 1,
                t == d@.skip(pos as int),
                out@ == old(out)@ + expand_all(u, t, 1, i as nat),
            decreases count - i,
        {
            proof {
                assert(k * i + k <= k * count) by (nonlinear_arith)
                    requires i < count, k >= 1;
            }
            let at = pos + 1 + k * i;
            push_expanded(u, d, at, out);
            proof {
                assert(expand(u, d@, at as int) =~= expand(u, t, 1 + i * k));
                assert(k * i == i * k) by (nonlinear_arith);
            }
            i += 1;
        }
        proof {
            assert(k * count == unit_len(u) * count);
        }
        Some(pos + 1 + k * count)
    }
}

/// Runs commands from `d[pos..]` until at least `stop_when_size` bytes are
/// written. Returns the position after the last command and the output.
#[verifier::rlimit(40)]
pub fn nrl_decompress_exec(u: NrlUnit, d: &[u8], pos: usize, stop_when_size: usize) -> (r: Option<(usize, Vec<u8>)>)
    requires
        pos <= d@.len(),
    ensures
        match nrl_decompress(u, d@.skip(pos as int), stop_when_size as nat) {
            None => r is None,
            Some((c, w)) => r matches Some((p, v)) && p == pos + c && v@ == w,
        },
        r matches Some((p, v)) ==> p <= d@.len(),
{
    let mut out: Vec<u8> = Vec::new();
    let mut p = pos;
    let ghost total = nrl_decompress(u, d@.skip(pos as int), stop_when_size as nat);
    proof {
        match total {
            Some((c, w)) => {
                assert(out@ + w =~= w);
            },
            None => {},
        }
    }
    while out.len() < stop_when_size
        invariant
            pos <= p <= d@.len(),
            total == nrl_decompress(u, d@.skip(pos as int), stop_when_size as nat),
            out@.len() < stop_when_size ==> total == shift_result(
                nrl_decompress(u, d@.skip(p as int), (stop_when_size - out@.len()) as nat), p - pos, out@),
            out@.len() >= stop_when_size ==> total == Some(((p - pos) as nat, out@)),
        decreases d@.len() - p,
    {
        let ghost before = out@;
        let ghost t = d@.skip(p as int);
        let ghost rem = (stop_when_size - out@.len()) as nat;
        match decompression_step(u, d, p, &mut out) {
            None => {
                proof {
                    assert(nrl_decompress(u, t, rem) is None);
                    assert(total is None);
                }
                return None;
            },
            Some(np) => {
                proof {
                    lemma_nrl_step_consumes(u, t);
                    let (c, w) = nrl_step(u, t).unwrap();
                    assert(np as int == p + c);
                    assert(c <= t.len());
                    assert(t.skip(c as int) =~= d@.skip(np as int));
                    if w.len() < rem {
                        match nrl_decompress(u, d@.skip(np as int), (rem - w.len()) as nat) {
                            Some((c2, w2)) => {
                                assert(before + (w + w2) =~= out@ + w2);
                            },
                            None => {},
                        }
                    }
                }
                p = np;
            },
        }
    }
    Some((p, out))
}

} // verus!
