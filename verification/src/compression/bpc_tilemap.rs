//! Compression of the tile mappings of BPC files.
//!
//! Phase 1 is NRL data giving the high bytes of each 16-bit mapping. Phase 2
//! then fills in the low bytes: a command below 0x80 skips `cmd + 1` words;
//! from 0x80 up to 0xBF the next byte is the low byte of the next
//! `cmd - 0x7F` words; from 0xC0 the next `cmd - 0xBF` bytes are the low bytes
//! of as many words.
use vstd::prelude::*;

use crate::bytes::{copy_range, le16, push_all, push_u16_le, read_u16_le, u16_le_bytes, StBytesMut};
use crate::compression::nrl::{nrl_decompress, nrl_decompress_exec, NrlUnit};
use crate::python::{exceptions, PyResult};

verus! {

pub const CMD_2_SEEK_OFFSET: u8 = 0x80;
pub const CMD_2_FILL_LOW: u8 = 0x80;
pub const CMD_2_COPY_LOW: u8 = 0xC0;

/// ORs `vals[j]` into the low byte of the word at `pos + 2 * j`, for each `j`;
/// `None` if a word lies (partly) outside `out`.
pub open spec fn or_low_bytes(out: Seq<u8>, pos: int, vals: Seq<u8>) -> Option<Seq<u8>>
    decreases vals.len(),
{
    if vals.len() == 0 {
        Some(out)
    } else if pos < 0 || pos + 1 >= out.len() {
        None
    } else {
        or_low_bytes(out.update(pos, out[pos] | vals[0]), pos + 2, vals.drop_first())
    }
}

/// Phase 2: runs commands from `d` until the write position reaches `n`.
/// The result is the bytes of `d` consumed and the output.
pub open spec fn tilemap_phase2(d: Seq<u8>, out: Seq<u8>, pos: nat, n: nat) -> Option<(nat, Seq<u8>)>
    decreases d.len(),
{
    if pos >= n {
        Some((0nat, out))
    } else if d.len() == 0 {
        None
    } else {
        let cmd = d[0];
        if cmd < 0x80 {
            match tilemap_phase2(d.drop_first(), out, pos + (cmd as nat + 1) * 2, n) {
                None => None,
                Some((c, o)) => Some(((c + 1) as nat, o)),
            }
        } else if cmd < 0xC0 {
            if d.len() < 2 {
                None
            } else {
                let k = (cmd - 0x7F) as nat;
                match or_low_bytes(out, pos as int, Seq::new(k, |i: int| d[1])) {
                    None => None,
                    Some(o1) => match tilemap_phase2(d.skip(2), o1, (pos + 2 * k) as nat, n) {
                        None => None,
                        Some((c, o)) => Some(((c + 2) as nat, o)),
                    },
                }
            }
        } else {
            let k = (cmd - 0xBF) as nat;
            if d.len() < 1 + k {
                None
            } else {
                match or_low_bytes(out, pos as int, d.subrange(1, 1 + k as int)) {
                    None => None,
                    Some(o1) => match tilemap_phase2(d.skip(1 + k as int), o1, pos + 2 * k, n) {
                        None => None,
                        Some((c, o)) => Some(((c + 1 + k) as nat, o)),
                    },
                }
            }
        }
    }
}

/// The output part of a phase 2 result.
pub open spec fn phase2_output(x: Option<(nat, Seq<u8>)>) -> Option<Seq<u8>> {
    match x {
        None => None,
        Some((_, o)) => Some(o),
    }
}

/// The whole decompression: phase 1 output cut to `n` bytes, then phase 2.
pub open spec fn bpc_tilemap_decompress(d: Seq<u8>, n: nat) -> Option<Seq<u8>> {
    match nrl_decompress(NrlUnit::HighByte, d, n) {
        None => None,
        Some((c, w)) => {
            let phase1 = if w.len() > n { w.subrange(0, n as int) } else { w };
            phase2_output(tilemap_phase2(d.skip(c as int), phase1, 0, n))
        },
    }
}

/// Decompressor for BPC tile mappings.
pub struct BpcTilemapDecompressor {
    pub decompressed_data: Vec<u8>,
    pub stop_when_size: usize,
    pub phase2_out_pos: usize,
}

impl BpcTilemapDecompressor {
    pub fn run(compressed_data: &[u8], stop_when_size: usize) -> (r: PyResult<Vec<u8>>)
        ensures
            match bpc_tilemap_decompress(compressed_data@, stop_when_size as nat) {
                Some(o) => r matches Ok(v) && v@ == o,
                None => r is Err,
            },
    {
        assert(compressed_data@.skip(0) =~= compressed_data@);
        let (mut cpos, mut out) = match nrl_decompress_exec(NrlUnit::HighByte, compressed_data, 0, stop_when_size) {
            Some(x) => x,
            None => {
                return Err(exceptions::PyValueError::new_err(
                    "BPC Tilemap Decompressor: Phase1: End result length unexpected.",
                ));
            },
        };
        if out.len() > stop_when_size {
            out.truncate(stop_when_size);
        }
        let mut out_pos: usize = 0;
        let n = compressed_data.len();
        while out_pos < stop_when_size
            invariant
                cpos <= n == compressed_data@.len(),
                bpc_tilemap_decompress(compressed_data@, stop_when_size as nat)
                    == phase2_output(tilemap_phase2(compressed_data@.skip(cpos as int), out@, out_pos as nat, stop_when_size as nat)),
            decreases n - cpos,
        {
            let ghost t = compressed_data@.skip(cpos as int);
            if cpos >= n {
                assert(t.len() == 0);
                return Err(exceptions::PyValueError::new_err(
                    "BPC Tilemap Decompressor: Phase2: End result length unexpected.",
                ));
            }
            let cmd = compressed_data[cpos];
            assert(t[0] == cmd);
            let ghost out0 = out@;
            let ghost pos0 = out_pos as nat;
            let ghost nn = stop_when_size as nat;
            if cmd < CMD_2_SEEK_OFFSET {
                let delta = (cmd as usize + 1) * 2;
                if delta >= stop_when_size - out_pos {
                    out_pos = stop_when_size;
                } else {
                    out_pos = out_pos + delta;
                }
                cpos += 1;
                assert(t.drop_first() =~= compressed_data@.skip(cpos as int));
                proof {
                    let full = tilemap_phase2(t.drop_first(), out0, pos0 + (cmd as nat + 1) * 2, nn);
                    assert(phase2_output(tilemap_phase2(t, out0, pos0, nn)) == phase2_output(full));
                }
            } else if cmd < CMD_2_COPY_LOW {
                if n - cpos < 2 {
                    return Err(exceptions::PyValueError::new_err("BPC Tilemap Decompressor: unexpected end of data."));
                }
                let k = (cmd - 0x7F) as usize;
                proof {
                    assert(Seq::new(k as nat, |i: int| t[1]) =~= Seq::new(k as nat, |i: int| compressed_data@[cpos + 1]));
                }
                if !Self::or_low(&mut out, out_pos, k, compressed_data, cpos + 1, false) {
                    return Err(exceptions::PyValueError::new_err("BPC Tilemap Decompressor: write out of range."));
                }
                assert(t.skip(2) =~= compressed_data@.skip(cpos + 2));
                cpos += 2;
                let ol = out.len();
                out_pos += 2 * k;
                proof {
                    let vals = Seq::new(k as nat, |i: int| t[1]);
                    assert(or_low_bytes(out0, pos0 as int, vals) == Some(out@));
                    assert(phase2_output(tilemap_phase2(t, out0, pos0, nn))
                        == phase2_output(tilemap_phase2(t.skip(2), out@, pos0 + 2 * (k as nat), nn)));
                }
            } else {
                let k = (cmd - 0xBF) as usize;
                if n - cpos - 1 < k {
                    return Err(exceptions::PyValueError::new_err("BPC Tilemap Decompressor: unexpected end of data."));
                }
                proof {
                    assert(t.subrange(1, 1 + k as int) =~= compressed_data@.subrange(cpos + 1, cpos + 1 + k));
                }
                if !Self::or_low(&mut out, out_pos, k, compressed_data, cpos + 1, true) {
                    return Err(exceptions::PyValueError::new_err("BPC Tilemap Decompressor: write out of range."));
                }
                assert(t.skip(1 + k) =~= compressed_data@.skip(cpos + 1 + k));
                cpos += 1 + k;
                let ol = out.len();
                out_pos += 2 * k;
                proof {
                    let vals = t.subrange(1, 1 + k as int);
                    assert(or_low_bytes(out0, pos0 as int, vals) == Some(out@));
                    assert(phase2_output(tilemap_phase2(t, out0, pos0, nn))
                        == phase2_output(tilemap_phase2(t.skip(1 + k as int), out@, pos0 + 2 * (k as nat), nn)));
                }
            }
        }
        Ok(out)
    }

    /// ORs `k` low bytes into the words from `pos`: all from `d[at]` when not
    /// `sequence`, else from `d[at..at + k]`. False (output unspecified) when a
    /// word lies outside `out`.
    fn or_low(out: &mut Vec<u8>, pos: usize, k: usize, d: &[u8], at: usize, sequence: bool) -> (r: bool)
        requires
            at < d@.len(),
            sequence ==> at + k <= d@.len(),
            1 <= k <= 64,
        ensures
            r ==> pos + 2 * k <= old(out)@.len(),
            final(out)@.len() == old(out)@.len(),
            ({
                let vals = if sequence { d@.subrange(at as int, at + k) } else { Seq::new(k as nat, |i: int| d@[at as int]) };
                &&& r <==> or_low_bytes(old(out)@, pos as int, vals) is Some
                &&& r ==> or_low_bytes(old(out)@, pos as int, vals) == Some(final(out)@)
            }),
    {
        let ghost vals = if sequence { d@.subrange(at as int, at + k) } else { Seq::new(k as nat, |i: int| d@[at as int]) };
        let mut j: usize = 0;
        let mut p = pos;
        let dl = d.len();
        assert(vals.skip(0) =~= vals);
        while j < k
            invariant
                dl == d@.len(),
                out@.len() == old(out)@.len(),
                j > 0 ==> p <= out@.len(),
                j <= k <= 64,
                p == pos + 2 * j,
                at < d@.len(),
                sequence ==> at + k <= d@.len(),
                vals == (if sequence { d@.subrange(at as int, at + k) } else { Seq::new(k as nat, |i: int| d@[at as int]) }),
                or_low_bytes(old(out)@, pos as int, vals) == or_low_bytes(out@, p as int, vals.skip(j as int)),
            decreases k - j,
        {
            let ghost rest = vals.skip(j as int);
            if p >= out.len() || out.len() - p < 2 {
                assert(or_low_bytes(out@, p as int, rest) is None);
                return false;
            }
            let v = if sequence { d[at + j] } else { d[at] };
            assert(rest[0] == v);
            let b = out[p] | v;
            out.set(p, b);
            assert(rest.drop_first() =~= vals.skip(j + 1));
            j += 1;
            p += 2;
        }
        assert(vals.skip(k as int).len() == 0);
        true
    }
}

/// A container of compressed tile mappings: the
/// magic `BPCTLM`, the decompressed length, then the compressed data.
pub struct BpcTilemapCompressionContainer {
    pub compressed_data: Vec<u8>,
    pub length_decompressed: u16,
}

pub open spec fn bpc_tilemap_magic() -> Seq<u8> {
    seq![0x42u8, 0x50, 0x43, 0x54, 0x4C, 0x4D]
}

impl BpcTilemapCompressionContainer {
    pub const DATA_START: usize = 8;

    pub fn cont_size(data: &[u8], byte_offset: usize) -> (r: u16)
        requires
            byte_offset <= data@.len(),
        ensures
            r == (data@.len() - byte_offset) as u16,
    {
        (data.len() - byte_offset) as u16
    }

    pub fn new(data: &[u8]) -> (r: PyResult<Self>)
        requires
            data@.len() >= 8,
        ensures
            r matches Ok(c) && c.length_decompressed == le16(data@, 6)
                && c.compressed_data@ == data@.skip(8),
    {
        let length_decompressed = read_u16_le(data, 6);
        let compressed_data = copy_range(data, 8, data.len());
        assert(compressed_data@ =~= data@.skip(8));
        Ok(Self { compressed_data, length_decompressed })
    }

    pub fn decompress(&self) -> (r: PyResult<StBytesMut>)
        ensures
            match bpc_tilemap_decompress(self.compressed_data@, self.length_decompressed as nat) {
                Some(o) => r matches Ok(v) && v@ == o,
                None => r is Err,
            },
    {
        match BpcTilemapDecompressor::run(self.compressed_data.as_slice(), self.length_decompressed as usize) {
            Ok(v) => Ok(StBytesMut(v)),
            Err(e) => Err(e),
        }
    }

    pub fn to_bytes(&self) -> (r: StBytesMut)
        ensures
            r@ == bpc_tilemap_magic() + u16_le_bytes(self.length_decompressed) + self.compressed_data@,
    {
        let mut res: Vec<u8> = Vec::new();
        res.push(0x42);
        res.push(0x50);
        res.push(0x43);
        res.push(0x54);
        res.push(0x4C);
        res.push(0x4D);
        assert(res@ =~= bpc_tilemap_magic());
        push_u16_le(&mut res, self.length_decompressed);
        push_all(&mut res, self.compressed_data.as_slice());
        StBytesMut(res)
    }
}

/// `out` with `vals[j]` ORed into the byte at `pos + 2 * j`, for each `j`.
pub open spec fn low_bytes_ored(out: Seq<u8>, pos: int, vals: Seq<u8>) -> Seq<u8> {
    Seq::new(out.len(), |i: int| if pos <= i < pos + 2 * vals.len() && (i - pos) % 2 == 0 { out[i] | vals[(i - pos) / 2] } else { out[i] })
}

proof fn lemma_or_low_bytes(out: Seq<u8>, pos: int, vals: Seq<u8>)
    requires
        0 <= pos,
        pos + 2 * vals.len() <= out.len(),
    ensures
        or_low_bytes(out, pos, vals) == Some(low_bytes_ored(out, pos, vals)),
    decreases vals.len(),
{
    if vals.len() == 0 {
        assert(low_bytes_ored(out, pos, vals) =~= out);
    } else {
        let o2 = out.update(pos, out[pos] | vals[0]);
        let rest = vals.drop_first();
        lemma_or_low_bytes(o2, pos + 2, rest);
        assert forall|i: int| 0 <= i < out.len() implies #[trigger] low_bytes_ored(o2, pos + 2, rest)[i] == low_bytes_ored(out, pos, vals)[i] by {
            if i == pos {
            } else if pos + 2 <= i < pos + 2 * vals.len() && (i - pos) % 2 == 0 {
                assert((i - (pos + 2)) / 2 == (i - pos) / 2 - 1);
                assert(rest[(i - (pos + 2)) / 2] == vals[(i - pos) / 2]);
            }
        }
        assert(low_bytes_ored(o2, pos + 2, rest) =~= low_bytes_ored(out, pos, vals));
    }
}

/// Phase 2, a command below 0x80 skips `cmd + 1` words.
pub proof fn lemma_phase2_skip(d: Seq<u8>, out: Seq<u8>, pos: nat, n: nat)
    requires
        pos < n,
        d.len() >= 1,
        d[0] < 0x80,
    ensures
        phase2_output(tilemap_phase2(d, out, pos, n)) == phase2_output(tilemap_phase2(d.drop_first(), out, (pos + 2 * (d[0] + 1)) as nat, n)),
{
}

/// Phase 2, a command from 0x80 to 0xBF ORs the byte after it into the low byte of each of the
/// next `cmd - 0x7F` words.
pub proof fn lemma_phase2_fill(d: Seq<u8>, out: Seq<u8>, pos: nat, n: nat)
    requires
        pos < n,
        d.len() >= 2,
        0x80 <= d[0] < 0xC0,
        pos + 2 * (d[0] - 0x7F) <= out.len(),
    ensures
        ({
            let k = d[0] - 0x7F;
            let o1 = Seq::new(out.len(), |i: int| if pos <= i < pos + 2 * k && (i - pos) % 2 == 0 { out[i] | d[1] } else { out[i] });
            phase2_output(tilemap_phase2(d, out, pos, n)) == phase2_output(tilemap_phase2(d.skip(2), o1, (pos + 2 * k) as nat, n))
        }),
{
    let k = (d[0] - 0x7F) as nat;
    let vals = Seq::new(k, |i: int| d[1]);
    lemma_or_low_bytes(out, pos as int, vals);
    let o1 = Seq::new(out.len(), |i: int| if pos <= i < pos + 2 * k && (i - pos) % 2 == 0 { out[i] | d[1] } else { out[i] });
    assert(low_bytes_ored(out, pos as int, vals) =~= o1);
}

/// Phase 2, a command from 0xC0 on ORs the `cmd - 0xBF` bytes after it, in order, into the low
/// bytes of as many words: the `j`-th of them into word `j`.
pub proof fn lemma_phase2_copy(d: Seq<u8>, out: Seq<u8>, pos: nat, n: nat)
    requires
        pos < n,
        d.len() >= 1,
        d[0] >= 0xC0,
        d.len() >= 1 + (d[0] - 0xBF),
        pos + 2 * (d[0] - 0xBF) <= out.len(),
    ensures
        ({
            let k = d[0] - 0xBF;
            let o1 = Seq::new(out.len(), |i: int| if pos <= i < pos + 2 * k && (i - pos) % 2 == 0 { out[i] | d[1 + (i - pos) / 2] } else { out[i] });
            phase2_output(tilemap_phase2(d, out, pos, n)) == phase2_output(tilemap_phase2(d.skip(1 + k), o1, (pos + 2 * k) as nat, n))
        }),
{
    let k = (d[0] - 0xBF) as nat;
    let vals = d.subrange(1, 1 + k as int);
    lemma_or_low_bytes(out, pos as int, vals);
    let o1 = Seq::new(out.len(), |i: int| if pos <= i < pos + 2 * k && (i - pos) % 2 == 0 { out[i] | d[1 + (i - pos) / 2] } else { out[i] });
    assert(low_bytes_ored(out, pos as int, vals) =~= o1);
}

} // verus!
