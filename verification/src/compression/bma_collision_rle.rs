//! Run-length coding of the one-bit collision layers of BMA map files.
//!
//! Each command byte encodes a run: bit 7 is the value written, the low seven
//! bits are the number of repetitions after the first.
use vstd::prelude::*;

use crate::bytes::{le16, push_all, push_u16_le, u16_le_bytes, StBytes, StBytesMut};
use crate::python::{exceptions, PyResult};

verus! {

pub const RLE_MAX_LOOKAHEAD_SIZE: u8 = 127;

/// The number of leading elements of `s` equal to `b`, counting at most `max`.
pub open spec fn leading_repeats(s: Seq<u8>, b: u8, max: nat) -> nat
    decreases max,
{
    if max == 0 || s.len() == 0 || s[0] != b {
        0
    } else {
        1 + leading_repeats(s.drop_first(), b, (max - 1) as nat)
    }
}

pub proof fn lemma_leading_repeats_facts(s: Seq<u8>, b: u8, max: nat)
    ensures
        leading_repeats(s, b, max) <= max,
        leading_repeats(s, b, max) <= s.len(),
        forall|k: int| 0 <= k < leading_repeats(s, b, max) ==> s[k] == b,
    decreases max,
{
    if max == 0 || s.len() == 0 || s[0] != b {
    } else {
        lemma_leading_repeats_facts(s.drop_first(), b, (max - 1) as nat);
        assert forall|k: int| 0 <= k < leading_repeats(s, b, max) implies s[k] == b by {
            if k > 0 {
                assert(s.drop_first()[k - 1] == s[k]);
            }
        }
    }
}

/// A count that stops at a mismatch, the end of `s`, or `max` is `leading_repeats`.
pub proof fn lemma_leading_repeats_is(s: Seq<u8>, b: u8, max: nat, r: nat)
    requires
        r <= max,
        r <= s.len(),
        forall|k: int| 0 <= k < r ==> s[k] == b,
        r == max || r == s.len() || s[r as int] != b,
    ensures
        leading_repeats(s, b, max) == r,
    decreases r,
{
    if r == 0 {
    } else {
        let t = s.drop_first();
        assert forall|k: int| 0 <= k < r - 1 implies t[k] == b by {
            assert(s[k + 1] == b);
        }
        if r < s.len() && r < max {
            assert(t[r - 1] == s[r as int]);
        }
        lemma_leading_repeats_is(t, b, (max - 1) as nat, (r - 1) as nat);
    }
}

/// The command byte for a run of `repeats + 1` copies of `b`.
pub open spec fn rle_command(b: u8, repeats: nat) -> u8 {
    if b > 0 {
        (0x80 + repeats) as u8
    } else {
        repeats as u8
    }
}

/// The compressed form of `s`: one command per maximal run of at most 128 equal bytes.
pub open spec fn rle_compress(s: Seq<u8>) -> Seq<u8>
    decreases s.len(),
{
    if s.len() == 0 {
        Seq::empty()
    } else {
        let r = leading_repeats(s.drop_first(), s[0], 127);
        proof {
            lemma_leading_repeats_facts(s.drop_first(), s[0], 127);
        }
        seq![rle_command(s[0], r)] + rle_compress(s.skip(1 + r as int))
    }
}

/// The bytes that a command byte stands for.
pub open spec fn rle_run(cmd: u8) -> Seq<u8> {
    Seq::new((cmd % 128) as nat + 1, |i: int| (cmd / 128) as u8)
}

pub open spec fn prepend_opt(p: Seq<u8>, o: Option<Seq<u8>>) -> Option<Seq<u8>> {
    match o {
        Some(r) => Some(p + r),
        None => None,
    }
}

/// Decompression: runs are appended until at least `remaining` bytes are written;
/// `None` when the commands end before that.
/// How many command bytes decompression until `remaining` bytes are written reads.
pub open spec fn rle_used(data: Seq<u8>, remaining: nat) -> nat
    decreases data.len(),
{
    if remaining == 0 || data.len() == 0 {
        0
    } else {
        let run = rle_run(data[0]);
        if run.len() >= remaining {
            1
        } else {
            1 + rle_used(data.drop_first(), (remaining - run.len()) as nat)
        }
    }
}

pub open spec fn rle_decompress(data: Seq<u8>, remaining: nat) -> Option<Seq<u8>>
    decreases data.len(),
{
    if remaining == 0 {
        Some(Seq::empty())
    } else if data.len() == 0 {
        None
    } else {
        let run = rle_run(data[0]);
        if run.len() >= remaining {
            Some(run)
        } else {
            prepend_opt(run, rle_decompress(data.drop_first(), (remaining - run.len()) as nat))
        }
    }
}

/// Decompressing what compression produced gives the input back, for collision
/// data (every byte 0 or 1); decompression reads all of the compressed bytes, which are at most
/// as many as the input's.
pub proof fn lemma_rle_roundtrip(s: Seq<u8>)
    requires
        forall|i: int| 0 <= i < s.len() ==> s[i] < 2,
    ensures
        rle_decompress(rle_compress(s), s.len()) == Some(s),
        rle_used(rle_compress(s), s.len()) == rle_compress(s).len(),
        rle_compress(s).len() <= s.len(),
    decreases s.len(),
{
    if s.len() > 0 {
        let b = s[0];
        let t = s.drop_first();
        let r = leading_repeats(t, b, 127);
        lemma_leading_repeats_facts(t, b, 127);
        let cmd = rle_command(b, r);
        let rest = s.skip(1 + r as int);
        assert(cmd % 128 == r && cmd / 128 == b);
        assert(rle_run(cmd) =~= s.take(1 + r as int)) by {
            assert forall|k: int| 0 <= k < 1 + r implies rle_run(cmd)[k] == s[k] by {
                if k > 0 {
                    assert(t[k - 1] == s[k]);
                }
            }
        }
        let c = rle_compress(s);
        assert(c == seq![cmd] + rle_compress(rest));
        assert(c[0] == cmd);
        assert(c.drop_first() =~= rle_compress(rest));
        assert(rle_run(cmd).len() == 1 + r);
        if 1 + r >= s.len() {
            assert(s.take(1 + r as int) =~= s);
            assert(rest.len() == 0);
            assert(rle_compress(rest).len() == 0);
        } else {
            assert forall|i: int| 0 <= i < rest.len() implies rest[i] < 2 by {
                assert(rest[i] == s[i + 1 + r]);
            }
            lemma_rle_roundtrip(rest);
            assert(s.take(1 + r as int) + rest =~= s);
        }
    }
}

/// Compressor for collision layers.
pub struct BmaCollisionRleCompressor {
    pub decompressed_data: Vec<u8>,
    pub compressed_data: Vec<u8>,
}

impl BmaCollisionRleCompressor {
    pub fn run(decompressed_data: &[u8]) -> (r: PyResult<Vec<u8>>)
        ensures
            r matches Ok(out) && out@ == rle_compress(decompressed_data@),
    {
        let s = decompressed_data;
        let n = s.len();
        let mut out: Vec<u8> = Vec::with_capacity(n);
        let mut pos: usize = 0;
        assert(s@.skip(0) =~= s@);
        assert(out@ + rle_compress(s@.skip(0)) =~= rle_compress(s@));
        while pos < n
            invariant
                n == s@.len(),
                pos <= n,
                out@ + rle_compress(s@.skip(pos as int)) == rle_compress(s@),
            decreases n - pos,
        {
            let (w, repeats) = Self::process(s, pos);
            let ghost rest = s@.skip(pos as int);
            proof {
                assert(rest.drop_first() =~= s@.skip(pos + 1));
                assert(rest.skip(1 + repeats) =~= s@.skip(pos + 1 + repeats));
            }
            out.push(w);
            pos = pos + 1 + repeats as usize;
            assert(out@ + rle_compress(s@.skip(pos as int)) =~= rle_compress(s@));
        }
        assert(s@.skip(n as int) =~= Seq::<u8>::empty());
        Ok(out)
    }

    /// The command for the run starting at `pos`, and the number of repetitions it covers.
    fn process(s: &[u8], pos: usize) -> (r: (u8, u8))
        requires
            pos < s@.len(),
        ensures
            r.1 == leading_repeats(s@.skip(pos as int).drop_first(), s@[pos as int], 127),
            r.0 == rle_command(s@[pos as int], r.1 as nat),
            pos + 1 + r.1 <= s@.len(),
    {
        let next = s[pos];
        let mut repeats: u8 = 0;
        let ghost t = s@.skip(pos as int).drop_first();
        let n = s.len();
        let base = pos + 1;
        while repeats < RLE_MAX_LOOKAHEAD_SIZE && (repeats as usize) < n - base
            && s[base + repeats as usize] == next
            invariant
                n == s@.len(),
                base == pos + 1,
                pos < s@.len(),
                t == s@.skip(pos + 1),
                repeats <= 127,
                pos + 1 + repeats <= s@.len(),
                forall|k: int| 0 <= k < repeats ==> t[k] == next,
            decreases 127 - repeats,
        {
            repeats += 1;
        }
        proof {
            lemma_leading_repeats_is(t, next, 127, repeats as nat);
        }
        let w = if next > 0 {
            0x80 + repeats
        } else {
            repeats
        };
        (w, repeats)
    }

    /// Reads one byte of collision data.
    pub fn read(from: &[u8], pos: usize) -> (r: u8)
        requires
            pos < from@.len(),
        ensures
            r == from@[pos as int],
    {
        from[pos]
    }
}

/// Decompressor for collision layers.
pub struct BmaCollisionRleDecompressor {
    pub decompressed_data: Vec<u8>,
    pub stop_when_size: usize,
}

impl BmaCollisionRleDecompressor {
    /// Decompresses until at least `stop_when_size` bytes are written. Fails when
    /// the commands end first.
    pub fn run(compressed_data: &[u8], stop_when_size: usize) -> (r: PyResult<Vec<u8>>)
        ensures
            match rle_decompress(compressed_data@, stop_when_size as nat) {
                Some(out) => r matches Ok(v) && v@ == out,
                None => r is Err,
            },
    {
        match Self::run_counted(compressed_data, stop_when_size) {
            Ok((v, _p)) => Ok(v),
            Err(e) => Err(e),
        }
    }

    /// As `run`, also giving how many bytes of the data were read.
    pub fn run_counted(compressed_data: &[u8], stop_when_size: usize) -> (r: PyResult<(Vec<u8>, usize)>)
        ensures
            match rle_decompress(compressed_data@, stop_when_size as nat) {
                Some(out) => r matches Ok((v, p)) && v@ == out && p == rle_used(compressed_data@, stop_when_size as nat)
                    && p <= compressed_data@.len(),
                None => r is Err,
            },
    {
        let n = compressed_data.len();
        let mut out: Vec<u8> = Vec::with_capacity(stop_when_size);
        let mut pos: usize = 0;
        proof {
            assert(compressed_data@.skip(0) =~= compressed_data@);
            match rle_decompress(compressed_data@, stop_when_size as nat) {
                Some(v) => {
                    assert(out@ + v =~= v);
                },
                None => {},
            }
        }
        while out.len() < stop_when_size
            invariant
                n == compressed_data@.len(),
                pos <= n,
                out@.len() < stop_when_size ==> rle_decompress(compressed_data@, stop_when_size as nat)
                    == prepend_opt(out@, rle_decompress(compressed_data@.skip(pos as int), (stop_when_size - out@.len()) as nat)),
                out@.len() >= stop_when_size ==> rle_decompress(compressed_data@, stop_when_size as nat) == Some(out@),
                out@.len() < stop_when_size ==> rle_used(compressed_data@, stop_when_size as nat)
                    == pos + rle_used(compressed_data@.skip(pos as int), (stop_when_size - out@.len()) as nat),
                out@.len() >= stop_when_size ==> rle_used(compressed_data@, stop_when_size as nat) == pos,
            decreases n - pos,
        {
            if pos >= n {
                proof {
                    assert(compressed_data@.skip(pos as int).len() == 0);
                    assert(rle_decompress(compressed_data@.skip(pos as int), (stop_when_size - out@.len()) as nat) is None);
                    assert(rle_decompress(compressed_data@, stop_when_size as nat) is None);
                }
                let e = exceptions::PyValueError::new_err(
                    "BMA Collision RLE Decompressor: End result length unexpected.",
                );
                assert(rle_decompress(compressed_data@, stop_when_size as nat) is None);
                return Err(e);
            }
            let ghost before = out@;
            let ghost rem = (stop_when_size - out@.len()) as nat;
            let ghost tail = compressed_data@.skip(pos as int);
            let cmd = compressed_data[pos];
            Self::process(&mut out, cmd);
            proof {
                assert(tail[0] == cmd);
                assert(tail.drop_first() =~= compressed_data@.skip(pos + 1));
                let run = rle_run(cmd);
                if run.len() < rem {
                    let x = rle_decompress(compressed_data@.skip(pos + 1), (rem - run.len()) as nat);
                    match x {
                        Some(v) => {
                            assert(before + (run + v) =~= (before + run) + v);
                        },
                        None => {},
                    }
                }
            }
            pos += 1;
        }
        Ok((out, pos))
    }

    /// Appends the run that one command byte stands for.
    fn process(out: &mut Vec<u8>, cmd: u8)
        ensures
            final(out)@ == old(out)@ + rle_run(cmd),
    {
        let byte_to_write = cmd / 128;
        let times_to_write = cmd % 128;
        let mut i: u8 = 0;
        while i <= times_to_write
            invariant
                times_to_write == cmd % 128,
                byte_to_write == cmd / 128,
                i <= times_to_write + 1,
                out@ == old(out)@ + Seq::new(i as nat, |k: int| (cmd / 128) as u8),
            decreases times_to_write + 1 - i,
        {
            out.push(byte_to_write);
            i += 1;
            assert(out@ =~= old(out)@ + Seq::new(i as nat, |k: int| (cmd / 128) as u8));
        }
        assert(Seq::new(i as nat, |k: int| (cmd / 128) as u8) =~= rle_run(cmd));
    }
}

/// A container of compressed collision data: the
/// magic `BMARLE`, the decompressed length, then the compressed data.
pub struct BmaCollisionRleCompressionContainer {
    pub compressed_data: Vec<u8>,
    pub length_decompressed: u16,
}

pub open spec fn bma_rle_magic() -> Seq<u8> {
    seq![0x42u8, 0x4D, 0x41, 0x52, 0x4C, 0x45]
}

impl BmaCollisionRleCompressionContainer {
    pub const DATA_START: usize = 8;

    pub fn compress(data: &[u8]) -> (r: PyResult<Self>)
        ensures
            r matches Ok(c) && c.compressed_data@ == rle_compress(data@)
                && c.length_decompressed == data@.len() as u16,
    {
        let compressed_data = match BmaCollisionRleCompressor::run(data) {
            Ok(c) => c,
            Err(e) => return Err(e),
        };
        Ok(Self { length_decompressed: data.len() as u16, compressed_data })
    }

    /// The size of the container in `data` that starts at `byte_offset`.
    pub fn cont_size(data: &[u8], byte_offset: usize) -> (r: u16)
        requires
            byte_offset <= data@.len(),
        ensures
            r == (data@.len() - byte_offset) as u16,
    {
        (data.len() - byte_offset) as u16
    }

    /// Reads a container: the length is at bytes 6 and 7, the data follows.
    pub fn new(data: &[u8]) -> (r: PyResult<Self>)
        requires
            data@.len() >= 8,
        ensures
            r matches Ok(c) && c.length_decompressed == le16(data@, 6)
                && c.compressed_data@ == data@.skip(8),
    {
        let length_decompressed = crate::bytes::read_u16_le(data, 6);
        let compressed_data = crate::bytes::copy_range(data, 8, data.len());
        assert(compressed_data@ =~= data@.skip(8));
        Ok(Self { compressed_data, length_decompressed })
    }

    pub fn decompress(&self) -> (r: PyResult<StBytesMut>)
        ensures
            match rle_decompress(self.compressed_data@, self.length_decompressed as nat) {
                Some(out) => r matches Ok(v) && v@ == out,
                None => r is Err,
            },
    {
        match BmaCollisionRleDecompressor::run(self.compressed_data.as_slice(), self.length_decompressed as usize) {
            Ok(v) => Ok(StBytesMut(v)),
            Err(e) => Err(e),
        }
    }

    pub fn to_bytes(&self) -> (r: StBytesMut)
        ensures
            r@ == bma_rle_magic() + u16_le_bytes(self.length_decompressed) + self.compressed_data@,
    {
        let mut res: Vec<u8> = Vec::new();
        res.push(0x42);
        res.push(0x4D);
        res.push(0x41);
        res.push(0x52);
        res.push(0x4C);
        res.push(0x45);
        assert(res@ =~= bma_rle_magic());
        push_u16_le(&mut res, self.length_decompressed);
        push_all(&mut res, self.compressed_data.as_slice());
        StBytesMut(res)
    }
}

} // verus!
