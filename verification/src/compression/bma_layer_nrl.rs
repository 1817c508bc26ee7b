//! NRL compression of the tile layers of BMA map files: values are pairs of
//! 12-bit tile mappings, stored packed in three bytes ("pair 24").
use vstd::prelude::*;

use crate::bytes::{copy_range, le16, push_all, push_u16_le, read_u16_le, u16_le_bytes, StBytesMut};
use crate::compression::nrl::{nrl_decompress, nrl_decompress_exec, pair24_to_two_u16, NrlUnit};
use crate::python::{exceptions, PyResult};

verus! {

/// Two 16-bit little-endian integers, as four bytes.
#[derive(Clone, Copy, PartialEq, Eq, Debug)]
pub struct TwoU16(pub [u8; 4]);

/// Two 12-bit integers packed into three bytes.
#[derive(Clone, Copy, PartialEq, Eq, Debug)]
pub struct Pair24(pub [u8; 3]);

impl TwoU16 {
    pub fn new(v: [u8; 4]) -> (r: Self)
        ensures
            r.0 == v,
    {
        Self(v)
    }

    pub fn raw(&self) -> (r: &[u8; 4])
        ensures
            *r == self.0,
    {
        &self.0
    }

    pub fn is_null(&self) -> (r: bool)
        ensures
            r <==> (self.0[0] == 0 && self.0[1] == 0 && self.0[2] == 0 && self.0[3] == 0),
    {
        self.0[0] == 0 && self.0[1] == 0 && self.0[2] == 0 && self.0[3] == 0
    }

    pub fn null() -> (r: Self)
        ensures
            r.0@ == seq![0u8, 0, 0, 0],
    {
        let r = Self([0, 0, 0, 0]);
        assert(r.0@ =~= seq![0u8, 0, 0, 0]);
        r
    }
}

impl Pair24 {
    pub fn new(v: [u8; 3]) -> (r: Self)
        ensures
            r.0 == v,
    {
        Self(v)
    }

    pub fn raw(&self) -> (r: &[u8; 3])
        ensures
            *r == self.0,
    {
        &self.0
    }

    pub fn is_null(&self) -> (r: bool)
        ensures
            r <==> (self.0[0] == 0 && self.0[1] == 0 && self.0[2] == 0),
    {
        self.0[0] == 0 && self.0[1] == 0 && self.0[2] == 0
    }

    pub fn null() -> (r: Self)
        ensures
            r.0@ == seq![0u8, 0, 0],
    {
        let r = Self([0, 0, 0]);
        assert(r.0@ =~= seq![0u8, 0, 0]);
        r
    }
}

/// The pair-24 packing of two 16-bit integers (of which the low 12 bits count):
/// the low byte of the first, then the low nibble of the second with the high
/// nibble of the first, then the high byte of the second's 12 bits.
pub open spec fn two_u16_to_pair24(a: Seq<u8>) -> Seq<u8> {
    seq![a[0], ((a[2] % 16) * 16 + a[1] % 16) as u8, ((a[3] % 16) * 16 + a[2] / 16) as u8]
}

impl From<Pair24> for TwoU16 {
    fn from(other_in: Pair24) -> (r: Self) {
        let b0 = other_in.0[0];
        let b1 = other_in.0[1];
        let b2 = other_in.0[2];
        Self([b0, b1 % 16, (b2 % 16) * 16 + b1 / 16, b2 / 16])
    }
}

impl vstd::std_specs::convert::FromSpecImpl<Pair24> for TwoU16 {
    open spec fn obeys_from_spec() -> bool {
        true
    }

    open spec fn from_spec(other_in: Pair24) -> TwoU16 {
        TwoU16([other_in.0[0], (other_in.0[1] % 16) as u8, ((other_in.0[2] % 16) * 16 + other_in.0[1] / 16) as u8, (other_in.0[2] / 16) as u8])
    }
}

impl From<TwoU16> for Pair24 {
    fn from(other_in: TwoU16) -> (r: Self) {
        let a = other_in.0;
        Self([a[0], (a[2] % 16) * 16 + a[1] % 16, (a[3] % 16) * 16 + a[2] / 16])
    }
}

impl vstd::std_specs::convert::FromSpecImpl<TwoU16> for Pair24 {
    open spec fn obeys_from_spec() -> bool {
        true
    }

    open spec fn from_spec(other_in: TwoU16) -> Pair24 {
        Pair24([other_in.0[0], ((other_in.0[2] % 16) * 16 + other_in.0[1] % 16) as u8, ((other_in.0[3] % 16) * 16 + other_in.0[2] / 16) as u8])
    }
}

/// Packing two integers below 0x1000 into pair-24 form and unpacking them gives
/// them back.
pub proof fn lemma_pair24_roundtrip(a: Seq<u8>)
    requires
        a.len() == 4,
        a[1] < 16,
        a[3] < 16,
    ensures
        ({
            let p = two_u16_to_pair24(a);
            pair24_to_two_u16(p[0], p[1], p[2]) == a
        }),
{
    let p = two_u16_to_pair24(a);
    assert(pair24_to_two_u16(p[0], p[1], p[2]) =~= a);
}

/// Unpacking three bytes and packing them again gives them back.
pub proof fn lemma_two_u16_roundtrip(b0: u8, b1: u8, b2: u8)
    ensures
        two_u16_to_pair24(pair24_to_two_u16(b0, b1, b2)) == seq![b0, b1, b2],
{
    assert(two_u16_to_pair24(pair24_to_two_u16(b0, b1, b2)) =~= seq![b0, b1, b2]);
}

/// Decompressor for BMA layers.
pub struct BmaLayerNrlDecompressor;

impl BmaLayerNrlDecompressor {
    /// Decompresses until at least `stop_when_size` bytes are written.
    pub fn run(compressed_data: &[u8], stop_when_size: usize) -> (r: PyResult<Vec<u8>>)
        ensures
            match nrl_decompress(NrlUnit::Pair24, compressed_data@, stop_when_size as nat) {
                Some((c, w)) => r matches Ok(v) && v@ == w,
                None => r is Err,
            },
    {
        assert(compressed_data@.skip(0) =~= compressed_data@);
        match nrl_decompress_exec(NrlUnit::Pair24, compressed_data, 0, stop_when_size) {
            Some((_, v)) => Ok(v),
            None => Err(exceptions::PyValueError::new_err(
                "BMA Layer NRL Decompressor: Phase1: End result length unexpected.",
            )),
        }
    }
}

/// A container of compressed layer data: the magic
/// `BMANRL`, the decompressed length, then the compressed data.
pub struct BmaLayerNrlCompressionContainer {
    pub compressed_data: Vec<u8>,
    pub length_decompressed: u16,
}

pub open spec fn bma_nrl_magic() -> Seq<u8> {
    seq![0x42u8, 0x4D, 0x41, 0x4E, 0x52, 0x4C]
}

impl BmaLayerNrlCompressionContainer {
    pub const DATA_START: usize = 8;

    pub fn cont_size(data: &[u8], byte_offset: usize) -> (r: u16)
        requires
            byte_offset <= data@.len(),
        ensures
            r == (data@.len() - byte_offset) as u16,
    {
        (data.len() - byte_offset) as u16
    }

    pub fn new(data: &[u8]) -> (r: PyResult<Self>)
        requires
            data@.len() >= 8,
        ensures
            r matches Ok(c) && c.length_decompressed == le16(data@, 6)
                && c.compressed_data@ == data@.skip(8),
    {
        let length_decompressed = read_u16_le(data, 6);
        let compressed_data = copy_range(data, 8, data.len());
        assert(compressed_data@ =~= data@.skip(8));
        Ok(Self { compressed_data, length_decompressed })
    }

    pub fn decompress(&self) -> (r: PyResult<StBytesMut>)
        ensures
            match nrl_decompress(NrlUnit::Pair24, self.compressed_data@, self.length_decompressed as nat) {
                Some((c, w)) => r matches Ok(v) && v@ == w,
                None => r is Err,
            },
    {
        match BmaLayerNrlDecompressor::run(self.compressed_data.as_slice(), self.length_decompressed as usize) {
            Ok(v) => Ok(StBytesMut(v)),
            Err(e) => Err(e),
        }
    }

    pub fn to_bytes(&self) -> (r: StBytesMut)
        ensures
            r@ == bma_nrl_magic() + u16_le_bytes(self.length_decompressed) + self.compressed_data@,
    {
        let mut res: Vec<u8> = Vec::new();
        res.push(0x42);
        res.push(0x4D);
        res.push(0x41);
        res.push(0x4E);
        res.push(0x52);
        res.push(0x4C);
        assert(res@ =~= bma_nrl_magic());
        push_u16_le(&mut res, self.length_decompressed);
        push_all(&mut res, self.compressed_data.as_slice());
        StBytesMut(res)
    }
}

} // verus!
