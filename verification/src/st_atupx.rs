//! ATUPX: a container of data compressed with the nibble delta coding.
use crate::bytes::le16;
use crate::bytes::le32;
use crate::bytes::u16_le_bytes;
use crate::bytes::u32_le_bytes;
use crate::bytes::StBytes;
use crate::compression::custom_999::c999_compress;
use crate::compression::custom_999::c999_decompress;
use crate::compression::custom_999::Custom999Compressor;
use crate::compression::custom_999::Custom999Decompressor;
use crate::python::PyResult;
use crate::st_at_common::CompressionContainer;
use vstd::prelude::*;

verus! {

/// "ATUPX"
pub open spec fn atupx_magic() -> Seq<u8> {
    seq![65u8, 84u8, 85u8, 80u8, 88u8]
}

/// What an ATUPX container holds.
pub struct AtupxModel {
    pub data: Seq<u8>,
    pub len_comp: u16,
    pub len_decomp: u32,
}

/// An ATUPX container.
pub struct Atupx {
    pub data: Vec<u8>,
    pub len_comp: u16,
    pub len_decomp: u32,
}

impl View for Atupx {
    type V = AtupxModel;

    open spec fn view(&self) -> AtupxModel {
        AtupxModel { data: self.data@, len_comp: self.len_comp, len_decomp: self.len_decomp }
    }
}

impl CompressionContainer for Atupx {}

impl Atupx {
    pub const DATA_START: u16 = 0x14;

    /// The container that the bytes `d` hold.
    pub open spec fn parse(d: Seq<u8>) -> AtupxModel {
        AtupxModel { len_comp: le16(d, 5) as u16, len_decomp: le32(d, 7) as u32, data: d.subrange(11, d.len() as int) }
    }

    /// Whether decompressing can run: data that starts with a nibble, and a nonzero size.
    pub open spec fn decompress_ok(m: AtupxModel) -> bool {
        &&& m.data.len() > 0
        &&& m.data[0] < 16
        &&& m.len_comp > 0
    }

    /// What `decompress` gives: as many bytes as the compressed size field says.
    pub open spec fn decompressed(m: AtupxModel) -> Seq<u8> {
        c999_decompress(m.data, m.len_comp as nat)
    }

    /// A container of `data` compressed (its size field counts the data and 0x14 header bytes).
    fn compress(data: &[u8]) -> (r: PyResult<Self>)
        requires
            data@.len() > 0,
            (c999_compress(data@).len() as u16) + 0x14 <= 0xFFFF,
            data@.len() <= u32::MAX,
        ensures
            r matches Ok(c) && c.data@ == c999_compress(data@) && c.len_comp == (c999_compress(data@).len() as u16)
                + 0x14 && c.len_decomp == data@.len(),
    {
        let nine = Custom999Compressor::run(data);
        Ok(Atupx { len_comp: nine.0.len() as u16 + Self::DATA_START, data: nine.0, len_decomp: data.len() as u32 })
    }

    /// Reads a container: sizes, and everything after them as data.
    pub fn new(data: &[u8]) -> (r: PyResult<Self>)
        requires
            data@.len() >= 11,
        ensures
            r matches Ok(c) && c@ == Self::parse(data@),
    {
        let len_comp = crate::bytes::read_u16_le(data, 5);
        let len_decomp = crate::bytes::read_u32_le(data, 7);
        let rest = crate::bytes::copy_range(data, 11, data.len());
        Ok(Atupx { len_comp, len_decomp, data: rest })
    }

    /// Decompresses the data; the number of bytes is taken from the compressed size field.
    pub fn decompress(&self) -> (r: PyResult<StBytes>)
        requires
            Self::decompress_ok(self@),
        ensures
            r matches Ok(v) && v@ == Self::decompressed(self@),
    {
        let v = Custom999Decompressor::run(self.data.as_slice(), self.len_comp as usize);
        Ok(StBytes(v.0))
    }

    /// Magic, both sizes, data.
    pub fn to_bytes(&self) -> (r: PyResult<StBytes>)
        requires
            self.len_comp == 11 + self.data@.len(),
        ensures
            r matches Ok(v) && v@ == atupx_magic() + u16_le_bytes(self.len_comp) + u32_le_bytes(self.len_decomp)
                + self.data@,
    {
        let mut res: Vec<u8> = Vec::new();
        res.push(65);
        res.push(84);
        res.push(85);
        res.push(80);
        res.push(88);
        assert(res@ == atupx_magic());
        crate::bytes::push_u16_le(&mut res, self.len_comp);
        crate::bytes::push_u32_le(&mut res, self.len_decomp);
        crate::bytes::push_all(&mut res, self.data.as_slice());
        Ok(StBytes(res))
    }
}

} // verus!
