//! AT3PX: a PX compressed container (magic, 16-bit size, 9 control flags, data).
use crate::bytes::le16;
use crate::bytes::u16_le_bytes;
use crate::bytes::StBytesMut;
use crate::compression::px::px_decompress;
use crate::compression::px::PxDecompressor;
use crate::compression::px::px_compress;
use crate::compression::px::PxCompLevel;
use crate::compression::px::PxCompressor;
use crate::compression::px::PxOutcome;
use crate::python::ErrorKind;
use crate::python::PyResult;
use crate::st_at_common::CompressionContainer;
use vstd::prelude::*;

verus! {

/// "AT3PX"
pub open spec fn at3px_magic() -> Seq<u8> {
    seq![65u8, 84u8, 51u8, 80u8, 88u8]
}

/// What an AT3PX container holds: the compressed data, the control flags, and the
/// container's size (header included).
pub struct At3pxModel {
    pub data: Seq<u8>,
    pub flags: Seq<u8>,
    pub len_comp: u16,
}

/// An AT3PX container.
pub struct At3px {
    pub data: Vec<u8>,
    pub flags: [u8; 9],
    pub len_comp: u16,
}

impl View for At3px {
    type V = At3pxModel;

    open spec fn view(&self) -> At3pxModel {
        At3pxModel { data: self.data@, flags: self.flags@, len_comp: self.len_comp }
    }
}

impl CompressionContainer for At3px {}

impl At3px {
    pub const DATA_START: u16 = 0x10;

    /// The container that the bytes `d` hold.
    pub open spec fn parse(d: Seq<u8>) -> At3pxModel {
        At3pxModel { data: d.subrange(16, d.len() as int), flags: d.subrange(7, 16), len_comp: le16(d, 5) as u16 }
    }

    /// The compressed part: the data up to the size the header gives.
    pub open spec fn payload(m: At3pxModel) -> Seq<u8> {
        m.data.subrange(0, m.len_comp - 16)
    }

    /// Whether decompressing can run: the size covers the header and no more than the data,
    /// and the data does not end inside a copy command.
    pub open spec fn decompress_ok(m: At3pxModel) -> bool {
        &&& 16 <= m.len_comp
        &&& m.len_comp - 16 <= m.data.len()
        &&& !(px_decompress(Self::payload(m), m.flags) is Truncated)
    }

    /// What `decompress` gives for the container `m`.
    pub open spec fn decompress_result(m: At3pxModel, r: PyResult<StBytesMut>) -> bool {
        match px_decompress(Self::payload(m), m.flags) {
            PxOutcome::Done(o) => r matches Ok(v) && v@ == o,
            PxOutcome::OutOfBound => r matches Err(e) && e.kind == ErrorKind::ValueError,
            PxOutcome::ReadFail => r matches Err(e) && e.kind == ErrorKind::IoError,
            PxOutcome::Truncated => false,
        }
    }

    /// A container of `data` PX-compressed at the highest level, searching for copies first;
    /// fails where the compressor fails.
    pub fn compress(data: &[u8]) -> (r: PyResult<Self>)
        requires
            data@.len() <= u32::MAX ==> (px_compress(data@, PxCompLevel::Level3, true).0.len() <= 65519
                || px_compress(data@, PxCompLevel::Level3, true).0.len() > 65535),
        ensures
            data@.len() > u32::MAX ==> (r matches Err(e) && e.kind == ErrorKind::ValueError),
            data@.len() <= u32::MAX ==> ({
                let (o, f) = px_compress(data@, PxCompLevel::Level3, true);
                &&& (o.len() > 65535 ==> (r matches Err(e) && e.kind == ErrorKind::ValueError))
                &&& (o.len() <= 65535 ==> (r matches Ok(c) && c.data@ == o && c.flags@ == f && c.len_comp == o.len() + 16))
            }),
    {
        match PxCompressor::run(data, PxCompLevel::Level3, true) {
            Ok((px, flags)) => {
                let len_comp: u16 = px.0.len() as u16 + Self::DATA_START;
                Ok(At3px { len_comp, data: px.0, flags })
            },
            Err(e) => Err(e),
        }
    }

    /// Whether `data` starts with the AT3PX magic.
    pub fn matches(data: &[u8]) -> (r: bool)
        requires
            data@.len() >= 5,
        ensures
            r == (data@.subrange(0, 5) == at3px_magic()),
    {
        let r = data[0] == 65 && data[1] == 84 && data[2] == 51 && data[3] == 80 && data[4] == 88;
        assert(r == (data@.subrange(0, 5) =~= at3px_magic()));
        r
    }

    /// Reads a container: size, flags, and everything after them as data.
    pub fn new(data: &[u8]) -> (r: PyResult<Self>)
        requires
            data@.len() >= 16,
        ensures
            r matches Ok(c) && c@ == Self::parse(data@),
    {
        let len_comp = crate::bytes::read_u16_le(data, 5);
        let flags: [u8; 9] = [data[7], data[8], data[9], data[10], data[11], data[12], data[13], data[14], data[15]];
        let rest = crate::bytes::copy_range(data, 16, data.len());
        assert(flags@ =~= data@.subrange(7, 16));
        Ok(At3px { len_comp, flags, data: rest })
    }

    /// Decompresses the data up to the size the header gives.
    pub fn decompress(&self) -> (r: PyResult<StBytesMut>)
        requires
            Self::decompress_ok(self@),
        ensures
            Self::decompress_result(self@, r),
    {
        let n: usize = (self.len_comp - Self::DATA_START) as usize;
        let payload = crate::bytes::copy_range(self.data.as_slice(), 0, n);
        let res = PxDecompressor::run(payload.as_slice(), self.flags.as_slice(), self.len_comp);
        match res {
            Ok(v) => Ok(StBytesMut(v.0)),
            Err(e) => Err(e),
        }
    }

    /// Magic, size, flags, data.
    pub fn to_bytes(&self) -> (r: StBytesMut)
        ensures
            r@ == at3px_magic() + u16_le_bytes(self.len_comp) + self.flags@ + self.data@,
    {
        let mut res: Vec<u8> = Vec::new();
        res.push(65);
        res.push(84);
        res.push(51);
        res.push(80);
        res.push(88);
        assert(res@ == at3px_magic());
        crate::bytes::push_u16_le(&mut res, self.len_comp);
        crate::bytes::push_all(&mut res, self.flags.as_slice());
        crate::bytes::push_all(&mut res, self.data.as_slice());
        StBytesMut(res)
    }
}

} // verus!
