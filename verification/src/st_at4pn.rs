//! AT4PN: an uncompressed container (magic, 16-bit length, data).
use crate::bytes::le16;
use crate::bytes::u16_le_bytes;
use crate::bytes::StBytesMut;
use crate::python::exceptions::PyValueError;
use crate::python::ErrorKind;
use crate::python::PyResult;
use crate::st_at_common::CompressionContainer;
use vstd::prelude::*;

verus! {

/// "AT4PN"
pub open spec fn at4pn_magic() -> Seq<u8> {
    seq![65u8, 84u8, 52u8, 80u8, 78u8]
}

/// An AT4PN container: the data it holds.
pub struct At4pn {
    pub data: Vec<u8>,
}

impl CompressionContainer for At4pn {}

impl At4pn {
    pub const DATA_START: usize = 7;

    /// A container holding `data` as it is.
    pub fn compress(data: &[u8]) -> (r: PyResult<Self>)
        ensures
            r matches Ok(c) && c.data@ == data@,
    {
        Self::new(data, true)
    }

    /// Whether `data` starts with the AT4PN magic.
    pub fn matches(data: &[u8]) -> (r: bool)
        requires
            data@.len() >= 5,
        ensures
            r == (data@.subrange(0, 5) == at4pn_magic()),
    {
        let r = data[0] == 65 && data[1] == 84 && data[2] == 52 && data[3] == 80 && data[4] == 78;
        assert(r == (data@.subrange(0, 5) =~= at4pn_magic()));
        r
    }

    /// With `new`, a container holding `data`; else reads a container: fails unless the length
    /// field equals the number of bytes after the header (in 16 bits).
    pub fn new(data: &[u8], new: bool) -> (r: PyResult<Self>)
        requires
            !new ==> data@.len() >= 7,
        ensures
            new ==> (r matches Ok(c) && c.data@ == data@),
            !new ==> (r is Ok <==> le16(data@, 5) == ((data@.len() - 7) as u16)),
            !new ==> (r matches Ok(c) ==> c.data@ == data@.subrange(7, data@.len() as int)),
            r matches Err(e) ==> e.kind == ErrorKind::ValueError,
    {
        if new {
            let v = crate::bytes::copy_range(data, 0, data.len());
            assert(data@.subrange(0, data@.len() as int) == data@);
            Ok(At4pn { data: v })
        } else {
            if Self::cont_size(data, 0) != ((data.len() - Self::DATA_START) as u16) {
                return Err(PyValueError::new_err("Invalid data size."));
            }
            let content = crate::bytes::copy_range(data, 7, data.len());
            Ok(At4pn { data: content })
        }
    }

    /// The data held.
    pub fn decompress(&self) -> (r: PyResult<StBytesMut>)
        ensures
            r matches Ok(v) && v@ == self.data@,
    {
        let v = crate::bytes::copy_range(self.data.as_slice(), 0, self.data.len());
        assert(self.data@.subrange(0, self.data@.len() as int) == self.data@);
        Ok(StBytesMut(v))
    }

    /// Magic, the data's length in 16 bits, the data.
    pub fn to_bytes(&self) -> (r: StBytesMut)
        ensures
            r@ == at4pn_magic() + u16_le_bytes(self.data@.len() as u16) + self.data@,
    {
        let len = self.data.len();
        let mut res: Vec<u8> = Vec::new();
        res.push(65);
        res.push(84);
        res.push(52);
        res.push(80);
        res.push(78);
        assert(res@ == at4pn_magic());
        crate::bytes::push_u16_le(&mut res, len as u16);
        crate::bytes::push_all(&mut res, self.data.as_slice());
        StBytesMut(res)
    }
}

} // verus!
