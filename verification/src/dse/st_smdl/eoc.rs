//! The end-of-content chunk of an SMDL file.
use crate::bytes::le32;
use crate::bytes::u32_le_bytes;
use crate::bytes::StBytes;
use crate::python::exceptions::PyAssertionError;
use crate::python::PyResult;
use vstd::prelude::*;

verus! {

/// "eoc "
pub open spec fn eoc_magic() -> Seq<u8> {
    seq![101u8, 111u8, 99u8, 32u8]
}

/// The end-of-content chunk: two parameters.
#[derive(Clone, Copy, Debug, PartialEq, Eq, Structural)]
pub struct SmdlEoc {
    pub param1: u32,
    pub param2: u32,
}

/// The chunk stored at `pos`, if there is a whole one with the right magic.
pub open spec fn eoc_at(s: Seq<u8>, pos: int) -> Option<SmdlEoc> {
    if s.len() - pos < 16 || s.subrange(pos, pos + 4) != eoc_magic() {
        None
    } else {
        Some(SmdlEoc { param1: le32(s, pos + 4) as u32, param2: le32(s, pos + 8) as u32 })
    }
}

/// The 16 bytes of a chunk.
pub open spec fn eoc_bytes(e: SmdlEoc) -> Seq<u8> {
    eoc_magic() + u32_le_bytes(e.param1) + u32_le_bytes(e.param2) + u32_le_bytes(0)
}

/// Whether the 4 bytes at `pos` are `m`.
pub fn magic_at(s: &[u8], pos: usize, m0: u8, m1: u8, m2: u8, m3: u8) -> (r: bool)
    requires
        pos + 4 <= s@.len(),
    ensures
        r == (s@.subrange(pos as int, pos + 4) == seq![m0, m1, m2, m3]),
{
    let r = s[pos] == m0 && s[pos + 1] == m1 && s[pos + 2] == m2 && s[pos + 3] == m3;
    assert(r == (s@.subrange(pos as int, pos + 4) =~= seq![m0, m1, m2, m3]));
    r
}

impl SmdlEoc {
    /// Reads the chunk at `pos`; fails where fewer than 16 bytes remain or the magic is wrong.
    pub fn from_bytes(source: &[u8], pos: usize) -> (r: PyResult<Self>)
        requires
            pos <= source@.len(),
        ensures
            match eoc_at(source@, pos as int) {
                Some(e) => r == Ok::<SmdlEoc, crate::python::PyErr>(e),
                None => r matches Err(er) && er.kind == crate::python::ErrorKind::AssertionError,
            },
    {
        if source.len() - pos < 16 {
            return Err(PyAssertionError::new_err("SMDL file too short (EOC EOF)."));
        }
        if !magic_at(source, pos, 101, 111, 99, 32) {
            return Err(PyAssertionError::new_err("Invalid SMDL/EOC header."));
        }
        let param1 = crate::bytes::read_u32_le(source, pos + 4);
        let param2 = crate::bytes::read_u32_le(source, pos + 8);
        Ok(SmdlEoc { param1, param2 })
    }

    /// The 16 bytes of this chunk.
    pub fn to_bytes(&self) -> (r: StBytes)
        ensures
            r@ == eoc_bytes(*self),
    {
        let mut b: Vec<u8> = Vec::new();
        b.push(101);
        b.push(111);
        b.push(99);
        b.push(32);
        assert(b@ == eoc_magic());
        crate::bytes::push_u32_le(&mut b, self.param1);
        crate::bytes::push_u32_le(&mut b, self.param2);
        crate::bytes::push_u32_le(&mut b, 0);
        StBytes(b)
    }
}

} // verus!
