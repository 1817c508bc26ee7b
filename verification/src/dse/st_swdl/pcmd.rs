//! The sample data chunk of a SWDL file.
use crate::bytes::le32;
use crate::bytes::u32_le_bytes;
use crate::bytes::StBytes;
use crate::dse::st_smdl::eoc::magic_at;
use crate::dse::st_swdl::kgrp::chunk_head;
use crate::python::exceptions::PyAssertionError;
use crate::python::ErrorKind;
use crate::python::PyResult;
use vstd::prelude::*;

verus! {

/// "pcmd"
pub open spec fn pcmd_magic() -> Seq<u8> {
    seq![112u8, 99u8, 109u8, 100u8]
}

/// The sample data chunk.
pub struct SwdlPcmd {
    pub chunk_data: StBytes,
}

/// What follows sample data of length `n`: where `n` is no multiple of 16, 8 fixed bytes,
/// then zeros up to the next multiple of 16.
pub open spec fn pcmd_padding(n: nat) -> Seq<u8> {
    let first = if n % 16 != 0 { seq![0xb4u8, 0x03, 0, 0, 0x68, 0x01, 0x51, 0x04] } else { Seq::<u8>::empty() };
    let m = n + first.len();
    first + (if m % 16 != 0 { Seq::new((16 - m % 16) as nat, |i: int| 0u8) } else { Seq::<u8>::empty() })
}

/// The bytes of a sample data chunk.
pub open spec fn pcmd_bytes(d: Seq<u8>) -> Seq<u8> {
    pcmd_magic() + chunk_head(d.len() as u32) + d + pcmd_padding(d.len())
}

impl SwdlPcmd {
    /// Reads the chunk at `pos`: the magic, the data length, then the data. Returns the chunk
    /// and the position after its data.
    pub fn from_bytes(source: &[u8], pos: usize) -> (r: PyResult<(Self, usize)>)
        requires
            pos <= source@.len(),
        ensures
            ({
                let s = source@;
                if s.len() - pos < 16 || s.subrange(pos as int, pos + 4) != pcmd_magic()
                    || s.len() - pos - 16 < le32(s, pos + 12) {
                    r matches Err(e) && e.kind == ErrorKind::AssertionError
                } else {
                    r matches Ok((p, end)) && p.chunk_data@ == s.subrange(pos + 16, pos + 16 + le32(s, pos + 12))
                        && end == pos + 16 + le32(s, pos + 12)
                }
            }),
    {
        if source.len() - pos < 16 {
            return Err(PyAssertionError::new_err("SWDL file too short (Pcmd EOF)."));
        }
        if !magic_at(source, pos, 112, 99, 109, 100) {
            return Err(PyAssertionError::new_err("Invalid SWDL/Pcmd header."));
        }
        let len = crate::bytes::read_u32_le(source, pos + 12) as usize;
        if source.len() - pos - 16 < len {
            return Err(PyAssertionError::new_err("SWDL file too short (Pcmd EOF)."));
        }
        let d = crate::bytes::copy_range(source, pos + 16, pos + 16 + len);
        Ok((SwdlPcmd { chunk_data: StBytes(d) }, pos + 16 + len))
    }

    /// The bytes of this chunk (see `pcmd_bytes`).
    pub fn to_bytes(&self) -> (r: StBytes)
        requires
            self.chunk_data@.len() <= u32::MAX,
        ensures
            r@ == pcmd_bytes(self.chunk_data@),
    {
        let d = self.chunk_data.as_slice();
        let n = d.len();
        let mut data: Vec<u8> = Vec::new();
        crate::bytes::push_all(&mut data, &[112u8, 99, 109, 100, 0, 0, 0x15, 0x04, 0x10, 0, 0, 0]);
        crate::bytes::push_u32_le(&mut data, n as u32);
        crate::bytes::push_all(&mut data, d);
        let mut m: usize = n % 16;
        if m != 0 {
            crate::bytes::push_all(&mut data, &[0xb4u8, 0x03, 0, 0, 0x68, 0x01, 0x51, 0x04]);
            m = (m + 8) % 16;
        }
        assert(m == (n + (if n % 16 != 0 { 8int } else { 0 })) % 16);
        if m != 0 {
            let z = crate::bytes::filled(0, 16 - m);
            crate::bytes::push_all(&mut data, z.as_slice());
        }
        proof {
            assert(data@ =~= pcmd_bytes(self.chunk_data@));
        }
        StBytes(data)
    }
}


/// Reading back the sample data chunk that writing `d` gives returns `d`.
pub proof fn lemma_pcmd_roundtrip(d: Seq<u8>)
    requires
        d.len() <= u32::MAX,
    ensures
        ({
            let s = pcmd_bytes(d);
            &&& !(s.len() < 16 || s.subrange(0, 4) != pcmd_magic() || s.len() - 16 < le32(s, 12))
            &&& s.subrange(16, 16 + le32(s, 12)) == d
        }),
{
    let s = pcmd_bytes(d);
    assert(s.subrange(0, 4) =~= pcmd_magic());
    assert(s.subrange(12, 16) =~= u32_le_bytes(d.len() as u32));
    crate::bytes::lemma_le32_at(s, 12, d.len() as u32);
    assert(s.subrange(16, 16 + d.len() as int) =~= d);
}

} // verus!
