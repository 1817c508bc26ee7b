//! The song chunk of an SMDL file.
use crate::bytes::le16;
use crate::bytes::le32;
use crate::bytes::u16_le_bytes;
use crate::bytes::u32_le_bytes;
use crate::bytes::StBytes;
use crate::dse::st_smdl::eoc::magic_at;
use crate::python::exceptions::PyAssertionError;
use crate::python::PyResult;
use vstd::prelude::*;

verus! {

/// "song"
pub open spec fn song_magic() -> Seq<u8> {
    seq![115u8, 111u8, 110u8, 103u8]
}

/// The song chunk.
#[derive(Clone, Copy, Debug, PartialEq, Eq, Structural)]
pub struct SmdlSong {
    pub unk1: u32,
    pub unk2: u32,
    pub unk3: u32,
    pub unk4: u16,
    pub tpqn: u16,
    pub unk5: u16,
    pub nbchans: u8,
    pub unk6: u32,
    pub unk7: u32,
    pub unk8: u32,
    pub unk9: u32,
    pub unk10: u16,
    pub unk11: u16,
    pub unk12: u32,
    pub initial_track_count: u8,
}

/// The chunk stored at `pos`, if 64 bytes remain and the magic is right.
pub open spec fn song_at(s: Seq<u8>, p: int) -> Option<SmdlSong> {
    if s.len() - p < 64 || s.subrange(p, p + 4) != song_magic() {
        None
    } else {
        Some(
            SmdlSong {
                unk1: le32(s, p + 4) as u32,
                unk2: le32(s, p + 8) as u32,
                unk3: le32(s, p + 12) as u32,
                unk4: le16(s, p + 16) as u16,
                tpqn: le16(s, p + 18) as u16,
                unk5: le16(s, p + 20) as u16,
                initial_track_count: s[p + 22],
                nbchans: s[p + 23],
                unk6: le32(s, p + 24) as u32,
                unk7: le32(s, p + 28) as u32,
                unk8: le32(s, p + 32) as u32,
                unk9: le32(s, p + 36) as u32,
                unk10: le16(s, p + 40) as u16,
                unk11: le16(s, p + 42) as u16,
                unk12: le32(s, p + 44) as u32,
            },
        )
    }
}

/// The 64 bytes of a song chunk for a file of `number_tracks` tracks.
pub open spec fn song_bytes(x: SmdlSong, number_tracks: u8) -> Seq<u8> {
    song_magic() + u32_le_bytes(x.unk1) + u32_le_bytes(x.unk2) + u32_le_bytes(x.unk3) + u16_le_bytes(x.unk4)
        + u16_le_bytes(x.tpqn) + u16_le_bytes(x.unk5) + seq![number_tracks, x.nbchans] + u32_le_bytes(x.unk6)
        + u32_le_bytes(x.unk7) + u32_le_bytes(x.unk8) + u32_le_bytes(x.unk9) + u16_le_bytes(x.unk10) + u16_le_bytes(
        x.unk11,
    ) + u32_le_bytes(x.unk12) + Seq::new(16, |i: int| 0xFFu8)
}

impl SmdlSong {
    /// A song chunk with the given fields and no tracks read.
    pub fn new(
        unk1: u32,
        unk2: u32,
        unk3: u32,
        unk4: u16,
        tpqn: u16,
        unk5: u16,
        nbchans: u8,
        unk6: u32,
        unk7: u32,
        unk8: u32,
        unk9: u32,
        unk10: u16,
        unk11: u16,
        unk12: u32,
    ) -> (r: Self)
        ensures
            r == (SmdlSong {
                unk1,
                unk2,
                unk3,
                unk4,
                tpqn,
                unk5,
                nbchans,
                unk6,
                unk7,
                unk8,
                unk9,
                unk10,
                unk11,
                unk12,
                initial_track_count: 0,
            }),
    {
        SmdlSong {
            unk1,
            unk2,
            unk3,
            unk4,
            tpqn,
            unk5,
            nbchans,
            unk6,
            unk7,
            unk8,
            unk9,
            unk10,
            unk11,
            unk12,
            initial_track_count: 0,
        }
    }

    /// The number of tracks the file was read with.
    pub fn get_initial_track_count(&self) -> (r: usize)
        ensures
            r == self.initial_track_count,
    {
        self.initial_track_count as usize
    }

    /// Reads the chunk at `pos`; fails where fewer than 64 bytes remain or the magic is wrong.
    pub fn from_bytes(source: &[u8], pos: usize) -> (r: PyResult<Self>)
        requires
            pos <= source@.len(),
        ensures
            match song_at(source@, pos as int) {
                Some(x) => r == Ok::<SmdlSong, crate::python::PyErr>(x),
                None => r matches Err(er) && er.kind == crate::python::ErrorKind::AssertionError,
            },
    {
        if source.len() - pos < 64 {
            return Err(PyAssertionError::new_err("SMDL file too short (Song EOF)."));
        }
        if !magic_at(source, pos, 115, 111, 110, 103) {
            return Err(PyAssertionError::new_err("Invalid SMDL/Song header."));
        }
        let s = source;
        let p = pos;
        Ok(SmdlSong {
            unk1: crate::bytes::read_u32_le(s, p + 4),
            unk2: crate::bytes::read_u32_le(s, p + 8),
            unk3: crate::bytes::read_u32_le(s, p + 12),
            unk4: crate::bytes::read_u16_le(s, p + 16),
            tpqn: crate::bytes::read_u16_le(s, p + 18),
            unk5: crate::bytes::read_u16_le(s, p + 20),
            initial_track_count: s[p + 22],
            nbchans: s[p + 23],
            unk6: crate::bytes::read_u32_le(s, p + 24),
            unk7: crate::bytes::read_u32_le(s, p + 28),
            unk8: crate::bytes::read_u32_le(s, p + 32),
            unk9: crate::bytes::read_u32_le(s, p + 36),
            unk10: crate::bytes::read_u16_le(s, p + 40),
            unk11: crate::bytes::read_u16_le(s, p + 42),
            unk12: crate::bytes::read_u32_le(s, p + 44),
        })
    }

    /// The 64 bytes of this chunk for a file of `number_tracks` tracks.
    pub fn to_bytes(&self, number_tracks: u8) -> (r: StBytes)
        ensures
            r@ == song_bytes(*self, number_tracks),
    {
        let mut b: Vec<u8> = Vec::new();
        b.push(115);
        b.push(111);
        b.push(110);
        b.push(103);
        assert(b@ == song_magic());
        crate::bytes::push_u32_le(&mut b, self.unk1);
        crate::bytes::push_u32_le(&mut b, self.unk2);
        crate::bytes::push_u32_le(&mut b, self.unk3);
        crate::bytes::push_u16_le(&mut b, self.unk4);
        crate::bytes::push_u16_le(&mut b, self.tpqn);
        crate::bytes::push_u16_le(&mut b, self.unk5);
        let ghost before = b@;
        b.push(number_tracks);
        b.push(self.nbchans);
        assert(b@ == before + seq![number_tracks, self.nbchans]);
        crate::bytes::push_u32_le(&mut b, self.unk6);
        crate::bytes::push_u32_le(&mut b, self.unk7);
        crate::bytes::push_u32_le(&mut b, self.unk8);
        crate::bytes::push_u32_le(&mut b, self.unk9);
        crate::bytes::push_u16_le(&mut b, self.unk10);
        crate::bytes::push_u16_le(&mut b, self.unk11);
        crate::bytes::push_u32_le(&mut b, self.unk12);
        let pad = crate::bytes::filled(0xFF, 16);
        crate::bytes::push_all(&mut b, pad.as_slice());
        StBytes(b)
    }
}

} // verus!
