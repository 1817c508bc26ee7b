//! SMDL files: header, song, tracks, end of content.
use crate::bytes::le16;
use crate::bytes::le32;
use crate::bytes::u16_le_bytes;
use crate::bytes::u32_le_bytes;
use crate::bytes::StBytes;
use crate::dse::date::dse_date_at;
use crate::dse::date::dse_date_bytes;
use crate::dse::date::DseDate;
use crate::dse::filename::ascii_chars;
use crate::dse::filename::ascii_only;
use crate::dse::filename::dse_filename_field;
use crate::dse::filename::until_nul;
use crate::dse::filename::DseFilename;
use crate::dse::st_smdl::eoc::eoc_at;
use crate::dse::st_smdl::eoc::eoc_bytes;
use crate::dse::st_smdl::eoc::magic_at;
use crate::dse::st_smdl::eoc::SmdlEoc;
use crate::dse::st_smdl::song::song_at;
use crate::dse::st_smdl::song::song_bytes;
use crate::dse::st_smdl::song::SmdlSong;
use crate::dse::st_smdl::trk::events_bytes;
use crate::dse::st_smdl::trk::events_view;
use crate::dse::st_smdl::trk::events_writable;
use crate::dse::st_smdl::trk::track_bytes;
use crate::dse::st_smdl::trk::trk_events;
use crate::dse::st_smdl::trk::trk_header_at;
use crate::dse::st_smdl::trk::trk_padding_ok;
use crate::dse::st_smdl::trk::SmdlEventView;
use crate::dse::st_smdl::trk::SmdlTrack;
use crate::dse::st_smdl::trk::SmdlTrackHeader;
use crate::dse::st_smdl::trk::SmdlTrackPreamble;
use crate::python::exceptions::PyAssertionError;
use crate::python::PyResult;
use vstd::prelude::*;

verus! {

/// "smdl"
pub open spec fn smdl_magic() -> Seq<u8> {
    seq![115u8, 109u8, 100u8, 108u8]
}

/// The header of an SMDL file.
#[derive(Debug)]
pub struct SmdlHeader {
    pub version: u16,
    pub unk1: u8,
    pub unk2: u8,
    pub modified_date: DseDate,
    pub file_name: DseFilename,
    pub unk5: u32,
    pub unk6: u32,
    pub unk8: u32,
    pub unk9: u32,
}

/// The name in a file name field.
pub open spec fn name_in_field(s: Seq<u8>, p: int) -> Seq<char> {
    ascii_chars(ascii_only(until_nul(s.subrange(p, p + 16))))
}

/// What a header stored at the start of `s` holds, where 64 bytes and the magic are there.
pub open spec fn smdl_header_ok(s: Seq<u8>) -> bool {
    s.len() >= 64 && s.subrange(0, 4) == smdl_magic()
}

/// The 64 bytes of a header for a file of `byte_len_smdl` bytes.
pub open spec fn smdl_header_bytes(h: SmdlHeader, byte_len_smdl: u32) -> Seq<u8> {
    smdl_magic() + u32_le_bytes(0) + u32_le_bytes(byte_len_smdl) + u16_le_bytes(h.version) + seq![h.unk1, h.unk2]
        + Seq::new(8, |i: int| 0u8) + dse_date_bytes(h.modified_date) + dse_filename_field(h.file_name.0@)
        + u32_le_bytes(h.unk5) + u32_le_bytes(h.unk6) + u32_le_bytes(h.unk8) + u32_le_bytes(h.unk9)
}

impl SmdlHeader {
    /// Reads the header at the start of `source`; fails where fewer than 64 bytes are there or
    /// the magic is wrong.
    pub fn from_bytes(source: &[u8]) -> (r: PyResult<Self>)
        ensures
            !smdl_header_ok(source@) ==> r is Err,
            smdl_header_ok(source@) ==> (r matches Ok(h) && h.version == le16(source@, 12) && h.unk1 == source@[14]
                && h.unk2 == source@[15] && h.modified_date == dse_date_at(source@, 24) && h.file_name.0@
                == name_in_field(source@, 32) && h.unk5 == le32(source@, 48) && h.unk6 == le32(source@, 52) && h.unk8
                == le32(source@, 56) && h.unk9 == le32(source@, 60)),
    {
        if source.len() < 64 {
            return Err(PyAssertionError::new_err("SMDL file too short (Header EOF)."));
        }
        if !magic_at(source, 0, 115, 109, 100, 108) {
            return Err(PyAssertionError::new_err("Invalid SMDL/Header header."));
        }
        Ok(SmdlHeader {
            version: crate::bytes::read_u16_le(source, 12),
            unk1: source[14],
            unk2: source[15],
            modified_date: DseDate::from_bytes(source, 24),
            file_name: DseFilename::from_bytes_fixed(source, 32, 16),
            unk5: crate::bytes::read_u32_le(source, 48),
            unk6: crate::bytes::read_u32_le(source, 52),
            unk8: crate::bytes::read_u32_le(source, 56),
            unk9: crate::bytes::read_u32_le(source, 60),
        })
    }

    /// The 64 bytes of this header for a file of `byte_len_smdl` bytes (the name must be ASCII).
    pub fn to_bytes(&self, byte_len_smdl: u32) -> (r: StBytes)
        requires
            vstd::utf8::is_ascii_chars(self.file_name.0@),
        ensures
            r@ == smdl_header_bytes(*self, byte_len_smdl),
    {
        let mut b: Vec<u8> = Vec::new();
        b.push(115);
        b.push(109);
        b.push(100);
        b.push(108);
        assert(b@ == smdl_magic());
        crate::bytes::push_u32_le(&mut b, 0);
        crate::bytes::push_u32_le(&mut b, byte_len_smdl);
        crate::bytes::push_u16_le(&mut b, self.version);
        let ghost before = b@;
        b.push(self.unk1);
        b.push(self.unk2);
        assert(b@ == before + seq![self.unk1, self.unk2]);
        let z = crate::bytes::filled(0, 8);
        crate::bytes::push_all(&mut b, z.as_slice());
        let d = self.modified_date.to_bytes();
        crate::bytes::push_all(&mut b, d.as_slice());
        let f = self.file_name.to_bytes();
        crate::bytes::push_all(&mut b, f.as_slice());
        crate::bytes::push_u32_le(&mut b, self.unk5);
        crate::bytes::push_u32_le(&mut b, self.unk6);
        crate::bytes::push_u32_le(&mut b, self.unk8);
        crate::bytes::push_u32_le(&mut b, self.unk9);
        StBytes(b)
    }
}

/// What a track holds: header, preamble and events.
pub type TrackView = (SmdlTrackHeader, SmdlTrackPreamble, Seq<SmdlEventView>);

/// The `n` tracks stored from `pos` on, and where the data after them starts; `None` where one
/// fails to read.
pub open spec fn smdl_tracks(s: Seq<u8>, pos: int, n: nat) -> Option<(Seq<TrackView>, int)>
    decreases n,
{
    if n == 0 {
        Some((Seq::<TrackView>::empty(), pos))
    } else {
        match smdl_tracks(s, pos, (n - 1) as nat) {
            None => None,
            Some((ts, p)) => match trk_header_at(s, p) {
                None => None,
                Some(h) => {
                    let rr = s.subrange(p + 16, s.len() as int);
                    if rr.len() < 4 || h.len > rr.len() {
                        None
                    } else {
                        match trk_events(rr, 4, h.len as int, Seq::empty()) {
                            None => None,
                            Some((evs, end)) => Some(
                                (
                                    ts.push((h, SmdlTrackPreamble { track_id: rr[0], channel_id: rr[1], unk1: rr[2], unk2: rr[3] }, evs)),
                                    p + 16 + end + (if h.len % 4 != 0 { 4 - h.len % 4 } else { 0 }),
                                ),
                            ),
                        }
                    }
                },
            },
        }
    }
}

/// Whether reading `n` tracks from `pos` on stays inside the data (padding included).
pub open spec fn smdl_tracks_ok(s: Seq<u8>, pos: int, n: nat) -> bool
    decreases n,
{
    if n == 0 {
        0 <= pos <= s.len()
    } else {
        smdl_tracks_ok(s, pos, (n - 1) as nat) && match smdl_tracks(s, pos, (n - 1) as nat) {
            None => true,
            Some((ts, p)) => 0 <= p <= s.len() && trk_padding_ok(s, p),
        }
    }
}

/// The number of tracks the song chunk of SMDL data gives.
pub open spec fn track_count_of(s: Seq<u8>) -> nat {
    match song_at(s, 64) {
        Some(sg) => sg.initial_track_count as nat,
        None => 0,
    }
}

/// What SMDL data holds, where it reads without error: song, tracks, end of content.
pub open spec fn smdl_parse(s: Seq<u8>) -> Option<(SmdlSong, Seq<TrackView>, SmdlEoc)> {
    if !smdl_header_ok(s) {
        None
    } else {
        match song_at(s, 64) {
            None => None,
            Some(sg) => match smdl_tracks(s, 128, sg.initial_track_count as nat) {
                None => None,
                Some((ts, p)) => match eoc_at(s, p) {
                    None => None,
                    Some(e) => Some((sg, ts, e)),
                },
            },
        }
    }
}

pub open spec fn track_view(t: SmdlTrack) -> TrackView {
    (t.header, t.preamble, events_view(t.events@))
}

/// An SMDL file.
#[derive(Debug)]
pub struct Smdl {
    pub header: SmdlHeader,
    pub song: SmdlSong,
    pub tracks: Vec<SmdlTrack>,
    pub eoc: SmdlEoc,
}

impl Smdl {
    /// The name in the file name field of SMDL data.
    pub fn name_for(raw: &[u8]) -> (r: DseFilename)
        requires
            raw@.len() >= 0x30,
        ensures
            r.0@ == name_in_field(raw@, 0x20),
    {
        DseFilename::from_bytes_fixed(raw, 0x20, 16)
    }

    /// Reads SMDL data: header, song, as many tracks as the song says, end of content.
    pub fn from_bytes(source: &[u8]) -> (r: PyResult<Self>)
        requires
            source@.len() >= 128 ==> smdl_tracks_ok(source@, 128, track_count_of(source@)),
        ensures
            match smdl_parse(source@) {
                None => r is Err,
                Some((sg, ts, e)) => r matches Ok(m) && m.song == sg && Seq::new(
                    m.tracks@.len(),
                    |i: int| track_view(m.tracks@[i]),
                ) == ts && m.eoc == e,
            },
    {
        let header = match SmdlHeader::from_bytes(source) {
            Ok(h) => h,
            Err(e) => {
                return Err(e);
            },
        };
        let song = match SmdlSong::from_bytes(source, 64) {
            Ok(s) => s,
            Err(e) => {
                return Err(e);
            },
        };
        let n = song.get_initial_track_count();
        let mut tracks: Vec<SmdlTrack> = Vec::new();
        let mut pos: usize = 128;
        let mut k: usize = 0;
        while k < n
            invariant
                source@.len() >= 128,
                smdl_header_ok(source@),
                song_at(source@, 64) == Some(song),
                n == song.initial_track_count,
                smdl_tracks_ok(source@, 128, n as nat),
                k <= n,
                pos <= source@.len(),
                smdl_tracks(source@, 128, k as nat) == Some((Seq::new(tracks@.len(), |i: int| track_view(tracks@[i])), pos as int)),
            decreases n - k,
        {
            proof {
                lemma_tracks_ok_prefix(source@, 128, (k + 1) as nat, n as nat);
            }
            let (t, next) = match SmdlTrack::from_bytes(source, pos) {
                Ok(x) => x,
                Err(e) => {
                    proof {
                        assert(smdl_tracks(source@, 128, (k + 1) as nat) is None);
                        lemma_tracks_none_extends(source@, 128, (k + 1) as nat, n as nat);
                    }
                    return Err(e);
                },
            };
            let ghost before = Seq::new(tracks@.len(), |i: int| track_view(tracks@[i]));
            tracks.push(t);
            assert(Seq::new(tracks@.len(), |i: int| track_view(tracks@[i])) =~= before.push(track_view(t)));
            pos = next;
            k = k + 1;
        }
        let eoc = match SmdlEoc::from_bytes(source, pos) {
            Ok(e) => e,
            Err(e) => {
                return Err(e);
            },
        };
        Ok(Smdl { header, song, tracks, eoc })
    }
}

/// The bytes of the first `k` tracks, one after the other.
pub open spec fn tracks_bytes(ts: Seq<SmdlTrack>, k: nat) -> Seq<u8>
    decreases k,
{
    if k == 0 {
        Seq::<u8>::empty()
    } else {
        tracks_bytes(ts, (k - 1) as nat) + track_bytes(ts[k - 1].header, ts[k - 1].preamble, events_view(ts[k - 1].events@))
    }
}

/// Whether every track can be written.
pub open spec fn tracks_writable(ts: Seq<SmdlTrack>) -> bool {
    forall|i: int|
        0 <= i < ts.len() ==> events_writable(events_view(#[trigger] ts[i].events@)) && events_bytes(
            events_view(ts[i].events@),
            ts[i].events@.len(),
        ).len() + 4 <= u32::MAX
}

proof fn lemma_track_bytes_aligned(h: SmdlTrackHeader, p: SmdlTrackPreamble, ev: Seq<SmdlEventView>)
    ensures
        track_bytes(h, p, ev).len() % 4 == 0,
{
}

impl Smdl {
    /// The bytes of this file: header (with the total size), song (with the number of tracks),
    /// the tracks, end of content.
    pub fn to_bytes(&self) -> (r: StBytes)
        requires
            vstd::utf8::is_ascii_chars(self.header.file_name.0@),
            tracks_writable(self.tracks@),
            tracks_bytes(self.tracks@, self.tracks@.len()).len() + 144 <= u32::MAX,
        ensures
            r@ == smdl_header_bytes(self.header, (tracks_bytes(self.tracks@, self.tracks@.len()).len() + 144) as u32)
                + song_bytes(self.song, self.tracks@.len() as u8) + tracks_bytes(self.tracks@, self.tracks@.len())
                + eoc_bytes(self.eoc),
    {
        let mut track_data: Vec<u8> = Vec::new();
        let mut i: usize = 0;
        while i < self.tracks.len()
            invariant
                i <= self.tracks@.len(),
                tracks_writable(self.tracks@),
                track_data@ == tracks_bytes(self.tracks@, i as nat),
            decreases self.tracks@.len() - i,
        {
            let t = &self.tracks[i];
            assert(events_writable(events_view(self.tracks@[i as int].events@)));
            let b = t.to_bytes();
            crate::bytes::push_all(&mut track_data, b.0.as_slice());
            i = i + 1;
        }
        let n = track_data.len();
        let mut res: Vec<u8> = Vec::new();
        let h = self.header.to_bytes((n + 144) as u32);
        crate::bytes::push_all(&mut res, h.as_slice());
        let sg = self.song.to_bytes(self.tracks.len() as u8);
        crate::bytes::push_all(&mut res, sg.as_slice());
        crate::bytes::push_all(&mut res, track_data.as_slice());
        let e = self.eoc.to_bytes();
        crate::bytes::push_all(&mut res, e.as_slice());
        StBytes(res)
    }
}

impl Smdl {
    /// Reads SMDL data (see `from_bytes`).
    pub fn new(data: StBytes) -> (r: PyResult<Self>)
        requires
            data@.len() >= 128 ==> smdl_tracks_ok(data@, 128, track_count_of(data@)),
        ensures
            match smdl_parse(data@) {
                None => r is Err,
                Some((sg, ts, e)) => r matches Ok(m) && m.song == sg && Seq::new(
                    m.tracks@.len(),
                    |i: int| track_view(m.tracks@[i]),
                ) == ts && m.eoc == e,
            },
    {
        Self::from_bytes(data.as_slice())
    }
}

/// Serializer of SMDL files.
pub struct SmdlWriter;

impl SmdlWriter {
    pub fn new() -> (r: Self) {
        SmdlWriter
    }

    /// The bytes of the model (see `Smdl::to_bytes`).
    pub fn write(&self, model: Smdl) -> (r: StBytes)
        requires
            vstd::utf8::is_ascii_chars(model.header.file_name.0@),
            tracks_writable(model.tracks@),
            tracks_bytes(model.tracks@, model.tracks@.len()).len() + 144 <= u32::MAX,
        ensures
            r@ == smdl_header_bytes(model.header, (tracks_bytes(model.tracks@, model.tracks@.len()).len() + 144) as u32)
                + song_bytes(model.song, model.tracks@.len() as u8) + tracks_bytes(model.tracks@, model.tracks@.len())
                + eoc_bytes(model.eoc),
    {
        model.to_bytes()
    }
}

/// Reading back the bytes of an end-of-content chunk gives the chunk.
pub proof fn lemma_eoc_roundtrip(e: SmdlEoc)
    ensures
        eoc_at(eoc_bytes(e), 0) == Some(e),
{
    let b = eoc_bytes(e);
    assert(b.subrange(0, 4) =~= crate::dse::st_smdl::eoc::eoc_magic());
    crate::bytes::lemma_u32_le_roundtrip(e.param1);
    crate::bytes::lemma_u32_le_roundtrip(e.param2);
    assert(b.subrange(4, 8) =~= u32_le_bytes(e.param1));
    assert(b.subrange(8, 12) =~= u32_le_bytes(e.param2));
    assert(le32(b, 4) == le32(u32_le_bytes(e.param1), 0));
    assert(le32(b, 8) == le32(u32_le_bytes(e.param2), 0));
}

proof fn lemma_tracks_none_extends(s: Seq<u8>, pos: int, a: nat, b: nat)
    requires
        a <= b,
        smdl_tracks(s, pos, a) is None,
    ensures
        smdl_tracks(s, pos, b) is None,
    decreases b - a,
{
    if a < b {
        lemma_tracks_none_extends(s, pos, a, (b - 1) as nat);
    }
}

proof fn lemma_tracks_ok_prefix(s: Seq<u8>, pos: int, a: nat, b: nat)
    requires
        a <= b,
        smdl_tracks_ok(s, pos, b),
    ensures
        smdl_tracks_ok(s, pos, a),
    decreases b - a,
{
    if a < b {
        lemma_tracks_ok_prefix(s, pos, a, (b - 1) as nat);
    }
}

} // verus!
