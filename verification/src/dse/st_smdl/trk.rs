//! The track chunks of an SMDL file: header, preamble and events.
use crate::bytes::le32;
use crate::bytes::u32_le_bytes;
use crate::bytes::StBytes;
use crate::bytes::StBytesMut;
use crate::dse::st_smdl::eoc::magic_at;
use crate::dse::st_smdl::event::event_length;
use crate::dse::st_smdl::event::event_length_ok;
use crate::dse::st_smdl::event::is_op_code;
use crate::dse::st_smdl::event::note_code;
use crate::dse::st_smdl::event::op_code;
use crate::dse::st_smdl::event::op_param_len;
use crate::dse::st_smdl::event::pause_code;
use crate::dse::st_smdl::event::SmdlEvent;
use crate::dse::st_smdl::event::SmdlNote;
use crate::dse::st_smdl::event::SmdlPause;
use crate::dse::st_smdl::event::SmdlSpecialOpCode;
use crate::python::exceptions::PyAssertionError;
use crate::python::PyResult;
use vstd::prelude::*;

verus! {

/// "trk "
pub open spec fn trk_magic() -> Seq<u8> {
    seq![116u8, 114u8, 107u8, 32u8]
}

/// The header of a track chunk; `len` is the length it was read with.
#[derive(Clone, Copy, Debug, PartialEq, Eq, Structural)]
pub struct SmdlTrackHeader {
    pub param1: u32,
    pub param2: u32,
    pub len: u32,
}

/// The header stored at `p`, if 16 bytes remain and the magic is right.
pub open spec fn trk_header_at(s: Seq<u8>, p: int) -> Option<SmdlTrackHeader> {
    if s.len() - p < 16 || s.subrange(p, p + 4) != trk_magic() {
        None
    } else {
        Some(SmdlTrackHeader { param1: le32(s, p + 4) as u32, param2: le32(s, p + 8) as u32, len: le32(s, p + 12) as u32 })
    }
}

impl SmdlTrackHeader {
    pub fn new(param1: u32, param2: u32) -> (r: Self)
        ensures
            r == (SmdlTrackHeader { param1, param2, len: 0 }),
    {
        SmdlTrackHeader { param1, param2, len: 0 }
    }

    /// The header a new track gets.
    pub fn empty() -> (r: Self)
        ensures
            r == (SmdlTrackHeader { param1: 16777216, param2: 65284, len: 0 }),
    {
        SmdlTrackHeader { param1: 16777216, param2: 65284, len: 0 }
    }

    pub fn get_initial_length(&self) -> (r: usize)
        ensures
            r == self.len,
    {
        self.len as usize
    }

    /// Reads the header at `pos`; fails where fewer than 16 bytes remain or the magic is wrong.
    pub fn from_bytes(source: &[u8], pos: usize) -> (r: PyResult<Self>)
        requires
            pos <= source@.len(),
        ensures
            match trk_header_at(source@, pos as int) {
                Some(h) => r == Ok::<SmdlTrackHeader, crate::python::PyErr>(h),
                None => r matches Err(er) && er.kind == crate::python::ErrorKind::AssertionError,
            },
    {
        if source.len() - pos < 16 {
            return Err(PyAssertionError::new_err("SMDL file too short (Track EOF)."));
        }
        if !magic_at(source, pos, 116, 114, 107, 32) {
            return Err(PyAssertionError::new_err("Invalid SMDL/Track header."));
        }
        Ok(SmdlTrackHeader {
            param1: crate::bytes::read_u32_le(source, pos + 4),
            param2: crate::bytes::read_u32_le(source, pos + 8),
            len: crate::bytes::read_u32_le(source, pos + 12),
        })
    }

    /// The 16 bytes of this header with the given length.
    pub fn to_bytes(&self, length: u32) -> (r: StBytes)
        ensures
            r@ == trk_magic() + u32_le_bytes(self.param1) + u32_le_bytes(self.param2) + u32_le_bytes(length),
    {
        let mut b: Vec<u8> = Vec::new();
        b.push(116);
        b.push(114);
        b.push(107);
        b.push(32);
        assert(b@ == trk_magic());
        crate::bytes::push_u32_le(&mut b, self.param1);
        crate::bytes::push_u32_le(&mut b, self.param2);
        crate::bytes::push_u32_le(&mut b, length);
        StBytes(b)
    }
}

/// The preamble of a track: track and channel.
#[derive(Clone, Copy, Debug, PartialEq, Eq, Structural)]
pub struct SmdlTrackPreamble {
    pub track_id: u8,
    pub channel_id: u8,
    pub unk1: u8,
    pub unk2: u8,
}

impl SmdlTrackPreamble {
    pub fn new(track_id: u8, channel_id: u8) -> (r: Self)
        ensures
            r == (SmdlTrackPreamble { track_id, channel_id, unk1: 0, unk2: 0 }),
    {
        SmdlTrackPreamble { track_id, channel_id, unk1: 0, unk2: 0 }
    }

    /// Reads the preamble at `pos`; fails where fewer than 4 bytes remain.
    pub fn from_bytes(source: &[u8], pos: usize) -> (r: PyResult<Self>)
        requires
            pos <= source@.len(),
        ensures
            source@.len() - pos < 4 ==> r is Err,
            source@.len() - pos >= 4 ==> r == Ok::<SmdlTrackPreamble, crate::python::PyErr>(
                SmdlTrackPreamble {
                    track_id: source@[pos as int],
                    channel_id: source@[pos + 1],
                    unk1: source@[pos + 2],
                    unk2: source@[pos + 3],
                },
            ),
    {
        if source.len() - pos < 4 {
            return Err(PyAssertionError::new_err("SMDL file too short (EOC EOF)."));
        }
        Ok(SmdlTrackPreamble {
            track_id: source[pos],
            channel_id: source[pos + 1],
            unk1: source[pos + 2],
            unk2: source[pos + 3],
        })
    }

    pub fn to_bytes(&self) -> (r: StBytes)
        ensures
            r@ == seq![self.track_id, self.channel_id, self.unk1, self.unk2],
    {
        let mut b: Vec<u8> = Vec::new();
        b.push(self.track_id);
        b.push(self.channel_id);
        b.push(self.unk1);
        b.push(self.unk2);
        StBytes(b)
    }
}

/// What an event is, with its parameters as a sequence.
pub enum SmdlEventView {
    Special { op: SmdlSpecialOpCode, params: Seq<u8> },
    Pause { value: SmdlPause },
    Note { velocity: u8, octave_mod: i8, note: SmdlNote, key_down_duration: Option<u32> },
}

pub open spec fn event_view(e: SmdlEvent) -> SmdlEventView {
    match e {
        SmdlEvent::Special { op, params } => SmdlEventView::Special { op, params: params@ },
        SmdlEvent::Pause { value } => SmdlEventView::Pause { value },
        SmdlEvent::Note { velocity, octave_mod, note, key_down_duration } => SmdlEventView::Note {
            velocity,
            octave_mod,
            note,
            key_down_duration,
        },
    }
}

pub open spec fn events_view(v: Seq<SmdlEvent>) -> Seq<SmdlEventView> {
    Seq::new(v.len(), |i: int| event_view(v[i]))
}

/// The wait state (previous wait, running sum, times so far) after the first `k` events.
pub open spec fn timed_state(ev: Seq<SmdlEvent>, k: nat) -> (int, int, Seq<u32>)
    decreases k,
{
    if k == 0 {
        (0, 0, Seq::<u32>::empty())
    } else {
        let (prev, sum, times) = timed_state(ev, (k - 1) as nat);
        let l = event_length(ev[k - 1], prev);
        let prev2 = if l > 0 { l } else { prev };
        (prev2, sum + l, times.push((sum + l) as u32))
    }
}

/// Whether timing the first `k` events needs no more than it can: the parameters the waits read,
/// and running sums that fit in 32 bits.
pub open spec fn timed_ok(ev: Seq<SmdlEvent>, k: nat) -> bool
    decreases k,
{
    if k == 0 {
        true
    } else {
        let (prev, sum, times) = timed_state(ev, (k - 1) as nat);
        timed_ok(ev, (k - 1) as nat) && event_length_ok(ev[k - 1], prev) && sum + event_length(ev[k - 1], prev)
            <= u32::MAX
    }
}

/// A track: header, preamble and events.
#[derive(Debug)]
pub struct SmdlTrack {
    pub header: SmdlTrackHeader,
    pub preamble: SmdlTrackPreamble,
    pub events: Vec<SmdlEvent>,
}

proof fn lemma_timed_state_bounds(ev: Seq<SmdlEvent>, k: nat)
    requires
        timed_ok(ev, k),
        k <= ev.len(),
    ensures
        0 <= timed_state(ev, k).0 <= usize::MAX,
        0 <= timed_state(ev, k).1 <= u32::MAX,
        timed_state(ev, k).2.len() == k,
    decreases k,
{
    if k > 0 {
        lemma_timed_state_bounds(ev, (k - 1) as nat);
        let (prev, sum, times) = timed_state(ev, (k - 1) as nat);
        let e = ev[k - 1];
        assert(event_length(e, prev) >= 0);
        assert(event_length(e, prev) <= usize::MAX);
    }
}

impl SmdlTrack {
    /// An empty track.
    pub fn new(track_id: u8, channel_id: u8) -> (r: Self)
        ensures
            r.header == (SmdlTrackHeader { param1: 16777216, param2: 65284, len: 0 }),
            r.preamble == (SmdlTrackPreamble { track_id, channel_id, unk1: 0, unk2: 0 }),
            r.events@.len() == 0,
    {
        SmdlTrack {
            header: SmdlTrackHeader::empty(),
            preamble: SmdlTrackPreamble::new(track_id, channel_id),
            events: Vec::new(),
        }
    }

    /// Iterates over the events with the tick at which each ends: the running sum of the event
    /// lengths, where "wait again" repeats the last nonzero wait.
    pub fn iter_events_timed(&self) -> (r: SmdlTrackIter)
        requires
            timed_ok(self.events@, self.events@.len()),
        ensures
            r.times@ == timed_state(self.events@, self.events@.len()).2,
            r.pos == 0,
    {
        let mut previous: usize = 0;
        let mut sum: u32 = 0;
        let mut times: Vec<u32> = Vec::new();
        let mut i: usize = 0;
        while i < self.events.len()
            invariant
                i <= self.events@.len(),
                timed_ok(self.events@, self.events@.len()),
                timed_state(self.events@, i as nat) == (previous as int, sum as int, times@),
            decreases self.events@.len() - i,
        {
            proof {
                lemma_timed_ok_prefix(self.events@, (i + 1) as nat, self.events@.len());
                lemma_timed_state_bounds(self.events@, (i + 1) as nat);
            }
            let previous_c = self.events[i].length(previous);
            if previous_c > 0 {
                previous = previous_c;
            }
            sum = sum + previous_c as u32;
            times.push(sum);
            i = i + 1;
        }
        SmdlTrackIter { times, pos: 0 }
    }
}

/// The events of a track in order, each with the tick at which it ends.
pub struct SmdlTrackIter {
    pub times: Vec<u32>,
    pub pos: usize,
}

impl SmdlTrackIter {
    /// The tick and the index of the next event, if any remain.
    pub fn next(&mut self) -> (r: Option<(u32, usize)>)
        ensures
            final(self).times@ == old(self).times@,
            old(self).pos < old(self).times@.len() ==> r == Some((old(self).times@[old(self).pos as int], old(self).pos))
                && final(self).pos == old(self).pos + 1,
            old(self).pos >= old(self).times@.len() ==> r is None && final(self).pos == old(self).pos,
    {
        if self.pos < self.times.len() {
            let t = self.times[self.pos];
            let i = self.pos;
            self.pos = self.pos + 1;
            Some((t, i))
        } else {
            None
        }
    }
}

proof fn lemma_timed_ok_prefix(ev: Seq<SmdlEvent>, a: nat, b: nat)
    requires
        a <= b,
        timed_ok(ev, b),
    ensures
        timed_ok(ev, a),
    decreases b - a,
{
    if a < b {
        lemma_timed_ok_prefix(ev, a, (b - 1) as nat);
    }
}


/// The note with code `v`.
pub open spec fn note_of(v: u8) -> SmdlNote {
    choose|n: SmdlNote| note_code(n) == v
}

pub open spec fn pause_of(v: u8) -> SmdlPause {
    choose|p: SmdlPause| pause_code(p) == v
}

pub open spec fn op_of(v: u8) -> SmdlSpecialOpCode {
    choose|o: SmdlSpecialOpCode| op_code(o) == v
}

/// The octave shift in the second byte of a note event.
pub open spec fn octave_of(p1: u8) -> i8 {
    ((((p1 as i8) >> 4u8) & 3i8) - 2) as i8
}

/// The events of a track whose bytes after the header are `r`, read from offset `pos` up to
/// offset `length`, after the events `acc`: the events and the offset reached, or `None`
/// where the data ends inside an event or holds an unknown operation.
pub open spec fn trk_events(r: Seq<u8>, pos: int, length: int, acc: Seq<SmdlEventView>) -> Option<(Seq<SmdlEventView>, int)>
    decreases (if pos < length { length - pos } else { 0 }),
{
    if pos >= length {
        Some((acc, pos))
    } else if pos >= r.len() || pos < 0 {
        None
    } else {
        let op = r[pos];
        if op <= 0x7F {
            if pos + 1 >= r.len() {
                None
            } else {
                let p1 = r[pos + 1];
                let np = ((p1 >> 4u8) >> 2u8) & 3u8;
                if pos + 2 + np > r.len() {
                    None
                } else {
                    let kd: Option<u32> = if np == 1 {
                        Some(r[pos + 2] as u32)
                    } else if np == 2 {
                        Some((r[pos + 2] * 256 + r[pos + 3]) as u32)
                    } else if np == 3 {
                        Some(((r[pos + 2] * 256 + r[pos + 3]) * 256 + r[pos + 4]) as u32)
                    } else {
                        None
                    };
                    trk_events(
                        r,
                        pos + 2 + np,
                        length,
                        acc.push(SmdlEventView::Note { velocity: op, octave_mod: octave_of(p1), note: note_of(p1 & 0xFu8), key_down_duration: kd }),
                    )
                }
            }
        } else if op <= 0x8F {
            trk_events(r, pos + 1, length, acc.push(SmdlEventView::Pause { value: pause_of(op) }))
        } else if op == 0xAB {
            if pos + 2 > r.len() {
                None
            } else {
                trk_events(r, pos + 2, length, acc)
            }
        } else if op == 0xCB || op == 0xF8 {
            if pos + 3 > r.len() {
                None
            } else {
                trk_events(r, pos + 3, length, acc)
            }
        } else if !is_op_code(op) {
            None
        } else {
            let o = op_of(op);
            let pl = op_param_len(o);
            if pos + 1 + pl > r.len() {
                None
            } else {
                trk_events(
                    r,
                    pos + 1 + pl,
                    length,
                    acc.push(SmdlEventView::Special { op: o, params: r.subrange(pos + 1, pos + 1 + pl) }),
                )
            }
        }
    }
}

proof fn lemma_note_of(n: SmdlNote)
    ensures
        note_of(note_code(n)) == n,
{
    let m = note_of(note_code(n));
    assert(note_code(m) == note_code(n));
}

proof fn lemma_pause_of(p: SmdlPause)
    ensures
        pause_of(pause_code(p)) == p,
{
    let m = pause_of(pause_code(p));
    assert(pause_code(m) == pause_code(p));
}

proof fn lemma_op_of(o: SmdlSpecialOpCode)
    ensures
        op_of(op_code(o)) == o,
{
    let m = op_of(op_code(o));
    assert(op_code(m) == op_code(o));
}

/// Whether the padding after a track that reads without error lies inside the data.
pub open spec fn trk_padding_ok(s: Seq<u8>, pos: int) -> bool {
    match trk_header_at(s, pos) {
        None => true,
        Some(h) => {
            let rr = s.subrange(pos + 16, s.len() as int);
            rr.len() < 4 || h.len > rr.len() || match trk_events(rr, 4, h.len as int, Seq::empty()) {
                None => true,
                Some((evs, end)) => pos + 16 + end + (if h.len % 4 != 0 { 4 - h.len % 4 } else { 0 }) <= s.len(),
            }
        },
    }
}

impl SmdlTrack {
    /// Reads a track whose header is at `pos`: header, preamble, then events up to the length
    /// the header gives (counted from the preamble on). Returns the track and where the next chunk
    /// starts (after padding to a multiple of 4).
    #[verifier::rlimit(60)]
    pub fn from_bytes(source: &[u8], pos: usize) -> (r: PyResult<(Self, usize)>)
        requires
            pos <= source@.len(),
            trk_padding_ok(source@, pos as int),
        ensures
            ({
                let s = source@;
                match trk_header_at(s, pos as int) {
                    None => r is Err,
                    Some(h) => {
                        let rr = s.subrange(pos + 16, s.len() as int);
                        if rr.len() < 4 || h.len > rr.len() {
                            r is Err
                        } else {
                            match trk_events(rr, 4, h.len as int, Seq::empty()) {
                                None => r is Err,
                                Some((evs, end)) => r matches Ok((t, next)) && t.header == h && events_view(t.events@) == evs
                                    && t.preamble == (SmdlTrackPreamble { track_id: rr[0], channel_id: rr[1], unk1: rr[2], unk2: rr[3] })
                                    && next == pos + 16 + end + (if h.len % 4 != 0 { 4 - h.len % 4 } else { 0 }),
                            }
                        }
                    },
                }
            }),
    {
        let slen = source.len();
        let header = match SmdlTrackHeader::from_bytes(source, pos) {
            Ok(h) => h,
            Err(e) => {
                return Err(e);
            },
        };
        assert(slen - pos >= 16);
        let base: usize = pos + 16;
        let preamble = match SmdlTrackPreamble::from_bytes(source, base) {
            Ok(p) => p,
            Err(e) => {
                return Err(e);
            },
        };
        let length = header.get_initial_length();
        let ghost rr = source@.subrange(base as int, source@.len() as int);
        let avail: usize = source.len() - base;
        if length > avail {
            return Err(PyAssertionError::new_err("Reached EOF while reading tracks from SMDL."));
        }
        let mut events: Vec<SmdlEvent> = Vec::new();
        let mut cur: usize = 4;
        let ghost goal = trk_events(rr, 4, length as int, Seq::empty());
        assert(events_view(events@) =~= Seq::<SmdlEventView>::empty());
        while cur < length
            invariant
                trk_header_at(source@, pos as int) == Some(header),
                length == header.len,
                base == pos + 16,
                slen == source@.len(),
                base <= source@.len(),
                avail + base == source@.len(),
                cur <= avail,
                rr == source@.subrange(base as int, source@.len() as int),
                avail == rr.len(),
                length <= avail,
                4 <= cur,
                goal == trk_events(rr, 4, length as int, Seq::empty()),
                trk_events(rr, cur as int, length as int, events_view(events@)) == goal,
            decreases avail - cur,
        {
            if cur >= avail {
                assert(trk_events(rr, cur as int, length as int, events_view(events@)) is None);
                    return Err(PyAssertionError::new_err("Reached EOF while reading tracks from SMDL."));
            }
            let op_code = source[base + cur];
            let ghost acc = events_view(events@);
            if op_code <= 0x7F {
                if avail - cur <= 1 {
                    assert(trk_events(rr, cur as int, length as int, events_view(events@)) is None);
                    return Err(PyAssertionError::new_err("Reached EOF while reading tracks from SMDL."));
                }
                let param1 = source[base + cur + 1];
                let number_params: u8 = (param1 >> 6) & 0x3;
                assert(number_params == ((param1 >> 4u8) >> 2u8) & 3u8) by (bit_vector)
                    requires number_params == (param1 >> 6u8) & 0x3u8;
                assert(number_params <= 3) by (bit_vector)
                    requires number_params == (param1 >> 6u8) & 0x3u8;
                let p1s: i8 = param1 as i8;
                let om_raw: i8 = (p1s >> 4) & 0x3;
                assert(0 <= om_raw <= 3) by (bit_vector)
                    requires om_raw == (p1s >> 4u8) & 3i8;
                let octave_mod: i8 = om_raw - 2;
                let nc: u8 = param1 & 0xF;
                assert(nc < 16) by (bit_vector)
                    requires nc == param1 & 0xFu8;
                let note = SmdlNote::from_u8(nc);
                proof {
                    lemma_note_of(note);
                }
                let np = number_params as usize;
                if avail - cur < 2 + np {
                    assert(trk_events(rr, cur as int, length as int, events_view(events@)) is None);
                    return Err(PyAssertionError::new_err("Reached EOF while reading tracks from SMDL."));
                }
                let q = base + cur + 2;
                let key_down_duration: Option<u32> = if np == 1 {
                    Some(source[q] as u32)
                } else if np == 2 {
                    Some((source[q] as u32) * 256 + (source[q + 1] as u32))
                } else if np == 3 {
                    Some(((source[q] as u32) * 256 + (source[q + 1] as u32)) * 256 + (source[q + 2] as u32))
                } else {
                    None
                };
                events.push(SmdlEvent::Note { note, velocity: op_code, octave_mod, key_down_duration });
                proof {
                    assert(events_view(events@) =~= acc.push(
                        SmdlEventView::Note { velocity: op_code, octave_mod: octave_of(param1), note: note_of(param1 & 0xFu8), key_down_duration },
                    ));
                }
                cur = cur + 2 + np;
            } else if op_code <= 0x8F {
                let value = SmdlPause::from_u8(op_code).unwrap();
                proof {
                    lemma_pause_of(value);
                }
                events.push(SmdlEvent::Pause { value });
                proof {
                    assert(events_view(events@) =~= acc.push(SmdlEventView::Pause { value: pause_of(op_code) }));
                }
                cur = cur + 1;
            } else if op_code == 0xAB {
                if avail - cur < 2 {
                    assert(trk_events(rr, cur as int, length as int, events_view(events@)) is None);
                    return Err(PyAssertionError::new_err("Reached EOF while reading tracks from SMDL."));
                }
                cur = cur + 2;
            } else if op_code == 0xCB || op_code == 0xF8 {
                if avail - cur < 3 {
                    assert(trk_events(rr, cur as int, length as int, events_view(events@)) is None);
                    return Err(PyAssertionError::new_err("Reached EOF while reading tracks from SMDL."));
                }
                cur = cur + 3;
            } else {
                let op = match SmdlSpecialOpCode::from_u8(op_code) {
                    Some(o) => o,
                    None => {
                        assert(trk_events(rr, cur as int, length as int, events_view(events@)) is None);
                        return Err(PyAssertionError::new_err("Invalid SMDL track event."));
                    },
                };
                proof {
                    lemma_op_of(op);
                }
                let param_len = op.parameter_length();
                if avail - cur < 1 + param_len {
                    assert(trk_events(rr, cur as int, length as int, events_view(events@)) is None);
                    return Err(PyAssertionError::new_err("Reached EOF while reading tracks from SMDL."));
                }
                let params = crate::bytes::copy_range(source, base + cur + 1, base + cur + 1 + param_len);
                assert(params@ == rr.subrange(cur + 1, cur + 1 + param_len));
                events.push(SmdlEvent::Special { op, params });
                proof {
                    assert(events_view(events@) =~= acc.push(SmdlEventView::Special { op: op_of(op_code), params: rr.subrange(cur + 1, cur + 1 + param_len) }));
                }
                cur = cur + 1 + param_len;
            }
        }
        let pad: usize = if length % 4 != 0 { 4 - length % 4 } else { 0 };
        let next: usize = base + cur + pad;
        Ok((SmdlTrack { header, preamble, events }, next))
    }
}


/// The number of bytes a key-down duration is stored in.
pub open spec fn kd_len(kd: Option<u32>) -> u8 {
    match kd {
        None => 0,
        Some(x) => if x > 0xFFFF {
            3
        } else if x > 0xFF {
            2
        } else {
            1
        },
    }
}

/// The bytes of one event.
pub open spec fn event_bytes(e: SmdlEventView) -> Seq<u8> {
    match e {
        SmdlEventView::Note { velocity, octave_mod, note, key_down_duration } => {
            let np = kd_len(key_down_duration);
            let b2 = ((note_code(note) & 0xFu8) + ((((octave_mod + 2) as u8) & 3u8) << 4u8) + ((np & 3u8) << 6u8)) as u8;
            seq![velocity, b2] + match key_down_duration {
                None => Seq::<u8>::empty(),
                Some(x) => if np == 1 {
                    seq![x as u8]
                } else if np == 2 {
                    seq![((x as u16) / 256) as u8, ((x as u16) % 256) as u8]
                } else {
                    seq![(((x >> 8u32) as u16) / 256) as u8, (((x >> 8u32) as u16) % 256) as u8, (x & 0xFu32) as u8]
                },
            }
        },
        SmdlEventView::Pause { value } => seq![pause_code(value)],
        SmdlEventView::Special { op, params } => seq![op_code(op)] + params,
    }
}

/// The bytes of the first `k` events.
pub open spec fn events_bytes(ev: Seq<SmdlEventView>, k: nat) -> Seq<u8>
    decreases k,
{
    if k == 0 {
        Seq::<u8>::empty()
    } else {
        events_bytes(ev, (k - 1) as nat) + event_bytes(ev[k - 1])
    }
}

/// Whether every event can be written: durations in 24 bits, octave shifts that do not overflow.
pub open spec fn events_writable(ev: Seq<SmdlEventView>) -> bool {
    forall|i: int|
        0 <= i < ev.len() ==> match #[trigger] ev[i] {
            SmdlEventView::Note { octave_mod, key_down_duration, .. } => octave_mod <= 125 && match key_down_duration {
                Some(x) => x <= 0xFFFFFF,
                None => true,
            },
            _ => true,
        }
}

/// The bytes of a track: header (with the length of preamble and events), preamble, events,
/// padded with 0x98 to a multiple of 4.
pub open spec fn track_bytes(h: SmdlTrackHeader, p: SmdlTrackPreamble, ev: Seq<SmdlEventView>) -> Seq<u8> {
    let evb = events_bytes(ev, ev.len());
    let body = trk_magic() + u32_le_bytes(h.param1) + u32_le_bytes(h.param2) + u32_le_bytes((4 + evb.len()) as u32)
        + seq![p.track_id, p.channel_id, p.unk1, p.unk2] + evb;
    body + Seq::new((if body.len() % 4 != 0 { 4 - body.len() % 4 } else { 0 }) as nat, |i: int| 0x98u8)
}

proof fn lemma_event_bytes_len(e: SmdlEventView)
    ensures
        event_bytes(e).len() <= 5 + (match e {
            SmdlEventView::Special { params, .. } => params.len() as int,
            _ => 0,
        }),
{
}

impl SmdlTrack {
    fn push_event(e: &SmdlEvent, out: &mut Vec<u8>)
        requires
            events_writable(seq![event_view(*e)]),
        ensures
            final(out)@ == old(out)@ + event_bytes(event_view(*e)),
    {
        assert(match seq![event_view(*e)][0] {
            SmdlEventView::Note { octave_mod, key_down_duration, .. } => octave_mod <= 125 && match key_down_duration {
                Some(x) => x <= 0xFFFFFF,
                None => true,
            },
            _ => true,
        });
        match e {
            SmdlEvent::Note { note, velocity, key_down_duration, octave_mod } => {
                out.push(*velocity);
                let n_p: u8 = match key_down_duration {
                    None => 0,
                    Some(x) => if *x > 0xFFFF {
                        3
                    } else if *x > 0xFF {
                        2
                    } else {
                        1
                    },
                };
                let code: u8 = note.to_u8();
                let nc: u8 = code & 0xF;
                let om2: u8 = (*octave_mod + 2) as u8;
                let om: u8 = om2 & 0x3;
                let a: u8 = om << 4;
                let b: u8 = (n_p & 0x3) << 6;
                assert(nc <= 15 && a <= 48 && b <= 192) by (bit_vector)
                    requires nc == code & 0xFu8, a == om << 4u8, om == om2 & 3u8, b == (n_p & 3u8) << 6u8;
                out.push(nc + a + b);
                match key_down_duration {
                    Some(x) => {
                        if n_p == 1 {
                            out.push(*x as u8);
                        } else if n_p == 2 {
                            let v = *x as u16;
                            out.push((v / 256) as u8);
                            out.push((v % 256) as u8);
                        } else {
                            let v = (*x >> 8) as u16;
                            out.push((v / 256) as u8);
                            out.push((v % 256) as u8);
                            out.push((*x & 0xF) as u8);
                        }
                    },
                    None => {},
                }
            },
            SmdlEvent::Pause { value } => {
                out.push(value.to_u8());
            },
            SmdlEvent::Special { op, params } => {
                out.push(op.to_u8());
                crate::bytes::push_all(out, params.as_slice());
            },
        }
        assert(out@ =~= old(out)@ + event_bytes(event_view(*e)));
    }

    /// The bytes of this track (see `track_bytes`).
    pub fn to_bytes(&self) -> (r: StBytesMut)
        requires
            events_writable(events_view(self.events@)),
            events_bytes(events_view(self.events@), self.events@.len()).len() + 4 <= u32::MAX,
        ensures
            r@ == track_bytes(self.header, self.preamble, events_view(self.events@)),
    {
        let ghost ev = events_view(self.events@);
        let mut events: Vec<u8> = Vec::new();
        let mut i: usize = 0;
        while i < self.events.len()
            invariant
                i <= self.events@.len(),
                ev == events_view(self.events@),
                events_writable(ev),
                events@ == events_bytes(ev, i as nat),
            decreases self.events@.len() - i,
        {
            assert(events_writable(seq![event_view(self.events@[i as int])])) by {
                assert(ev[i as int] == event_view(self.events@[i as int]));
            }
            Self::push_event(&self.events[i], &mut events);
            i = i + 1;
        }
        let pre = self.preamble.to_bytes();
        let hdr = self.header.to_bytes((4 + events.len()) as u32);
        let mut data: Vec<u8> = Vec::new();
        crate::bytes::push_all(&mut data, hdr.as_slice());
        crate::bytes::push_all(&mut data, pre.as_slice());
        crate::bytes::push_all(&mut data, events.as_slice());
        let ghost body = data@;
        let pad: usize = if data.len() % 4 != 0 { 4 - data.len() % 4 } else { 0 };
        let mut k: usize = 0;
        while k < pad
            invariant
                k <= pad,
                data@ == body + Seq::new(k as nat, |j: int| 0x98u8),
            decreases pad - k,
        {
            data.push(0x98);
            k = k + 1;
            assert(data@ =~= body + Seq::new(k as nat, |j: int| 0x98u8));
        }
        StBytesMut(data)
    }
}

} // verus!
