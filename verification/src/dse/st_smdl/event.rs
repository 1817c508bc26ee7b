//! The events of SMDL tracks: notes, pauses and special operations.
use vstd::prelude::*;

verus! {

pub const PLAY_NOTE_MAX: u8 = 0x7F;

pub const PAUSE_NOTE_MAX: u8 = 0x8F;

/// A note of the scale (codes 0 to 11), or one of the codes 12 to 15 that name none.
#[derive(Clone, Copy, PartialEq, Eq, Structural, Debug)]
pub enum SmdlNote {
    C,
    CS,
    D,
    DS,
    E,
    F,
    FS,
    G,
    GS,
    A,
    AS,
    B,
    InvalidC,
    InvalidD,
    InvalidE,
    Unknown,
}

/// The code of a note.
pub open spec fn note_code(n: SmdlNote) -> u8 {
    match n {
        SmdlNote::C => 0u8,
        SmdlNote::CS => 1u8,
        SmdlNote::D => 2u8,
        SmdlNote::DS => 3u8,
        SmdlNote::E => 4u8,
        SmdlNote::F => 5u8,
        SmdlNote::FS => 6u8,
        SmdlNote::G => 7u8,
        SmdlNote::GS => 8u8,
        SmdlNote::A => 9u8,
        SmdlNote::AS => 10u8,
        SmdlNote::B => 11u8,
        SmdlNote::InvalidC => 12u8,
        SmdlNote::InvalidD => 13u8,
        SmdlNote::InvalidE => 14u8,
        SmdlNote::Unknown => 15u8,
    }
}

impl SmdlNote {
    /// Whether this is a note of the scale.
    pub fn valid(&self) -> (r: bool)
        ensures
            r == (note_code(*self) < 12),
    {
        match self {
            SmdlNote::InvalidC | SmdlNote::InvalidD | SmdlNote::InvalidE | SmdlNote::Unknown => false,
            _ => true,
        }
    }

    /// The note with code `v` (0 to 15).
    pub fn from_u8(v: u8) -> (r: Self)
        requires
            v < 16,
        ensures
            note_code(r) == v,
    {
        match v {
            0 => SmdlNote::C,
            1 => SmdlNote::CS,
            2 => SmdlNote::D,
            3 => SmdlNote::DS,
            4 => SmdlNote::E,
            5 => SmdlNote::F,
            6 => SmdlNote::FS,
            7 => SmdlNote::G,
            8 => SmdlNote::GS,
            9 => SmdlNote::A,
            10 => SmdlNote::AS,
            11 => SmdlNote::B,
            12 => SmdlNote::InvalidC,
            13 => SmdlNote::InvalidD,
            14 => SmdlNote::InvalidE,
            _ => SmdlNote::Unknown,
        }
    }

    /// The code of this note.
    pub fn to_u8(&self) -> (r: u8)
        ensures
            r == note_code(*self),
    {
        match self {
            SmdlNote::C => 0,
            SmdlNote::CS => 1,
            SmdlNote::D => 2,
            SmdlNote::DS => 3,
            SmdlNote::E => 4,
            SmdlNote::F => 5,
            SmdlNote::FS => 6,
            SmdlNote::G => 7,
            SmdlNote::GS => 8,
            SmdlNote::A => 9,
            SmdlNote::AS => 10,
            SmdlNote::B => 11,
            SmdlNote::InvalidC => 12,
            SmdlNote::InvalidD => 13,
            SmdlNote::InvalidE => 14,
            SmdlNote::Unknown => 15,
        }
    }
}

/// A pause, by its code 0x80 to 0x8F.
#[derive(Clone, Copy, PartialEq, Eq, Structural, Debug)]
pub enum SmdlPause {
    HalfNote,
    DottedQuarterNote,
    TwoThirdsOfHalfNote,
    QuarterNote,
    DottedEightNote,
    TwoThirdsOfQuarterNote,
    EightNote,
    DottedSixteenthNote,
    TwoThirdsOfEightNote,
    SixteenthNote,
    DottedThirtysecondNote,
    TwoThirdsOfSixteenthNote,
    ThirtysecondNote,
    DottedSixtyforthNote,
    TwoThirdsOfThirtysecondNote,
    SixtyforthNote,
}

/// The code of a pause.
pub open spec fn pause_code(p: SmdlPause) -> u8 {
    match p {
        SmdlPause::HalfNote => 128u8,
        SmdlPause::DottedQuarterNote => 129u8,
        SmdlPause::TwoThirdsOfHalfNote => 130u8,
        SmdlPause::QuarterNote => 131u8,
        SmdlPause::DottedEightNote => 132u8,
        SmdlPause::TwoThirdsOfQuarterNote => 133u8,
        SmdlPause::EightNote => 134u8,
        SmdlPause::DottedSixteenthNote => 135u8,
        SmdlPause::TwoThirdsOfEightNote => 136u8,
        SmdlPause::SixteenthNote => 137u8,
        SmdlPause::DottedThirtysecondNote => 138u8,
        SmdlPause::TwoThirdsOfSixteenthNote => 139u8,
        SmdlPause::ThirtysecondNote => 140u8,
        SmdlPause::DottedSixtyforthNote => 141u8,
        SmdlPause::TwoThirdsOfThirtysecondNote => 142u8,
        SmdlPause::SixtyforthNote => 143u8,
    }
}

/// The length of a pause in ticks.
pub open spec fn pause_ticks(p: SmdlPause) -> usize {
    match p {
        SmdlPause::HalfNote => 96usize,
        SmdlPause::DottedQuarterNote => 72usize,
        SmdlPause::TwoThirdsOfHalfNote => 64usize,
        SmdlPause::QuarterNote => 48usize,
        SmdlPause::DottedEightNote => 36usize,
        SmdlPause::TwoThirdsOfQuarterNote => 32usize,
        SmdlPause::EightNote => 24usize,
        SmdlPause::DottedSixteenthNote => 18usize,
        SmdlPause::TwoThirdsOfEightNote => 16usize,
        SmdlPause::SixteenthNote => 12usize,
        SmdlPause::DottedThirtysecondNote => 9usize,
        SmdlPause::TwoThirdsOfSixteenthNote => 8usize,
        SmdlPause::ThirtysecondNote => 6usize,
        SmdlPause::DottedSixtyforthNote => 4usize,
        SmdlPause::TwoThirdsOfThirtysecondNote => 3usize,
        SmdlPause::SixtyforthNote => 2usize,
    }
}

impl SmdlPause {
    /// The length of this pause in ticks.
    pub fn length(&self) -> (r: usize)
        ensures
            r == pause_ticks(*self),
    {
        match self {
            SmdlPause::HalfNote => 96,
            SmdlPause::DottedQuarterNote => 72,
            SmdlPause::TwoThirdsOfHalfNote => 64,
            SmdlPause::QuarterNote => 48,
            SmdlPause::DottedEightNote => 36,
            SmdlPause::TwoThirdsOfQuarterNote => 32,
            SmdlPause::EightNote => 24,
            SmdlPause::DottedSixteenthNote => 18,
            SmdlPause::TwoThirdsOfEightNote => 16,
            SmdlPause::SixteenthNote => 12,
            SmdlPause::DottedThirtysecondNote => 9,
            SmdlPause::TwoThirdsOfSixteenthNote => 8,
            SmdlPause::ThirtysecondNote => 6,
            SmdlPause::DottedSixtyforthNote => 4,
            SmdlPause::TwoThirdsOfThirtysecondNote => 3,
            SmdlPause::SixtyforthNote => 2,
        }
    }

    /// The pause with code `v`, if any.
    pub fn from_u8(v: u8) -> (r: Option<Self>)
        ensures
            (0x80 <= v <= 0x8F) <==> r is Some,
            r matches Some(p) ==> pause_code(p) == v,
    {
        match v {
            128 => Some(SmdlPause::HalfNote),
            129 => Some(SmdlPause::DottedQuarterNote),
            130 => Some(SmdlPause::TwoThirdsOfHalfNote),
            131 => Some(SmdlPause::QuarterNote),
            132 => Some(SmdlPause::DottedEightNote),
            133 => Some(SmdlPause::TwoThirdsOfQuarterNote),
            134 => Some(SmdlPause::EightNote),
            135 => Some(SmdlPause::DottedSixteenthNote),
            136 => Some(SmdlPause::TwoThirdsOfEightNote),
            137 => Some(SmdlPause::SixteenthNote),
            138 => Some(SmdlPause::DottedThirtysecondNote),
            139 => Some(SmdlPause::TwoThirdsOfSixteenthNote),
            140 => Some(SmdlPause::ThirtysecondNote),
            141 => Some(SmdlPause::DottedSixtyforthNote),
            142 => Some(SmdlPause::TwoThirdsOfThirtysecondNote),
            143 => Some(SmdlPause::SixtyforthNote),
            _ => None,
        }
    }

    /// The code of this pause.
    pub fn to_u8(&self) -> (r: u8)
        ensures
            r == pause_code(*self),
    {
        match self {
            SmdlPause::HalfNote => 128,
            SmdlPause::DottedQuarterNote => 129,
            SmdlPause::TwoThirdsOfHalfNote => 130,
            SmdlPause::QuarterNote => 131,
            SmdlPause::DottedEightNote => 132,
            SmdlPause::TwoThirdsOfQuarterNote => 133,
            SmdlPause::EightNote => 134,
            SmdlPause::DottedSixteenthNote => 135,
            SmdlPause::TwoThirdsOfEightNote => 136,
            SmdlPause::SixteenthNote => 137,
            SmdlPause::DottedThirtysecondNote => 138,
            SmdlPause::TwoThirdsOfSixteenthNote => 139,
            SmdlPause::ThirtysecondNote => 140,
            SmdlPause::DottedSixtyforthNote => 141,
            SmdlPause::TwoThirdsOfThirtysecondNote => 142,
            SmdlPause::SixtyforthNote => 143,
        }
    }
}

/// A special operation of a track.
#[derive(Clone, Copy, PartialEq, Eq, Structural, Debug)]
pub enum SmdlSpecialOpCode {
    WaitAgain,
    WaitAdd,
    Wait1Byte,
    Wait2Byte,
    Wait3Byte,
    TrackEnd,
    LoopPoint,
    SetOctave,
    SetTempo,
    SetHeader1,
    SetHeader2,
    SetSample,
    SetModu,
    SetBend,
    SetVolume,
    SetXpress,
    SetPan,
    Unk9C,
    Unk9D,
    UnkA8,
    UnkB2,
    UnkB4,
    UnkB5,
    UnkBF,
    UnkC0,
    UnkD0,
    UnkD1,
    UnkD2,
    UnkD4,
    UnkD6,
    UnkDB,
    UnkDC,
    UnkE2,
    UnkEA,
    UnkF6,
}

/// The code of an operation.
pub open spec fn op_code(op: SmdlSpecialOpCode) -> u8 {
    match op {
        SmdlSpecialOpCode::WaitAgain => 144u8,
        SmdlSpecialOpCode::WaitAdd => 145u8,
        SmdlSpecialOpCode::Wait1Byte => 146u8,
        SmdlSpecialOpCode::Wait2Byte => 147u8,
        SmdlSpecialOpCode::Wait3Byte => 148u8,
        SmdlSpecialOpCode::TrackEnd => 152u8,
        SmdlSpecialOpCode::LoopPoint => 153u8,
        SmdlSpecialOpCode::SetOctave => 160u8,
        SmdlSpecialOpCode::SetTempo => 164u8,
        SmdlSpecialOpCode::SetHeader1 => 169u8,
        SmdlSpecialOpCode::SetHeader2 => 170u8,
        SmdlSpecialOpCode::SetSample => 172u8,
        SmdlSpecialOpCode::SetModu => 190u8,
        SmdlSpecialOpCode::SetBend => 215u8,
        SmdlSpecialOpCode::SetVolume => 224u8,
        SmdlSpecialOpCode::SetXpress => 227u8,
        SmdlSpecialOpCode::SetPan => 232u8,
        SmdlSpecialOpCode::Unk9C => 156u8,
        SmdlSpecialOpCode::Unk9D => 157u8,
        SmdlSpecialOpCode::UnkA8 => 168u8,
        SmdlSpecialOpCode::UnkB2 => 178u8,
        SmdlSpecialOpCode::UnkB4 => 180u8,
        SmdlSpecialOpCode::UnkB5 => 181u8,
        SmdlSpecialOpCode::UnkBF => 191u8,
        SmdlSpecialOpCode::UnkC0 => 192u8,
        SmdlSpecialOpCode::UnkD0 => 208u8,
        SmdlSpecialOpCode::UnkD1 => 209u8,
        SmdlSpecialOpCode::UnkD2 => 210u8,
        SmdlSpecialOpCode::UnkD4 => 212u8,
        SmdlSpecialOpCode::UnkD6 => 214u8,
        SmdlSpecialOpCode::UnkDB => 219u8,
        SmdlSpecialOpCode::UnkDC => 220u8,
        SmdlSpecialOpCode::UnkE2 => 226u8,
        SmdlSpecialOpCode::UnkEA => 234u8,
        SmdlSpecialOpCode::UnkF6 => 246u8,
    }
}

/// The number of parameter bytes of an operation.
pub open spec fn op_param_len(op: SmdlSpecialOpCode) -> usize {
    match op {
        SmdlSpecialOpCode::WaitAgain => 0usize,
        SmdlSpecialOpCode::WaitAdd => 1usize,
        SmdlSpecialOpCode::Wait1Byte => 1usize,
        SmdlSpecialOpCode::Wait2Byte => 2usize,
        SmdlSpecialOpCode::Wait3Byte => 2usize,
        SmdlSpecialOpCode::TrackEnd => 0usize,
        SmdlSpecialOpCode::LoopPoint => 0usize,
        SmdlSpecialOpCode::SetOctave => 1usize,
        SmdlSpecialOpCode::SetTempo => 1usize,
        SmdlSpecialOpCode::SetHeader1 => 1usize,
        SmdlSpecialOpCode::SetHeader2 => 1usize,
        SmdlSpecialOpCode::SetSample => 1usize,
        SmdlSpecialOpCode::SetModu => 1usize,
        SmdlSpecialOpCode::SetBend => 2usize,
        SmdlSpecialOpCode::SetVolume => 1usize,
        SmdlSpecialOpCode::SetXpress => 1usize,
        SmdlSpecialOpCode::SetPan => 1usize,
        SmdlSpecialOpCode::Unk9C => 1usize,
        SmdlSpecialOpCode::Unk9D => 0usize,
        SmdlSpecialOpCode::UnkA8 => 2usize,
        SmdlSpecialOpCode::UnkB2 => 1usize,
        SmdlSpecialOpCode::UnkB4 => 2usize,
        SmdlSpecialOpCode::UnkB5 => 1usize,
        SmdlSpecialOpCode::UnkBF => 1usize,
        SmdlSpecialOpCode::UnkC0 => 0usize,
        SmdlSpecialOpCode::UnkD0 => 1usize,
        SmdlSpecialOpCode::UnkD1 => 1usize,
        SmdlSpecialOpCode::UnkD2 => 1usize,
        SmdlSpecialOpCode::UnkD4 => 3usize,
        SmdlSpecialOpCode::UnkD6 => 2usize,
        SmdlSpecialOpCode::UnkDB => 1usize,
        SmdlSpecialOpCode::UnkDC => 5usize,
        SmdlSpecialOpCode::UnkE2 => 3usize,
        SmdlSpecialOpCode::UnkEA => 3usize,
        SmdlSpecialOpCode::UnkF6 => 1usize,
    }
}

/// Whether `v` is the code of an operation.
pub open spec fn is_op_code(v: u8) -> bool {
    v == 144 || v == 145 || v == 146 || v == 147 || v == 148 || v == 152 || v == 153 || v == 160 || v == 164 || v == 169 || v == 170 || v == 172 || v == 190 || v == 215 || v == 224 || v == 227 || v == 232 || v == 156 || v == 157 || v == 168 || v == 178 || v == 180 || v == 181 || v == 191 || v == 192 || v == 208 || v == 209 || v == 210 || v == 212 || v == 214 || v == 219 || v == 220 || v == 226 || v == 234 || v == 246
}

impl SmdlSpecialOpCode {
    /// The number of parameter bytes of this operation.
    pub fn parameter_length(&self) -> (r: usize)
        ensures
            r == op_param_len(*self),
    {
        match self {
            SmdlSpecialOpCode::WaitAgain => 0,
            SmdlSpecialOpCode::WaitAdd => 1,
            SmdlSpecialOpCode::Wait1Byte => 1,
            SmdlSpecialOpCode::Wait2Byte => 2,
            SmdlSpecialOpCode::Wait3Byte => 2,
            SmdlSpecialOpCode::TrackEnd => 0,
            SmdlSpecialOpCode::LoopPoint => 0,
            SmdlSpecialOpCode::SetOctave => 1,
            SmdlSpecialOpCode::SetTempo => 1,
            SmdlSpecialOpCode::SetHeader1 => 1,
            SmdlSpecialOpCode::SetHeader2 => 1,
            SmdlSpecialOpCode::SetSample => 1,
            SmdlSpecialOpCode::SetModu => 1,
            SmdlSpecialOpCode::SetBend => 2,
            SmdlSpecialOpCode::SetVolume => 1,
            SmdlSpecialOpCode::SetXpress => 1,
            SmdlSpecialOpCode::SetPan => 1,
            SmdlSpecialOpCode::Unk9C => 1,
            SmdlSpecialOpCode::Unk9D => 0,
            SmdlSpecialOpCode::UnkA8 => 2,
            SmdlSpecialOpCode::UnkB2 => 1,
            SmdlSpecialOpCode::UnkB4 => 2,
            SmdlSpecialOpCode::UnkB5 => 1,
            SmdlSpecialOpCode::UnkBF => 1,
            SmdlSpecialOpCode::UnkC0 => 0,
            SmdlSpecialOpCode::UnkD0 => 1,
            SmdlSpecialOpCode::UnkD1 => 1,
            SmdlSpecialOpCode::UnkD2 => 1,
            SmdlSpecialOpCode::UnkD4 => 3,
            SmdlSpecialOpCode::UnkD6 => 2,
            SmdlSpecialOpCode::UnkDB => 1,
            SmdlSpecialOpCode::UnkDC => 5,
            SmdlSpecialOpCode::UnkE2 => 3,
            SmdlSpecialOpCode::UnkEA => 3,
            SmdlSpecialOpCode::UnkF6 => 1,
        }
    }

    /// The operation with code `v`, if any.
    pub fn from_u8(v: u8) -> (r: Option<Self>)
        ensures
            is_op_code(v) <==> r is Some,
            r matches Some(op) ==> op_code(op) == v,
    {
        match v {
            144 => Some(SmdlSpecialOpCode::WaitAgain),
            145 => Some(SmdlSpecialOpCode::WaitAdd),
            146 => Some(SmdlSpecialOpCode::Wait1Byte),
            147 => Some(SmdlSpecialOpCode::Wait2Byte),
            148 => Some(SmdlSpecialOpCode::Wait3Byte),
            152 => Some(SmdlSpecialOpCode::TrackEnd),
            153 => Some(SmdlSpecialOpCode::LoopPoint),
            160 => Some(SmdlSpecialOpCode::SetOctave),
            164 => Some(SmdlSpecialOpCode::SetTempo),
            169 => Some(SmdlSpecialOpCode::SetHeader1),
            170 => Some(SmdlSpecialOpCode::SetHeader2),
            172 => Some(SmdlSpecialOpCode::SetSample),
            190 => Some(SmdlSpecialOpCode::SetModu),
            215 => Some(SmdlSpecialOpCode::SetBend),
            224 => Some(SmdlSpecialOpCode::SetVolume),
            227 => Some(SmdlSpecialOpCode::SetXpress),
            232 => Some(SmdlSpecialOpCode::SetPan),
            156 => Some(SmdlSpecialOpCode::Unk9C),
            157 => Some(SmdlSpecialOpCode::Unk9D),
            168 => Some(SmdlSpecialOpCode::UnkA8),
            178 => Some(SmdlSpecialOpCode::UnkB2),
            180 => Some(SmdlSpecialOpCode::UnkB4),
            181 => Some(SmdlSpecialOpCode::UnkB5),
            191 => Some(SmdlSpecialOpCode::UnkBF),
            192 => Some(SmdlSpecialOpCode::UnkC0),
            208 => Some(SmdlSpecialOpCode::UnkD0),
            209 => Some(SmdlSpecialOpCode::UnkD1),
            210 => Some(SmdlSpecialOpCode::UnkD2),
            212 => Some(SmdlSpecialOpCode::UnkD4),
            214 => Some(SmdlSpecialOpCode::UnkD6),
            219 => Some(SmdlSpecialOpCode::UnkDB),
            220 => Some(SmdlSpecialOpCode::UnkDC),
            226 => Some(SmdlSpecialOpCode::UnkE2),
            234 => Some(SmdlSpecialOpCode::UnkEA),
            246 => Some(SmdlSpecialOpCode::UnkF6),
            _ => None,
        }
    }

    /// The code of this operation.
    pub fn to_u8(&self) -> (r: u8)
        ensures
            r == op_code(*self),
    {
        match self {
            SmdlSpecialOpCode::WaitAgain => 144,
            SmdlSpecialOpCode::WaitAdd => 145,
            SmdlSpecialOpCode::Wait1Byte => 146,
            SmdlSpecialOpCode::Wait2Byte => 147,
            SmdlSpecialOpCode::Wait3Byte => 148,
            SmdlSpecialOpCode::TrackEnd => 152,
            SmdlSpecialOpCode::LoopPoint => 153,
            SmdlSpecialOpCode::SetOctave => 160,
            SmdlSpecialOpCode::SetTempo => 164,
            SmdlSpecialOpCode::SetHeader1 => 169,
            SmdlSpecialOpCode::SetHeader2 => 170,
            SmdlSpecialOpCode::SetSample => 172,
            SmdlSpecialOpCode::SetModu => 190,
            SmdlSpecialOpCode::SetBend => 215,
            SmdlSpecialOpCode::SetVolume => 224,
            SmdlSpecialOpCode::SetXpress => 227,
            SmdlSpecialOpCode::SetPan => 232,
            SmdlSpecialOpCode::Unk9C => 156,
            SmdlSpecialOpCode::Unk9D => 157,
            SmdlSpecialOpCode::UnkA8 => 168,
            SmdlSpecialOpCode::UnkB2 => 178,
            SmdlSpecialOpCode::UnkB4 => 180,
            SmdlSpecialOpCode::UnkB5 => 181,
            SmdlSpecialOpCode::UnkBF => 191,
            SmdlSpecialOpCode::UnkC0 => 192,
            SmdlSpecialOpCode::UnkD0 => 208,
            SmdlSpecialOpCode::UnkD1 => 209,
            SmdlSpecialOpCode::UnkD2 => 210,
            SmdlSpecialOpCode::UnkD4 => 212,
            SmdlSpecialOpCode::UnkD6 => 214,
            SmdlSpecialOpCode::UnkDB => 219,
            SmdlSpecialOpCode::UnkDC => 220,
            SmdlSpecialOpCode::UnkE2 => 226,
            SmdlSpecialOpCode::UnkEA => 234,
            SmdlSpecialOpCode::UnkF6 => 246,
        }
    }
}

/// An event of a track.
#[derive(Debug)]
pub enum SmdlEvent {
    Special { op: SmdlSpecialOpCode, params: Vec<u8> },
    Pause { value: SmdlPause },
    Note { velocity: u8, octave_mod: i8, note: SmdlNote, key_down_duration: Option<u32> },
}

/// How many ticks an event waits, given the previous wait time: the wait operations wait (again,
/// longer, or as long as their little-endian parameter says), pauses wait their length, and
/// everything else waits nothing.
pub open spec fn event_length(e: SmdlEvent, previous: int) -> int {
    match e {
        SmdlEvent::Special { op, params } => match op {
            SmdlSpecialOpCode::WaitAgain => previous,
            SmdlSpecialOpCode::WaitAdd => previous + params@[0],
            SmdlSpecialOpCode::Wait1Byte => params@[0] as int,
            SmdlSpecialOpCode::Wait2Byte => params@[1] * 256 + params@[0],
            SmdlSpecialOpCode::Wait3Byte => params@[2] * 65536 + params@[1] * 256 + params@[0],
            _ => 0,
        },
        SmdlEvent::Pause { value } => pause_ticks(value) as int,
        SmdlEvent::Note { .. } => 0,
    }
}

/// What `length` needs: the parameters it reads, and no overflow.
pub open spec fn event_length_ok(e: SmdlEvent, previous: int) -> bool {
    match e {
        SmdlEvent::Special { op, params } => match op {
            SmdlSpecialOpCode::WaitAdd => params@.len() >= 1 && previous + params@[0] <= usize::MAX,
            SmdlSpecialOpCode::Wait1Byte => params@.len() >= 1,
            SmdlSpecialOpCode::Wait2Byte => params@.len() >= 2,
            SmdlSpecialOpCode::Wait3Byte => params@.len() >= 3,
            _ => true,
        },
        _ => true,
    }
}

impl SmdlEvent {
    /// How many ticks this event waits (see `event_length`).
    pub fn length(&self, previous_wait_time: usize) -> (r: usize)
        requires
            event_length_ok(*self, previous_wait_time as int),
        ensures
            r == event_length(*self, previous_wait_time as int),
    {
        match self {
            SmdlEvent::Special { op, params } => match op {
                SmdlSpecialOpCode::WaitAgain => previous_wait_time,
                SmdlSpecialOpCode::WaitAdd => previous_wait_time + params[0] as usize,
                SmdlSpecialOpCode::Wait1Byte => params[0] as usize,
                SmdlSpecialOpCode::Wait2Byte => (params[1] as usize) * 256 + (params[0] as usize),
                SmdlSpecialOpCode::Wait3Byte => (params[2] as usize) * 65536 + (params[1] as usize) * 256 + (
                params[0] as usize),
                _ => 0,
            },
            SmdlEvent::Pause { value } => value.length(),
            SmdlEvent::Note { .. } => 0,
        }
    }
}


/// A note event as callers build it: the note by its code.
#[derive(Clone, Copy, PartialEq, Eq, Structural, Debug)]
pub struct SmdlEventPlayNote {
    pub velocity: u8,
    pub octave_mod: i8,
    pub note: u8,
    pub key_down_duration: Option<u32>,
}

impl SmdlEventPlayNote {
    pub fn new(note: SmdlNote, octave_mod: i8, velocity: u8, key_down_duration: Option<u32>) -> (r: Self)
        ensures
            r == (SmdlEventPlayNote { velocity, octave_mod, note: note_code(note), key_down_duration }),
    {
        SmdlEventPlayNote { velocity, octave_mod, note: note.to_u8(), key_down_duration }
    }
}

/// A pause event as callers build it: the pause by its code.
#[derive(Clone, Copy, PartialEq, Eq, Structural, Debug)]
pub struct SmdlEventPause {
    pub value: u8,
}

impl SmdlEventPause {
    pub fn new(value: SmdlPause) -> (r: Self)
        ensures
            r.value == pause_code(value),
    {
        SmdlEventPause { value: value.to_u8() }
    }
}

/// A special event as callers build it: the operation by its code, and its parameters.
pub struct SmdlEventSpecial {
    pub op: u8,
    pub params: Vec<u8>,
}

impl SmdlEventSpecial {
    pub fn new(op: SmdlSpecialOpCode, params: Vec<u8>) -> (r: Self)
        ensures
            r.op == op_code(op),
            r.params@ == params@,
    {
        SmdlEventSpecial { op: op.to_u8(), params }
    }
}
} // verus!
