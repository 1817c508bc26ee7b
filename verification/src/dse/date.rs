//! The modification date stored in DSE headers.
use crate::bytes::le16;
use crate::bytes::u16_le_bytes;
use crate::bytes::StBytes;
use vstd::prelude::*;

verus! {

/// A date and time as DSE files store it (8 bytes).
#[derive(Clone, Copy, Debug, PartialEq, Eq, Structural)]
pub struct DseDate {
    pub year: u16,
    pub month: u8,
    pub day: u8,
    pub hour: u8,
    pub minute: u8,
    pub second: u8,
    pub centisecond: u8,
}

/// The 8 bytes of a date: year (little-endian), then one byte per field.
pub open spec fn dse_date_bytes(d: DseDate) -> Seq<u8> {
    u16_le_bytes(d.year) + seq![d.month, d.day, d.hour, d.minute, d.second, d.centisecond]
}

/// The date stored at `pos`.
pub open spec fn dse_date_at(s: Seq<u8>, pos: int) -> DseDate {
    DseDate {
        year: le16(s, pos) as u16,
        month: s[pos + 2],
        day: s[pos + 3],
        hour: s[pos + 4],
        minute: s[pos + 5],
        second: s[pos + 6],
        centisecond: s[pos + 7],
    }
}

impl DseDate {
    pub fn new(year: u16, month: u8, day: u8, hour: u8, minute: u8, second: u8, centisecond: u8) -> (r: Self)
        ensures
            r == (DseDate { year, month, day, hour, minute, second, centisecond }),
    {
        DseDate { year, month, day, hour, minute, second, centisecond }
    }

    /// Reads the date stored at `pos`.
    pub fn from_bytes(source: &[u8], pos: usize) -> (r: Self)
        requires
            pos + 8 <= source@.len(),
        ensures
            r == dse_date_at(source@, pos as int),
    {
        let n = source.len();
        Self::new(
            crate::bytes::read_u16_le(source, pos),
            source[pos + 2],
            source[pos + 3],
            source[pos + 4],
            source[pos + 5],
            source[pos + 6],
            source[pos + 7],
        )
    }

    /// The 8 bytes of this date.
    pub fn to_bytes(&self) -> (r: StBytes)
        ensures
            r@ == dse_date_bytes(*self),
    {
        let mut b: Vec<u8> = Vec::new();
        crate::bytes::push_u16_le(&mut b, self.year);
        b.push(self.month);
        b.push(self.day);
        b.push(self.hour);
        b.push(self.minute);
        b.push(self.second);
        b.push(self.centisecond);
        StBytes(b)
    }
}

/// Reading back the bytes of a date gives the date.
pub proof fn lemma_dse_date_roundtrip(d: DseDate)
    ensures
        dse_date_at(dse_date_bytes(d), 0) == d,
{
    let b = dse_date_bytes(d);
    assert(le16(b, 0) == d.year) by {
        assert(b[0] == (d.year % 256) as u8 && b[1] == (d.year / 256) as u8);
    }
}

} // verus!
