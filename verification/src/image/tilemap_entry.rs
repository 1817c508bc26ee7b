//! One entry of a tile map: which tile, flipped how, with which sub-palette.
use vstd::prelude::*;

verus! {

/// A tile map entry: tile index, flipped horizontally, flipped vertically, palette index.
#[derive(PartialEq, Eq, Structural, Debug, Clone, Copy)]
pub struct TilemapEntry(pub usize, pub bool, pub bool, pub u8);

/// The 16-bit packed form of an entry: tile index in bits 0-9, the flips in bits 10 and 11,
/// the palette index from bit 12 on.
pub open spec fn tilemap_entry_int(e: TilemapEntry) -> usize {
    ((e.0 & 0x3FF) + ((if e.1 { 1usize } else { 0usize }) << 10usize) + ((if e.2 { 1usize } else { 0usize })
        << 11usize) + (((e.3 as usize) & 0x3F) << 12usize)) as usize
}

/// The entry that a packed value stands for.
pub open spec fn tilemap_entry_from_int(i: usize) -> TilemapEntry {
    TilemapEntry(i & 0x3FF, (i & 0x400) > 0, (i & 0x800) > 0, ((i & 0xF000) >> 12usize) as u8)
}

impl TilemapEntry {
    /// An entry with the given fields (`ignore_too_large` is accepted and has no effect).
    pub fn new(idx: usize, flip_x: bool, flip_y: bool, pal_idx: u8, ignore_too_large: bool) -> (r: Self)
        ensures
            r == TilemapEntry(idx, flip_x, flip_y, pal_idx),
    {
        TilemapEntry(idx, flip_x, flip_y, pal_idx)
    }

    /// The entry that the packed value `i` stands for.
    pub fn from_int(i: usize) -> (r: Self)
        ensures
            r == tilemap_entry_from_int(i),
    {
        TilemapEntry(i & 0x3FF, (i & 0x400) > 0, (i & 0x800) > 0, ((i & 0xF000) >> 12) as u8)
    }

    /// The packed value of this entry.
    pub fn to_int(&self) -> (r: usize)
        ensures
            r == tilemap_entry_int(*self),
    {
        let i0: usize = self.0;
        let f1: bool = self.1;
        let f2: bool = self.2;
        let p: usize = self.3 as usize;
        let a: usize = i0 & 0x3FF;
        let b: usize = (if f1 { 1usize } else { 0usize }) << 10;
        let c: usize = (if f2 { 1usize } else { 0usize }) << 11;
        let d: usize = (p & 0x3F) << 12;
        assert(a <= 0x3FF) by (bit_vector)
            requires a == i0 & 0x3FF;
        assert(d <= 0x3F000) by (bit_vector)
            requires d == (p & 0x3F) << 12usize;
        assert(b <= 0x400 && c <= 0x800) by (bit_vector)
            requires
                b == (if f1 { 1usize } else { 0usize }) << 10usize,
                c == (if f2 { 1usize } else { 0usize }) << 11usize;
        a + b + c + d
    }
}

/// Packing an entry and reading it back gives the entry again, for every entry whose tile index
/// fits in 10 bits and whose palette index fits in 4 bits.
pub proof fn lemma_tilemap_entry_roundtrip(e: TilemapEntry)
    requires
        e.0 < 0x400,
        e.3 < 16,
    ensures
        tilemap_entry_from_int(tilemap_entry_int(e)) == e,
{
    let idx = e.0;
    let p = e.3 as usize;
    let fx: usize = if e.1 { 1 } else { 0 };
    let fy: usize = if e.2 { 1 } else { 0 };
    assert(fx < 2 && fy < 2);
    let v: usize = ((idx & 0x3FF) + (fx << 10usize) + (fy << 11usize) + ((p & 0x3F) << 12usize)) as usize;
    assert(v & 0x3FF == idx && ((v & 0x400) > 0) == (fx == 1) && ((v & 0x800) > 0) == (fy == 1)
        && (v & 0xF000) >> 12usize == p) by (bit_vector)
        requires
            idx < 0x400,
            p < 16,
            fx < 2,
            fy < 2,
            v == ((idx & 0x3FF) + (fx << 10usize) + (fy << 11usize) + ((p & 0x3F) << 12usize)) as usize;
    assert(tilemap_entry_int(e) == v);
}

/// Reading a packed value and packing it again keeps its low 16 bits and clears the rest.
pub proof fn lemma_tilemap_int_roundtrip(i: usize)
    ensures
        tilemap_entry_int(tilemap_entry_from_int(i)) == i & 0xFFFF,
{
    let e = tilemap_entry_from_int(i);
    let fx: usize = if e.1 { 1 } else { 0 };
    let fy: usize = if e.2 { 1 } else { 0 };
    let p: usize = e.3 as usize;
    assert(p == (i & 0xF000) >> 12usize) by (bit_vector)
        requires p == (((i & 0xF000) >> 12usize) as u8) as usize;
    assert(fx == (i & 0x400) >> 10usize && fy == (i & 0x800) >> 11usize) by (bit_vector)
        requires
            fx == (if (i & 0x400) > 0 { 1usize } else { 0usize }),
            fy == (if (i & 0x800) > 0 { 1usize } else { 0usize });
    let a: usize = (i & 0x3FF) & 0x3FF;
    let v: usize = (a + (fx << 10usize) + (fy << 11usize) + ((p & 0x3F) << 12usize)) as usize;
    assert(v == i & 0xFFFF) by (bit_vector)
        requires
            a == (i & 0x3FF) & 0x3FF,
            v == (a + (fx << 10usize) + (fy << 11usize) + ((p & 0x3F) << 12usize)) as usize,
            p == (i & 0xF000) >> 12usize,
            fx == (i & 0x400) >> 10usize,
            fy == (i & 0x800) >> 11usize;
    assert(tilemap_entry_int(e) == v);
}

/// Read access to the fields of a tile map entry.
pub trait ProvidesTilemapEntry {
    spec fn entry(&self) -> TilemapEntry;

    fn idx(&self) -> (r: usize)
        ensures
            r == self.entry().0,
    ;

    fn flip_x(&self) -> (r: bool)
        ensures
            r == self.entry().1,
    ;

    fn flip_y(&self) -> (r: bool)
        ensures
            r == self.entry().2,
    ;

    fn pal_idx(&self) -> (r: u8)
        ensures
            r == self.entry().3,
    ;

    fn to_int(&self) -> (r: usize)
        ensures
            r == tilemap_entry_int(self.entry()),
    ;
}

impl ProvidesTilemapEntry for TilemapEntry {
    open spec fn entry(&self) -> TilemapEntry {
        *self
    }

    fn idx(&self) -> (r: usize) {
        self.0
    }

    fn flip_x(&self) -> (r: bool) {
        self.1
    }

    fn flip_y(&self) -> (r: bool) {
        self.2
    }

    fn pal_idx(&self) -> (r: u8) {
        self.3
    }

    fn to_int(&self) -> (r: usize) {
        TilemapEntry::to_int(self)
    }
}

/// A tile map entry handed in by a caller.
pub struct InputTilemapEntry(pub TilemapEntry);

impl ProvidesTilemapEntry for InputTilemapEntry {
    open spec fn entry(&self) -> TilemapEntry {
        self.0
    }

    fn idx(&self) -> (r: usize) {
        self.0.0
    }

    fn flip_x(&self) -> (r: bool) {
        self.0.1
    }

    fn flip_y(&self) -> (r: bool) {
        self.0.2
    }

    fn pal_idx(&self) -> (r: u8) {
        self.0.3
    }

    fn to_int(&self) -> (r: usize) {
        self.0.to_int()
    }
}

} // verus!
