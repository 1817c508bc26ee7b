//! Owned byte buffers used throughout the library, and little-endian
//! reading and writing helpers over them.
use vstd::prelude::*;

verus! {

/// A growable, owned byte buffer (the output side of most serialisers).
#[derive(Default, Debug)]
pub struct StBytesMut(pub Vec<u8>);

/// An owned, immutable-by-convention byte buffer.
#[derive(Default, Debug)]
pub struct StBytes(pub Vec<u8>);

/// A list of bytes (exported to callers as a list rather than a byte string).
#[derive(Default, Debug)]
pub struct StU8List(pub Vec<u8>);

impl View for StBytesMut {
    type V = Seq<u8>;

    open spec fn view(&self) -> Seq<u8> {
        self.0@
    }
}

impl View for StBytes {
    type V = Seq<u8>;

    open spec fn view(&self) -> Seq<u8> {
        self.0@
    }
}

impl View for StU8List {
    type V = Seq<u8>;

    open spec fn view(&self) -> Seq<u8> {
        self.0@
    }
}

impl Clone for StBytesMut {
    fn clone(&self) -> (r: Self)
        ensures
            r@ == self@,
    {
        StBytesMut(self.0.clone())
    }
}

impl Clone for StBytes {
    fn clone(&self) -> (r: Self)
        ensures
            r@ == self@,
    {
        StBytes(self.0.clone())
    }
}

impl Clone for StU8List {
    fn clone(&self) -> (r: Self)
        ensures
            r@ == self@,
    {
        StU8List(self.0.clone())
    }
}

impl StBytesMut {
    /// Turns the mutable buffer into an immutable one, keeping its content.
    pub fn freeze(self) -> (r: StBytes)
        ensures
            r@ == self@,
    {
        StBytes(self.0)
    }

    pub fn len(&self) -> (r: usize)
        ensures
            r == self@.len(),
    {
        self.0.len()
    }
}

impl StBytes {
    pub fn len(&self) -> (r: usize)
        ensures
            r == self@.len(),
    {
        self.0.len()
    }

    pub fn as_slice(&self) -> (r: &[u8])
        ensures
            r@ == self@,
    {
        self.0.as_slice()
    }
}

impl StU8List {
    pub fn len(&self) -> (r: usize)
        ensures
            r == self@.len(),
    {
        self.0.len()
    }
}

/// Something that can give its bytes as an `StBytes` (a copy of what it holds).
pub trait AsStBytesPyRef {
    fn as_bytes_pyref(&self) -> StBytes;
}

impl AsStBytesPyRef for StBytes {
    fn as_bytes_pyref(&self) -> (r: StBytes)
        ensures
            r@ == self@,
    {
        self.clone()
    }
}

/// The value of two bytes read as a little-endian unsigned integer.
pub open spec fn le16(s: Seq<u8>, i: int) -> int {
    s[i] + s[i + 1] * 256
}

/// The value of four bytes read as a little-endian unsigned integer.
pub open spec fn le32(s: Seq<u8>, i: int) -> int {
    le16(s, i) + le16(s, i + 2) * 65536
}

/// The two little-endian bytes of a 16-bit value.
pub open spec fn u16_le_bytes(x: u16) -> Seq<u8> {
    seq![(x % 256) as u8, (x / 256) as u8]
}

/// The four little-endian bytes of a 32-bit value.
pub open spec fn u32_le_bytes(x: u32) -> Seq<u8> {
    seq![(x % 256) as u8, ((x / 256) % 256) as u8, ((x / 65536) % 256) as u8, (x / 16777216) as u8]
}

pub fn read_u16_le(data: &[u8], pos: usize) -> (r: u16)
    requires
        pos + 2 <= data@.len(),
    ensures
        r == le16(data@, pos as int),
{
    data[pos] as u16 + data[pos + 1] as u16 * 256
}

pub fn read_u32_le(data: &[u8], pos: usize) -> (r: u32)
    requires
        pos + 4 <= data@.len(),
    ensures
        r == le32(data@, pos as int),
{
    let n = data.len();
    let lo = read_u16_le(data, pos) as u32;
    let hi = read_u16_le(data, pos + 2) as u32;
    lo + hi * 65536
}

pub fn read_i32_le(data: &[u8], pos: usize) -> (r: i32)
    requires
        pos + 4 <= data@.len(),
    ensures
        r as int == (if le32(data@, pos as int) < 0x8000_0000 { le32(data@, pos as int) } else { le32(data@, pos as int) - 0x1_0000_0000 }),
{
    let u = read_u32_le(data, pos);
    if u < 0x8000_0000 {
        u as i32
    } else {
        (u as i64 - 0x1_0000_0000i64) as i32
    }
}

pub fn push_u16_le(out: &mut Vec<u8>, x: u16)
    ensures
        final(out)@ == old(out)@ + u16_le_bytes(x),
{
    out.push((x % 256) as u8);
    out.push((x / 256) as u8);
    assert(final(out)@ =~= old(out)@ + u16_le_bytes(x));
}

pub fn push_u32_le(out: &mut Vec<u8>, x: u32)
    ensures
        final(out)@ == old(out)@ + u32_le_bytes(x),
{
    out.push((x % 256) as u8);
    out.push(((x / 256) % 256) as u8);
    out.push(((x / 65536) % 256) as u8);
    out.push((x / 16777216) as u8);
    assert(final(out)@ =~= old(out)@ + u32_le_bytes(x));
}

pub fn push_i32_le(out: &mut Vec<u8>, x: i32)
    ensures
        final(out)@ == old(out)@ + u32_le_bytes((if x >= 0 { x as int } else { x + 0x1_0000_0000 }) as u32),
{
    let u: u32 = if x >= 0 { x as u32 } else { (x as i64 + 0x1_0000_0000i64) as u32 };
    push_u32_le(out, u);
}

/// Appends all bytes of `src` to `out`.
pub fn push_all(out: &mut Vec<u8>, src: &[u8])
    ensures
        final(out)@ == old(out)@ + src@,
{
    let mut i: usize = 0;
    while i < src.len()
        invariant
            i <= src@.len(),
            out@ == old(out)@ + src@.subrange(0, i as int),
        decreases src@.len() - i,
    {
        out.push(src[i]);
        i += 1;
        assert(out@ =~= old(out)@ + src@.subrange(0, i as int));
    }
    assert(src@.subrange(0, src@.len() as int) =~= src@);
}

/// A copy of `src[start..end]`.
pub fn copy_range(src: &[u8], start: usize, end: usize) -> (r: Vec<u8>)
    requires
        start <= end <= src@.len(),
    ensures
        r@ == src@.subrange(start as int, end as int),
{
    let mut r: Vec<u8> = Vec::with_capacity(end - start);
    let mut i = start;
    while i < end
        invariant
            start <= i <= end <= src@.len(),
            r@ == src@.subrange(start as int, i as int),
        decreases end - i,
    {
        r.push(src[i]);
        i += 1;
        assert(r@ =~= src@.subrange(start as int, i as int));
    }
    r
}

/// A vector of `n` copies of `b`.
pub fn filled(b: u8, n: usize) -> (r: Vec<u8>)
    ensures
        r@ == Seq::new(n as nat, |i: int| b),
{
    let mut r: Vec<u8> = Vec::with_capacity(n);
    let mut i: usize = 0;
    while i < n
        invariant
            i <= n,
            r@ == Seq::new(i as nat, |j: int| b),
        decreases n - i,
    {
        r.push(b);
        i += 1;
        assert(r@ =~= Seq::new(i as nat, |j: int| b));
    }
    r
}


/// Reading back the two bytes of a 16-bit value gives the value.
pub proof fn lemma_u16_le_roundtrip(x: u16)
    ensures
        le16(u16_le_bytes(x), 0) == x,
{
    let b = u16_le_bytes(x);
    assert(b[0] == x % 256 && b[1] == x / 256);
}

/// Reading back the four bytes of a 32-bit value gives the value.
pub proof fn lemma_u32_le_roundtrip(x: u32)
    ensures
        le32(u32_le_bytes(x), 0) == x,
{
    let b = u32_le_bytes(x);
    assert(b[0] == x % 256);
    assert(b[1] == (x / 256) % 256);
    assert(b[2] == (x / 65536) % 256);
    assert(b[3] == x / 16777216);
    assert(x == x % 256 + ((x / 256) % 256) * 256 + ((x / 65536) % 256) * 65536 + (x / 16777216) * 16777216) by (nonlinear_arith);
}

/// Two bytes at `p` that are the little-endian form of `x` are read as `x`.
pub proof fn lemma_le16_at(s: Seq<u8>, p: int, x: u16)
    requires
        0 <= p,
        p + 2 <= s.len(),
        s.subrange(p, p + 2) == u16_le_bytes(x),
    ensures
        le16(s, p) == x,
{
    assert(s[p] == s.subrange(p, p + 2)[0]);
    assert(s[p + 1] == s.subrange(p, p + 2)[1]);
    lemma_u16_le_roundtrip(x);
}

/// Four bytes at `p` that are the little-endian form of `x` are read as `x`.
pub proof fn lemma_le32_at(s: Seq<u8>, p: int, x: u32)
    requires
        0 <= p,
        p + 4 <= s.len(),
        s.subrange(p, p + 4) == u32_le_bytes(x),
    ensures
        le32(s, p) == x,
{
    let t = s.subrange(p, p + 4);
    assert(s[p] == t[0] && s[p + 1] == t[1] && s[p + 2] == t[2] && s[p + 3] == t[3]);
    lemma_u32_le_roundtrip(x);
}

/// A signed byte stored as its unsigned form reads back as itself.
pub proof fn lemma_i8_roundtrip(x: i8)
    ensures
        (x as u8) as i8 == x,
{
    assert((x as u8) as i8 == x) by (bit_vector);
}

} // verus!
