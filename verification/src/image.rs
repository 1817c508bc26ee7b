//! Indexed images, rasters and the nibble/byte pixel streams of tiles.
use crate::bytes::StBytes;
use crate::bytes::StBytesMut;
use vstd::prelude::*;

pub mod tiled;
pub mod tilemap_entry;

verus! {

/// The part of `s` that starts at `x` and is at most `w` long (empty where `x` lies past the end).
pub open spec fn window(s: Seq<u8>, x: int, w: int) -> Seq<u8> {
    if x >= s.len() {
        Seq::<u8>::empty()
    } else if x + w <= s.len() {
        s.subrange(x, x + w)
    } else {
        s.subrange(x, s.len() as int)
    }
}

/// The row of `data` (rows of `width` bytes) that starts at `start`; the last row may be short.
pub open spec fn row_at(data: Seq<u8>, width: int, start: int) -> Seq<u8> {
    window(data, start, width)
}

/// The bytes that `crop` collects: of `h` rows, starting with the one at `start`,
/// the part from column `x` on that is at most `w` long.
pub open spec fn crop_rows(data: Seq<u8>, width: int, start: int, x: int, w: int, h: nat) -> Seq<u8>
    decreases h,
{
    if h == 0 || start >= data.len() {
        Seq::<u8>::empty()
    } else {
        window(row_at(data, width, start), x, w) + crop_rows(data, width, start + width, x, w, (h - 1) as nat)
    }
}

/// Whether a source pixel is copied by a masked paste.
pub open spec fn paste_mask_ok(px: u8, uses_sub_palettes: bool) -> bool {
    (!uses_sub_palettes && px != 0) || px % 16 != 0
}

/// `dst` with the row `srow` written into the row `[rs, re)` from column `x` on, clipped to the row;
/// with `masked`, only the pixels that `paste_mask_ok` accepts are written.
pub open spec fn paste_row(dst: Seq<u8>, rs: int, re: int, x: int, srow: Seq<u8>, masked: bool, sub: bool) -> Seq<u8> {
    Seq::new(
        dst.len(),
        |i: int|
            if rs + x <= i < re && i - rs - x < srow.len() && (!masked || paste_mask_ok(srow[i - rs - x], sub)) {
                srow[i - rs - x]
            } else {
                dst[i]
            },
    )
}

/// The data after pasting the rows of `src` (rows of `sw` bytes, from `ss` on) into the rows of
/// `dst` (rows of `dw` bytes, from `ds` on), for at most `h` rows.
pub open spec fn paste_rows(
    dst: Seq<u8>,
    dw: int,
    ds: int,
    src: Seq<u8>,
    sw: int,
    ss: int,
    x: int,
    h: nat,
    masked: bool,
    sub: bool,
) -> Seq<u8>
    decreases h,
{
    if h == 0 || ds >= dst.len() || ss >= src.len() {
        dst
    } else {
        let re = if ds + dw <= dst.len() { ds + dw } else { dst.len() as int };
        paste_rows(
            paste_row(dst, ds, re, x, row_at(src, sw, ss), masked, sub),
            dw,
            ds + dw,
            src,
            sw,
            ss + sw,
            x,
            (h - 1) as nat,
            masked,
            sub,
        )
    }
}

/// An image of one byte per pixel: data, width, height.
pub struct Raster(pub StBytesMut, pub usize, pub usize);

impl Clone for Raster {
    fn clone(&self) -> (r: Self)
        ensures
            r.0@ == self.0@,
            r.1 == self.1,
            r.2 == self.2,
    {
        Raster(self.0.clone(), self.1, self.2)
    }
}

impl Raster {
    /// A raster of the given size with every pixel 0.
    pub fn new(width: usize, height: usize) -> (r: Self)
        requires
            width * height <= usize::MAX,
        ensures
            r.0@ == Seq::new((width * height) as nat, |i: int| 0u8),
            r.1 == width,
            r.2 == height,
    {
        let n: usize = width * height;
        let v = crate::bytes::filled(0, n);
        Raster(StBytesMut(v), width, height)
    }

    /// The `w` x `h` part whose top left corner is at (`x`, `y`); where it reaches past the
    /// raster, the part that lies inside it.
    pub fn crop(&self, x: usize, y: usize, w: usize, h: usize) -> (r: Self)
        requires
            self.1 > 0,
        ensures
            r.0@ == crop_rows(self.0@, self.1 as int, y * self.1, x as int, w as int, h as nat),
            r.1 == w,
            r.2 == h,
    {
        let data = self.0.0.as_slice();
        let len = data.len();
        let width = self.1;
        let mut out: Vec<u8> = Vec::new();
        let start0 = y.checked_mul(width);
        match start0 {
            None => {
                return Raster(StBytesMut(out), w, h);
            },
            Some(s0) => {
                let mut start: usize = s0;
                let mut k: usize = 0;
                while k < h && start < len
                    invariant
                        data@ == self.0@,
                        len == data@.len(),
                        width == self.1,
                        width > 0,
                        k <= h,
                        out@ + crop_rows(data@, width as int, start as int, x as int, w as int, (h - k) as nat)
                            == crop_rows(data@, width as int, y * width, x as int, w as int, h as nat),
                    decreases h - k,
                {
                    let row_end: usize = if width <= len - start { start + width } else { len };
                    let ghost before = out@;
                    let ghost row = row_at(data@, width as int, start as int);
                    assert(row == data@.subrange(start as int, row_end as int));
                    let row_len = row_end - start;
                    if x < row_len {
                        let cend: usize = if w <= row_len - x { start + x + w } else { row_end };
                        let mut j: usize = start + x;
                        while j < cend
                            invariant
                                start + x <= j <= cend <= row_end <= len,
                                len == data@.len(),
                                out@ == before + data@.subrange(start + x, j as int),
                            decreases cend - j,
                        {
                            out.push(data[j]);
                            j = j + 1;
                        }
                        assert(window(row, x as int, w as int) == data@.subrange(start + x, cend as int));
                    } else {
                        assert(window(row, x as int, w as int) == Seq::<u8>::empty());
                        assert(out@ == before + Seq::<u8>::empty());
                    }
                    assert(out@ == before + window(row, x as int, w as int));
                    proof {
                        let rest = crop_rows(data@, width as int, start + width, x as int, w as int, (h - k - 1) as nat);
                        assert(crop_rows(data@, width as int, start as int, x as int, w as int, (h - k) as nat)
                            == window(row, x as int, w as int) + rest);
                        assert(before + (window(row, x as int, w as int) + rest) == out@ + rest);
                    }
                    k = k + 1;
                    if width > usize::MAX - start {
                        proof {
                            assert(crop_rows(data@, width as int, start + width, x as int, w as int, (h - k) as nat)
                                == Seq::<u8>::empty());
                            assert(out@ + Seq::<u8>::empty() == out@);
                        }
                        return Raster(StBytesMut(out), w, h);
                    }
                    start = start + width;
                }
                proof {
                    assert(crop_rows(data@, width as int, start as int, x as int, w as int, (h - k) as nat)
                        == Seq::<u8>::empty());
                    assert(out@ + Seq::<u8>::empty() == out@);
                }
                Raster(StBytesMut(out), w, h)
            },
        }
    }

    /// Copies `source` over this raster with its top left corner at (`x`, `y`), clipped to it.
    pub fn paste(&mut self, source: Self, x: usize, y: usize)
        requires
            old(self).1 > 0,
            source.1 > 0,
        ensures
            final(self).1 == old(self).1,
            final(self).2 == old(self).2,
            final(self).0@ == paste_rows(
                old(self).0@, old(self).1 as int, y * old(self).1, source.0@, source.1 as int, 0, x as int,
                source.2 as nat, false, false),
    {
        self.paste_impl(&source, x, y, false, false);
    }

    /// As `paste`, but pixels of `source` that are transparent are not copied: with
    /// `uses_sub_palettes`, those whose index is a multiple of 16; else those that are 0.
    pub fn paste_masked(&mut self, source: Self, x: usize, y: usize, uses_sub_palettes: bool)
        requires
            old(self).1 > 0,
            source.1 > 0,
        ensures
            final(self).1 == old(self).1,
            final(self).2 == old(self).2,
            final(self).0@ == paste_rows(
                old(self).0@, old(self).1 as int, y * old(self).1, source.0@, source.1 as int, 0, x as int,
                source.2 as nat, true, uses_sub_palettes),
    {
        self.paste_impl(&source, x, y, true, uses_sub_palettes);
    }

    fn paste_impl(&mut self, source: &Self, x: usize, y: usize, masked: bool, sub: bool)
        requires
            old(self).1 > 0,
            source.1 > 0,
        ensures
            final(self).1 == old(self).1,
            final(self).2 == old(self).2,
            final(self).0@ == paste_rows(
                old(self).0@, old(self).1 as int, y * old(self).1, source.0@, source.1 as int, 0, x as int,
                source.2 as nat, masked, sub),
    {
        let dw = self.1;
        let sw = source.1;
        let src = source.0.0.as_slice();
        let slen = src.len();
        let dlen = self.0.0.len();
        let ghost old_data = self.0@;
        let ds0 = y.checked_mul(dw);
        if ds0.is_none() {
            return;
        }
        let mut ds: usize = ds0.unwrap();
        let mut ss: usize = 0;
        let mut k: usize = 0;
        let h = source.2;
        while k < h && ds < dlen && ss < slen
            invariant
                dw == self.1,
                dw == old(self).1,
                self.2 == old(self).2,
                dw > 0,
                sw > 0,
                src@ == source.0@,
                slen == src@.len(),
                dlen == self.0@.len(),
                k <= h,
                h == source.2,
                paste_rows(self.0@, dw as int, ds as int, src@, sw as int, ss as int, x as int, (h - k) as nat, masked, sub)
                    == paste_rows(old_data, dw as int, y * dw, src@, sw as int, 0, x as int, h as nat, masked, sub),
                old_data == old(self).0@,
            decreases h - k,
        {
            let ghost cur = self.0@;
            let re: usize = if dw <= dlen - ds { ds + dw } else { dlen };
            let se: usize = if sw <= slen - ss { ss + sw } else { slen };
            let ghost srow = row_at(src@, sw as int, ss as int);
            assert(srow == src@.subrange(ss as int, se as int));
            let ghost target = paste_row(self.0@, ds as int, re as int, x as int, srow, masked, sub);
            if x < re - ds {
                let mut c: usize = 0;
                let lim: usize = if re - ds - x < se - ss { re - ds - x } else { se - ss };
                let ghost start_data = self.0@;
                while c < lim
                    invariant
                        x < re - ds,
                        ds < re <= dlen,
                        ss < se <= slen,
                        slen == src@.len(),
                        lim <= re - ds - x,
                        lim <= se - ss,
                        c <= lim,
                        dlen == self.0@.len(),
                        dw == self.1,
                        self.2 == old(self).2,
                        srow == src@.subrange(ss as int, se as int),
                        target == paste_row(start_data, ds as int, re as int, x as int, srow, masked, sub),
                        start_data.len() == dlen,
                        forall|i: int| 0 <= i < dlen && !(ds + x <= i < ds + x + c) ==> self.0@[i] == start_data[i],
                        forall|i: int| ds + x <= i < ds + x + c ==> self.0@[i] == target[i],
                    decreases lim - c,
                {
                    let p = src[ss + c];
                    let pos = ds + x + c;
                    if !masked || (!sub && p != 0) || p % 16 != 0 {
                        self.0.0.set(pos, p);
                    }
                    c = c + 1;
                }
                assert(self.0@ =~= target);
            } else {
                assert(self.0@ =~= target);
            }
            proof {
                assert(re as int == (if ds + dw <= cur.len() { ds + dw } else { cur.len() as int }));
                assert(paste_rows(cur, dw as int, ds as int, src@, sw as int, ss as int, x as int, (h - k) as nat, masked, sub)
                    == paste_rows(self.0@, dw as int, ds + dw, src@, sw as int, ss + sw, x as int, (h - k - 1) as nat, masked, sub));
            }
            k = k + 1;
            if dw > usize::MAX - ds || sw > usize::MAX - ss {
                proof {
                    assert(paste_rows(self.0@, dw as int, ds + dw, src@, sw as int, ss + sw, x as int, (h - k) as nat, masked, sub)
                        == self.0@);
                }
                k = h;
            } else {
                ds = ds + dw;
                ss = ss + sw;
            }
        }
    }
}

/// A raster with its palette (RGB triples, one byte each).
pub struct IndexedImage(pub Raster, pub StBytes);

/// The pixels of a tile, one value per pixel, in the order a tile stores them.
pub struct PixelGenerator(pub Vec<u8>);

/// The pixel values of packed 4bpp data: of each byte the low nibble, then the high nibble.
pub open spec fn nibbles(data: Seq<u8>) -> Seq<u8>
    decreases data.len(),
{
    if data.len() == 0 {
        Seq::<u8>::empty()
    } else {
        seq![data[0] & 0x0f, data[0] >> 4u8] + nibbles(data.drop_first())
    }
}

pub proof fn lemma_nibbles_len(data: Seq<u8>)
    ensures
        nibbles(data).len() == 2 * data.len(),
    decreases data.len(),
{
    if data.len() > 0 {
        lemma_nibbles_len(data.drop_first());
    }
}

pub proof fn lemma_nibbles_push(data: Seq<u8>, b: u8)
    ensures
        nibbles(data.push(b)) == nibbles(data) + seq![b & 0x0f, b >> 4u8],
    decreases data.len(),
{
    if data.len() == 0 {
        assert(data.push(b).drop_first() == Seq::<u8>::empty());
        assert(nibbles(Seq::<u8>::empty()) == Seq::<u8>::empty());
    } else {
        assert(data.push(b).drop_first() == data.drop_first().push(b));
        lemma_nibbles_push(data.drop_first(), b);
        assert(nibbles(data.push(b)) == seq![data[0] & 0x0f, data[0] >> 4u8] + nibbles(data.drop_first().push(b)));
    }
}

/// The nibble values of `data`, in the order `nibbles` gives them.
pub fn expand_nibbles(data: &[u8]) -> (r: Vec<u8>)
    ensures
        r@ == nibbles(data@),
{
    let mut out: Vec<u8> = Vec::new();
    let mut i: usize = 0;
    let n = data.len();
    while i < n
        invariant
            i <= n,
            n == data@.len(),
            out@ == nibbles(data@.take(i as int)),
        decreases n - i,
    {
        let b = data[i];
        proof {
            assert(data@.take(i as int + 1) == data@.take(i as int).push(b));
            lemma_nibbles_push(data@.take(i as int), b);
        }
        out.push(b & 0x0f);
        out.push(b >> 4);
        i = i + 1;
    }
    proof {
        assert(data@.take(n as int) == data@);
    }
    out
}

/// The `k`-th chunk of `size` bytes of `data`.
pub open spec fn chunk(data: Seq<u8>, size: int, k: int) -> Seq<u8> {
    data.subrange(k * size, k * size + size)
}

impl PixelGenerator {
    /// One pixel stream per tile of packed 4bpp data (`tile_dim * tile_dim / 2` bytes per tile).
    pub fn pack4bpp(tiledata: &[u8], tile_dim: usize) -> (r: Vec<Self>)
        requires
            tile_dim * tile_dim <= usize::MAX,
            tile_dim * tile_dim / 2 > 0,
            (tiledata@.len() as int) % (tile_dim * tile_dim / 2) == 0,
        ensures
            r.len() == (tiledata@.len() as int) / (tile_dim * tile_dim / 2),
            forall|k: int| 0 <= k < r.len() ==> #[trigger] r[k].0@ == nibbles(chunk(tiledata@, tile_dim * tile_dim / 2, k)),
    {
        let size: usize = tile_dim * tile_dim / 2;
        Self::split(tiledata, size, true)
    }

    /// One pixel stream per tile of 8bpp data (`tile_dim * tile_dim` bytes per tile).
    pub fn pack8bpp(tiledata: &[u8], tile_dim: usize) -> (r: Vec<Self>)
        requires
            tile_dim * tile_dim <= usize::MAX,
            tile_dim > 0,
            (tiledata@.len() as int) % (tile_dim * tile_dim) == 0,
        ensures
            r.len() == (tiledata@.len() as int) / (tile_dim * tile_dim),
            forall|k: int| 0 <= k < r.len() ==> #[trigger] r[k].0@ == chunk(tiledata@, tile_dim * tile_dim, k),
    {
        let size: usize = tile_dim * tile_dim;
        assert(size > 0) by (nonlinear_arith)
            requires tile_dim > 0, size == tile_dim * tile_dim;
        Self::split(tiledata, size, false)
    }

    /// One 4bpp pixel stream per tile that is already cut out.
    pub fn tiled4bpp(tiledata: &[StBytes]) -> (r: Vec<Self>)
        ensures
            r.len() == tiledata@.len(),
            forall|k: int| 0 <= k < r.len() ==> #[trigger] r[k].0@ == nibbles(tiledata@[k]@),
    {
        let mut out: Vec<Self> = Vec::new();
        let mut i: usize = 0;
        while i < tiledata.len()
            invariant
                i <= tiledata@.len(),
                out.len() == i,
                forall|k: int| 0 <= k < i ==> #[trigger] out[k].0@ == nibbles(tiledata@[k]@),
            decreases tiledata@.len() - i,
        {
            let px = expand_nibbles(tiledata[i].as_slice());
            out.push(PixelGenerator(px));
            i = i + 1;
        }
        out
    }

    fn split(tiledata: &[u8], size: usize, four_bpp: bool) -> (r: Vec<Self>)
        requires
            size > 0,
            (tiledata@.len() as int) % (size as int) == 0,
        ensures
            r.len() == (tiledata@.len() as int) / (size as int),
            forall|k: int| 0 <= k < r.len() ==> #[trigger] r[k].0@
                == (if four_bpp { nibbles(chunk(tiledata@, size as int, k)) } else { chunk(tiledata@, size as int, k) }),
    {
        let n = tiledata.len();
        let count: usize = n / size;
        let mut out: Vec<Self> = Vec::new();
        let mut k: usize = 0;
        let mut start: usize = 0;
        assert(count * size == n) by (nonlinear_arith)
            requires count == (n as int) / (size as int), (n as int) % (size as int) == 0, size > 0;
        while k < count
            invariant
                k <= count,
                n == tiledata@.len(),
                count * size == n,
                start == k * size,
                size > 0,
                out.len() == k,
                forall|j: int| 0 <= j < k ==> #[trigger] out[j].0@
                    == (if four_bpp { nibbles(chunk(tiledata@, size as int, j)) } else { chunk(tiledata@, size as int, j) }),
            decreases count - k,
        {
            assert(start + size <= n) by (nonlinear_arith)
                requires start == k * size, k < count, count * size == n;
            let part = crate::bytes::copy_range(tiledata, start, start + size);
            let px = if four_bpp { expand_nibbles(part.as_slice()) } else { part };
            out.push(PixelGenerator(px));
            assert(start + size == (k + 1) * size) by (nonlinear_arith)
                requires start == k * size;
            k = k + 1;
            start = start + size;
        }
        out
    }
}

/// Reads packed 4bpp data pixel by pixel: each byte gives its low nibble, then its high nibble.
pub struct FourBppIterator {
    data: Vec<u8>,
    pos: usize,
    high: u8,
    on_high: bool,
}

impl FourBppIterator {
    /// The pixels that are still to come.
    pub closed spec fn remaining(&self) -> Seq<u8> {
        if self.on_high {
            seq![self.high] + nibbles(self.data@.skip(self.pos as int))
        } else {
            nibbles(self.data@.skip(self.pos as int))
        }
    }

    pub closed spec fn wf(&self) -> bool {
        &&& self.pos <= self.data.len()
        &&& (self.on_high ==> self.pos > 0 && self.high == self.data@[self.pos - 1] >> 4u8)
    }

    pub fn new(data: Vec<u8>) -> (r: Self)
        ensures
            r.wf(),
            r.remaining() == nibbles(data@),
    {
        let r = FourBppIterator { data, pos: 0, high: 0, on_high: false };
        assert(r.data@.skip(0) == r.data@);
        r
    }

    /// The next pixel, or `None` after the last one.
    pub fn next(&mut self) -> (r: Option<u8>)
        requires
            old(self).wf(),
        ensures
            final(self).wf(),
            old(self).remaining().len() == 0 ==> r is None && final(self).remaining() == old(self).remaining(),
            old(self).remaining().len() > 0 ==> r == Some(old(self).remaining()[0])
                && final(self).remaining() == old(self).remaining().drop_first(),
    {
        if self.on_high {
            self.on_high = false;
            proof {
                assert((seq![self.high] + nibbles(self.data@.skip(self.pos as int))).drop_first()
                    == nibbles(self.data@.skip(self.pos as int)));
            }
            return Some(self.high);
        }
        if self.pos >= self.data.len() {
            proof {
                assert(self.data@.skip(self.pos as int) == Seq::<u8>::empty());
            }
            return None;
        }
        let byte = self.data[self.pos];
        proof {
            let rest = self.data@.skip(self.pos as int);
            assert(rest[0] == byte);
            assert(rest.drop_first() == self.data@.skip(self.pos + 1));
        }
        self.pos = self.pos + 1;
        self.high = byte >> 4;
        self.on_high = true;
        Some(byte & 0x0f)
    }
}

} // verus!
