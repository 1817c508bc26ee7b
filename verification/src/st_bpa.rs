//! BPA: animated tiles of a map background: for every frame its duration and the frame's
//! version of every animated tile.
use crate::bytes::le16;
use crate::bytes::u16_le_bytes;
use crate::bytes::StBytes;
use crate::no_python::Py;
use crate::no_python::Python;
use crate::python::PyResult;
use crate::st_dpci::bytes_views;
use crate::st_dpci::concat_all;
use crate::st_dpci::tile_pixels;
use crate::st_dpci::tile_rows;
use crate::image::tiled::dedup;
use crate::image::tiled::nt_ok;
use crate::image::tiled::nt_run;
use crate::image::tiled::streams;
use crate::image::tiled::t2n_ok;
use crate::image::tiled::write_chunks;
use crate::image::tiled::TiledImage;
use crate::image::tilemap_entry::TilemapEntry;
use crate::image::IndexedImage;
use crate::image::PixelGenerator;
use crate::python::ErrorKind;
use crate::python::exceptions::PyValueError;
use vstd::arithmetic::div_mod::lemma_fundamental_div_mod_converse;
use vstd::prelude::*;

verus! {

pub const BPA_TILE_DIM: usize = 8;

/// How long a frame is shown, and a second value of unknown meaning.
#[derive(PartialEq, Eq, Structural, Clone, Copy, Debug)]
pub struct BpaFrameInfo {
    pub duration_per_frame: u16,
    pub unk2: u16,
}

impl BpaFrameInfo {
    pub fn new(duration_per_frame: u16, unk2: u16) -> (r: Self)
        ensures
            r == (BpaFrameInfo { duration_per_frame, unk2 }),
    {
        BpaFrameInfo { duration_per_frame, unk2 }
    }
}

/// The frame infos behind a list of handles.
pub open spec fn finfo_views(v: Seq<Py<BpaFrameInfo>>) -> Seq<BpaFrameInfo> {
    Seq::new(v.len(), |i: int| v[i].0)
}

proof fn lemma_finfo_views_push(v: Seq<Py<BpaFrameInfo>>, x: Py<BpaFrameInfo>)
    ensures
        finfo_views(v.push(x)) == finfo_views(v).push(x.0),
{
    assert(finfo_views(v.push(x)) =~= finfo_views(v).push(x.0));
}

/// Where the tiles of BPA data start: after the header and the frame infos.
pub open spec fn bpa_tiles_start(data: Seq<u8>) -> int {
    4 + 4 * le16(data, 2)
}

/// The frame infos stored in BPA data.
pub open spec fn bpa_read_finfo(d: Seq<u8>) -> Seq<BpaFrameInfo> {
    Seq::new(
        le16(d, 2) as nat,
        |i: int| BpaFrameInfo { duration_per_frame: le16(d, 4 + 4 * i) as u16, unk2: le16(d, 6 + 4 * i) as u16 },
    )
}

/// The tiles stored in BPA data: 32 bytes each.
pub open spec fn bpa_read_tiles(d: Seq<u8>) -> Seq<Seq<u8>> {
    Seq::new(
        (le16(d, 0) * le16(d, 2)) as nat,
        |k: int| d.subrange(bpa_tiles_start(d) + 32 * k, bpa_tiles_start(d) + 32 * k + 32),
    )
}

/// Whether BPA data holds everything its header announces.
pub open spec fn bpa_ok(data: Seq<u8>) -> bool {
    &&& data.len() >= 4
    &&& le16(data, 0) * le16(data, 2) <= 0xFFFF
    &&& bpa_tiles_start(data) + 32 * (le16(data, 0) * le16(data, 2)) <= data.len()
}

/// The BPA bytes of a model.
pub open spec fn bpa_bytes(nt: u16, nf: u16, finfo: Seq<BpaFrameInfo>, tiles: Seq<Seq<u8>>) -> Seq<u8> {
    u16_le_bytes(nt) + u16_le_bytes(nf) + finfo_bytes(finfo, finfo.len()) + concat_all(tiles)
}

/// The bytes of the first `k` frame infos.
pub open spec fn finfo_bytes(f: Seq<BpaFrameInfo>, k: nat) -> Seq<u8>
    decreases k,
{
    if k == 0 {
        Seq::<u8>::empty()
    } else {
        finfo_bytes(f, (k - 1) as nat) + u16_le_bytes(f[k - 1].duration_per_frame) + u16_le_bytes(f[k - 1].unk2)
    }
}

/// The frame infos after fitting them to `nf` frames: cut off, or filled up with copies of
/// the last one (or with a duration of 10 where there is none).
pub open spec fn corrected_finfo(f: Seq<BpaFrameInfo>, nf: nat) -> Seq<BpaFrameInfo> {
    if f.len() >= nf {
        f.take(nf as int)
    } else if f.len() > 0 {
        f + Seq::new((nf - f.len()) as nat, |i: int| f.last())
    } else {
        Seq::new(nf, |i: int| BpaFrameInfo { duration_per_frame: 10, unk2: 0 })
    }
}

/// A BPA file.
pub struct Bpa {
    pub number_of_tiles: u16,
    pub number_of_frames: u16,
    pub tiles: Vec<StBytes>,
    pub frame_info: Vec<Py<BpaFrameInfo>>,
}

impl Bpa {
    /// Whether `data` holds everything its BPA header announces (see `bpa_ok`).
    pub fn readable(data: &[u8]) -> (r: bool)
        ensures
            r == bpa_ok(data@),
    {
        let n = data.len();
        if n < 4 {
            return false;
        }
        let nt = crate::bytes::read_u16_le(data, 0) as usize;
        let nf = crate::bytes::read_u16_le(data, 2) as usize;
        assert(nt * nf <= 0xFFFF * 0xFFFF) by (nonlinear_arith)
            requires
                nt <= 0xFFFF,
                nf <= 0xFFFF,
        ;
        let prod: u64 = nt as u64 * nf as u64;
        if prod > 0xFFFF {
            return false;
        }
        let start: usize = 4 + 4 * nf;
        n >= start && n - start >= 32 * prod as usize
    }
    /// Reads BPA data: the counts, a frame info per frame, and 32 bytes per tile and frame.
    pub fn new(data: StBytes, py: Python) -> (r: PyResult<Self>)
        requires
            bpa_ok(data@),
        ensures
            r matches Ok(b) && ({
                let d = data@;
                &&& b.number_of_tiles == le16(d, 0)
                &&& b.number_of_frames == le16(d, 2)
                &&& finfo_views(b.frame_info@) == bpa_read_finfo(d)
                &&& bytes_views(b.tiles@) == bpa_read_tiles(d)
            }),
    {
        let d = data.as_slice();
        let n = d.len();
        let nt = crate::bytes::read_u16_le(d, 0);
        let nf = crate::bytes::read_u16_le(d, 2);
        let ghost fgoal = Seq::new(
            nf as nat,
            |i: int| BpaFrameInfo { duration_per_frame: le16(d@, 4 + 4 * i) as u16, unk2: le16(d@, 6 + 4 * i) as u16 },
        );
        let mut frame_info: Vec<Py<BpaFrameInfo>> = Vec::new();
        let mut i: usize = 0;
        while i < nf as usize
            invariant
                n == d@.len(),
                i <= nf,
                4 + 4 * nf <= n,
                fgoal == Seq::new(
                    nf as nat,
                    |i: int| BpaFrameInfo { duration_per_frame: le16(d@, 4 + 4 * i) as u16, unk2: le16(d@, 6 + 4 * i) as u16 },
                ),
                finfo_views(frame_info@) == fgoal.take(i as int),
            decreases nf - i,
        {
            let a = crate::bytes::read_u16_le(d, 4 + 4 * i);
            let b = crate::bytes::read_u16_le(d, 6 + 4 * i);
            let fi = Py(BpaFrameInfo::new(a, b));
            let ghost v0 = frame_info@;
            frame_info.push(fi);
            proof {
                lemma_finfo_views_push(v0, fi);
                assert(fgoal.take(i as int + 1) =~= fgoal.take(i as int).push(fi.0));
            }
            i = i + 1;
        }
        assert(fgoal.take(nf as int) == fgoal);
        let count: usize = nt as usize * nf as usize;
        let start: usize = 4 + 4 * nf as usize;
        let ghost tgoal = Seq::new(count as nat, |k: int| d@.subrange(start + 32 * k, start + 32 * k + 32));
        let mut tiles: Vec<StBytes> = Vec::new();
        let mut k: usize = 0;
        while k < count
            invariant
                n == d@.len(),
                k <= count,
                start + 32 * count <= n,
                tgoal == Seq::new(count as nat, |k: int| d@.subrange(start + 32 * k, start + 32 * k + 32)),
                bytes_views(tiles@) == tgoal.take(k as int),
            decreases count - k,
        {
            let p = start + 32 * k;
            let t = crate::bytes::copy_range(d, p, p + 32);
            let tb = StBytes(t);
            let ghost v0 = tiles@;
            tiles.push(tb);
            proof {
                crate::st_dpci::lemma_bytes_views_push(v0, tb);
                assert(tgoal.take(k as int + 1) =~= tgoal.take(k as int).push(tb@));
            }
            k = k + 1;
        }
        assert(tgoal.take(count as int) == tgoal);
        Ok(Bpa { number_of_tiles: nt, number_of_frames: nf, tiles, frame_info })
    }

    /// An empty BPA.
    pub fn new_empty() -> (r: PyResult<Self>)
        ensures
            r matches Ok(b) && b.number_of_tiles == 0 && b.number_of_frames == 0 && b.tiles@.len() == 0
                && b.frame_info@.len() == 0,
    {
        Ok(Bpa { number_of_tiles: 0, number_of_frames: 0, tiles: Vec::new(), frame_info: Vec::new() })
    }

    /// The data of tile `tile_idx` in frame `frame_idx`.
    pub fn get_tile(&self, tile_idx: usize, frame_idx: usize) -> (r: StBytes)
        requires
            frame_idx * self.number_of_tiles + tile_idx < self.tiles@.len(),
        ensures
            r@ == self.tiles@[frame_idx * self.number_of_tiles + tile_idx]@,
    {
        let n = self.tiles.len();
        self.tiles[frame_idx * self.number_of_tiles as usize + tile_idx].clone()
    }

    /// The tiles of one frame.
    pub fn tiles_for_frame(&self, frame: u16) -> (r: Vec<StBytes>)
        requires
            frame < 0xFFFF,
            (frame + 1) * self.number_of_tiles <= 0xFFFF,
            (frame + 1) * self.number_of_tiles <= self.tiles@.len(),
        ensures
            bytes_views(r@) == bytes_views(self.tiles@).subrange(
                frame * self.number_of_tiles,
                (frame + 1) * self.number_of_tiles,
            ),
    {
        let nt = self.number_of_tiles;
        assert(frame * nt <= (frame + 1) * nt) by (nonlinear_arith);
        assert((frame + 1) * nt == frame * nt + nt) by (nonlinear_arith);
        let start: usize = (frame * nt) as usize;
        let end: usize = start + nt as usize;
        let mut out: Vec<StBytes> = Vec::new();
        let mut i = start;
        while i < end
            invariant
                start <= i <= end <= self.tiles@.len(),
                bytes_views(out@) == bytes_views(self.tiles@).subrange(start as int, i as int),
            decreases end - i,
        {
            let tb = self.tiles[i].clone();
            let ghost v0 = out@;
            out.push(tb);
            proof {
                crate::st_dpci::lemma_bytes_views_push(v0, tb);
                assert(bytes_views(self.tiles@).subrange(start as int, i + 1) =~= bytes_views(self.tiles@).subrange(start as int, i as int).push(self.tiles@[i as int]@));
            }
            i = i + 1;
        }
        out
    }

    /// Fits the frame infos to the number of frames (see `corrected_finfo`).
    fn correct_frame_info(&mut self, py: Python) -> (r: PyResult<()>)
        ensures
            r is Ok,
            finfo_views(final(self).frame_info@) == corrected_finfo(finfo_views(old(self).frame_info@), old(self).number_of_frames as nat),
            final(self).number_of_frames == old(self).number_of_frames,
            final(self).number_of_tiles == old(self).number_of_tiles,
            final(self).tiles@ == old(self).tiles@,
    {
        let nf: usize = self.number_of_frames as usize;
        let len = self.frame_info.len();
        let ghost f0 = finfo_views(self.frame_info@);
        if len > nf {
            self.frame_info.truncate(nf);
            assert(finfo_views(self.frame_info@) =~= f0.take(nf as int));
        } else if len < nf {
            let fill: BpaFrameInfo = if len > 0 { self.frame_info[len - 1].0 } else { BpaFrameInfo::new(10, 0) };
            let mut k = len;
            while k < nf
                invariant
                    len <= k <= nf,
                    len == f0.len(),
                    nf == old(self).number_of_frames,
                    self.number_of_frames == old(self).number_of_frames,
                    self.number_of_tiles == old(self).number_of_tiles,
                    self.tiles@ == old(self).tiles@,
                    finfo_views(self.frame_info@) == f0 + Seq::new((k - len) as nat, |i: int| fill),
                decreases nf - k,
            {
                let ghost v0 = self.frame_info@;
                self.frame_info.push(Py(fill));
                proof {
                    lemma_finfo_views_push(v0, Py(fill));
                    assert(f0 + Seq::new((k + 1 - len) as nat, |i: int| fill) =~= (f0 + Seq::new((k - len) as nat, |i: int| fill)).push(fill));
                }
                k = k + 1;
            }
            if len == 0 {
                assert(finfo_views(self.frame_info@) =~= corrected_finfo(f0, nf as nat));
            } else {
                assert(fill == f0.last());
                assert(finfo_views(self.frame_info@) =~= corrected_finfo(f0, nf as nat));
            }
        } else {
            assert(f0.take(nf as int) =~= f0);
        }
        Ok(())
    }
}

/// The tile map of the whole animation image: a row per tile, a column per frame.
pub open spec fn bpa_entries(nt: int, nf: int) -> Seq<TilemapEntry> {
    Seq::new((nt * nf) as nat, |k: int| TilemapEntry(((k % nf) * nt + k / nf) as usize, false, false, 0))
}

/// The tile map of frame `i` on its own: the frame's tiles in order.
pub open spec fn bpa_frame_entries(nt: int, i: int) -> Seq<TilemapEntry> {
    Seq::new(nt as nat, |j: int| TilemapEntry((i * nt + j) as usize, false, false, 0))
}

/// The tiles after importing an image whose tiles (as cut) are `ft`, with `nt` rows and
/// `nf` columns: frame by frame, each frame's tiles from top to bottom.
pub open spec fn bpa_reordered(ft: Seq<Seq<u8>>, nt: int, nf: int) -> Seq<Seq<u8>> {
    Seq::new((nt * nf) as nat, |k: int| ft[(k % nt) * nf + k / nt])
}

proof fn lemma_div_mod_pair(a: int, b: int, n: int)
    requires
        n > 0,
        0 <= b < n,
        a >= 0,
    ensures
        (a * n + b) % n == b,
        (a * n + b) / n == a,
{
    lemma_fundamental_div_mod_converse(a * n + b, n, a, b);
}

impl Bpa {
    /// The animation as one image: a row of tiles per animated tile, a column per frame;
    /// `None` where there are no tiles.
    pub fn tiles_to_pil(&self, palette: StBytes) -> (r: Option<IndexedImage>)
        requires
            self.number_of_tiles * self.number_of_frames <= 0xFFFF,
            self.number_of_tiles >= 1 ==> t2n_ok(
                bpa_entries(self.number_of_tiles as int, self.number_of_frames as int),
                tile_pixels(bytes_views(self.tiles@)),
                8,
                self.number_of_frames * 8,
                if self.number_of_frames == 0 { 0 } else { self.number_of_tiles * 8 },
                1,
            ),
        ensures
            self.number_of_tiles < 1 ==> r is None,
            self.number_of_tiles >= 1 ==> (r matches Some(img) && img.0.1 == self.number_of_frames * 8
                && img.0.2 == (if self.number_of_frames == 0 { 0 } else { self.number_of_tiles * 8 })
                && img.1@ == palette@ && img.0.0@ == write_chunks(
                Seq::new((img.0.1 * img.0.2) as nat, |p: int| 0u8),
                bpa_entries(self.number_of_tiles as int, self.number_of_frames as int),
                tile_pixels(bytes_views(self.tiles@)),
                (self.number_of_tiles * self.number_of_frames) as nat,
                8,
                img.0.1 as int,
                1,
            )),
    {
        if self.number_of_tiles < 1 {
            return None;
        }
        let nt = self.number_of_tiles as usize;
        let nf = self.number_of_frames as usize;
        let ghost goal = bpa_entries(nt as int, nf as int);
        let mut entries: Vec<TilemapEntry> = Vec::new();
        let mut t: usize = 0;
        while t < nt
            invariant
                t <= nt,
                nt >= 1,
                nt * nf <= 0xFFFF,
                goal == bpa_entries(nt as int, nf as int),
                entries@.len() == t * nf,
                forall|j: int| 0 <= j < entries@.len() ==> #[trigger] entries@[j] == goal[j],
            decreases nt - t,
        {
            let mut f: usize = 0;
            while f < nf
                invariant
                    f <= nf,
                    t < nt,
                    nt * nf <= 0xFFFF,
                    goal == bpa_entries(nt as int, nf as int),
                    entries@.len() == t * nf + f,
                    forall|j: int| 0 <= j < entries@.len() ==> #[trigger] entries@[j] == goal[j],
                decreases nf - f,
            {
                proof {
                    assert(t * nf + f < nt * nf) by (nonlinear_arith)
                        requires t < nt, f < nf;
                    assert(f * nt + t < nt * nf) by (nonlinear_arith)
                        requires t < nt, f < nf;
                    lemma_div_mod_pair(t as int, f as int, nf as int);
                }
                let e = TilemapEntry(f * nt + t, false, false, 0);
                entries.push(e);
                proof {
                    assert(goal[(t * nf + f) as int] == e);
                }
                f = f + 1;
            }
            proof {
                assert((t + 1) * nf == t * nf + nf) by (nonlinear_arith);
            }
            t = t + 1;
        }
        assert(entries@ =~= goal);
        let width: usize = nf * 8;
        let height: usize = if nf == 0 { 0 } else { nt * 8 };
        let tiledata = PixelGenerator::tiled4bpp(self.tiles.as_slice());
        assert(streams(tiledata@) =~= tile_pixels(bytes_views(self.tiles@)));
        match TiledImage::tiled_to_native(entries.as_slice(), tiledata.as_slice(), palette.as_slice(), 8, width, height, 1) {
            Ok(img) => Some(img),
            Err(_) => None,
        }
    }

    /// One image per frame, `width_in_tiles` tiles per row; none where there are no tiles.
    pub fn tiles_to_pil_separate(&self, palette: Vec<u8>, width_in_tiles: usize) -> (r: PyResult<Vec<IndexedImage>>)
        requires
            self.number_of_tiles * self.number_of_frames <= 0xFFFF,
            width_in_tiles > 0,
            width_in_tiles * 8 <= usize::MAX,
            forall|i: int|
                0 <= i < self.number_of_frames ==> #[trigger] t2n_ok(
                    bpa_frame_entries(self.number_of_tiles as int, i),
                    tile_pixels(bytes_views(self.tiles@)),
                    8,
                    width_in_tiles * 8,
                    tile_rows(self.number_of_tiles as int, width_in_tiles as int) * 8,
                    1,
                ),
        ensures
            self.number_of_tiles < 1 ==> (r matches Ok(v) && v@.len() == 0),
            self.number_of_tiles >= 1 ==> (r matches Ok(v) && v@.len() == self.number_of_frames && forall|i: int|
                0 <= i < v@.len() ==> {
                    let img = #[trigger] v@[i];
                    &&& img.0.1 == width_in_tiles * 8
                    &&& img.0.2 == tile_rows(self.number_of_tiles as int, width_in_tiles as int) * 8
                    &&& img.1@ == palette@
                    &&& img.0.0@ == write_chunks(
                        Seq::new((img.0.1 * img.0.2) as nat, |p: int| 0u8),
                        bpa_frame_entries(self.number_of_tiles as int, i),
                        tile_pixels(bytes_views(self.tiles@)),
                        self.number_of_tiles as nat,
                        8,
                        img.0.1 as int,
                        1,
                    )
                }),
    {
        if self.number_of_tiles < 1 {
            return Ok(Vec::new());
        }
        let nt = self.number_of_tiles as usize;
        let nf = self.number_of_frames as usize;
        let width: usize = width_in_tiles * 8;
        let rows: usize = (nt - 1) / width_in_tiles + 1;
        proof {
            let wi = width_in_tiles as int;
            assert(tile_rows(nt as int, wi) == (nt - 1) / wi + 1) by (nonlinear_arith)
                requires wi > 0, nt >= 1;
            if nf > 0 {
                assert(t2n_ok(bpa_frame_entries(nt as int, 0), tile_pixels(bytes_views(self.tiles@)), 8, width as int, rows * 8, 1));
            }
        }
        let tiledata = PixelGenerator::tiled4bpp(self.tiles.as_slice());
        assert(streams(tiledata@) =~= tile_pixels(bytes_views(self.tiles@)));
        let mut images: Vec<IndexedImage> = Vec::new();
        let mut i: usize = 0;
        while i < nf
            invariant
                i <= nf,
                nt >= 1,
                nt * nf <= 0xFFFF,
                nf == self.number_of_frames,
                nt == self.number_of_tiles,
                width == width_in_tiles * 8,
                rows == tile_rows(nt as int, width_in_tiles as int),
                streams(tiledata@) == tile_pixels(bytes_views(self.tiles@)),
                forall|i: int|
                    0 <= i < self.number_of_frames ==> #[trigger] t2n_ok(
                        bpa_frame_entries(self.number_of_tiles as int, i),
                        tile_pixels(bytes_views(self.tiles@)),
                        8,
                        width_in_tiles * 8,
                        tile_rows(self.number_of_tiles as int, width_in_tiles as int) * 8,
                        1,
                    ),
                images@.len() == i,
                forall|k: int|
                    0 <= k < i ==> {
                        let img = #[trigger] images@[k];
                        &&& img.0.1 == width_in_tiles * 8
                        &&& img.0.2 == tile_rows(self.number_of_tiles as int, width_in_tiles as int) * 8
                        &&& img.1@ == palette@
                        &&& img.0.0@ == write_chunks(
                            Seq::new((img.0.1 * img.0.2) as nat, |p: int| 0u8),
                            bpa_frame_entries(self.number_of_tiles as int, k),
                            tile_pixels(bytes_views(self.tiles@)),
                            self.number_of_tiles as nat,
                            8,
                            img.0.1 as int,
                            1,
                        )
                    },
            decreases nf - i,
        {
            assert(i * nt + nt <= nt * nf) by (nonlinear_arith)
                requires i < nf;
            let mut entries: Vec<TilemapEntry> = Vec::new();
            let mut j: usize = 0;
            while j < nt
                invariant
                    j <= nt,
                    i * nt + nt <= 0xFFFF,
                    entries@ == bpa_frame_entries(nt as int, i as int).take(j as int),
                decreases nt - j,
            {
                entries.push(TilemapEntry(i * nt + j, false, false, 0));
                j = j + 1;
                assert(entries@ =~= bpa_frame_entries(nt as int, i as int).take(j as int));
            }
            assert(entries@ =~= bpa_frame_entries(nt as int, i as int));
            assert(t2n_ok(bpa_frame_entries(nt as int, i as int), tile_pixels(bytes_views(self.tiles@)), 8, width as int, rows * 8, 1));
            assert(rows * 8 <= usize::MAX) by (nonlinear_arith)
                requires width * (rows * 8) <= usize::MAX, width >= 8, rows >= 0;
            let height: usize = rows * 8;
            match TiledImage::tiled_to_native(entries.as_slice(), tiledata.as_slice(), palette.as_slice(), 8, width, height, 1) {
                Ok(img) => {
                    images.push(img);
                },
                Err(e) => {
                    return Err(e);
                },
            }
            i = i + 1;
        }
        Ok(images)
    }
}

/// The tiles that cutting an image gives (see `TiledImage::native_to_tiled_seq`).
pub open spec fn image_tiles(img: IndexedImage) -> Seq<Seq<u8>> {
    let (w, h) = (img.0.1 as int, img.0.2 as int);
    let n = ((w * h) / 8 / 8) as nat;
    dedup(nt_run(img.0.0@, img.0.0@.len(), n, 0, 16, 8, w, 1), 8, n).0
}

/// Whether an image can be cut into tiles.
pub open spec fn image_ok(img: IndexedImage) -> bool {
    nt_ok(img.0.0@.len() as int, img.0.1 as int, img.0.2 as int, 8, 1, 16, 0) && img.1@.len() >= 48
}

/// The tiles of the first `k` frames one after the other.
pub open spec fn flat_frames(fs: Seq<Seq<Seq<u8>>>, k: nat) -> Seq<Seq<u8>>
    decreases k,
{
    if k == 0 {
        Seq::<Seq<u8>>::empty()
    } else {
        flat_frames(fs, (k - 1) as nat) + fs[k - 1]
    }
}

/// Whether image `i` of `imgs` cannot be imported: too many tiles, or not the size of the first.
pub open spec fn bad_frame_image(imgs: Seq<IndexedImage>, i: int) -> bool {
    image_tiles(imgs[i]).len() > 1024 || imgs[i].0.1 != imgs[0].0.1 || imgs[i].0.2 != imgs[0].0.2
}

impl Bpa {
    /// Replaces the tiles with those of an image in the layout of `tiles_to_pil` (a row per
    /// tile, a column per frame); the counts are set from the image's size first.
    pub fn pil_to_tiles(&mut self, image: IndexedImage, py: Python) -> (r: PyResult<()>)
        requires
            image_ok(image),
            ((image.0.2 / 8) as u16) * ((image.0.1 / 8) as u16) <= 0xFFFF,
            image_tiles(image).len() <= 1024 ==> ((image.0.2 / 8) as u16) * ((image.0.1 / 8) as u16) <= image_tiles(image).len(),
        ensures
            final(self).number_of_frames == (image.0.1 / 8) as u16,
            final(self).number_of_tiles == (image.0.2 / 8) as u16,
            (image_tiles(image).len() > 1024) <==> r is Err,
            r is Err ==> final(self).tiles@ == old(self).tiles@ && final(self).frame_info@ == old(self).frame_info@,
            r is Ok ==> bytes_views(final(self).tiles@) == bpa_reordered(
                image_tiles(image),
                final(self).number_of_tiles as int,
                final(self).number_of_frames as int,
            ) && finfo_views(final(self).frame_info@) == corrected_finfo(
                finfo_views(old(self).frame_info@),
                final(self).number_of_frames as nat,
            ),
    {
        let w = image.0.1;
        let h = image.0.2;
        let ghost ft = image_tiles(image);
        self.number_of_frames = #[verifier::truncate] ((w / 8) as u16);
        self.number_of_tiles = #[verifier::truncate] ((h / 8) as u16);
        let (tiles, _pal) = match TiledImage::native_to_tiled_seq(image, BPA_TILE_DIM, w, h) {
            Ok(t) => t,
            Err(e) => return Err(e),
        };
        assert(Seq::new(tiles@.len(), |j: int| tiles@[j]@) == ft);
        let nf = self.number_of_frames as usize;
        let nt = self.number_of_tiles as usize;
        let mut out: Vec<StBytes> = Vec::new();
        let mut f: usize = 0;
        while f < nf
            invariant
                f <= nf,
                nt * nf <= 0xFFFF,
                nt * nf <= tiles@.len(),
                Seq::new(tiles@.len(), |j: int| tiles@[j]@) == ft,
                out@.len() == f * nt,
                forall|k: int| 0 <= k < out@.len() ==> #[trigger] out@[k]@ == bpa_reordered(ft, nt as int, nf as int)[k],
            decreases nf - f,
        {
            let mut t: usize = 0;
            while t < nt
                invariant
                    t <= nt,
                    f < nf,
                    nt * nf <= 0xFFFF,
                    nt * nf <= tiles@.len(),
                    Seq::new(tiles@.len(), |j: int| tiles@[j]@) == ft,
                    out@.len() == f * nt + t,
                    forall|k: int| 0 <= k < out@.len() ==> #[trigger] out@[k]@ == bpa_reordered(ft, nt as int, nf as int)[k],
                decreases nt - t,
            {
                proof {
                    assert(t * nf + f < nt * nf) by (nonlinear_arith)
                        requires t < nt, f < nf;
                    assert(f * nt + t < nt * nf) by (nonlinear_arith)
                        requires t < nt, f < nf;
                    lemma_div_mod_pair(f as int, t as int, nt as int);
                }
                let src = t * nf + f;
                let copy = crate::bytes::copy_range(tiles[src].as_slice(), 0, tiles[src].len());
                assert(tiles@[src as int]@.subrange(0, tiles@[src as int]@.len() as int) == tiles@[src as int]@);
                out.push(StBytes(copy));
                proof {
                    assert(ft[src as int] == tiles@[src as int]@);
                }
                t = t + 1;
            }
            proof {
                assert((f + 1) * nt == f * nt + nt) by (nonlinear_arith);
            }
            f = f + 1;
        }
        assert(nf * nt == nt * nf) by (nonlinear_arith);
        assert(bytes_views(out@) =~= bpa_reordered(ft, nt as int, nf as int));
        self.tiles = out;
        self.correct_frame_info(py)
    }

    /// Replaces the tiles with those of one image per frame (all of one size); the number of
    /// tiles is taken from the size of the first image.
    pub fn pil_to_tiles_separate(&mut self, images: Vec<IndexedImage>, py: Python) -> (r: PyResult<()>)
        requires
            images@.len() > 0,
            forall|i: int| 0 <= i < images@.len() ==> #[trigger] image_ok(images@[i]),
        ensures
            (exists|i: int| 0 <= i < images@.len() && #[trigger] bad_frame_image(images@, i)) <==> r is Err,
            r is Err ==> *final(self) == *old(self),
            r is Ok ==> ({
                let fs = Seq::new(images@.len(), |i: int| image_tiles(images@[i]));
                &&& final(self).number_of_frames == images@.len() as u16
                &&& final(self).number_of_tiles == ((images@[0].0.1 * images@[0].0.2) / 64) as u16
                &&& bytes_views(final(self).tiles@) == flat_frames(fs, fs.len())
                &&& finfo_views(final(self).frame_info@) == corrected_finfo(
                    finfo_views(old(self).frame_info@),
                    final(self).number_of_frames as nat,
                )
            }),
    {
        let ghost imgs = images@;
        let ghost fs = Seq::new(imgs.len(), |i: int| image_tiles(imgs[i]));
        let n = images.len();
        let mut pending = images;
        let mut rest: Vec<IndexedImage> = Vec::new();
        // Take the images out in order.
        while pending.len() > 0
            invariant
                pending@.len() + rest@.len() == n,
                n == imgs.len(),
                forall|k: int| 0 <= k < rest@.len() ==> #[trigger] rest@[k] == imgs[n - 1 - k],
                forall|k: int| 0 <= k < pending@.len() ==> #[trigger] pending@[k] == imgs[k],
            decreases pending@.len(),
        {
            let img = pending.pop().unwrap();
            rest.push(img);
        }
        let mut all: Vec<StBytes> = Vec::new();
        let mut first_w: usize = 0;
        let mut first_h: usize = 0;
        let mut i: usize = 0;
        while i < n
            invariant
                i <= n,
                n == imgs.len(),
                imgs == images@,
                n > 0,
                rest@.len() == n - i,
                forall|k: int| 0 <= k < rest@.len() ==> #[trigger] rest@[k] == imgs[n - 1 - k],
                forall|k: int| 0 <= k < imgs.len() ==> #[trigger] image_ok(imgs[k]),
                fs == Seq::new(imgs.len(), |i: int| image_tiles(imgs[i])),
                i > 0 ==> first_w == imgs[0].0.1 && first_h == imgs[0].0.2,
                forall|k: int| 0 <= k < i ==> !#[trigger] bad_frame_image(imgs, k),
                bytes_views(all@) == flat_frames(fs, i as nat),
                *self == *old(self),
            decreases n - i,
        {
            let image = rest.pop().unwrap();
            assert(image == imgs[i as int]);
            assert(image_ok(imgs[i as int]));
            let w = image.0.1;
            let h = image.0.2;
            let (tiles, _pal) = match TiledImage::native_to_tiled_seq(image, BPA_TILE_DIM, w, h) {
                Ok(t) => t,
                Err(e) => {
                    proof {
                        assert(bad_frame_image(imgs, i as int));
                    }
                    return Err(e);
                },
            };
            if i == 0 {
                first_w = w;
                first_h = h;
            }
            if w != first_w || h != first_h {
                proof {
                    assert(bad_frame_image(imgs, i as int));
                }
                return Err(PyValueError::new_err("The dimensions of all images must be the same."));
            }
            assert(!bad_frame_image(imgs, i as int));
            let ghost before = bytes_views(all@);
            let mut j: usize = 0;
            while j < tiles.len()
                invariant
                    j <= tiles@.len(),
                    bytes_views(all@) == before + Seq::new(tiles@.len(), |q: int| tiles@[q]@).take(j as int),
                decreases tiles@.len() - j,
            {
                let copy = crate::bytes::copy_range(tiles[j].as_slice(), 0, tiles[j].len());
                assert(tiles@[j as int]@.subrange(0, tiles@[j as int]@.len() as int) == tiles@[j as int]@);
                let tb = StBytes(copy);
                let ghost v0 = all@;
                all.push(tb);
                proof {
                    crate::st_dpci::lemma_bytes_views_push(v0, tb);
                    assert(Seq::new(tiles@.len(), |q: int| tiles@[q]@).take(j as int + 1) =~= Seq::new(tiles@.len(), |q: int| tiles@[q]@).take(j as int).push(tb@));
                }
                j = j + 1;
            }
            assert(Seq::new(tiles@.len(), |q: int| tiles@[q]@).take(tiles@.len() as int) == fs[i as int]);
            i = i + 1;
        }
        self.number_of_frames = #[verifier::truncate] (n as u16);
        assert(first_w == imgs[0].0.1 && first_h == imgs[0].0.2);
        assert(image_ok(imgs[0]));
        assert(first_w * first_h <= usize::MAX);
        self.number_of_tiles = #[verifier::truncate] (((first_w * first_h) / 64) as u16);
        self.tiles = all;
        self.correct_frame_info(py)
    }
}

/// Writes BPA models.
pub struct BpaWriter;

impl BpaWriter {
    pub fn new() -> (r: Self) {
        BpaWriter
    }

    /// The counts, the frame infos and the tiles.
    pub fn write(&self, model: Py<Bpa>, py: Python) -> (r: PyResult<StBytes>)
        requires
            model.0.number_of_frames == model.0.frame_info@.len(),
        ensures
            r matches Ok(b) && b@ == bpa_bytes(
                model.0.number_of_tiles,
                model.0.number_of_frames,
                finfo_views(model.0.frame_info@),
                bytes_views(model.0.tiles@),
            ),
    {
        let m = &model.0;
        let mut out: Vec<u8> = Vec::new();
        crate::bytes::push_u16_le(&mut out, m.number_of_tiles);
        crate::bytes::push_u16_le(&mut out, m.number_of_frames);
        let ghost head = out@;
        let ghost fs = finfo_views(m.frame_info@);
        let mut i: usize = 0;
        while i < m.frame_info.len()
            invariant
                i <= m.frame_info@.len(),
                fs == finfo_views(m.frame_info@),
                out@ == head + finfo_bytes(fs, i as nat),
            decreases m.frame_info@.len() - i,
        {
            let f = m.frame_info[i].0;
            crate::bytes::push_u16_le(&mut out, f.duration_per_frame);
            crate::bytes::push_u16_le(&mut out, f.unk2);
            i = i + 1;
            assert(out@ =~= head + finfo_bytes(fs, i as nat));
        }
        let ghost mid = out@;
        let ghost ts = bytes_views(m.tiles@);
        let mut t: usize = 0;
        while t < m.tiles.len()
            invariant
                t <= m.tiles@.len(),
                ts == bytes_views(m.tiles@),
                out@ == mid + concat_all(ts.take(t as int)),
            decreases m.tiles@.len() - t,
        {
            proof {
                assert(ts.take(t as int + 1).drop_last() == ts.take(t as int));
            }
            crate::bytes::push_all(&mut out, m.tiles[t].as_slice());
            t = t + 1;
            assert(out@ =~= mid + concat_all(ts.take(t as int)));
        }
        assert(ts.take(ts.len() as int) == ts);
        Ok(StBytes(out))
    }
}

/// Something that holds BPA tiles.
pub trait BpaProvider {
    spec fn bpa_counts(&self) -> (u16, u16);

    spec fn bpa_tiles(&self) -> Seq<Seq<u8>>;

    fn get_number_of_tiles(&self, py: Python) -> (r: PyResult<u16>)
        ensures
            r matches Ok(v) && v == self.bpa_counts().0,
    ;

    fn get_number_of_frames(&self, py: Python) -> (r: PyResult<u16>)
        ensures
            r matches Ok(v) && v == self.bpa_counts().1,
    ;

    fn provide_tiles_for_frame(&self, frame: u16, py: Python) -> (r: PyResult<Vec<StBytes>>)
        requires
            frame < 0xFFFF,
            (frame + 1) * self.bpa_counts().0 <= 0xFFFF,
            (frame + 1) * self.bpa_counts().0 <= self.bpa_tiles().len(),
        ensures
            r matches Ok(v) && bytes_views(v@) == self.bpa_tiles().subrange(
                frame * self.bpa_counts().0,
                (frame + 1) * self.bpa_counts().0,
            ),
    ;
}

impl BpaProvider for Bpa {
    open spec fn bpa_counts(&self) -> (u16, u16) {
        (self.number_of_tiles, self.number_of_frames)
    }

    open spec fn bpa_tiles(&self) -> Seq<Seq<u8>> {
        bytes_views(self.tiles@)
    }

    fn get_number_of_tiles(&self, py: Python) -> (r: PyResult<u16>) {
        Ok(self.number_of_tiles)
    }

    fn get_number_of_frames(&self, py: Python) -> (r: PyResult<u16>) {
        Ok(self.number_of_frames)
    }

    fn provide_tiles_for_frame(&self, frame: u16, py: Python) -> (r: PyResult<Vec<StBytes>>) {
        Ok(self.tiles_for_frame(frame))
    }
}

/// A BPA model handed in by a caller.
pub struct InputBpa(pub Bpa);

impl InputBpa {
    /// The model inside.
    pub fn into_bpa(self) -> (r: Bpa)
        ensures
            r == self.0,
    {
        self.0
    }
}


proof fn lemma_concat_tiles(t: Seq<Seq<u8>>, n: nat)
    requires
        n <= t.len(),
        forall|k: int| 0 <= k < t.len() ==> (#[trigger] t[k]).len() == 32,
    ensures
        concat_all(t.take(n as int)).len() == 32 * n,
        forall|k: int| 0 <= k < n ==> #[trigger] concat_all(t.take(n as int)).subrange(32 * k, 32 * k + 32) == t[k],
    decreases n,
{
    if n > 0 {
        lemma_concat_tiles(t, (n - 1) as nat);
        let p = t.take(n - 1);
        assert(t.take(n as int).drop_last() =~= p);
        let c = concat_all(t.take(n as int));
        assert(c == concat_all(p) + t[n - 1]);
        assert forall|k: int| 0 <= k < n implies #[trigger] c.subrange(32 * k, 32 * k + 32) == t[k] by {
            if k < n - 1 {
                assert(c.subrange(32 * k, 32 * k + 32) =~= concat_all(p).subrange(32 * k, 32 * k + 32));
            } else {
                assert(c.subrange(32 * k, 32 * k + 32) =~= t[k]);
            }
        }
    }
}

proof fn lemma_finfo_bytes(f: Seq<BpaFrameInfo>, n: nat)
    requires
        n <= f.len(),
    ensures
        finfo_bytes(f, n).len() == 4 * n,
        forall|i: int| 0 <= i < n ==> #[trigger] finfo_bytes(f, n).subrange(4 * i, 4 * i + 4) == u16_le_bytes(
            f[i].duration_per_frame,
        ) + u16_le_bytes(f[i].unk2),
    decreases n,
{
    if n > 0 {
        lemma_finfo_bytes(f, (n - 1) as nat);
        let b = finfo_bytes(f, n);
        let p = finfo_bytes(f, (n - 1) as nat);
        assert forall|i: int| 0 <= i < n implies #[trigger] b.subrange(4 * i, 4 * i + 4) == u16_le_bytes(
            f[i].duration_per_frame,
        ) + u16_le_bytes(f[i].unk2) by {
            if i < n - 1 {
                assert(b.subrange(4 * i, 4 * i + 4) =~= p.subrange(4 * i, 4 * i + 4));
            } else {
                assert(b.subrange(4 * i, 4 * i + 4) =~= u16_le_bytes(f[i].duration_per_frame) + u16_le_bytes(f[i].unk2));
            }
        }
    }
}

/// Reading back what writing a BPA gives returns its tile and frame counts, frame infos and
/// tiles, where there is one frame info per frame, one 32-byte tile per tile and frame, and at
/// most 65535 of them.
pub proof fn lemma_bpa_roundtrip(nt: u16, nf: u16, finfo: Seq<BpaFrameInfo>, tiles: Seq<Seq<u8>>)
    requires
        finfo.len() == nf,
        tiles.len() == nt * nf,
        nt * nf <= 0xFFFF,
        forall|k: int| 0 <= k < tiles.len() ==> (#[trigger] tiles[k]).len() == 32,
    ensures
        ({
            let d = bpa_bytes(nt, nf, finfo, tiles);
            &&& bpa_ok(d)
            &&& le16(d, 0) == nt
            &&& le16(d, 2) == nf
            &&& bpa_read_finfo(d) == finfo
            &&& bpa_read_tiles(d) == tiles
        }),
{
    let d = bpa_bytes(nt, nf, finfo, tiles);
    let fb = finfo_bytes(finfo, finfo.len());
    lemma_finfo_bytes(finfo, finfo.len());
    lemma_concat_tiles(tiles, tiles.len());
    assert(tiles.take(tiles.len() as int) =~= tiles);
    let ct = concat_all(tiles);
    assert(d.subrange(0, 2) =~= u16_le_bytes(nt));
    assert(d.subrange(2, 4) =~= u16_le_bytes(nf));
    crate::bytes::lemma_le16_at(d, 0, nt);
    crate::bytes::lemma_le16_at(d, 2, nf);
    assert(bpa_tiles_start(d) == 4 + fb.len());
    assert forall|i: int| 0 <= i < nf implies #[trigger] bpa_read_finfo(d)[i] == finfo[i] by {
        let e = fb.subrange(4 * i, 4 * i + 4);
        assert(d.subrange(4 + 4 * i, 6 + 4 * i) =~= e.subrange(0, 2));
        assert(d.subrange(6 + 4 * i, 8 + 4 * i) =~= e.subrange(2, 4));
        assert(e.subrange(0, 2) =~= u16_le_bytes(finfo[i].duration_per_frame));
        assert(e.subrange(2, 4) =~= u16_le_bytes(finfo[i].unk2));
        crate::bytes::lemma_le16_at(d, 4 + 4 * i, finfo[i].duration_per_frame);
        crate::bytes::lemma_le16_at(d, 6 + 4 * i, finfo[i].unk2);
    }
    assert(bpa_read_finfo(d) =~= finfo);
    assert forall|k: int| 0 <= k < tiles.len() implies #[trigger] bpa_read_tiles(d)[k] == tiles[k] by {
        let st = bpa_tiles_start(d);
        assert(d.subrange(st + 32 * k, st + 32 * k + 32) =~= ct.subrange(32 * k, 32 * k + 32));
    }
    assert(bpa_read_tiles(d) =~= tiles);
}

} // verus!
