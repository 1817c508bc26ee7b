//! DPCI: the 4bpp 8x8 tiles of a dungeon tileset, one after the other.
use crate::bytes::StBytes;
use crate::image::lemma_nibbles_len;
use crate::image::nibbles;
use crate::image::tiled::dedup;
use crate::image::tiled::nt_ok;
use crate::image::tiled::nt_run;
use crate::image::tiled::streams;
use crate::image::tiled::t2n_ok;
use crate::image::tiled::t2n_stream;
use crate::image::tiled::write_chunks;
use crate::image::tiled::TiledImage;
use crate::image::tilemap_entry::TilemapEntry;
use crate::image::window;
use crate::image::IndexedImage;
use crate::image::PixelGenerator;
use crate::image::Raster;
use crate::no_python::Py;
use crate::no_python::Python;
use crate::python::PyResult;
use vstd::prelude::*;

verus! {

pub const DPCI_TILE_DIM: usize = 8;

/// Bytes of one 4bpp tile.
pub const DPCI_TILE_BYTES: usize = 32;

/// The views of a list of byte buffers.
pub open spec fn bytes_views(v: Seq<StBytes>) -> Seq<Seq<u8>> {
    Seq::new(v.len(), |i: int| v[i]@)
}

pub proof fn lemma_bytes_views_push(v: Seq<StBytes>, x: StBytes)
    ensures
        bytes_views(v.push(x)) == bytes_views(v).push(x@),
{
    assert(bytes_views(v.push(x)) =~= bytes_views(v).push(x@));
}

/// The tiles of DPCI data: 32 bytes each, the last one may be shorter.
pub open spec fn dpci_tiles(data: Seq<u8>) -> Seq<Seq<u8>> {
    Seq::new(
        ((data.len() + 31) / 32) as nat,
        |k: int| window(data, 32 * k, 32),
    )
}

/// The buffers one after the other.
pub open spec fn concat_all(tiles: Seq<Seq<u8>>) -> Seq<u8>
    decreases tiles.len(),
{
    if tiles.len() == 0 {
        Seq::<u8>::empty()
    } else {
        concat_all(tiles.drop_last()) + tiles.last()
    }
}

/// The views of a list of byte vectors.
pub open spec fn vec_views(v: Seq<Vec<u8>>) -> Seq<Seq<u8>> {
    Seq::new(v.len(), |i: int| v[i]@)
}

/// Rows of tiles needed for `n` tiles, `w` per row.
pub open spec fn tile_rows(n: int, w: int) -> int {
    (n + w - 1) / w
}

/// The tile map that places `n` tiles in order, all with sub-palette `pal`.
pub open spec fn dpci_entries(n: nat, pal: u8) -> Seq<TilemapEntry> {
    Seq::new(n, |i: int| TilemapEntry(i as usize, false, false, pal))
}

/// The pixels of 4bpp tiles.
pub open spec fn tile_pixels(tiles: Seq<Seq<u8>>) -> Seq<Seq<u8>> {
    Seq::new(tiles.len(), |k: int| nibbles(tiles[k]))
}

pub proof fn lemma_nibbles_small(data: Seq<u8>)
    ensures
        forall|k: int| 0 <= k < nibbles(data).len() ==> #[trigger] nibbles(data)[k] < 16,
    decreases data.len(),
{
    if data.len() > 0 {
        lemma_nibbles_small(data.drop_first());
        let b = data[0];
        assert(b & 0x0f < 16) by (bit_vector);
        assert(b >> 4u8 < 16) by (bit_vector);
        let rest = nibbles(data.drop_first());
        assert(nibbles(data) == seq![b & 0x0f, b >> 4u8] + rest);
        assert forall|k: int| 0 <= k < nibbles(data).len() implies #[trigger] nibbles(data)[k] < 16 by {
            if k >= 2 {
                assert(nibbles(data)[k] == rest[k - 2]);
            }
        }
    }
}

proof fn lemma_grid_fits(i: int, n: int, w: int)
    by (nonlinear_arith)
    requires
        0 <= i < n,
        w > 0,
    ensures
        (i % w) * 8 + 8 <= w * 8,
        (i / w) * 8 + 8 <= tile_rows(n, w) * 8,
        i % w >= 0,
        i / w >= 0,
{
    assert(i / w <= (n - 1) / w);
    assert(tile_rows(n, w) == (n - 1) / w + 1) by {
        assert((n + w - 1) / w == (n - 1 + w) / w);
    }
}

proof fn lemma_dpci_prefix(data: Seq<u8>, m: nat)
    requires
        m <= (data.len() + 31) / 32,
    ensures
        concat_all(dpci_tiles(data).take(m as int)) == data.take(if 32 * m <= data.len() { 32 * m as int } else { data.len() as int }),
    decreases m,
{
    let t = dpci_tiles(data);
    if m == 0 {
        assert(t.take(0) == Seq::<Seq<u8>>::empty());
        assert(data.take(0) == Seq::<u8>::empty());
    } else {
        lemma_dpci_prefix(data, (m - 1) as nat);
        assert(t.take(m as int).drop_last() == t.take(m - 1));
        assert(32 * (m - 1) < data.len());
        let end = if 32 * m <= data.len() { 32 * m as int } else { data.len() as int };
        assert(t.take(m as int).last() == data.subrange(32 * (m - 1), end));
        assert(data.take(32 * (m - 1)) + data.subrange(32 * (m - 1), end) == data.take(end));
    }
}

/// Writing the tiles that reading cut out gives the data back.
pub proof fn lemma_dpci_roundtrip(data: Seq<u8>)
    ensures
        concat_all(dpci_tiles(data)) == data,
{
    let n = ((data.len() + 31) / 32) as nat;
    lemma_dpci_prefix(data, n);
    assert(dpci_tiles(data).take(n as int) == dpci_tiles(data));
    assert(32 * n >= data.len());
    assert(data.take(data.len() as int) == data);
}

/// The byte vectors one after the other.
pub fn concat_vecs(v: &[Vec<u8>]) -> (r: Vec<u8>)
    ensures
        r@ == concat_all(vec_views(v@)),
{
    let mut out: Vec<u8> = Vec::new();
    let mut j: usize = 0;
    while j < v.len()
        invariant
            j <= v@.len(),
            out@ == concat_all(vec_views(v@).take(j as int)),
        decreases v@.len() - j,
    {
        proof {
            let t = vec_views(v@);
            assert(t.take(j as int + 1).drop_last() == t.take(j as int));
        }
        crate::bytes::push_all(&mut out, v[j].as_slice());
        j = j + 1;
    }
    assert(vec_views(v@).take(v@.len() as int) == vec_views(v@));
    out
}

/// A DPCI file: its tiles.
pub struct Dpci {
    pub tiles: Vec<StBytes>,
}

impl Dpci {
    /// Cuts the data into tiles of 32 bytes.
    pub fn new(data: StBytes) -> (r: PyResult<Self>)
        ensures
            r matches Ok(d) && bytes_views(d.tiles@) == dpci_tiles(data@),
    {
        let d = data.as_slice();
        let n = d.len();
        let mut tiles: Vec<StBytes> = Vec::new();
        let mut start: usize = 0;
        while start < n
            invariant
                n == d@.len(),
                start <= n,
                start < n ==> start % 32 == 0,
                tiles@.len() == (start + 31) / 32,
                forall|k: int| 0 <= k < tiles@.len() ==> #[trigger] tiles@[k]@ == window(d@, 32 * k, 32),
            decreases n - start,
        {
            let end: usize = if n - start >= 32 { start + 32 } else { n };
            let part = crate::bytes::copy_range(d, start, end);
            proof {
                assert(part@ == window(d@, 32 * (tiles@.len() as int), 32));
            }
            tiles.push(StBytes(part));
            start = end;
        }
        assert(bytes_views(tiles@) =~= dpci_tiles(data@));
        Ok(Dpci { tiles })
    }

    /// Replaces the tiles; unless `contains_null_tile`, an all-zero tile is put first.
    pub fn import_tiles(&mut self, tiles: Vec<StBytes>, contains_null_tile: bool)
        ensures
            contains_null_tile ==> bytes_views(final(self).tiles@) == bytes_views(tiles@),
            !contains_null_tile ==> bytes_views(final(self).tiles@) == seq![
                Seq::new(32, |i: int| 0u8),
            ] + bytes_views(tiles@),
    {
        let mut tiles = tiles;
        if !contains_null_tile {
            let null_tile = crate::bytes::filled(0, DPCI_TILE_BYTES);
            tiles.insert(0, StBytes(null_tile));
            assert(bytes_views(tiles@) =~= seq![Seq::new(32, |i: int| 0u8)] + bytes_views(old(self).tiles@.take(0)) + bytes_views(tiles@).drop_first());
        }
        self.tiles = tiles;
    }
}

impl Dpci {
    /// All tiles side by side, `width_in_tiles` per row, in sub-palette `palette_index`; the
    /// image's palette is all `palettes` one after the other.
    pub fn tiles_to_pil(&self, palettes: Vec<Vec<u8>>, width_in_tiles: usize, palette_index: u8) -> (r: IndexedImage)
        requires
            width_in_tiles > 0,
            width_in_tiles * 8 <= usize::MAX,
            palette_index < 16,
            forall|k: int| 0 <= k < self.tiles@.len() ==> #[trigger] self.tiles@[k]@.len() <= 32,
            width_in_tiles * 8 * (tile_rows(self.tiles@.len() as int, width_in_tiles as int) * 8) <= usize::MAX,
        ensures
            r.0.1 == width_in_tiles * 8,
            r.0.2 == tile_rows(self.tiles@.len() as int, width_in_tiles as int) * 8,
            r.1@ == concat_all(vec_views(palettes@)),
            r.0.0@ == write_chunks(
                Seq::new((r.0.1 * r.0.2) as nat, |p: int| 0u8),
                dpci_entries(self.tiles@.len(), palette_index),
                tile_pixels(bytes_views(self.tiles@)),
                self.tiles@.len(),
                8,
                r.0.1 as int,
                1,
            ),
    {
        let n = self.tiles.len();
        let width: usize = width_in_tiles * 8;
        let rows: usize = if n == 0 { 0 } else { (n - 1) / width_in_tiles + 1 };
        proof {
            let wi = width_in_tiles as int;
            if n == 0 {
                assert(tile_rows(0, wi) == 0) by (nonlinear_arith)
                    requires wi > 0;
            } else {
                assert(tile_rows(n as int, wi) == (n - 1) / wi + 1) by (nonlinear_arith)
                    requires wi > 0, n >= 1;
            }
        }
        assert(rows * 8 <= usize::MAX) by (nonlinear_arith)
            requires
                width_in_tiles * 8 * (rows * 8) <= usize::MAX,
                width_in_tiles >= 1,
                rows >= 0;
        let height: usize = rows * 8;
        let mut entries: Vec<TilemapEntry> = Vec::new();
        let mut i: usize = 0;
        while i < n
            invariant
                i <= n,
                entries@ == dpci_entries(i as nat, palette_index),
            decreases n - i,
        {
            entries.push(TilemapEntry(i, false, false, palette_index));
            i = i + 1;
        }
        let pal = concat_vecs(palettes.as_slice());
        let tiledata = PixelGenerator::tiled4bpp(self.tiles.as_slice());
        let ghost tiles = streams(tiledata@);
        proof {
            assert(tiles =~= tile_pixels(bytes_views(self.tiles@)));
            assert forall|i: int| 0 <= i < entries@.len() implies {
                let e = #[trigger] entries@[i];
                let s = t2n_stream(tiles, e);
                &&& s.len() <= 8 * 8
                &&& 16 * e.3 <= 255
                &&& crate::image::tiled::t2n_tile_x(i, 8, width as int, 1) * 8 + 8 <= width
                &&& crate::image::tiled::t2n_tile_y(i, 8, width as int, 1) * 8 + 8 <= height
                &&& forall|k: int| 0 <= k < s.len() ==> 16 * e.3 + #[trigger] s[k] <= 255
            } by {
                let e = entries@[i];
                assert(e == TilemapEntry(i as usize, false, false, palette_index));
                let s = t2n_stream(tiles, e);
                assert(s == nibbles(self.tiles@[i]@));
                lemma_nibbles_len(self.tiles@[i]@);
                lemma_nibbles_small(self.tiles@[i]@);
                assert((width as int / 8) / 1 == width_in_tiles);
                assert(i / 1 == i && i % 1 == 0 && (i / 1) % 1 == 0 && (i / (1int * 1int)) == i) by (nonlinear_arith)
                    requires i >= 0;
                lemma_grid_fits(i, n as int, width_in_tiles as int);
            }
            assert(t2n_ok(entries@, tiles, 8, width as int, height as int, 1));
        }
        let res = TiledImage::tiled_to_native(entries.as_slice(), tiledata.as_slice(), pal.as_slice(), 8, width, height, 1);
        match res {
            Ok(img) => img,
            Err(_) => {
                proof {
                    assert(false);
                }
                IndexedImage(Raster::new(0, 0), StBytes(Vec::new()))
            },
        }
    }

    /// Replaces the tiles with those of an image, as `TiledImage::native_to_tiled_seq` cuts them.
    pub fn pil_to_tiles(&mut self, image: IndexedImage, py: Python) -> (r: PyResult<()>)
        requires
            nt_ok(image.0.0@.len() as int, image.0.1 as int, image.0.2 as int, 8, 1, 16, 0),
            image.1@.len() >= 48,
        ensures
            ({
                let (w, h) = (image.0.1 as int, image.0.2 as int);
                let n = ((w * h) / 8 / 8) as nat;
                let st = nt_run(image.0.0@, image.0.0@.len(), n, 0, 16, 8, w, 1);
                let ft = dedup(st, 8, n).0;
                &&& (ft.len() > 1024 <==> r is Err)
                &&& (r is Ok ==> bytes_views(final(self).tiles@) == ft)
                &&& (r is Err ==> bytes_views(final(self).tiles@) == bytes_views(old(self).tiles@))
            }),
    {
        let w = image.0.1;
        let h = image.0.2;
        match TiledImage::native_to_tiled_seq(image, DPCI_TILE_DIM, w, h) {
            Ok((tiles, _pal)) => {
                let mut out: Vec<StBytes> = Vec::new();
                let mut i: usize = 0;
                while i < tiles.len()
                    invariant
                        i <= tiles@.len(),
                        out@.len() == i,
                        forall|k: int| 0 <= k < i ==> #[trigger] out@[k]@ == tiles@[k]@,
                    decreases tiles@.len() - i,
                {
                    out.push(StBytes(tiles[i].clone()));
                    i = i + 1;
                }
                assert(bytes_views(out@) =~= Seq::new(tiles@.len(), |j: int| tiles@[j]@));
                self.tiles = out;
                Ok(())
            },
            Err(e) => Err(e),
        }
    }
}

/// Writes DPCI models.
pub struct DpciWriter;

impl DpciWriter {
    pub fn new() -> (r: Self) {
        DpciWriter
    }

    /// The tiles one after the other.
    pub fn write(&self, model: Py<Dpci>, py: Python) -> (r: PyResult<StBytes>)
        ensures
            r matches Ok(b) && b@ == concat_all(bytes_views(model.0.tiles@)),
    {
        let model = &model.0;
        let mut out: Vec<u8> = Vec::new();
        let mut i: usize = 0;
        while i < model.tiles.len()
            invariant
                i <= model.tiles@.len(),
                out@ == concat_all(bytes_views(model.tiles@).take(i as int)),
            decreases model.tiles@.len() - i,
        {
            proof {
                let t = bytes_views(model.tiles@);
                assert(t.take(i as int + 1).drop_last() == t.take(i as int));
            }
            crate::bytes::push_all(&mut out, model.tiles[i].as_slice());
            i = i + 1;
        }
        assert(bytes_views(model.tiles@).take(model.tiles@.len() as int) == bytes_views(model.tiles@));
        Ok(StBytes(out))
    }
}

/// Something that holds DPCI tiles.
pub trait DpciProvider {
    spec fn tiles_view(&self) -> Seq<Seq<u8>>;

    fn get_tiles(&self, py: Python) -> (r: PyResult<Vec<StBytes>>)
        ensures
            r matches Ok(t) && bytes_views(t@) == self.tiles_view(),
    ;

    fn do_import_tiles(&mut self, tiles: Vec<StBytes>, contains_null_tile: bool, py: Python) -> (r: PyResult<()>)
        ensures
            r is Ok,
            contains_null_tile ==> final(self).tiles_view() == bytes_views(tiles@),
            !contains_null_tile ==> final(self).tiles_view() == seq![Seq::new(32, |i: int| 0u8)] + bytes_views(tiles@),
    ;
}

impl DpciProvider for Dpci {
    open spec fn tiles_view(&self) -> Seq<Seq<u8>> {
        bytes_views(self.tiles@)
    }

    fn get_tiles(&self, py: Python) -> (r: PyResult<Vec<StBytes>>) {
        let mut out: Vec<StBytes> = Vec::new();
        let mut i: usize = 0;
        while i < self.tiles.len()
            invariant
                i <= self.tiles@.len(),
                out@.len() == i,
                forall|k: int| 0 <= k < i ==> #[trigger] out@[k]@ == self.tiles@[k]@,
            decreases self.tiles@.len() - i,
        {
            out.push(self.tiles[i].clone());
            i = i + 1;
        }
        assert(bytes_views(out@) =~= bytes_views(self.tiles@));
        Ok(out)
    }

    fn do_import_tiles(&mut self, tiles: Vec<StBytes>, contains_null_tile: bool, py: Python) -> (r: PyResult<()>) {
        self.import_tiles(tiles, contains_null_tile);
        Ok(())
    }
}

/// A DPCI model handed in by a caller.
pub struct InputDpci(pub Dpci);

impl InputDpci {
    /// The model inside.
    pub fn into_dpci(self) -> (r: Dpci)
        ensures
            r == self.0,
    {
        self.0
    }
}


/// Buffers of `w` bytes one after the other: `w` bytes each, in order.
pub proof fn lemma_concat_fixed(t: Seq<Seq<u8>>, n: nat, w: nat)
    requires
        n <= t.len(),
        forall|k: int| 0 <= k < t.len() ==> (#[trigger] t[k]).len() == w,
    ensures
        concat_all(t.take(n as int)).len() == w * n,
        forall|k: int| 0 <= k < n ==> #[trigger] concat_all(t.take(n as int)).subrange(w * k, w * k + w) == t[k],
    decreases n,
{
    if n > 0 {
        lemma_concat_fixed(t, (n - 1) as nat, w);
        let p = t.take(n - 1);
        assert(t.take(n as int).drop_last() =~= p);
        let c = concat_all(t.take(n as int));
        assert(c == concat_all(p) + t[n - 1]);
        assert(w * n == w * (n - 1) + w) by (nonlinear_arith);
        assert forall|k: int| 0 <= k < n implies #[trigger] c.subrange(w * k, w * k + w) == t[k] by {
            if k < n - 1 {
                assert(w * k + w <= w * (n - 1)) by (nonlinear_arith)
                    requires
                        k < n - 1,
                        0 <= k,
                ;
                assert(c.subrange(w * k, w * k + w) =~= concat_all(p).subrange(w * k, w * k + w));
            } else {
                assert(c.subrange(w * k, w * k + w) =~= t[k]);
            }
        }
    }
}

} // verus!
