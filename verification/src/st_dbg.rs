//! DBG: a dungeon background, 32x32 chunks given by their index in the DPC.
use crate::bytes::le16;
use crate::bytes::u16_le_bytes;
use crate::bytes::StBytes;
use crate::image::crop_rows;
use crate::image::paste_rows;
use crate::bytes::StU8List;
use crate::image::tiled::chunk_search;
use crate::image::tiled::lemma_chunk_search_bound;
use crate::image::tiled::dedup;
use crate::image::tiled::lemma_dedup_bound;
use crate::image::tiled::nt_ok;
use crate::image::tiled::nt_run;
use crate::image::tiled::t2n_ok;
use crate::image::tiled::TiledImage;
use crate::image::tilemap_entry::InputTilemapEntry;
use crate::image::tilemap_entry::TilemapEntry;
use crate::python::create_value_user_error;
use crate::st_dpc::group9;
use crate::st_dpc::group_chunks;
use crate::st_dpc::imported_chunks;
use crate::st_dpc::input_views;
use crate::st_dpc::padded;
use crate::st_dpc::pal_chunks;
use crate::st_dpci::DpciProvider;
use crate::st_dpl::u8_lists;
use crate::st_dpl::DplProvider;
use crate::st_dpl::InputDpl;
use crate::image::IndexedImage;
use crate::image::Raster;
use crate::no_python::Py;
use crate::no_python::Python;
use crate::python::PyResult;
use crate::st_dpc::flat_entries;
use crate::st_dpc::DpcProvider;
use crate::st_dpc::InputDpc;
use crate::st_dpci::bytes_views;
use crate::st_dpci::tile_pixels;
use crate::st_dpci::tile_rows;
use crate::st_dpci::InputDpci;
use vstd::prelude::*;

verus! {

pub const DBG_TILING_DIM: usize = 3;

pub const DBG_CHUNK_WIDTH: usize = 24;

pub const DBG_WIDTH_AND_HEIGHT: usize = 32;

/// Width and height of the whole background in pixels.
pub const DBG_PIXELS: usize = 768;

/// The chunk indices that DBG data holds: one per 16-bit little-endian value.
pub open spec fn dbg_mappings(data: Seq<u8>) -> Seq<u16> {
    Seq::new(data.len() / 2, |k: int| le16(data, 2 * k) as u16)
}

/// The DBG bytes of chunk indices.
pub open spec fn dbg_bytes(m: Seq<u16>) -> Seq<u8>
    decreases m.len(),
{
    if m.len() == 0 {
        Seq::<u8>::empty()
    } else {
        dbg_bytes(m.drop_last()) + u16_le_bytes(m.last())
    }
}

/// The background after placing the first `k` chunks: the chunk with index `m[i]` (rows
/// `24 * m[i]` on of the one chunk wide image `chunks`) is pasted at column `i % 32`, row `i / 32`.
pub open spec fn dbg_render(base: Seq<u8>, chunks: Seq<u8>, m: Seq<u16>, k: nat) -> Seq<u8>
    decreases k,
{
    if k == 0 {
        base
    } else {
        let i = k - 1;
        paste_rows(
            dbg_render(base, chunks, m, (k - 1) as nat),
            768,
            (i / 32) * 24 * 768,
            crop_rows(chunks, 24, m[i] * 24 * 24, 0, 24, 24),
            24,
            0,
            (i % 32) * 24,
            24,
            false,
            false,
        )
    }
}

/// After the first `k` chunks of an imported image: the entries of the distinct chunks one after
/// the other, the chunk index of each chunk (one more than the position of the first equal
/// distinct chunk), and the index the next new chunk gets.
pub open spec fn dbg_chunk_state(cs: Seq<Seq<TilemapEntry>>, k: nat) -> (Seq<TilemapEntry>, Seq<u16>, int)
    decreases k,
{
    if k == 0 {
        (Seq::<TilemapEntry>::empty(), Seq::<u16>::empty(), 1)
    } else {
        let (tm, maps, cnt) = dbg_chunk_state(cs, (k - 1) as nat);
        match chunk_search(cs[k - 1], tm, 0) {
            Some(c) => (tm, maps.push((c + 1) as u16), cnt),
            None => (tm + cs[k - 1], maps.push(cnt as u16), cnt + 1),
        }
    }
}

proof fn lemma_dbg_chunk_state(cs: Seq<Seq<TilemapEntry>>, k: nat, bound: int)
    requires
        k <= cs.len(),
        forall|i: int, j: int| 0 <= i < cs.len() && 0 <= j < cs[i].len() ==> #[trigger] cs[i][j].0 < bound,
    ensures
        1 <= dbg_chunk_state(cs, k).2 <= k + 1,
        dbg_chunk_state(cs, k).1.len() == k,
        forall|j: int| 0 <= j < dbg_chunk_state(cs, k).0.len() ==> #[trigger] dbg_chunk_state(cs, k).0[j].0 < bound,
    decreases k,
{
    if k > 0 {
        lemma_dbg_chunk_state(cs, (k - 1) as nat, bound);
        let (tm, maps, cnt) = dbg_chunk_state(cs, (k - 1) as nat);
        let r = dbg_chunk_state(cs, k);
        assert forall|j: int| 0 <= j < r.0.len() implies #[trigger] r.0[j].0 < bound by {
            if j >= tm.len() {
                assert(r.0[j] == cs[k - 1][j - tm.len()]);
            }
        }
    }
}

/// The entries `es[start..end]`.
fn entries_range(es: &[TilemapEntry], start: usize, end: usize) -> (r: Vec<TilemapEntry>)
    requires
        start <= end <= es@.len(),
    ensures
        r@ == es@.subrange(start as int, end as int),
{
    let mut out: Vec<TilemapEntry> = Vec::new();
    let mut i = start;
    while i < end
        invariant
            start <= i <= end <= es@.len(),
            out@ == es@.subrange(start as int, i as int),
        decreases end - i,
    {
        out.push(es[i]);
        i = i + 1;
        assert(out@ =~= es@.subrange(start as int, i as int));
    }
    out
}

/// A DBG file: the chunk index of every position.
pub struct Dbg {
    pub mappings: Vec<u16>,
}

impl Dbg {
    /// Reads the chunk indices.
    pub fn new(data: StBytes) -> (r: PyResult<Self>)
        ensures
            r matches Ok(d) && d.mappings@ == dbg_mappings(data@),
    {
        let d = data.as_slice();
        let n = d.len();
        let m: usize = n / 2;
        let mut mappings: Vec<u16> = Vec::new();
        let mut k: usize = 0;
        while k < m
            invariant
                n == d@.len(),
                m == n / 2,
                k <= m,
                mappings@ == dbg_mappings(d@).take(k as int),
            decreases m - k,
        {
            mappings.push(crate::bytes::read_u16_le(d, 2 * k));
            k = k + 1;
            assert(mappings@ =~= dbg_mappings(d@).take(k as int));
        }
        assert(dbg_mappings(d@).take(m as int) == dbg_mappings(d@));
        Ok(Dbg { mappings })
    }

    /// Places the chunk with index `chunk_index` at (`x`, `y`).
    pub fn place_chunk(&mut self, x: usize, y: usize, chunk_index: u16)
        requires
            y * 32 + x < old(self).mappings@.len(),
        ensures
            final(self).mappings@ == old(self).mappings@.update(y * 32 + x, chunk_index),
    {
        let n = self.mappings.len();
        let dbg_index: usize = y * DBG_WIDTH_AND_HEIGHT + x;
        self.mappings.set(dbg_index, chunk_index);
    }

    /// The background as one 768x768 image, each chunk cut from the DPC's chunk image.
    pub fn to_pil(&self, dpc: InputDpc, dpci: InputDpci, palettes: Vec<Vec<u8>>, py: Python) -> (r: PyResult<IndexedImage>)
        requires
            t2n_ok(
                flat_entries(dpc.0.chunks_view()),
                tile_pixels(bytes_views(dpci.0.tiles@)),
                8,
                24,
                tile_rows(dpc.0.chunks_view().len() as int, 1) * 24,
                3,
            ),
        ensures
            r matches Ok(img) && img.0.1 == 768 && img.0.2 == 768 && img.1@ == crate::st_dpci::concat_all(
                crate::st_dpci::vec_views(palettes@),
            ) && img.0.0@ == dbg_render(
                Seq::new(768 * 768, |p: int| 0u8),
                crate::image::tiled::write_chunks(
                    Seq::new((24 * (tile_rows(dpc.0.chunks_view().len() as int, 1) * 24)) as nat, |p: int| 0u8),
                    flat_entries(dpc.0.chunks_view()),
                    tile_pixels(bytes_views(dpci.0.tiles@)),
                    flat_entries(dpc.0.chunks_view()).len(),
                    8,
                    24,
                    3,
                ),
                self.mappings@,
                self.mappings@.len(),
            ),
    {
        let chunks = match dpc.0.do_chunks_to_pil(dpci, palettes, 1, py) {
            Ok(c) => c,
            Err(e) => return Err(e),
        };
        let ghost cdata = chunks.0.0@;
        let mut raster = Raster::new(DBG_PIXELS, DBG_PIXELS);
        let n = self.mappings.len();
        let mut i: usize = 0;
        while i < n
            invariant
                i <= n,
                n == self.mappings@.len(),
                raster.1 == 768,
                raster.2 == 768,
                chunks.0.1 == 24,
                cdata == chunks.0.0@,
                raster.0@ == dbg_render(Seq::new(768 * 768, |p: int| 0u8), cdata, self.mappings@, i as nat),
            decreases n - i,
        {
            let x: usize = i % DBG_WIDTH_AND_HEIGHT;
            let y: usize = i / DBG_WIDTH_AND_HEIGHT;
            let mt: usize = self.mappings[i] as usize;
            let part = chunks.0.crop(0, mt * DBG_CHUNK_WIDTH, DBG_CHUNK_WIDTH, DBG_CHUNK_WIDTH);
            assert(y * 24 <= i) by (nonlinear_arith)
                requires y == i / 32;
            assert(x * 24 < 768) by (nonlinear_arith)
                requires x == i % 32;
            raster.paste(part, x * DBG_CHUNK_WIDTH, y * DBG_CHUNK_WIDTH);
            proof {
                assert((mt * 24) * 24 == self.mappings@[i as int] * 24 * 24);
                assert((y * 24) * 768 == (i / 32) * 24 * 768);
            }
            i = i + 1;
        }
        Ok(IndexedImage(raster, chunks.1))
    }
}

impl Dbg {
    /// Imports a whole 768x768 background: its tiles go to the DPCI (behind an empty tile), its
    /// distinct chunks to the DPC (behind an empty chunk, tile indices raised by one, filled up to
    /// 400), the chunk of each position to this DBG and its first 12 palettes to the DPL. Fails
    /// where the image is not 768x768, where more than 1024 tiles remain (both changing nothing),
    /// or where there are more than 400 chunks (after the DPCI and DPC were changed).
    pub fn from_pil(
        &mut self,
        dpc: &mut InputDpc,
        dpci: &mut InputDpci,
        dpl: &mut InputDpl,
        img: IndexedImage,
        force_import: bool,
        py: Python,
    ) -> (r: PyResult<()>)
        requires
            img.0.1 == 768 && img.0.2 == 768 ==> nt_ok(img.0.0@.len() as int, 768, 768, 8, 3, 16, 0),
        ensures
            ({
                let st = nt_run(img.0.0@, img.0.0@.len(), 9216, 0, 16, 8, 768, 3);
                let (ft, fs, es) = dedup(st, 8, 9216);
                let cs = group9(es);
                let (tm, maps, cnt) = dbg_chunk_state(cs, cs.len());
                let full = imported_chunks(group9(tm), false, true);
                &&& (img.0.1 != 768 || img.0.2 != 768 || ft.len() > 1024 ==> r is Err && *final(self) == *old(self)
                    && *final(dpc) == *old(dpc) && *final(dpci) == *old(dpci) && *final(dpl) == *old(dpl))
                &&& (img.0.1 == 768 && img.0.2 == 768 && ft.len() <= 1024 ==> {
                    &&& final(dpci).0.tiles_view() == seq![Seq::new(32, |i: int| 0u8)] + ft
                    &&& (full.len() > 400 <==> r is Err)
                    &&& (r is Err ==> final(dpc).0.chunks_view() == full && *final(self) == *old(self) && *final(dpl) == *old(dpl))
                    &&& (r is Ok ==> final(dpc).0.chunks_view() == padded(full) && final(self).mappings@ == maps
                        && final(dpl).palettes_view() == pal_chunks(img.1@))
                })
            }),
    {
        if img.0.1 != DBG_PIXELS {
            return Err(create_value_user_error(
                "Can not import map background: Width of image must match the expected width: 768px",
            ));
        }
        if img.0.2 != DBG_PIXELS {
            return Err(create_value_user_error(
                "Can not import map background: Height of image must match the expected height: 768px",
            ));
        }
        let ghost pixels = img.0.0@;
        let ghost palette = img.1@;
        let ghost st = nt_run(pixels, pixels.len(), 9216, 0, 16, 8, 768, 3);
        assert((768 * 768) / 8 / 8 == 9216);
        let (tiles, pal, tilemap) = match TiledImage::native_to_tiled(img, 16, 8, DBG_PIXELS, DBG_PIXELS, DBG_TILING_DIM, 0) {
            Ok(t) => t,
            Err(e) => return Err(e),
        };
        let ghost ft = dedup(st, 8, 9216).0;
        let ghost es = tilemap@;
        proof {
            lemma_dedup_bound(st, 8, 9216);
            assert(es == dedup(st, 8, 9216).2);
        }
        // The palettes: 16 colors each, at most 12.
        let mut pals: Vec<StU8List> = Vec::new();
        let pn = pal.len();
        let mut c: usize = 0;
        while c < 12 && 48 * c < pn
            invariant
                pn == pal@.len(),
                c <= 12,
                u8_lists(pals@) == pal_chunks(pal@).take(c as int),
                c < pal_chunks(pal@).len() ==> 48 * c < pn,
                c <= pal_chunks(pal@).len(),
            decreases 12 - c,
        {
            let start: usize = 48 * c;
            let end: usize = if pn - start >= 48 { start + 48 } else { pn };
            let part = crate::bytes::copy_range(pal.as_slice(), start, end);
            let ghost p0 = pals@;
            pals.push(StU8List(part));
            proof {
                assert(part@ == crate::image::window(pal@, 48 * c, 48));
                assert(u8_lists(pals@) =~= u8_lists(p0).push(part@));
                assert(pal_chunks(pal@).take(c as int + 1) =~= pal_chunks(pal@).take(c as int).push(
                    crate::image::window(pal@, 48 * c, 48),
                ));
            }
            c = c + 1;
        }
        assert(pal_chunks(pal@).take(c as int) == pal_chunks(pal@));
        // The tiles.
        let mut tile_bytes: Vec<StBytes> = Vec::new();
        let mut i: usize = 0;
        while i < tiles.len()
            invariant
                i <= tiles@.len(),
                tile_bytes@.len() == i,
                forall|k: int| 0 <= k < i ==> #[trigger] tile_bytes@[k]@ == tiles@[k]@,
            decreases tiles@.len() - i,
        {
            tile_bytes.push(StBytes(tiles[i].clone()));
            i = i + 1;
        }
        assert(bytes_views(tile_bytes@) =~= Seq::new(tiles@.len(), |k: int| tiles@[k]@));
        match dpci.0.do_import_tiles(tile_bytes, false, py) {
            Ok(()) => {},
            Err(e) => return Err(e),
        }
        // The distinct chunks and the chunk of each position.
        let ghost cs = group9(es);
        let total = tilemap.len();
        proof {
            lemma_dbg_chunk_state(cs, cs.len(), ft.len() as int);
            assert forall|a: int, b: int| 0 <= a < cs.len() && 0 <= b < cs[a].len() implies #[trigger] cs[a][b].0 < ft.len() by {
                assert(cs[a][b] == es[9 * a + b]);
            }
        }
        let mut tm: Vec<TilemapEntry> = Vec::new();
        let mut maps: Vec<u16> = Vec::new();
        let mut counter: u16 = 1;
        let mut k: usize = 0;
        let mut pos: usize = 0;
        while pos < total
            invariant
                total == es.len(),
                total == 9216,
                cs == group9(es),
                pos <= total,
                pos < total ==> pos == 9 * k,
                k == (pos + 8) / 9,
                k <= cs.len(),
                (tm@, maps@, counter as int) == dbg_chunk_state(cs, k as nat),
                forall|a: int, b: int| 0 <= a < cs.len() && 0 <= b < cs[a].len() ==> #[trigger] cs[a][b].0 < ft.len(),
                es == tilemap@,
            decreases total - pos,
        {
            let end: usize = if total - pos >= 9 { pos + 9 } else { total };
            let chunk = entries_range(tilemap.as_slice(), pos, end);
            assert(chunk@ == cs[k as int]);
            proof {
                lemma_dbg_chunk_state(cs, k as nat, ft.len() as int);
                lemma_dbg_chunk_state(cs, (k + 1) as nat, ft.len() as int);
            }
            let tn = tm.len();
            match TiledImage::search_for_chunk(chunk.as_slice(), tm.as_slice()) {
                Some(start) => {
                    proof {
                        lemma_chunk_search_bound(chunk@, tm@, 0);
                        assert((start + 1) * chunk@.len() >= start + 1) by (nonlinear_arith)
                            requires chunk@.len() >= 1;
                    }
                    let idx: usize = start + 1;
                    maps.push(#[verifier::truncate] (idx as u16));
                },
                None => {
                    let mut j: usize = 0;
                    let ghost tm0 = tm@;
                    while j < chunk.len()
                        invariant
                            j <= chunk@.len(),
                            tm@ == tm0 + chunk@.take(j as int),
                        decreases chunk@.len() - j,
                    {
                        tm.push(chunk[j]);
                        j = j + 1;
                        assert(tm@ =~= tm0 + chunk@.take(j as int));
                    }
                    assert(chunk@.take(chunk@.len() as int) == chunk@);
                    maps.push(counter);
                    counter = counter + 1;
                },
            }
            k = k + 1;
            pos = end;
        }
        proof {
            assert(k == cs.len());
            lemma_dbg_chunk_state(cs, cs.len(), ft.len() as int);
            assert(tm@ == dbg_chunk_state(cs, cs.len()).0);
            assert forall|j: int| 0 <= j < tm@.len() implies #[trigger] tm@[j].0 < ft.len() by {
                assert(dbg_chunk_state(cs, cs.len()).0[j].0 < ft.len());
            }
            assert(ft.len() <= 9216);
        }
        let groups = group_chunks(tm.as_slice());
        let mut mappings: Vec<Vec<InputTilemapEntry>> = Vec::new();
        let mut g: usize = 0;
        while g < groups.len()
            invariant
                g <= groups@.len(),
                input_views(mappings@) == crate::st_dpc::chunk_views(groups@).take(g as int),
            decreases groups@.len() - g,
        {
            let src = &groups[g];
            let mut out: Vec<InputTilemapEntry> = Vec::new();
            let mut j: usize = 0;
            while j < src.len()
                invariant
                    j <= src@.len(),
                    out@.len() == j,
                    forall|q: int| 0 <= q < j ==> #[trigger] out@[q].0 == src@[q].0,
                decreases src@.len() - j,
            {
                out.push(InputTilemapEntry(src[j].0));
                j = j + 1;
            }
            assert(Seq::new(out@.len(), |q: int| out@[q].0) =~= crate::st_dpc::entry_views(src@));
            let ghost m0 = mappings@;
            mappings.push(out);
            proof {
                assert(input_views(mappings@) =~= input_views(m0).push(crate::st_dpc::entry_views(src@)));
                assert(crate::st_dpc::chunk_views(groups@).take(g as int + 1) =~= crate::st_dpc::chunk_views(groups@).take(
                    g as int,
                ).push(crate::st_dpc::entry_views(src@)));
            }
            g = g + 1;
        }
        assert(crate::st_dpc::chunk_views(groups@).take(groups@.len() as int) == group9(tm@));
        proof {
            let gs = group9(tm@);
            assert(input_views(mappings@) == gs);
            assert forall|a: int, b: int| 0 <= a < mappings@.len() && 0 <= b < mappings@[a]@.len() implies #[trigger] mappings@[a]@[b].0.0 < usize::MAX by {
                assert(a < gs.len());
                assert(input_views(mappings@)[a].len() == mappings@[a]@.len());
                assert(input_views(mappings@)[a][b] == mappings@[a]@[b].0);
                assert(gs[a][b] == tm@[9 * a + b]);
                assert(tm@[9 * a + b].0 < ft.len());
            }
        }
        match dpc.0.do_import_tile_mappings(mappings, false, true, py) {
            Ok(()) => {},
            Err(e) => return Err(e),
        }
        self.mappings = maps;
        dpl.set_palettes(pals, py)
    }
}

/// Writes DBG models.
pub struct DbgWriter;

impl DbgWriter {
    pub fn new() -> (r: Self) {
        DbgWriter
    }

    /// The chunk indices, 16-bit little-endian each.
    pub fn write(&self, model: Py<Dbg>, py: Python) -> (r: PyResult<StBytes>)
        ensures
            r matches Ok(b) && b@ == dbg_bytes(model.0.mappings@),
    {
        let m = &model.0.mappings;
        let mut out: Vec<u8> = Vec::new();
        let mut i: usize = 0;
        while i < m.len()
            invariant
                i <= m@.len(),
                out@ == dbg_bytes(m@.take(i as int)),
            decreases m@.len() - i,
        {
            proof {
                assert(m@.take(i as int + 1).drop_last() == m@.take(i as int));
            }
            crate::bytes::push_u16_le(&mut out, m[i]);
            i = i + 1;
        }
        assert(m@.take(m@.len() as int) == m@);
        Ok(StBytes(out))
    }
}

/// Writing the chunk indices read from DBG data gives the data back, for data of whole values.
pub proof fn lemma_dbg_roundtrip(data: Seq<u8>)
    requires
        data.len() % 2 == 0,
    ensures
        dbg_bytes(dbg_mappings(data)) == data,
    decreases data.len(),
{
    if data.len() > 0 {
        let n = data.len() as int;
        let prefix = data.take(n - 2);
        lemma_dbg_roundtrip(prefix);
        assert(dbg_mappings(data).drop_last() =~= dbg_mappings(prefix));
        let a = data[n - 2];
        let b = data[n - 1];
        let v = dbg_mappings(data).last();
        assert(v == a + b * 256);
        assert(u16_le_bytes(v) == seq![a, b]);
        assert(data =~= prefix + seq![a, b]);
    }
}

} // verus!
