//! BGP: a 256x192 background image: palettes, a tile map and 4bpp tiles behind a header.
use crate::bytes::le32;
use crate::bytes::u16_le_bytes;
use crate::bytes::u32_le_bytes;
use crate::bytes::StBytes;
use crate::image::window;
use crate::no_python::Py;
use crate::no_python::Python;
use crate::python::PyResult;
use crate::st_dpc::dpc_entries;
use crate::st_dpc::entry_views;
use crate::st_dpci::bytes_views;
use crate::st_dpci::dpci_tiles;
use crate::st_dpci::Dpci;
use crate::st_dpla::rgb_of;
use crate::image::tilemap_entry::tilemap_entry_int;
use crate::image::tilemap_entry::TilemapEntry;
use crate::image::tiled::dedup;
use crate::image::tiled::lemma_dedup_bound;
use crate::image::tiled::nt_ok;
use crate::image::tiled::nt_run;
use crate::image::tiled::streams;
use crate::image::tiled::t2n_ok;
use crate::image::tiled::write_chunks;
use crate::image::tiled::TiledImage;
use crate::image::IndexedImage;
use crate::image::PixelGenerator;
use crate::python::exceptions::PyValueError;
use crate::st_dpc::dpc_bytes;
use crate::st_dpc::null_entry;
use crate::st_dpci::concat_all;
use crate::st_dpci::concat_vecs;
use crate::st_dpci::tile_pixels;
use crate::st_dpci::vec_views;
use vstd::prelude::*;

verus! {

pub const BGP_RES_WIDTH: usize = 256;

pub const BGP_RES_HEIGHT: usize = 192;

pub const BGP_HEADER_LENGTH: u32 = 32;

pub const BGP_PAL_ENTRY_LEN: u8 = 4;

pub const BGP_PAL_UNKNOWN4_COLOR_VAL: u8 = 0x80;

pub const BGP_PAL_NUMBER_COLORS: usize = 16;

pub const BGP_MAX_PAL: u8 = 16;

pub const BGP_TILEMAP_ENTRY_BYTELEN: usize = 2;

pub const BGP_PIXEL_BITLEN: u8 = 4;

pub const BGP_TILE_DIM: usize = 8;

pub const BGP_RES_WIDTH_IN_TILES: usize = 32;

pub const BGP_RES_HEIGHT_IN_TILES: usize = 24;

pub const BGP_TOTAL_NUMBER_TILES: usize = 768;

pub const BGP_TOTAL_NUMBER_TILES_ACTUALLY: usize = 1024;

/// The `i`-th 32-bit value of the header.
pub open spec fn bgp_header(data: Seq<u8>, i: int) -> int {
    le32(data, 4 * i)
}

/// The palettes of BGP palette data: 64 bytes (16 colors of 4 bytes) each, of every color
/// its first 3 bytes.
pub open spec fn bgp_palettes(p: Seq<u8>) -> Seq<Seq<u8>> {
    Seq::new(
        ((p.len() + 63) / 64) as nat,
        |c: int| rgb_of(window(p, 64 * c, 64), ((window(p, 64 * c, 64).len() + 3) / 4) as nat),
    )
}

/// Where the data that a BGP header describes lies, and that reading it cannot fail.
pub open spec fn bgp_ok(data: Seq<u8>) -> bool {
    &&& data.len() >= 32
    &&& bgp_header(data, 0) + bgp_header(data, 1) <= data.len()
    &&& bgp_header(data, 4) + bgp_header(data, 5) <= data.len()
    &&& bgp_header(data, 2) <= data.len()
    &&& (bgp_header(data, 1) % 4 == 0 || bgp_header(data, 1) % 4 == 3)
    &&& bgp_header(data, 5) % 2 == 0
}

/// The views of a list of byte vectors.
pub open spec fn u8_vecs(v: Seq<Vec<u8>>) -> Seq<Seq<u8>> {
    Seq::new(v.len(), |i: int| v[i]@)
}

/// The first three bytes of every 4-byte color of `ch`.
fn strip_fourth(ch: &[u8]) -> (r: Vec<u8>)
    requires
        ch@.len() % 4 == 0 || ch@.len() % 4 == 3,
    ensures
        r@ == rgb_of(ch@, ((ch@.len() + 3) / 4) as nat),
{
    let n = ch.len();
    let groups: usize = if n % 4 == 0 { n / 4 } else { n / 4 + 1 };
    let mut out: Vec<u8> = Vec::new();
    let mut k: usize = 0;
    while k < groups
        invariant
            n == ch@.len(),
            n % 4 == 0 || n % 4 == 3,
            groups == (n + 3) / 4,
            k <= groups,
            out@ == rgb_of(ch@, k as nat),
        decreases groups - k,
    {
        let p = 4 * k;
        out.push(ch[p]);
        out.push(ch[p + 1]);
        out.push(ch[p + 2]);
        k = k + 1;
        assert(out@ =~= rgb_of(ch@, k as nat));
    }
    out
}

/// A BGP file: its palettes, tile map and tiles.
pub struct Bgp {
    pub palettes: Vec<Vec<u8>>,
    pub tilemap: Vec<Py<TilemapEntry>>,
    pub tiles: Vec<StBytes>,
    pub unknown1: u32,
    pub unknown2: u32,
}

impl Bgp {
    /// Reads BGP data as its header describes it.
    pub fn new(data: StBytes, py: Python) -> (r: PyResult<Self>)
        requires
            bgp_ok(data@),
        ensures
            r matches Ok(b) && ({
                let d = data@;
                let (pb, pl) = (bgp_header(d, 0), bgp_header(d, 1));
                let (tb, tl) = (bgp_header(d, 2), bgp_header(d, 3));
                let (mb, ml) = (bgp_header(d, 4), bgp_header(d, 5));
                let te = if tb + tl <= d.len() { tb + tl } else { d.len() as int };
                &&& u8_vecs(b.palettes@) == bgp_palettes(d.subrange(pb, pb + pl))
                &&& entry_views(b.tilemap@) == dpc_entries(d.subrange(mb, mb + ml))
                &&& bytes_views(b.tiles@) == dpci_tiles(d.subrange(tb, te))
                &&& b.unknown1 == bgp_header(d, 6) && b.unknown2 == bgp_header(d, 7)
            }),
    {
        let d = data.as_slice();
        let n = d.len();
        let pb = crate::bytes::read_u32_le(d, 0) as usize;
        let pl = crate::bytes::read_u32_le(d, 4) as usize;
        let tb = crate::bytes::read_u32_le(d, 8) as usize;
        let tl = crate::bytes::read_u32_le(d, 12) as usize;
        let mb = crate::bytes::read_u32_le(d, 16) as usize;
        let ml = crate::bytes::read_u32_le(d, 20) as usize;
        let unknown1 = crate::bytes::read_u32_le(d, 24);
        let unknown2 = crate::bytes::read_u32_le(d, 28);
        let pal_data = crate::bytes::copy_range(d, pb, pb + pl);
        let palettes = Self::extract_palette(pal_data.as_slice());
        let map_data = crate::bytes::copy_range(d, mb, mb + ml);
        let tilemap = Self::extract_tilemap(map_data.as_slice(), py);
        let te: usize = if n - tb >= tl { tb + tl } else { n };
        let tile_data = crate::bytes::copy_range(d, tb, te);
        let tiles = Self::extract_tiles(tile_data.as_slice());
        Ok(Bgp { palettes, tilemap, tiles, unknown1, unknown2 })
    }

    fn extract_palette(data: &[u8]) -> (r: Vec<Vec<u8>>)
        requires
            data@.len() % 4 == 0 || data@.len() % 4 == 3,
        ensures
            u8_vecs(r@) == bgp_palettes(data@),
    {
        let n = data.len();
        let mut palettes: Vec<Vec<u8>> = Vec::new();
        let mut start: usize = 0;
        while start < n
            invariant
                n == data@.len(),
                n % 4 == 0 || n % 4 == 3,
                start <= n,
                start < n ==> start % 64 == 0,
                palettes@.len() == (start + 63) / 64,
                forall|c: int| 0 <= c < palettes@.len() ==> #[trigger] palettes@[c]@ == bgp_palettes(data@)[c],
            decreases n - start,
        {
            let end: usize = if n - start >= 64 { start + 64 } else { n };
            let ch = crate::bytes::copy_range(data, start, end);
            assert(ch@ == window(data@, 64 * (palettes@.len() as int), 64));
            let p = strip_fourth(ch.as_slice());
            palettes.push(p);
            start = end;
        }
        assert(u8_vecs(palettes@) =~= bgp_palettes(data@));
        palettes
    }

    fn extract_tilemap(data: &[u8], py: Python) -> (r: Vec<Py<TilemapEntry>>)
        requires
            data@.len() % 2 == 0,
        ensures
            entry_views(r@) == dpc_entries(data@),
    {
        let n = data.len();
        let m: usize = n / 2;
        let mut tilemap: Vec<Py<TilemapEntry>> = Vec::new();
        let mut k: usize = 0;
        while k < m
            invariant
                n == data@.len(),
                m == n / 2,
                k <= m,
                entry_views(tilemap@) == dpc_entries(data@).take(k as int),
            decreases m - k,
        {
            let v = crate::bytes::read_u16_le(data, 2 * k);
            let e = TilemapEntry::from_int(v as usize);
            let ghost t0 = tilemap@;
            tilemap.push(Py(e));
            proof {
                crate::st_dpc::lemma_entry_views_push(t0, Py(e));
                assert(dpc_entries(data@).take(k as int + 1) =~= dpc_entries(data@).take(k as int).push(e));
            }
            k = k + 1;
        }
        assert(dpc_entries(data@).take(m as int) == dpc_entries(data@));
        tilemap
    }

    fn extract_tiles(data: &[u8]) -> (r: Vec<StBytes>)
        ensures
            bytes_views(r@) == dpci_tiles(data@),
    {
        let copy = crate::bytes::copy_range(data, 0, data.len());
        assert(data@.subrange(0, data@.len() as int) == data@);
        match Dpci::new(StBytes(copy)) {
            Ok(d) => d.tiles,
            Err(_) => {
                proof {
                    assert(false);
                }
                Vec::new()
            },
        }
    }
}

/// The tile map entries an image shows: at most the first 768.
pub open spec fn bgp_shown(es: Seq<TilemapEntry>) -> Seq<TilemapEntry> {
    if es.len() <= 768 {
        es
    } else {
        es.take(768)
    }
}

/// The 48-byte palettes of an imported image's palette.
pub open spec fn pal48(p: Seq<u8>) -> Seq<Seq<u8>> {
    Seq::new(((p.len() + 47) / 48) as nat, |c: int| window(p, 48 * c, 48))
}

/// An empty 4bpp tile.
pub open spec fn zero_tile() -> Seq<u8> {
    Seq::new(32, |i: int| 0u8)
}

/// The palette bytes a BGP stores for the palettes' colors one after the other: after every
/// three bytes (and after a shorter last group) the fixed fourth byte.
pub open spec fn bgp_pal_bytes(s: Seq<u8>, k: nat) -> Seq<u8>
    decreases k,
{
    if k == 0 {
        Seq::<u8>::empty()
    } else {
        bgp_pal_bytes(s, (k - 1) as nat) + window(s, 3 * (k - 1), 3) + seq![BGP_PAL_UNKNOWN4_COLOR_VAL]
    }
}

/// The BGP bytes of a model: the header, the palettes, the tile map and the tiles.
pub open spec fn bgp_bytes(pals: Seq<Seq<u8>>, es: Seq<TilemapEntry>, tiles: Seq<Seq<u8>>, u1: u32, u2: u32) -> Seq<u8> {
    let pl = pals.len() * 64;
    let ml = es.len() * 2;
    let tl = tiles.len() * 32;
    let flat = concat_all(pals);
    u32_le_bytes(32) + u32_le_bytes(pl as u32) + u32_le_bytes((32 + pl + ml) as u32) + u32_le_bytes(tl as u32)
        + u32_le_bytes((32 + pl) as u32) + u32_le_bytes(ml as u32) + u32_le_bytes(u1) + u32_le_bytes(u2)
        + bgp_pal_bytes(flat, ((flat.len() + 2) / 3) as nat) + dpc_bytes(es) + concat_all(tiles)
}

impl Bgp {
    /// The first 768 tile map entries placed over a 256x192 image, one tile per entry; the
    /// image's palette is all palettes one after the other.
    pub fn to_pil(&self, ignore_flip_bits: bool, py: Python) -> (r: PyResult<IndexedImage>)
        requires
            t2n_ok(bgp_shown(entry_views(self.tilemap@)), tile_pixels(bytes_views(self.tiles@)), 8, 256, 192, 1),
        ensures
            r matches Ok(img) && img.0.1 == 256 && img.0.2 == 192 && img.1@ == concat_all(vec_views(self.palettes@))
                && img.0.0@ == write_chunks(
                Seq::new(256 * 192, |p: int| 0u8),
                bgp_shown(entry_views(self.tilemap@)),
                tile_pixels(bytes_views(self.tiles@)),
                bgp_shown(entry_views(self.tilemap@)).len(),
                8,
                256,
                1,
            ),
    {
        let shown: usize = if self.tilemap.len() <= BGP_TOTAL_NUMBER_TILES { self.tilemap.len() } else { BGP_TOTAL_NUMBER_TILES };
        let mut entries: Vec<TilemapEntry> = Vec::new();
        let mut i: usize = 0;
        while i < shown
            invariant
                i <= shown,
                shown <= self.tilemap@.len(),
                entries@ == entry_views(self.tilemap@).take(i as int),
            decreases shown - i,
        {
            entries.push(self.tilemap[i].0);
            i = i + 1;
            assert(entries@ =~= entry_views(self.tilemap@).take(i as int));
        }
        assert(entries@ == bgp_shown(entry_views(self.tilemap@)));
        let tiledata = PixelGenerator::tiled4bpp(self.tiles.as_slice());
        assert(streams(tiledata@) =~= tile_pixels(bytes_views(self.tiles@)));
        let pal = concat_vecs(self.palettes.as_slice());
        TiledImage::tiled_to_native(entries.as_slice(), tiledata.as_slice(), pal.as_slice(), 8, 256, 192, 1)
    }

    /// Replaces tiles, tile map and palettes with those of a 256x192 image (see
    /// `TiledImage::native_to_tiled`): an empty tile first, the tile indices raised by one, tiles
    /// and entries filled up, the palettes cut into 16 colors each. Fails, changing nothing,
    /// where the image has another size or 1023 or more tiles remain.
    pub fn from_pil(&mut self, pil: IndexedImage, force_import: bool, py: Python) -> (r: PyResult<()>)
        requires
            pil.0.1 == 256 && pil.0.2 == 192 ==> nt_ok(pil.0.0@.len() as int, 256, 192, 8, 1, 16, 0),
        ensures
            ({
                let st = nt_run(pil.0.0@, pil.0.0@.len(), 768, 0, 16, 8, 256, 1);
                let (ft, fs, es) = dedup(st, 8, 768);
                let fill = (1024 - ft.len()) as nat;
                &&& (r is Err <==> (pil.0.1 != 256 || pil.0.2 != 192 || ft.len() >= 0x3FF))
                &&& (r is Err ==> *final(self) == *old(self))
                &&& (r is Ok ==> {
                    &&& bytes_views(final(self).tiles@) == seq![zero_tile()] + ft + Seq::new(fill, |i: int| zero_tile())
                    &&& entry_views(final(self).tilemap@) == Seq::new(es.len(), |j: int| TilemapEntry((es[j].0 + 1) as usize, es[j].1, es[j].2, es[j].3))
                        + Seq::new(fill, |i: int| null_entry())
                    &&& u8_vecs(final(self).palettes@) == pal48(pil.1@)
                    &&& final(self).unknown1 == old(self).unknown1
                    &&& final(self).unknown2 == old(self).unknown2
                })
            }),
    {
        let ghost pixels = pil.0.0@;
        let ghost st = nt_run(pixels, pixels.len(), 768, 0, 16, 8, 256, 1);
        assert((256 * 192) / 8 / 8 == 768);
        let (tiles, palettes, tilemap) = match TiledImage::native_to_tiled(pil, 16, 8, 256, 192, 1, 0) {
            Ok(t) => t,
            Err(e) => return Err(e),
        };
        let ghost ft = dedup(st, 8, 768).0;
        let ghost es = tilemap@;
        proof {
            lemma_dedup_bound(st, 8, 768);
        }
        let tiles_len = tiles.len();
        if tiles_len >= 0x3FF {
            return Err(PyValueError::new_err("Error when importing: max tile count reached."));
        }
        let fill: usize = BGP_TOTAL_NUMBER_TILES_ACTUALLY - tiles_len;
        // Tiles.
        let mut new_tiles: Vec<StBytes> = Vec::new();
        new_tiles.push(StBytes(crate::bytes::filled(0, 32)));
        let mut i: usize = 0;
        while i < tiles_len
            invariant
                i <= tiles_len,
                tiles_len == tiles@.len(),
                bytes_views(new_tiles@) == seq![zero_tile()] + Seq::new(i as nat, |k: int| tiles@[k]@),
            decreases tiles_len - i,
        {
            let t = crate::bytes::copy_range(tiles[i].as_slice(), 0, tiles[i].len());
            assert(tiles@[i as int]@.subrange(0, tiles@[i as int]@.len() as int) == tiles@[i as int]@);
            let ghost n0 = new_tiles@;
            let tb = StBytes(t);
            new_tiles.push(tb);
            proof {
                crate::st_dpci::lemma_bytes_views_push(n0, tb);
                assert(seq![zero_tile()] + Seq::new(i as nat + 1, |k: int| tiles@[k]@) =~= (seq![zero_tile()] + Seq::new(i as nat, |k: int| tiles@[k]@)).push(tiles@[i as int]@));
            }
            i = i + 1;
        }
        let mut f: usize = 0;
        let ghost base = bytes_views(new_tiles@);
        while f < fill
            invariant
                f <= fill,
                bytes_views(new_tiles@) == base + Seq::new(f as nat, |k: int| zero_tile()),
            decreases fill - f,
        {
            let ghost n0 = new_tiles@;
            let tb = StBytes(crate::bytes::filled(0, 32));
            new_tiles.push(tb);
            proof {
                crate::st_dpci::lemma_bytes_views_push(n0, tb);
                assert(tb@ == zero_tile());
                assert(base + Seq::new(f as nat + 1, |k: int| zero_tile()) =~= (base + Seq::new(f as nat, |k: int| zero_tile())).push(zero_tile()));
            }
            f = f + 1;
        }
        assert(Seq::new(tiles_len as nat, |k: int| tiles@[k]@) == ft);
        // Tile map.
        let mut new_map: Vec<Py<TilemapEntry>> = Vec::new();
        let mut j: usize = 0;
        while j < tilemap.len()
            invariant
                j <= tilemap@.len(),
                es == tilemap@,
                es.len() == 768,
                forall|q: int| 0 <= q < 768 ==> #[trigger] es[q].0 < ft.len(),
                ft.len() <= 768,
                entry_views(new_map@) == Seq::new(j as nat, |q: int| TilemapEntry((es[q].0 + 1) as usize, es[q].1, es[q].2, es[q].3)),
            decreases tilemap@.len() - j,
        {
            let e = tilemap[j];
            let e2 = TilemapEntry(e.0 + 1, e.1, e.2, e.3);
            let ghost n0 = new_map@;
            new_map.push(Py(e2));
            proof {
                crate::st_dpc::lemma_entry_views_push(n0, Py(e2));
                assert(Seq::new(j as nat + 1, |q: int| TilemapEntry((es[q].0 + 1) as usize, es[q].1, es[q].2, es[q].3)) =~= Seq::new(j as nat, |q: int| TilemapEntry((es[q].0 + 1) as usize, es[q].1, es[q].2, es[q].3)).push(e2));
            }
            j = j + 1;
        }
        let mut g: usize = 0;
        let ghost mbase = entry_views(new_map@);
        while g < fill
            invariant
                g <= fill,
                entry_views(new_map@) == mbase + Seq::new(g as nat, |q: int| null_entry()),
            decreases fill - g,
        {
            let ghost n0 = new_map@;
            new_map.push(Py(TilemapEntry(0, false, false, 0)));
            proof {
                crate::st_dpc::lemma_entry_views_push(n0, Py(TilemapEntry(0, false, false, 0)));
                assert(mbase + Seq::new(g as nat + 1, |q: int| null_entry()) =~= (mbase + Seq::new(g as nat, |q: int| null_entry())).push(null_entry()));
            }
            g = g + 1;
        }
        // Palettes.
        let pn = palettes.len();
        let mut pals: Vec<Vec<u8>> = Vec::new();
        let mut start: usize = 0;
        while start < pn
            invariant
                pn == palettes@.len(),
                start <= pn,
                start < pn ==> start % 48 == 0,
                pals@.len() == (start + 47) / 48,
                forall|c: int| 0 <= c < pals@.len() ==> #[trigger] pals@[c]@ == pal48(palettes@)[c],
            decreases pn - start,
        {
            let end: usize = if pn - start >= 48 { start + 48 } else { pn };
            let ch = crate::bytes::copy_range(palettes.as_slice(), start, end);
            assert(ch@ == window(palettes@, 48 * (pals@.len() as int), 48));
            pals.push(ch);
            start = end;
        }
        assert(u8_vecs(pals@) =~= pal48(palettes@));
        self.tiles = new_tiles;
        self.tilemap = new_map;
        self.palettes = pals;
        Ok(())
    }
}

/// Writes BGP models.
pub struct BgpWriter;

impl BgpWriter {
    pub fn new() -> (r: Self) {
        BgpWriter
    }

    /// The header (palettes from byte 32 on, then the tile map, then the tiles), the palettes
    /// with the fixed fourth byte after every color, the tile map entries packed into 16 bits and
    /// the tiles.
    pub fn write(&self, model: Py<Bgp>, py: Python) -> (r: PyResult<StBytes>)
        requires
            32 + model.0.palettes@.len() * 64 + model.0.tilemap@.len() * 2 <= u32::MAX,
            model.0.tiles@.len() * 32 <= usize::MAX,
        ensures
            r matches Ok(b) && b@ == bgp_bytes(
                u8_vecs(model.0.palettes@),
                entry_views(model.0.tilemap@),
                bytes_views(model.0.tiles@),
                model.0.unknown1,
                model.0.unknown2,
            ),
    {
        let m = &model.0;
        let palettes_length: u32 = m.palettes.len() as u32 * 64;
        let tiles_length: u32 = #[verifier::truncate] ((m.tiles.len() * 32) as u32);
        let tilemapping_length: u32 = (m.tilemap.len() * 2) as u32;
        let palettes_begin: u32 = BGP_HEADER_LENGTH;
        let tilemapping_begin: u32 = palettes_begin + palettes_length;
        let tiles_begin: u32 = tilemapping_begin + tilemapping_length;
        let mut out: Vec<u8> = Vec::new();
        crate::bytes::push_u32_le(&mut out, palettes_begin);
        crate::bytes::push_u32_le(&mut out, palettes_length);
        crate::bytes::push_u32_le(&mut out, tiles_begin);
        crate::bytes::push_u32_le(&mut out, tiles_length);
        crate::bytes::push_u32_le(&mut out, tilemapping_begin);
        crate::bytes::push_u32_le(&mut out, tilemapping_length);
        crate::bytes::push_u32_le(&mut out, m.unknown1);
        crate::bytes::push_u32_le(&mut out, m.unknown2);
        let ghost header = out@;
        // Palettes.
        let flat = concat_vecs(m.palettes.as_slice());
        assert(vec_views(m.palettes@) == u8_vecs(m.palettes@));
        let fl = flat.len();
        let groups: usize = if fl % 3 == 0 { fl / 3 } else { fl / 3 + 1 };
        let mut k: usize = 0;
        while k < groups
            invariant
                fl == flat@.len(),
                groups == (fl + 2) / 3,
                k <= groups,
                out@ == header + bgp_pal_bytes(flat@, k as nat),
            decreases groups - k,
        {
            let start: usize = 3 * k;
            let end: usize = if fl - start >= 3 { start + 3 } else { fl };
            let part = crate::bytes::copy_range(flat.as_slice(), start, end);
            assert(part@ == window(flat@, 3 * k, 3));
            crate::bytes::push_all(&mut out, part.as_slice());
            out.push(BGP_PAL_UNKNOWN4_COLOR_VAL);
            k = k + 1;
            assert(out@ =~= header + bgp_pal_bytes(flat@, k as nat));
        }
        let ghost after_pal = out@;
        // Tile map.
        let ghost es = entry_views(m.tilemap@);
        let mut j: usize = 0;
        while j < m.tilemap.len()
            invariant
                j <= m.tilemap@.len(),
                es == entry_views(m.tilemap@),
                out@ == after_pal + dpc_bytes(es.take(j as int)),
            decreases m.tilemap@.len() - j,
        {
            let v = m.tilemap[j].0.to_int();
            proof {
                assert(es.take(j as int + 1).drop_last() == es.take(j as int));
            }
            crate::bytes::push_u16_le(&mut out, #[verifier::truncate] (v as u16));
            j = j + 1;
            assert(out@ =~= after_pal + dpc_bytes(es.take(j as int)));
        }
        assert(es.take(es.len() as int) == es);
        let ghost after_map = out@;
        // Tiles.
        let ghost ts = bytes_views(m.tiles@);
        let mut t: usize = 0;
        while t < m.tiles.len()
            invariant
                t <= m.tiles@.len(),
                ts == bytes_views(m.tiles@),
                out@ == after_map + concat_all(ts.take(t as int)),
            decreases m.tiles@.len() - t,
        {
            proof {
                assert(ts.take(t as int + 1).drop_last() == ts.take(t as int));
            }
            crate::bytes::push_all(&mut out, m.tiles[t].as_slice());
            t = t + 1;
            assert(out@ =~= after_map + concat_all(ts.take(t as int)));
        }
        assert(ts.take(ts.len() as int) == ts);
        assert(out@ =~= bgp_bytes(
            u8_vecs(m.palettes@),
            entry_views(m.tilemap@),
            bytes_views(m.tiles@),
            m.unknown1,
            m.unknown2,
        ));
        Ok(StBytes(out))
    }
}


proof fn lemma_entry_int_fits(e: TilemapEntry)
    requires
        e.0 < 0x400,
        e.3 < 16,
    ensures
        tilemap_entry_int(e) <= 0xFFFF,
{
    let idx = e.0;
    let p = e.3 as usize;
    let fx: usize = if e.1 { 1 } else { 0 };
    let fy: usize = if e.2 { 1 } else { 0 };
    assert(((idx & 0x3FF) + (fx << 10usize) + (fy << 11usize) + ((p & 0x3F) << 12usize)) as usize <= 0xFFFF) by (bit_vector)
        requires
            idx < 0x400,
            p < 16,
            fx < 2,
            fy < 2,
    ;
}

proof fn lemma_dpc_bytes_at(es: Seq<TilemapEntry>)
    ensures
        dpc_bytes(es).len() == 2 * es.len(),
        forall|k: int| 0 <= k < es.len() ==> #[trigger] dpc_bytes(es).subrange(2 * k, 2 * k + 2) == u16_le_bytes(
            tilemap_entry_int(es[k]) as u16,
        ),
    decreases es.len(),
{
    if es.len() > 0 {
        let p = es.drop_last();
        lemma_dpc_bytes_at(p);
        let b = dpc_bytes(es);
        assert forall|k: int| 0 <= k < es.len() implies #[trigger] b.subrange(2 * k, 2 * k + 2) == u16_le_bytes(
            tilemap_entry_int(es[k]) as u16,
        ) by {
            if k < es.len() - 1 {
                assert(b.subrange(2 * k, 2 * k + 2) =~= dpc_bytes(p).subrange(2 * k, 2 * k + 2));
                assert(p[k] == es[k]);
            } else {
                assert(b.subrange(2 * k, 2 * k + 2) =~= u16_le_bytes(tilemap_entry_int(es[k]) as u16));
            }
        }
    }
}

proof fn lemma_bgp_pal_bytes(s: Seq<u8>, k: nat)
    requires
        3 * k <= s.len(),
    ensures
        bgp_pal_bytes(s, k).len() == 4 * k,
        forall|j: int| 0 <= j < 3 * k ==> #[trigger] bgp_pal_bytes(s, k)[j + j / 3] == s[j],
    decreases k,
{
    if k > 0 {
        lemma_bgp_pal_bytes(s, (k - 1) as nat);
        let b = bgp_pal_bytes(s, k);
        let p = bgp_pal_bytes(s, (k - 1) as nat);
        assert forall|j: int| 0 <= j < 3 * k implies #[trigger] b[j + j / 3] == s[j] by {
            if j < 3 * (k - 1) {
                assert(j + j / 3 < 4 * (k - 1));
                assert(b[j + j / 3] == p[j + j / 3]);
            } else {
                assert(j / 3 == k - 1) by (nonlinear_arith)
                    requires
                        3 * (k - 1) <= j < 3 * k,
                ;
                assert(window(s, 3 * (k - 1), 3) == s.subrange(3 * (k - 1), 3 * (k - 1) + 3));
            }
        }
    }
}

/// What a BGP model must hold to be written and read back: palettes of 16 colors, tile map
/// entries whose tile index fits in 10 bits and palette index in 4, tiles of 32 bytes, and a
/// file within 2^32 - 1 bytes.
pub open spec fn bgp_model_ok(pals: Seq<Seq<u8>>, es: Seq<TilemapEntry>, tiles: Seq<Seq<u8>>) -> bool {
    &&& forall|c: int| 0 <= c < pals.len() ==> (#[trigger] pals[c]).len() == 48
    &&& forall|k: int| 0 <= k < es.len() ==> (#[trigger] es[k]).0 < 0x400 && es[k].3 < 16
    &&& forall|k: int| 0 <= k < tiles.len() ==> (#[trigger] tiles[k]).len() == 32
    &&& 32 + pals.len() * 64 + es.len() * 2 + tiles.len() * 32 <= u32::MAX
}

proof fn lemma_bgp_pals_part(pals: Seq<Seq<u8>>)
    requires
        forall|c: int| 0 <= c < pals.len() ==> (#[trigger] pals[c]).len() == 48,
    ensures
        ({
            let flat = concat_all(pals);
            let pb = bgp_pal_bytes(flat, 16 * pals.len());
            &&& (flat.len() + 2) / 3 == 16 * pals.len()
            &&& pb.len() == 64 * pals.len()
            &&& bgp_palettes(pb) == pals
        }),
{
    let n = pals.len();
    let flat = concat_all(pals);
    crate::st_dpci::lemma_concat_fixed(pals, n, 48);
    assert(pals.take(n as int) =~= pals);
    let pb = bgp_pal_bytes(flat, 16 * n);
    lemma_bgp_pal_bytes(flat, 16 * n);
    assert forall|c: int| 0 <= c < n implies #[trigger] bgp_palettes(pb)[c] == pals[c] by {
        let w = window(pb, 64 * c, 64);
        assert(w == pb.subrange(64 * c, 64 * c + 64));
        crate::st_dpla::lemma_rgb_of_at(w, 16);
        let x = bgp_palettes(pb)[c];
        assert(x == rgb_of(w, 16));
        assert forall|m: int| 0 <= m < 48 implies x[m] == pals[c][m] by {
            let j = 48 * c + m;
            assert(x[m] == w[m + m / 3]);
            assert(w[m + m / 3] == pb[64 * c + m + m / 3]);
            assert(j / 3 == 16 * c + m / 3) by (nonlinear_arith)
                requires
                    j == 48 * c + m,
                    0 <= m < 48,
                    0 <= c,
            ;
            assert(pb[j + j / 3] == flat[j]);
            assert(flat.subrange(48 * c, 48 * c + 48) == pals[c]);
            assert(flat[j] == pals[c][m]);
        }
        assert(x =~= pals[c]);
    }
    assert(bgp_palettes(pb) =~= pals);
}

proof fn lemma_bgp_map_part(es: Seq<TilemapEntry>)
    requires
        forall|k: int| 0 <= k < es.len() ==> (#[trigger] es[k]).0 < 0x400 && es[k].3 < 16,
    ensures
        dpc_bytes(es).len() == 2 * es.len(),
        dpc_entries(dpc_bytes(es)) == es,
{
    let mb = dpc_bytes(es);
    lemma_dpc_bytes_at(es);
    assert forall|k: int| 0 <= k < es.len() implies #[trigger] dpc_entries(mb)[k] == es[k] by {
        lemma_entry_int_fits(es[k]);
        assert(mb.subrange(2 * k, 2 * k + 2) == u16_le_bytes(tilemap_entry_int(es[k]) as u16));
        crate::bytes::lemma_le16_at(mb, 2 * k, tilemap_entry_int(es[k]) as u16);
        crate::image::tilemap_entry::lemma_tilemap_entry_roundtrip(es[k]);
    }
    assert(dpc_entries(mb) =~= es);
}

proof fn lemma_bgp_tiles_part(tiles: Seq<Seq<u8>>)
    requires
        forall|k: int| 0 <= k < tiles.len() ==> (#[trigger] tiles[k]).len() == 32,
    ensures
        concat_all(tiles).len() == 32 * tiles.len(),
        dpci_tiles(concat_all(tiles)) == tiles,
{
    let ct = concat_all(tiles);
    crate::st_dpci::lemma_concat_fixed(tiles, tiles.len(), 32);
    assert(tiles.take(tiles.len() as int) =~= tiles);
    assert forall|k: int| 0 <= k < tiles.len() implies #[trigger] dpci_tiles(ct)[k] == tiles[k] by {
        assert(window(ct, 32 * k, 32) == ct.subrange(32 * k, 32 * k + 32));
    }
    assert(dpci_tiles(ct) =~= tiles);
}

/// Reading back what writing a BGP model gives returns its palettes, tile map, tiles and
/// unknown values.
pub proof fn lemma_bgp_roundtrip(pals: Seq<Seq<u8>>, es: Seq<TilemapEntry>, tiles: Seq<Seq<u8>>, u1: u32, u2: u32)
    requires
        bgp_model_ok(pals, es, tiles),
    ensures
        ({
            let d = bgp_bytes(pals, es, tiles, u1, u2);
            let (pb, pl) = (bgp_header(d, 0), bgp_header(d, 1));
            let (tb, tl) = (bgp_header(d, 2), bgp_header(d, 3));
            let (mb, ml) = (bgp_header(d, 4), bgp_header(d, 5));
            let te = if tb + tl <= d.len() { tb + tl } else { d.len() as int };
            &&& bgp_ok(d)
            &&& bgp_palettes(d.subrange(pb, pb + pl)) == pals
            &&& dpc_entries(d.subrange(mb, mb + ml)) == es
            &&& dpci_tiles(d.subrange(tb, te)) == tiles
            &&& bgp_header(d, 6) == u1
            &&& bgp_header(d, 7) == u2
        }),
{
    let n = pals.len();
    let pl: int = (n * 64) as int;
    let ml: int = (es.len() * 2) as int;
    let tl: int = (tiles.len() * 32) as int;
    let flat = concat_all(pals);
    let d = bgp_bytes(pals, es, tiles, u1, u2);
    lemma_bgp_pals_part(pals);
    lemma_bgp_map_part(es);
    lemma_bgp_tiles_part(tiles);
    let pbs = bgp_pal_bytes(flat, 16 * n);
    let mbs = dpc_bytes(es);
    let ct = concat_all(tiles);
    let head = u32_le_bytes(32) + u32_le_bytes(pl as u32) + u32_le_bytes((32 + pl + ml) as u32) + u32_le_bytes(tl as u32)
        + u32_le_bytes((32 + pl) as u32) + u32_le_bytes(ml as u32) + u32_le_bytes(u1) + u32_le_bytes(u2);
    assert(head.len() == 32);
    assert(d == head + pbs + mbs + ct);
    assert(d.subrange(0, 4) =~= u32_le_bytes(32));
    assert(d.subrange(4, 8) =~= u32_le_bytes(pl as u32));
    assert(d.subrange(8, 12) =~= u32_le_bytes((32 + pl + ml) as u32));
    assert(d.subrange(12, 16) =~= u32_le_bytes(tl as u32));
    assert(d.subrange(16, 20) =~= u32_le_bytes((32 + pl) as u32));
    assert(d.subrange(20, 24) =~= u32_le_bytes(ml as u32));
    assert(d.subrange(24, 28) =~= u32_le_bytes(u1));
    assert(d.subrange(28, 32) =~= u32_le_bytes(u2));
    crate::bytes::lemma_le32_at(d, 0, 32);
    crate::bytes::lemma_le32_at(d, 4, pl as u32);
    crate::bytes::lemma_le32_at(d, 8, (32 + pl + ml) as u32);
    crate::bytes::lemma_le32_at(d, 12, tl as u32);
    crate::bytes::lemma_le32_at(d, 16, (32 + pl) as u32);
    crate::bytes::lemma_le32_at(d, 20, ml as u32);
    crate::bytes::lemma_le32_at(d, 24, u1);
    crate::bytes::lemma_le32_at(d, 28, u2);
    assert(d.subrange(32, 32 + pl) =~= pbs);
    assert(d.subrange(32 + pl, 32 + pl + ml) =~= mbs);
    assert(d.subrange(32 + pl + ml, 32 + pl + ml + tl) =~= ct);
}

} // verus!
