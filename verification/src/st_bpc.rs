//! BPC: the tiles and chunks (tile maps of `tiling_width` x `tiling_height` tiles) of the one or
//! two layers of a map background, both compressed.
use crate::bytes::le16;
use crate::bytes::StBytes;
use crate::compression::bpc_image::bpc_image_decompress;
use crate::compression::bpc_image::bpc_img_end;
use crate::compression::bpc_image::bpc_img_initial;
use crate::compression::bpc_image::BpcImageDecompressor;
use crate::compression::bpc_tilemap::bpc_tilemap_decompress;
use crate::compression::bpc_tilemap::BpcTilemapDecompressor;
use crate::image::tilemap_entry::InputTilemapEntry;
use crate::image::tilemap_entry::TilemapEntry;
use crate::image::tiled::dedup;
use crate::image::tiled::nt_ok;
use crate::image::tiled::nt_run;
use crate::image::tiled::streams;
use crate::image::tiled::t2n_ok;
use crate::image::tiled::write_chunks;
use crate::image::tiled::TiledImage;
use crate::image::window;
use crate::image::IndexedImage;
use crate::image::PixelGenerator;
use crate::python::exceptions::PyAssertionError;
use crate::python::exceptions::PyValueError;
use crate::python::ErrorKind;
use crate::st_bpa::BpaProvider;
use crate::st_bpa::InputBpa;
use crate::st_dpci::concat_all;
use crate::st_dpci::tile_pixels;
use crate::st_dpci::tile_rows;
use crate::no_python::Py;
use crate::no_python::Python;
use crate::python::PyResult;
use crate::st_dpc::dpc_entries;
use crate::st_dpc::entry_views;
use crate::st_dpc::null_entry;
use crate::st_dpci::bytes_views;
use crate::st_dpci::dpci_tiles;
use vstd::prelude::*;

verus! {

pub const BPC_TILE_DIM: usize = 8;

pub const BPC_TILEMAP_BYTELEN: usize = 2;

pub const BPC_BYTELEN_TILE: usize = 32;

/// One layer: its tiles (the first an empty one), BPA tile counts and chunks.
pub struct BpcLayer {
    /// The number of tiles, less the empty first one.
    pub number_tiles: u16,
    /// The number of tiles of each of the 4 BPAs of the layer (0 where unused).
    pub bpas: [u16; 4],
    /// The number of chunks, the empty first one included.
    pub chunk_tilemap_len: u16,
    pub tiles: Vec<StBytes>,
    pub tilemap: Vec<Py<TilemapEntry>>,
}

/// An empty 4bpp tile.
pub open spec fn empty_tile() -> Seq<u8> {
    Seq::new(32, |i: int| 0u8)
}

/// The tiles of a layer as read: the empty tile, then the decompressed data in tiles of 32
/// bytes.
pub open spec fn bpc_tiles_of(img: Seq<u8>) -> Seq<Seq<u8>> {
    seq![empty_tile()] + dpci_tiles(img)
}

/// The tile map of a layer as read: an empty chunk of `n` entries, then one entry per 16-bit
/// value of the decompressed data.
pub open spec fn bpc_tilemap_of(tm: Seq<u8>, n: nat) -> Seq<TilemapEntry> {
    Seq::new(n, |i: int| null_entry()) + dpc_entries(tm)
}

/// Where the tile map of a layer whose tile data starts at `pnt` starts: after the tile data,
/// aligned to 2 bytes.
pub open spec fn bpc_tilemap_start(d: Seq<u8>, pnt: int, nt: nat) -> int {
    let e = pnt + bpc_img_end(d.skip(pnt), bpc_img_initial(), nt * 32);
    if e % 2 != 0 {
        e + 1
    } else {
        e
    }
}

/// What reading a layer gives: its tiles and tile map, or `None` where decompressing fails.
pub open spec fn bpc_layer_read(d: Seq<u8>, pnt: int, nt: nat, ctl: nat, tw: nat, th: nat) -> Option<(Seq<Seq<u8>>, Seq<TilemapEntry>)> {
    match bpc_image_decompress(d.skip(pnt), nt * 32) {
        None => None,
        Some(img) => match bpc_tilemap_decompress(d.skip(bpc_tilemap_start(d, pnt, nt)), ((ctl - 1) * (tw * th) * 2) as nat) {
            None => None,
            Some(tm) => Some((bpc_tiles_of(img), bpc_tilemap_of(tm, tw * th))),
        },
    }
}

/// Whether reading a layer from `pnt` cannot fail for a reason other than bad compressed data.
pub open spec fn bpc_layer_ok(d: Seq<u8>, pnt: int, nt: nat, ctl: nat, tw: nat, th: nat) -> bool {
    &&& pnt <= d.len()
    &&& nt * 32 <= 0xFFFF
    &&& ctl >= 1
    &&& (ctl - 1) * (tw * th) * 2 <= usize::MAX
    &&& (bpc_image_decompress(d.skip(pnt), nt * 32) is Some ==> bpc_tilemap_start(d, pnt, nt) <= d.len())
}

/// The `k`-th 16-bit value of the layer table (after the two layer pointers).
pub open spec fn bpc_toc(d: Seq<u8>, k: int) -> int {
    le16(d, 4 + 2 * k)
}

/// Whether BPC data can be read with the given tiling.
pub open spec fn bpc_ok(d: Seq<u8>, tw: u16, th: u16) -> bool {
    let layers = if le16(d, 2) > 0 { 2int } else { 1int };
    &&& d.len() >= 4
    &&& d.len() >= 4 + 12 * layers
    &&& tw * th <= 0xFFFF
    &&& bpc_toc(d, 0) >= 1
    &&& bpc_layer_ok(d, le16(d, 0), (bpc_toc(d, 0) - 1) as nat, bpc_toc(d, 5) as nat, tw as nat, th as nat)
    &&& (layers == 2 ==> bpc_toc(d, 6) >= 1 && bpc_layer_ok(d, le16(d, 2), (bpc_toc(d, 6) - 1) as nat, bpc_toc(d, 11) as nat, tw as nat, th as nat))
}

/// Whether `l` is the layer described by the layer table entry `i` with the tiles and tile map
/// `x`.
pub open spec fn bpc_layer_is(l: BpcLayer, d: Seq<u8>, i: int, x: (Seq<Seq<u8>>, Seq<TilemapEntry>)) -> bool {
    &&& l.number_tiles == bpc_toc(d, 6 * i) - 1
    &&& l.bpas@ == seq![bpc_toc(d, 6 * i + 1) as u16, bpc_toc(d, 6 * i + 2) as u16, bpc_toc(d, 6 * i + 3) as u16, bpc_toc(d, 6 * i + 4) as u16]
    &&& l.chunk_tilemap_len == bpc_toc(d, 6 * i + 5)
    &&& bytes_views(l.tiles@) == x.0
    &&& entry_views(l.tilemap@) == x.1
}

/// A BPC file.
pub struct Bpc {
    pub tiling_width: u16,
    pub tiling_height: u16,
    pub number_of_layers: u8,
    pub layers: Vec<Py<BpcLayer>>,
}

/// The tiles and tile map of the layer whose data starts at `pnt`.
fn read_layer_data(d: &[u8], pnt: usize, nt: u16, ctl: u16, tw: u16, th: u16) -> (r: PyResult<(Vec<StBytes>, Vec<Py<TilemapEntry>>)>)
    requires
        bpc_layer_ok(d@, pnt as int, nt as nat, ctl as nat, tw as nat, th as nat),
        tw * th <= 0xFFFF,
    ensures
        match bpc_layer_read(d@, pnt as int, nt as nat, ctl as nat, tw as nat, th as nat) {
            None => r is Err,
            Some(x) => r matches Ok((t, m)) && bytes_views(t@) == x.0 && entry_views(m@) == x.1,
        },
{
    let n = d.len();
    let sub = crate::bytes::copy_range(d, pnt, n);
    assert(sub@ == d@.skip(pnt as int));
    let size: usize = nt as usize * 32;
    let (img, used) = match BpcImageDecompressor::run_counted(sub.as_slice(), size) {
        Ok(x) => x,
        Err(e) => return Err(e),
    };
    let mut p: usize = pnt + used;
    if p % 2 != 0 {
        p = p + 1;
    }
    assert(p == bpc_tilemap_start(d@, pnt as int, nt as nat));
    // The tiles: the empty one, then the data in tiles of 32 bytes.
    let mut tiles: Vec<StBytes> = Vec::new();
    tiles.push(StBytes(crate::bytes::filled(0, BPC_BYTELEN_TILE)));
    let rest = match crate::st_dpci::Dpci::new(StBytes(img)) {
        Ok(x) => x.tiles,
        Err(e) => return Err(e),
    };
    let mut i: usize = 0;
    let ghost base = bytes_views(tiles@);
    while i < rest.len()
        invariant
            i <= rest@.len(),
            base == seq![empty_tile()],
            bytes_views(tiles@) == base + bytes_views(rest@).take(i as int),
        decreases rest@.len() - i,
    {
        let tb = rest[i].clone();
        let ghost v0 = tiles@;
        tiles.push(tb);
        proof {
            crate::st_dpci::lemma_bytes_views_push(v0, tb);
            assert(bytes_views(rest@).take(i as int + 1) =~= bytes_views(rest@).take(i as int).push(rest@[i as int]@));
        }
        i = i + 1;
    }
    assert(bytes_views(rest@).take(rest@.len() as int) == bytes_views(rest@));
    // The tile map.
    let tsub = crate::bytes::copy_range(d, p, n);
    assert(tsub@ == d@.skip(p as int));
    let tsize: usize = (ctl as usize - 1) * (tw as usize * th as usize) * 2;
    let tm = match BpcTilemapDecompressor::run(tsub.as_slice(), tsize) {
        Ok(x) => x,
        Err(e) => return Err(e),
    };
    let nn: usize = tw as usize * th as usize;
    let mut map: Vec<Py<TilemapEntry>> = Vec::new();
    let mut k: usize = 0;
    while k < nn
        invariant
            k <= nn,
            entry_views(map@) == Seq::new(k as nat, |i: int| null_entry()),
        decreases nn - k,
    {
        let ghost v0 = map@;
        map.push(Py(TilemapEntry(0, false, false, 0)));
        proof {
            crate::st_dpc::lemma_entry_views_push(v0, Py(TilemapEntry(0, false, false, 0)));
            assert(Seq::new(k as nat + 1, |i: int| null_entry()) =~= Seq::new(k as nat, |i: int| null_entry()).push(null_entry()));
        }
        k = k + 1;
    }
    let tl = tm.len();
    let m = tl / 2;
    let ghost mbase = entry_views(map@);
    let mut j: usize = 0;
    while j < m
        invariant
            j <= m,
            tl == tm@.len(),
            m == tm@.len() / 2,
            entry_views(map@) == mbase + dpc_entries(tm@).take(j as int),
        decreases m - j,
    {
        let v = crate::bytes::read_u16_le(tm.as_slice(), 2 * j);
        let e = TilemapEntry::from_int(v as usize);
        let ghost v0 = map@;
        map.push(Py(e));
        proof {
            crate::st_dpc::lemma_entry_views_push(v0, Py(e));
            assert(dpc_entries(tm@).take(j as int + 1) =~= dpc_entries(tm@).take(j as int).push(e));
        }
        j = j + 1;
    }
    assert(dpc_entries(tm@).take(m as int) == dpc_entries(tm@));
    Ok((tiles, map))
}

/// Reads layer `i` of the layer table, whose data starts at `pnt`.
fn read_layer(d: &[u8], i: usize, pnt: usize, tw: u16, th: u16) -> (r: PyResult<BpcLayer>)
    requires
        i < 2,
        d@.len() >= 4 + 12 * (i + 1),
        tw * th <= 0xFFFF,
        bpc_toc(d@, 6 * i) >= 1,
        bpc_layer_ok(d@, pnt as int, (bpc_toc(d@, 6 * i) - 1) as nat, bpc_toc(d@, 6 * i + 5) as nat, tw as nat, th as nat),
    ensures
        match bpc_layer_read(d@, pnt as int, (bpc_toc(d@, 6 * i) - 1) as nat, bpc_toc(d@, 6 * i + 5) as nat, tw as nat, th as nat) {
            None => r is Err,
            Some(x) => r matches Ok(l) && bpc_layer_is(l, d@, i as int, x),
        },
{
    let base: usize = 4 + 12 * i;
    let nt = crate::bytes::read_u16_le(d, base) - 1;
    let b0 = crate::bytes::read_u16_le(d, base + 2);
    let b1 = crate::bytes::read_u16_le(d, base + 4);
    let b2 = crate::bytes::read_u16_le(d, base + 6);
    let b3 = crate::bytes::read_u16_le(d, base + 8);
    let ctl = crate::bytes::read_u16_le(d, base + 10);
    let (tiles, tilemap) = match read_layer_data(d, pnt, nt, ctl, tw, th) {
        Ok(x) => x,
        Err(e) => return Err(e),
    };
    let bpas: [u16; 4] = [b0, b1, b2, b3];
    assert(bpas@ =~= seq![b0, b1, b2, b3]);
    Ok(BpcLayer { number_tiles: nt, bpas, chunk_tilemap_len: ctl, tiles, tilemap })
}

/// Whether the layer at `pnt` with `nt` tiles and `ctl` chunks can be read (see `bpc_layer_ok`).
fn layer_readable(d: &[u8], pnt: usize, nt: usize, ctl: usize, tw: usize, th: usize) -> (r: bool)
    requires
        nt <= 0xFFFF,
        ctl <= 0xFFFF,
        tw * th <= 0xFFFF,
    ensures
        r == bpc_layer_ok(d@, pnt as int, nt as nat, ctl as nat, tw as nat, th as nat),
{
    let n = d.len();
    if pnt > n || nt * 32 > 0xFFFF || ctl < 1 {
        return false;
    }
    let twth: usize = tw * th;
    assert((ctl - 1) * twth * 2 <= 0xFFFF * 0xFFFF * 2) by (nonlinear_arith)
        requires
            ctl - 1 <= 0xFFFF,
            twth <= 0xFFFF,
    ;
    let need: u64 = (ctl - 1) as u64 * twth as u64 * 2;
    if need > usize::MAX as u64 {
        return false;
    }
    let rest = vstd::slice::slice_subrange(d, pnt, n);
    assert(rest@ =~= d@.skip(pnt as int));
    match BpcImageDecompressor::run_counted(rest, nt * 32) {
        Ok((_img, used)) => {
            let e: usize = pnt + used;
            if e % 2 != 0 {
                e < n
            } else {
                e <= n
            }
        },
        Err(_) => true,
    }
}

impl Bpc {
    /// Whether `data` can be read as a BPC with the given tiling (see `bpc_ok`).
    pub fn readable(data: &[u8], tiling_width: u16, tiling_height: u16) -> (r: bool)
        ensures
            r == bpc_ok(data@, tiling_width, tiling_height),
    {
        let n = data.len();
        if n < 4 {
            return false;
        }
        let two = crate::bytes::read_u16_le(data, 2) > 0;
        let need: usize = if two { 28 } else { 16 };
        if n < need {
            return false;
        }
        assert(tiling_width as u32 * tiling_height as u32 <= 0xFFFF * 0xFFFF) by (nonlinear_arith)
            requires
                tiling_width <= 0xFFFF,
                tiling_height <= 0xFFFF,
        ;
        let twth: u32 = tiling_width as u32 * tiling_height as u32;
        if twth > 0xFFFF {
            return false;
        }
        let nt0 = crate::bytes::read_u16_le(data, 4) as usize;
        if nt0 < 1 {
            return false;
        }
        let p0 = crate::bytes::read_u16_le(data, 0) as usize;
        let c0 = crate::bytes::read_u16_le(data, 14) as usize;
        if !layer_readable(data, p0, nt0 - 1, c0, tiling_width as usize, tiling_height as usize) {
            return false;
        }
        if two {
            let nt1 = crate::bytes::read_u16_le(data, 16) as usize;
            if nt1 < 1 {
                return false;
            }
            let p1 = crate::bytes::read_u16_le(data, 2) as usize;
            let c1 = crate::bytes::read_u16_le(data, 26) as usize;
            layer_readable(data, p1, nt1 - 1, c1, tiling_width as usize, tiling_height as usize)
        } else {
            true
        }
    }
}

impl Bpc {
    /// Reads a BPC: the layer table, then for each layer its tiles and tile map, decompressed.
    pub fn new(data: StBytes, tiling_width: u16, tiling_height: u16, py: Python) -> (r: PyResult<Self>)
        requires
            bpc_ok(data@, tiling_width, tiling_height),
        ensures
            ({
                let d = data@;
                let two = le16(d, 2) > 0;
                let (tw, th) = (tiling_width as nat, tiling_height as nat);
                let r0 = bpc_layer_read(d, le16(d, 0), (bpc_toc(d, 0) - 1) as nat, bpc_toc(d, 5) as nat, tw, th);
                let r1 = bpc_layer_read(d, le16(d, 2), (bpc_toc(d, 6) - 1) as nat, bpc_toc(d, 11) as nat, tw, th);
                &&& (r is Ok <==> (r0 is Some && (two ==> r1 is Some)))
                &&& (r matches Ok(b) ==> {
                    &&& b.tiling_width == tiling_width
                    &&& b.tiling_height == tiling_height
                    &&& b.number_of_layers == (if two { 2u8 } else { 1u8 })
                    &&& b.layers@.len() == b.number_of_layers
                    &&& bpc_layer_is(b.layers@[0].0, d, 0, r0->0)
                    &&& (two ==> bpc_layer_is(b.layers@[1].0, d, 1, r1->0))
                })
            }),
    {
        let d = data.as_slice();
        let upper = crate::bytes::read_u16_le(d, 0);
        let lower = crate::bytes::read_u16_le(d, 2);
        let number_of_layers: u8 = if lower > 0 { 2 } else { 1 };
        let mut layers: Vec<Py<BpcLayer>> = Vec::new();
        let l0 = match read_layer(d, 0, upper as usize, tiling_width, tiling_height) {
            Ok(l) => l,
            Err(e) => return Err(e),
        };
        layers.push(Py(l0));
        if number_of_layers > 1 {
            let l1 = match read_layer(d, 1, lower as usize, tiling_width, tiling_height) {
                Ok(l) => l,
                Err(e) => return Err(e),
            };
            layers.push(Py(l1));
        }
        Ok(Bpc { tiling_width, tiling_height, number_of_layers, layers })
    }
}

/// The entries of caller-given tile map entries.
pub open spec fn inputs_view(v: Seq<InputTilemapEntry>) -> Seq<TilemapEntry> {
    Seq::new(v.len(), |i: int| v[i].0)
}

/// The tile map entries of layer `l` of a model.
pub open spec fn layer_map(b: Bpc, l: int) -> Seq<TilemapEntry> {
    entry_views(b.layers@[l].0.tilemap@)
}

/// Whether `b2` equals `b` but for layer `l`, which is `nl`.
pub open spec fn only_layer_changed(b: Bpc, b2: Bpc, l: int, nl: BpcLayer) -> bool {
    &&& b2.tiling_width == b.tiling_width
    &&& b2.tiling_height == b.tiling_height
    &&& b2.number_of_layers == b.number_of_layers
    &&& b2.layers@ == b.layers@.update(l, Py(nl))
}

/// The palette of the first tile map entry of `m` that places tile `i`, or 0.
pub open spec fn first_palette(m: Seq<TilemapEntry>, i: usize, k: nat) -> u8
    decreases k,
{
    if k == 0 {
        0
    } else {
        let prev = first_palette(m, i, (k - 1) as nat);
        if exists|j: int| 0 <= j < k - 1 && #[trigger] m[j].0 == i {
            prev
        } else if m[k - 1].0 == i {
            m[k - 1].3
        } else {
            0
        }
    }
}

/// A tile map entry after the BPA with tiles `[start, old_end)` got `new_count` tiles: later
/// tiles move, tiles past the new count become 0.
pub open spec fn bpa_remap(e: TilemapEntry, start: int, old_end: int, new_count: int) -> TilemapEntry {
    if e.0 > old_end {
        TilemapEntry((e.0 + new_count - (old_end - start)) as usize, e.1, e.2, e.3)
    } else if e.0 >= start && e.0 - start >= new_count {
        TilemapEntry(0, e.1, e.2, e.3)
    } else {
        e
    }
}

/// The sum of the first `k` BPA tile counts.
pub open spec fn bpa_sum(b: Seq<u16>, k: nat) -> int
    decreases k,
{
    if k == 0 {
        0
    } else {
        bpa_sum(b, (k - 1) as nat) + b[k - 1]
    }
}

proof fn lemma_update_twice<T>(s: Seq<T>, i: int, a: T, b: T)
    requires
        0 <= i < s.len(),
    ensures
        s.update(i, a).update(i, b) == s.update(i, b),
{
    assert(s.update(i, a).update(i, b) =~= s.update(i, b));
}

impl BpcLayer {
    pub fn new(number_tiles: u16, bpas: [u16; 4], chunk_tilemap_len: u16, tiles: Vec<StBytes>, tilemap: Vec<InputTilemapEntry>) -> (r: Self)
        ensures
            r.number_tiles == number_tiles,
            r.bpas == bpas,
            r.chunk_tilemap_len == chunk_tilemap_len,
            r.tiles@ == tiles@,
            entry_views(r.tilemap@) == inputs_view(tilemap@),
    {
        let mut m: Vec<Py<TilemapEntry>> = Vec::new();
        let mut i: usize = 0;
        while i < tilemap.len()
            invariant
                i <= tilemap@.len(),
                entry_views(m@) == inputs_view(tilemap@).take(i as int),
            decreases tilemap@.len() - i,
        {
            let ghost v0 = m@;
            m.push(Py(tilemap[i].0));
            proof {
                crate::st_dpc::lemma_entry_views_push(v0, Py(tilemap@[i as int].0));
                assert(inputs_view(tilemap@).take(i as int + 1) =~= inputs_view(tilemap@).take(i as int).push(tilemap@[i as int].0));
            }
            i = i + 1;
        }
        assert(inputs_view(tilemap@).take(tilemap@.len() as int) == inputs_view(tilemap@));
        BpcLayer { number_tiles, bpas, chunk_tilemap_len, tiles, tilemap: m }
    }
}

impl Bpc {
    /// Takes layer `l` out, leaving an empty layer in its place.
    fn take_layer(&mut self, l: usize) -> (r: BpcLayer)
        requires
            l < old(self).layers@.len(),
        ensures
            r == old(self).layers@[l as int].0,
            final(self).layers@ == old(self).layers@.update(l as int, final(self).layers@[l as int]),
            final(self).tiling_width == old(self).tiling_width,
            final(self).tiling_height == old(self).tiling_height,
            final(self).number_of_layers == old(self).number_of_layers,
    {
        let empty = BpcLayer { number_tiles: 0, bpas: [0u16, 0u16, 0u16, 0u16], chunk_tilemap_len: 0, tiles: Vec::new(), tilemap: Vec::new() };
        let old_layer = self.layers.remove(l);
        self.layers.insert(l, Py(empty));
        assert(self.layers@ =~= old(self).layers@.update(l as int, self.layers@[l as int]));
        old_layer.0
    }

    /// Puts layer `l` back.
    fn put_layer(&mut self, l: usize, layer: BpcLayer)
        requires
            l < old(self).layers@.len(),
        ensures
            final(self).layers@ == old(self).layers@.update(l as int, Py(layer)),
            final(self).tiling_width == old(self).tiling_width,
            final(self).tiling_height == old(self).tiling_height,
            final(self).number_of_layers == old(self).number_of_layers,
    {
        self.layers.set(l, Py(layer));
    }

    /// Entry `index` of the tile map of a layer.
    pub fn get_tile(&self, layer: usize, index: usize, py: Python) -> (r: PyResult<TilemapEntry>)
        requires
            layer < self.layers@.len(),
            index < self.layers@[layer as int].0.tilemap@.len(),
        ensures
            r matches Ok(e) && e == layer_map(*self, layer as int)[index as int],
    {
        Ok(self.layers[layer].0.tilemap[index].0)
    }

    /// Replaces entry `index` of the tile map of a layer.
    pub fn set_tile(&mut self, layer: usize, index: usize, tile_mapping: InputTilemapEntry, py: Python)
        requires
            layer < old(self).layers@.len(),
            index < old(self).layers@[layer as int].0.tilemap@.len(),
        ensures
            ({
                let l0 = old(self).layers@[layer as int].0;
                let l1 = final(self).layers@[layer as int].0;
                &&& only_layer_changed(*old(self), *final(self), layer as int, l1)
                &&& l1.number_tiles == l0.number_tiles && l1.bpas == l0.bpas && l1.chunk_tilemap_len == l0.chunk_tilemap_len
                &&& l1.tiles@ == l0.tiles@
                &&& entry_views(l1.tilemap@) == entry_views(l0.tilemap@).update(index as int, tile_mapping.0)
            }),
    {
        let mut l = self.take_layer(layer);
        l.tilemap.set(index, Py(tile_mapping.0));
        assert(entry_views(l.tilemap@) =~= entry_views(old(self).layers@[layer as int].0.tilemap@).update(index as int, tile_mapping.0));
        let ghost mid = self.layers@[layer as int];
        self.put_layer(layer, l);
        proof {
            lemma_update_twice(old(self).layers@, layer as int, mid, Py(l));
        }
    }

    /// The entries of chunk `index` of a layer.
    pub fn get_chunk(&mut self, layer: usize, index: usize, py: Python) -> (r: PyResult<Vec<TilemapEntry>>)
        requires
            layer < old(self).layers@.len(),
            (index + 1) * (old(self).tiling_width * old(self).tiling_height) <= old(self).layers@[layer as int].0.tilemap@.len(),
        ensures
            *final(self) == *old(self),
            ({
                let dim = old(self).tiling_width * old(self).tiling_height;
                r matches Ok(v) && v@ == layer_map(*old(self), layer as int).subrange(index * dim, index * dim + dim)
            }),
    {
        let tw = self.tiling_width as usize;
        let th = self.tiling_height as usize;
        assert(tw * th <= 0xFFFF_FFFF) by (nonlinear_arith)
            requires tw <= 0xFFFF, th <= 0xFFFF;
        let dim: usize = tw * th;
        let mlen = self.layers[layer].0.tilemap.len();
        assert((index + 1) * dim == index * dim + dim) by (nonlinear_arith);
        let start: usize = index * dim;
        let end: usize = start + dim;
        let m = &self.layers[layer].0.tilemap;
        let mut out: Vec<TilemapEntry> = Vec::new();
        let mut i = start;
        while i < end
            invariant
                end == start + dim,
                start <= i <= end <= m@.len(),
                out@ == entry_views(m@).subrange(start as int, i as int),
            decreases end - i,
        {
            out.push(m[i].0);
            i = i + 1;
            assert(out@ =~= entry_views(m@).subrange(start as int, i as int));
        }
        Ok(out)
    }

    /// Replaces the tiles of a layer; unless `contains_null_tile`, an empty tile is put first.
    pub fn import_tiles(&mut self, layer: usize, tiles: Vec<StBytes>, contains_null_tile: bool, py: Python)
        requires
            layer < old(self).layers@.len(),
            contains_null_tile ==> tiles@.len() >= 1,
        ensures
            ({
                let l0 = old(self).layers@[layer as int].0;
                let l1 = final(self).layers@[layer as int].0;
                let t = if contains_null_tile { bytes_views(tiles@) } else { seq![empty_tile()] + bytes_views(tiles@) };
                &&& only_layer_changed(*old(self), *final(self), layer as int, l1)
                &&& l1.bpas == l0.bpas && l1.chunk_tilemap_len == l0.chunk_tilemap_len && l1.tilemap@ == l0.tilemap@
                &&& bytes_views(l1.tiles@) == t
                &&& l1.number_tiles == (t.len() - 1) as u16
            }),
    {
        let mut tiles = tiles;
        if !contains_null_tile {
            tiles.insert(0, StBytes(crate::bytes::filled(0, BPC_BYTELEN_TILE)));
        }
        assert(bytes_views(tiles@) =~= (if contains_null_tile { bytes_views(old(self).layers@[layer as int].0.tiles@).take(0) + bytes_views(tiles@) } else { seq![empty_tile()] + bytes_views(tiles@).drop_first() }));
        let mut l = self.take_layer(layer);
        let n = tiles.len();
        l.tiles = tiles;
        l.number_tiles = #[verifier::truncate] ((n - 1) as u16);
        let ghost mid = self.layers@[layer as int];
        self.put_layer(layer, l);
        proof {
            lemma_update_twice(old(self).layers@, layer as int, mid, Py(l));
        }
    }

    /// Replaces the tile map of a layer: behind an empty chunk unless `contains_null_chunk`, the
    /// tile indices raised by one where `correct_tile_ids`; the chunk count follows.
    pub fn import_tile_mappings(
        &mut self,
        layer: usize,
        tile_mappings: Vec<InputTilemapEntry>,
        contains_null_chunk: bool,
        correct_tile_ids: bool,
        py: Python,
    ) -> (r: PyResult<()>)
        requires
            layer < old(self).layers@.len(),
            old(self).tiling_width * old(self).tiling_height <= 0xFFFF,
            old(self).tiling_width > 0,
            old(self).tiling_height > 0,
            correct_tile_ids ==> forall|i: int| 0 <= i < tile_mappings@.len() ==> #[trigger] tile_mappings@[i].0.0 < usize::MAX,
        ensures
            r is Ok,
            ({
                let l0 = old(self).layers@[layer as int].0;
                let l1 = final(self).layers@[layer as int].0;
                let dim = (old(self).tiling_width * old(self).tiling_height) as nat;
                let m = Seq::new(tile_mappings@.len(), |i: int| crate::st_dpc::corrected(tile_mappings@[i].0, correct_tile_ids));
                let full = if contains_null_chunk { m } else { Seq::new(dim, |i: int| null_entry()) + m };
                &&& only_layer_changed(*old(self), *final(self), layer as int, l1)
                &&& l1.bpas == l0.bpas && l1.number_tiles == l0.number_tiles && l1.tiles@ == l0.tiles@
                &&& entry_views(l1.tilemap@) == full
                &&& l1.chunk_tilemap_len == (full.len() as u16) / old(self).tiling_width / old(self).tiling_height
            }),
    {
        let dim: usize = (self.tiling_width * self.tiling_height) as usize;
        let ghost m = Seq::new(tile_mappings@.len(), |i: int| crate::st_dpc::corrected(tile_mappings@[i].0, correct_tile_ids));
        let mut out: Vec<Py<TilemapEntry>> = Vec::new();
        if !contains_null_chunk {
            let mut k: usize = 0;
            while k < dim
                invariant
                    k <= dim,
                    entry_views(out@) == Seq::new(k as nat, |i: int| null_entry()),
                decreases dim - k,
            {
                let ghost v0 = out@;
                out.push(Py(TilemapEntry(0, false, false, 0)));
                proof {
                    crate::st_dpc::lemma_entry_views_push(v0, Py(TilemapEntry(0, false, false, 0)));
                    assert(Seq::new(k as nat + 1, |i: int| null_entry()) =~= Seq::new(k as nat, |i: int| null_entry()).push(null_entry()));
                }
                k = k + 1;
            }
        }
        let ghost base = entry_views(out@);
        let mut i: usize = 0;
        while i < tile_mappings.len()
            invariant
                i <= tile_mappings@.len(),
                m == Seq::new(tile_mappings@.len(), |i: int| crate::st_dpc::corrected(tile_mappings@[i].0, correct_tile_ids)),
                correct_tile_ids ==> forall|i: int| 0 <= i < tile_mappings@.len() ==> #[trigger] tile_mappings@[i].0.0 < usize::MAX,
                entry_views(out@) == base + m.take(i as int),
            decreases tile_mappings@.len() - i,
        {
            let e = tile_mappings[i].0;
            let e2 = if correct_tile_ids { TilemapEntry(e.0 + 1, e.1, e.2, e.3) } else { e };
            let ghost v0 = out@;
            out.push(Py(e2));
            proof {
                crate::st_dpc::lemma_entry_views_push(v0, Py(e2));
                assert(m.take(i as int + 1) =~= m.take(i as int).push(e2));
            }
            i = i + 1;
        }
        assert(m.take(tile_mappings@.len() as int) == m);
        let n = out.len();
        let tw = self.tiling_width;
        let th = self.tiling_height;
        let mut l = self.take_layer(layer);
        l.tilemap = out;
        l.chunk_tilemap_len = (#[verifier::truncate] (n as u16)) / tw / th;
        let ghost mid = self.layers@[layer as int];
        self.put_layer(layer, l);
        proof {
            lemma_update_twice(old(self).layers@, layer as int, mid, Py(l));
        }
        Ok(())
    }

    /// Replaces 9 entries of a layer's tile map from chunk `index` on with the given entries;
    /// fails where fewer than a chunk's entries are given.
    pub fn set_chunk(&mut self, layer: usize, index: usize, new_tilemappings: Vec<InputTilemapEntry>, py: Python) -> (r: PyResult<()>)
        requires
            layer < old(self).layers@.len(),
            index * (old(self).tiling_width * old(self).tiling_height) + 9 <= old(self).layers@[layer as int].0.tilemap@.len(),
        ensures
            ({
                let dim = old(self).tiling_width * old(self).tiling_height;
                let st = index * dim;
                let l0 = old(self).layers@[layer as int].0;
                let l1 = final(self).layers@[layer as int].0;
                &&& (new_tilemappings@.len() < dim <==> r is Err)
                &&& (r is Err ==> *final(self) == *old(self))
                &&& (r matches Err(e) ==> e.kind == ErrorKind::ValueError)
                &&& (r is Ok ==> only_layer_changed(*old(self), *final(self), layer as int, l1)
                    && l1.bpas == l0.bpas && l1.number_tiles == l0.number_tiles && l1.tiles@ == l0.tiles@
                    && l1.chunk_tilemap_len == l0.chunk_tilemap_len
                    && entry_views(l1.tilemap@) == entry_views(l0.tilemap@).take(st) + inputs_view(new_tilemappings@)
                    + entry_views(l0.tilemap@).skip(st + 9))
            }),
    {
        let tw = self.tiling_width as usize;
        let th = self.tiling_height as usize;
        assert(tw * th <= 0xFFFF_FFFF) by (nonlinear_arith)
            requires tw <= 0xFFFF, th <= 0xFFFF;
        let dim: usize = tw * th;
        let mlen = self.layers[layer].0.tilemap.len();
        if new_tilemappings.len() < dim {
            let mut msg = String::from_str("new tilemapping for this chunk must contain ");
            crate::python::append_decimal(&mut msg, dim);
            msg.append(" tiles.");
            return Err(crate::python::PyErr { kind: ErrorKind::ValueError, value: msg, user_error: false });
        }
        let st: usize = index * dim;
        let mut l = self.take_layer(layer);
        let ghost old_map = entry_views(l.tilemap@);
        let n = l.tilemap.len();
        let mut out: Vec<Py<TilemapEntry>> = Vec::new();
        let mut i: usize = 0;
        while i < st
            invariant
                i <= st,
                st + 9 <= n,
                n == l.tilemap@.len(),
                old_map == entry_views(l.tilemap@),
                entry_views(out@) == old_map.take(i as int),
            decreases st - i,
        {
            let ghost v0 = out@;
            let e = l.tilemap[i].0;
            out.push(Py(e));
            proof {
                crate::st_dpc::lemma_entry_views_push(v0, Py(e));
                assert(old_map.take(i as int + 1) =~= old_map.take(i as int).push(e));
            }
            i = i + 1;
        }
        let ghost b1 = entry_views(out@);
        let mut j: usize = 0;
        while j < new_tilemappings.len()
            invariant
                j <= new_tilemappings@.len(),
                entry_views(out@) == b1 + inputs_view(new_tilemappings@).take(j as int),
            decreases new_tilemappings@.len() - j,
        {
            let ghost v0 = out@;
            let e = new_tilemappings[j].0;
            out.push(Py(e));
            proof {
                crate::st_dpc::lemma_entry_views_push(v0, Py(e));
                assert(inputs_view(new_tilemappings@).take(j as int + 1) =~= inputs_view(new_tilemappings@).take(j as int).push(e));
            }
            j = j + 1;
        }
        assert(inputs_view(new_tilemappings@).take(new_tilemappings@.len() as int) == inputs_view(new_tilemappings@));
        let ghost b2 = entry_views(out@);
        let mut k: usize = st + 9;
        while k < n
            invariant
                st + 9 <= k <= n,
                n == l.tilemap@.len(),
                old_map == entry_views(l.tilemap@),
                entry_views(out@) == b2 + old_map.subrange(st + 9, k as int),
            decreases n - k,
        {
            let ghost v0 = out@;
            let e = l.tilemap[k].0;
            out.push(Py(e));
            proof {
                crate::st_dpc::lemma_entry_views_push(v0, Py(e));
                assert(old_map.subrange(st + 9, k + 1) =~= old_map.subrange(st + 9, k as int).push(e));
            }
            k = k + 1;
        }
        assert(old_map.subrange(st + 9, n as int) =~= old_map.skip(st + 9));
        l.tilemap = out;
        let ghost mid = self.layers@[layer as int];
        self.put_layer(layer, l);
        proof {
            lemma_update_twice(old(self).layers@, layer as int, mid, Py(l));
        }
        Ok(())
    }

    /// The palette of the first tile map entry of a layer that places tile `i`, or 0.
    fn get_palette_for_tile(&self, layer: usize, i: usize, py: Python) -> (r: u8)
        requires
            layer < self.layers@.len(),
        ensures
            r == first_palette(layer_map(*self, layer as int), i, layer_map(*self, layer as int).len()),
    {
        let m = &self.layers[layer].0.tilemap;
        let ghost mv = entry_views(m@);
        let mut k: usize = 0;
        while k < m.len()
            invariant
                k <= m@.len(),
                mv == entry_views(m@),
                layer < self.layers@.len(),
                mv == layer_map(*self, layer as int),
                forall|j: int| 0 <= j < k ==> mv[j].0 != i,
                forall|q: nat| q <= k ==> #[trigger] first_palette(mv, i, q) == 0,
            decreases m@.len() - k,
        {
            if m[k].0.0 == i {
                proof {
                    assert(mv[k as int].0 == i);
                    assert(!(exists|j: int| 0 <= j < k && #[trigger] mv[j].0 == i));
                    assert(first_palette(mv, i, (k + 1) as nat) == mv[k as int].3);
                    assert(exists|j: int| 0 <= j < k + 1 && #[trigger] mv[j].0 == i);
                    lemma_first_palette_stays(mv, i, (k + 1) as nat, mv.len());
                }
                return m[k].0.3;
            }
            proof {
                assert(!(exists|j: int| 0 <= j < k && #[trigger] mv[j].0 == i));
                assert(first_palette(mv, i, (k + 1) as nat) == 0);
                assert forall|q: nat| q <= k + 1 implies #[trigger] first_palette(mv, i, q) == 0 by {}
            }
            k = k + 1;
        }
        0
    }
}

proof fn lemma_first_palette_stays(m: Seq<TilemapEntry>, i: usize, k: nat, n: nat)
    requires
        1 <= k <= n,
        n <= m.len(),
        exists|j: int| 0 <= j < k && #[trigger] m[j].0 == i,
    ensures
        first_palette(m, i, n) == first_palette(m, i, k),
    decreases n - k,
{
    if n > k {
        lemma_first_palette_stays(m, i, k, (n - 1) as nat);
        let j = choose|j: int| 0 <= j < k && #[trigger] m[j].0 == i;
        assert(0 <= j < n - 1 && m[j].0 == i);
    }
}

/// The palettes of an imported image in pieces of 16 bytes.
pub open spec fn pal16(p: Seq<u8>) -> Seq<Seq<u8>> {
    Seq::new(((p.len() + 15) / 16) as nat, |c: int| window(p, 16 * c, 16))
}

/// The tile map that shows every tile of a layer once, in order: with palette `single` where
/// given, else the palette of the first entry placing the tile.
pub open spec fn bpc_tile_entries(m: Seq<TilemapEntry>, n: nat, single: Option<u8>) -> Seq<TilemapEntry> {
    Seq::new(n, |i: int| TilemapEntry(i as usize, false, false, match single {
        Some(p) => p,
        None => first_palette(m, i as usize, m.len()),
    }))
}

/// A layer with one empty tile and one empty chunk of `dim` entries.
pub open spec fn new_upper_layer(l: BpcLayer, dim: nat) -> bool {
    &&& l.number_tiles == 1
    &&& l.chunk_tilemap_len == 1
    &&& l.bpas@ == seq![0u16, 0u16, 0u16, 0u16]
    &&& bytes_views(l.tiles@) == seq![empty_tile()]
    &&& entry_views(l.tilemap@) == Seq::new(dim, |i: int| null_entry())
}

impl Bpc {
    /// Removes the upper layer, keeping the lower one as the only one; nothing happens where
    /// there is one layer only.
    pub fn remove_upper_layer(&mut self, py: Python) -> (r: PyResult<()>)
        requires
            old(self).number_of_layers != 1 ==> old(self).layers@.len() >= 2,
        ensures
            r is Ok,
            old(self).number_of_layers == 1 ==> *final(self) == *old(self),
            old(self).number_of_layers != 1 ==> final(self).number_of_layers == 1 && final(self).layers@ == seq![old(self).layers@[1]]
                && final(self).tiling_width == old(self).tiling_width && final(self).tiling_height == old(self).tiling_height,
    {
        if self.number_of_layers == 1 {
            return Ok(());
        }
        self.number_of_layers = 1;
        let lower = self.layers.remove(1);
        self.layers = Vec::new();
        self.layers.push(lower);
        Ok(())
    }

    /// Adds an empty upper layer, the current first layer becoming the lower one; nothing
    /// happens where there are two layers.
    pub fn add_upper_layer(&mut self, py: Python) -> (r: PyResult<()>)
        requires
            old(self).layers@.len() >= 1,
            old(self).tiling_width * old(self).tiling_height <= 0xFFFF,
        ensures
            r is Ok,
            old(self).number_of_layers == 2 ==> *final(self) == *old(self),
            old(self).number_of_layers != 2 ==> {
                &&& final(self).number_of_layers == 2
                &&& final(self).tiling_width == old(self).tiling_width
                &&& final(self).tiling_height == old(self).tiling_height
                &&& final(self).layers@.len() == (if old(self).layers@.len() < 2 { 2 } else { old(self).layers@.len() })
                &&& final(self).layers@[1] == old(self).layers@[0]
                &&& forall|k: int| 2 <= k < final(self).layers@.len() ==> final(self).layers@[k] == old(self).layers@[k]
                &&& new_upper_layer(final(self).layers@[0].0, (old(self).tiling_width * old(self).tiling_height) as nat)
            },
    {
        if self.number_of_layers == 2 {
            return Ok(());
        }
        self.number_of_layers = 2;
        let dim: usize = (self.tiling_width * self.tiling_height) as usize;
        let mut tilemap: Vec<Py<TilemapEntry>> = Vec::new();
        let mut k: usize = 0;
        while k < dim
            invariant
                k <= dim,
                entry_views(tilemap@) == Seq::new(k as nat, |i: int| null_entry()),
            decreases dim - k,
        {
            let ghost v0 = tilemap@;
            tilemap.push(Py(TilemapEntry(0, false, false, 0)));
            proof {
                crate::st_dpc::lemma_entry_views_push(v0, Py(TilemapEntry(0, false, false, 0)));
                assert(Seq::new(k as nat + 1, |i: int| null_entry()) =~= Seq::new(k as nat, |i: int| null_entry()).push(null_entry()));
            }
            k = k + 1;
        }
        let mut tiles: Vec<StBytes> = Vec::new();
        tiles.push(StBytes(crate::bytes::filled(0, BPC_BYTELEN_TILE)));
        assert(bytes_views(tiles@) =~= seq![empty_tile()]);
        let bpas: [u16; 4] = [0u16, 0u16, 0u16, 0u16];
        assert(bpas@ =~= seq![0u16, 0u16, 0u16, 0u16]);
        let new_layer = BpcLayer { number_tiles: 1, bpas, chunk_tilemap_len: 1, tiles, tilemap };
        let moved = self.layers.remove(0);
        self.layers.insert(0, Py(new_layer));
        if self.layers.len() < 2 {
            self.layers.push(moved);
        } else {
            self.layers.set(1, moved);
        }
        Ok(())
    }

    /// Sets the tile count of BPA `bpa_index` (layer `bpa_index / 4`) and moves the tile map
    /// entries so they keep their tile (see `bpa_remap`).
    pub fn process_bpa_change(&mut self, bpa_index: usize, tiles_bpa_new: usize, py: Python) -> (r: PyResult<()>)
        requires
            bpa_index / 4 < old(self).layers@.len(),
            old(self).layers@[(bpa_index / 4) as int].0.tiles@.len() + 4 * 0xFFFF <= usize::MAX,
            forall|j: int| 0 <= j < old(self).layers@[(bpa_index / 4) as int].0.tilemap@.len() ==>
                #[trigger] old(self).layers@[(bpa_index / 4) as int].0.tilemap@[j].0.0 + tiles_bpa_new <= isize::MAX,
        ensures
            r is Ok,
            ({
                let li = bpa_index / 4;
                let bl = bpa_index % 4;
                let l0 = old(self).layers@[li as int].0;
                let l1 = final(self).layers@[li as int].0;
                let start = l0.tiles@.len() + bpa_sum(l0.bpas@, bl as nat);
                let old_end = start + l0.bpas@[bl as int];
                &&& only_layer_changed(*old(self), *final(self), li as int, l1)
                &&& l1.number_tiles == l0.number_tiles && l1.chunk_tilemap_len == l0.chunk_tilemap_len && l1.tiles@ == l0.tiles@
                &&& l1.bpas@ == l0.bpas@.update(bl as int, tiles_bpa_new as u16)
                &&& entry_views(l1.tilemap@) == Seq::new(
                    l0.tilemap@.len(),
                    |j: int| bpa_remap(l0.tilemap@[j].0, start, old_end, tiles_bpa_new as int),
                )
            }),
    {
        let li = bpa_index / 4;
        let bl = bpa_index % 4;
        let layer = li;
        let mut l = self.take_layer(li);
        let ghost l0 = l;
        let mut start: usize = l.tiles.len();
        let mut k: usize = 0;
        while k < bl
            invariant
                k <= bl,
                bl < 4,
                l == l0,
                l0.tiles@.len() + 4 * 0xFFFF <= usize::MAX,
                start == l0.tiles@.len() + bpa_sum(l0.bpas@, k as nat),
                bpa_sum(l0.bpas@, k as nat) <= 0xFFFF * k,
            decreases bl - k,
        {
            start = start + l.bpas[k] as usize;
            k = k + 1;
        }
        let old_count: usize = l.bpas[bl] as usize;
        let old_end: usize = start + old_count;
        let ghost goal = Seq::new(l0.tilemap@.len(), |j: int| bpa_remap(l0.tilemap@[j].0, start as int, old_end as int, tiles_bpa_new as int));
        let mut newmap: Vec<Py<TilemapEntry>> = Vec::new();
        let mut j: usize = 0;
        while j < l.tilemap.len()
            invariant
                j <= l.tilemap@.len(),
                l == l0,
                old_end == start + old_count,
                old_count <= 0xFFFF,
                forall|q: int| 0 <= q < l0.tilemap@.len() ==> #[trigger] l0.tilemap@[q].0.0 + tiles_bpa_new <= isize::MAX,
                goal == Seq::new(l0.tilemap@.len(), |q: int| bpa_remap(l0.tilemap@[q].0, start as int, old_end as int, tiles_bpa_new as int)),
                entry_views(newmap@) == goal.take(j as int),
            decreases l.tilemap@.len() - j,
        {
            let e = l.tilemap[j].0;
            let e2 = if e.0 > old_end {
                TilemapEntry(e.0 - old_count + tiles_bpa_new, e.1, e.2, e.3)
            } else if e.0 >= start && e.0 - start >= tiles_bpa_new {
                TilemapEntry(0, e.1, e.2, e.3)
            } else {
                e
            };
            let ghost v0 = newmap@;
            newmap.push(Py(e2));
            proof {
                crate::st_dpc::lemma_entry_views_push(v0, Py(e2));
                assert(goal.take(j as int + 1) =~= goal.take(j as int).push(e2));
            }
            j = j + 1;
        }
        assert(goal.take(l0.tilemap@.len() as int) == goal);
        l.tilemap = newmap;
        l.bpas[bl] = #[verifier::truncate] (tiles_bpa_new as u16);
        assert(l.bpas@ =~= l0.bpas@.update(bl as int, tiles_bpa_new as u16));
        let ghost mid = self.layers@[layer as int];
        self.put_layer(layer, l);
        proof {
            lemma_update_twice(old(self).layers@, layer as int, mid, Py(l));
        }
        Ok(())
    }

    /// The BPAs of a layer, out of the eight slots of a level (four per layer): fails where a
    /// slot's BPA does not have the tile count the layer records for it (0 for an empty slot).
    pub fn get_bpas_for_layer(&self, layer: usize, bpas: Vec<Option<InputBpa>>, py: Python) -> (r: PyResult<Vec<InputBpa>>)
        requires
            layer < self.layers@.len(),
            layer * 4 + 4 <= usize::MAX,
        ensures
            ({
                let l = self.layers@[layer as int].0;
                let s = layer * 4;
                let e = if s + 4 <= bpas@.len() { s + 4 } else if s <= bpas@.len() { bpas@.len() as int } else { s };
                let bad = exists|k: int| s <= k < e && #[trigger] slot_mismatch(l, bpas@[k], k - s);
                &&& (bad <==> r is Err)
                &&& (r matches Err(er) ==> er.kind == ErrorKind::AssertionError)
                &&& (r matches Ok(v) ==> v@ == somes(bpas@.subrange(s, e), e - s))
            }),
    {
        let l = &self.layers[layer].0;
        let s: usize = layer * 4;
        let n = bpas.len();
        let e: usize = if n >= s && n - s >= 4 { s + 4 } else if s <= n { n } else { s };
        let ghost bv = bpas@;
        if s >= n {
            return Ok(Vec::new());
        }
        let mut rest = bpas;
        rest.truncate(e);
        // Reverse the slots so that they can be taken from the back in order.
        let mut rev: Vec<Option<InputBpa>> = Vec::new();
        while rest.len() > s
            invariant
                s <= e,
                e <= bv.len(),
                rest@ == bv.subrange(0, rest@.len() as int),
                rest@.len() >= s,
                rest@.len() + rev@.len() == e,
                forall|q: int| 0 <= q < rev@.len() ==> #[trigger] rev@[q] == bv[e - 1 - q],
            decreases rest@.len(),
        {
            let x = rest.pop().unwrap();
            rev.push(x);
        }
        let mut out: Vec<InputBpa> = Vec::new();
        let mut k: usize = 0;
        while k < e - s
            invariant
                s <= e,
                e <= bv.len(),
                bv == bpas@,
                s == layer * 4,
                e == (if s + 4 <= bpas@.len() { s + 4 } else { bpas@.len() as int }),
                e - s <= 4,
                k <= e - s,
                rev@.len() == e - s - k,
                forall|q: int| 0 <= q < rev@.len() ==> #[trigger] rev@[q] == bv[e - 1 - q],
                forall|q: int| s <= q < s + k ==> !#[trigger] slot_mismatch(*l, bv[q], q - s),
                out@ == somes(bv.subrange(s as int, e as int), k as int),
                layer < self.layers@.len(),
                *l == self.layers@[layer as int].0,
            decreases e - s - k,
        {
            let slot = rev.pop().unwrap();
            assert(slot == bv[s + k]);
            assert(bv.subrange(s as int, e as int)[k as int] == bv[s + k]);
            match slot {
                None => {
                    if l.bpas[k] != 0 {
                        proof {
                            let q = (s + k) as int;
                            let ss = (layer * 4) as int;
                            assert(bv[q] == bpas@[q]);
                            assert(q - ss == k);
                            assert(*l == self.layers@[layer as int].0);
                            assert(slot_mismatch(self.layers@[layer as int].0, bpas@[q], q - ss));
                        }
                        let mut msg = String::from_str("BPA ");
                        crate::python::append_decimal(&mut msg, k);
                        msg.append(": ");
                        crate::python::append_decimal(&mut msg, l.bpas[k] as usize);
                        msg.append(" != 0");
                        return Err(crate::python::PyErr { kind: ErrorKind::AssertionError, value: msg, user_error: false });
                    }
                },
                Some(b) => {
                    let cnt = match b.0.get_number_of_tiles(py) {
                        Ok(c) => c,
                        Err(er) => return Err(er),
                    };
                    if l.bpas[k] != cnt {
                        proof {
                            let q = (s + k) as int;
                            let ss = (layer * 4) as int;
                            assert(bv[q] == bpas@[q]);
                            assert(q - ss == k);
                            assert(*l == self.layers@[layer as int].0);
                            assert(slot_mismatch(self.layers@[layer as int].0, bpas@[q], q - ss));
                        }
                        let mut msg = String::from_str("BPA ");
                        crate::python::append_decimal(&mut msg, k);
                        msg.append(": ");
                        crate::python::append_decimal(&mut msg, l.bpas[k] as usize);
                        msg.append(" != ");
                        crate::python::append_decimal(&mut msg, cnt as usize);
                        return Err(crate::python::PyErr { kind: ErrorKind::AssertionError, value: msg, user_error: false });
                    }
                    out.push(b);
                },
            }
            k = k + 1;
        }
        Ok(out)
    }
}

/// Whether a slot does not fit a layer's record of BPA `k`'s tile count.
pub open spec fn slot_mismatch(l: BpcLayer, slot: Option<InputBpa>, k: int) -> bool {
    match slot {
        None => l.bpas@[k] != 0,
        Some(b) => l.bpas@[k] != b.0.number_of_tiles,
    }
}

/// The BPAs in the first `k` slots.
pub open spec fn somes(v: Seq<Option<InputBpa>>, k: int) -> Seq<InputBpa>
    decreases k,
{
    if k <= 0 {
        Seq::<InputBpa>::empty()
    } else {
        match v[k - 1] {
            Some(b) => somes(v, k - 1).push(b),
            None => somes(v, k - 1),
        }
    }
}

/// The palettes' bytes one after the other.
pub open spec fn pal_bytes(p: Seq<StBytes>) -> Seq<u8> {
    concat_all(bytes_views(p))
}

/// The bytes of a list of buffers one after the other.
fn concat_stbytes(v: &Vec<StBytes>) -> (r: Vec<u8>)
    ensures
        r@ == pal_bytes(v@),
{
    let ghost t = bytes_views(v@);
    let mut out: Vec<u8> = Vec::new();
    let mut j: usize = 0;
    while j < v.len()
        invariant
            j <= v@.len(),
            t == bytes_views(v@),
            out@ == concat_all(t.take(j as int)),
        decreases v@.len() - j,
    {
        proof {
            assert(t.take(j as int + 1).drop_last() == t.take(j as int));
        }
        crate::bytes::push_all(&mut out, v[j].as_slice());
        j = j + 1;
    }
    assert(t.take(v@.len() as int) == t);
    out
}

/// The tile map entries of a layer.
fn layer_entries(m: &Vec<Py<TilemapEntry>>, start: usize, count: usize) -> (r: Vec<TilemapEntry>)
    requires
        start + count <= m@.len(),
    ensures
        r@ == entry_views(m@).subrange(start as int, start + count),
{
    let mut out: Vec<TilemapEntry> = Vec::new();
    let mut i = start;
    let ml = m.len();
    let end = start + count;
    while i < end
        invariant
            end == start + count,
            start <= i <= start + count <= m@.len(),
            out@ == entry_views(m@).subrange(start as int, i as int),
        decreases end - i,
    {
        out.push(m[i].0);
        i = i + 1;
        assert(out@ =~= entry_views(m@).subrange(start as int, i as int));
    }
    out
}

impl Bpc {
    /// All chunks of a layer side by side, `width_in_mtiles` per row; the image's palette is all
    /// palettes one after the other.
    pub fn chunks_to_pil(&self, layer_id: usize, palettes: Vec<StBytes>, width_in_mtiles: usize, py: Python) -> (r: IndexedImage)
        requires
            layer_id < self.layers@.len(),
            width_in_mtiles > 0,
            width_in_mtiles * self.tiling_width * 8 <= usize::MAX,
            t2n_ok(
                layer_map(*self, layer_id as int),
                tile_pixels(bytes_views(self.layers@[layer_id as int].0.tiles@)),
                8,
                width_in_mtiles * self.tiling_width * 8,
                tile_rows(self.layers@[layer_id as int].0.chunk_tilemap_len as int, width_in_mtiles as int) * self.tiling_height * 8,
                self.tiling_width as int,
            ),
        ensures
            r.0.1 == width_in_mtiles * self.tiling_width * 8,
            r.0.2 == tile_rows(self.layers@[layer_id as int].0.chunk_tilemap_len as int, width_in_mtiles as int) * self.tiling_height * 8,
            r.1@ == pal_bytes(palettes@),
            r.0.0@ == write_chunks(
                Seq::new((r.0.1 * r.0.2) as nat, |p: int| 0u8),
                layer_map(*self, layer_id as int),
                tile_pixels(bytes_views(self.layers@[layer_id as int].0.tiles@)),
                layer_map(*self, layer_id as int).len(),
                8,
                r.0.1 as int,
                self.tiling_width as int,
            ),
    {
        let pal = concat_stbytes(&palettes);
        self.chunks_image(layer_id, &self.layers[layer_id].0.tiles, &pal, width_in_mtiles)
    }

    /// All chunks of a layer side by side, drawn with `tiles` in place of the layer's tiles.
    fn chunks_image(&self, layer_id: usize, tiles: &Vec<StBytes>, pal: &Vec<u8>, width_in_mtiles: usize) -> (r: IndexedImage)
        requires
            layer_id < self.layers@.len(),
            width_in_mtiles > 0,
            width_in_mtiles * self.tiling_width * 8 <= usize::MAX,
            t2n_ok(
                layer_map(*self, layer_id as int),
                tile_pixels(bytes_views(tiles@)),
                8,
                width_in_mtiles * self.tiling_width * 8,
                tile_rows(self.layers@[layer_id as int].0.chunk_tilemap_len as int, width_in_mtiles as int) * self.tiling_height * 8,
                self.tiling_width as int,
            ),
        ensures
            r.0.1 == width_in_mtiles * self.tiling_width * 8,
            r.0.2 == tile_rows(self.layers@[layer_id as int].0.chunk_tilemap_len as int, width_in_mtiles as int) * self.tiling_height * 8,
            r.1@ == pal@,
            r.0.0@ == write_chunks(
                Seq::new((r.0.1 * r.0.2) as nat, |p: int| 0u8),
                layer_map(*self, layer_id as int),
                tile_pixels(bytes_views(tiles@)),
                layer_map(*self, layer_id as int).len(),
                8,
                r.0.1 as int,
                self.tiling_width as int,
            ),
    {
        let l = &self.layers[layer_id].0;
        let tw = self.tiling_width as usize;
        let th = self.tiling_height as usize;
        let width: usize = width_in_mtiles * tw * 8;
        let n = l.chunk_tilemap_len as usize;
        let rows: usize = if n == 0 { 0 } else { (n - 1) / width_in_mtiles + 1 };
        proof {
            let wi = width_in_mtiles as int;
            if n == 0 {
                assert(tile_rows(0, wi) == 0) by (nonlinear_arith)
                    requires wi > 0;
            } else {
                assert(tile_rows(n as int, wi) == (n - 1) / wi + 1) by (nonlinear_arith)
                    requires wi > 0, n >= 1;
            }
            assert(rows <= 0xFFFF) by (nonlinear_arith)
                requires rows == tile_rows(n as int, wi), n <= 0xFFFF, wi >= 1;
            assert(rows * th * 8 <= 0xFFFF * 0xFFFF * 8) by (nonlinear_arith)
                requires rows <= 0xFFFF, th <= 0xFFFF;
        }
        assert(tw >= 1);
        assert(width >= 1) by (nonlinear_arith)
            requires width == width_in_mtiles * tw * 8, width_in_mtiles >= 1, tw >= 1;
        assert(rows * th * 8 <= usize::MAX) by (nonlinear_arith)
            requires
                width * (rows * th * 8) <= usize::MAX,
                width >= 1,
                rows * th * 8 >= 0;
        let height: usize = rows * th * 8;
        let entries = layer_entries(&l.tilemap, 0, l.tilemap.len());
        assert(entry_views(l.tilemap@).subrange(0, l.tilemap@.len() as int) == entry_views(l.tilemap@));
        let tiledata = PixelGenerator::tiled4bpp(tiles.as_slice());
        assert(streams(tiledata@) =~= tile_pixels(bytes_views(tiles@)));
        match TiledImage::tiled_to_native(entries.as_slice(), tiledata.as_slice(), pal.as_slice(), 8, width, height, tw) {
            Ok(img) => img,
            Err(_) => {
                proof {
                    assert(false);
                }
                IndexedImage(crate::image::Raster::new(0, 0), StBytes(Vec::new()))
            },
        }
    }

    /// One chunk of a layer as an image (at most 9 of its entries); see `chunks_to_pil`.
    pub fn single_chunk_to_pil(&self, layer_id: usize, chunk_idx: usize, palettes: Vec<StBytes>, py: Python) -> (r: IndexedImage)
        requires
            layer_id < self.layers@.len(),
            chunk_idx * (self.tiling_width * self.tiling_height) <= self.layers@[layer_id as int].0.tilemap@.len(),
            t2n_ok(
                bpc_chunk_entries(layer_map(*self, layer_id as int), chunk_idx * (self.tiling_width * self.tiling_height)),
                tile_pixels(bytes_views(self.layers@[layer_id as int].0.tiles@)),
                8,
                8 * self.tiling_width,
                8 * self.tiling_height,
                self.tiling_width as int,
            ),
        ensures
            r.0.1 == 8 * self.tiling_width,
            r.0.2 == 8 * self.tiling_height,
            r.1@ == pal_bytes(palettes@),
            r.0.0@ == write_chunks(
                Seq::new((r.0.1 * r.0.2) as nat, |p: int| 0u8),
                bpc_chunk_entries(layer_map(*self, layer_id as int), chunk_idx * (self.tiling_width * self.tiling_height)),
                tile_pixels(bytes_views(self.layers@[layer_id as int].0.tiles@)),
                bpc_chunk_entries(layer_map(*self, layer_id as int), chunk_idx * (self.tiling_width * self.tiling_height)).len(),
                8,
                r.0.1 as int,
                self.tiling_width as int,
            ),
    {
        let pal = concat_stbytes(&palettes);
        self.single_chunk_image(layer_id, chunk_idx, &self.layers[layer_id].0.tiles, &pal)
    }

    /// One chunk of a layer as an image, drawn with `tiles` in place of the layer's tiles.
    fn single_chunk_image(&self, layer_id: usize, chunk_idx: usize, tiles: &Vec<StBytes>, pal: &Vec<u8>) -> (r: IndexedImage)
        requires
            layer_id < self.layers@.len(),
            chunk_idx * (self.tiling_width * self.tiling_height) <= self.layers@[layer_id as int].0.tilemap@.len(),
            t2n_ok(
                bpc_chunk_entries(layer_map(*self, layer_id as int), chunk_idx * (self.tiling_width * self.tiling_height)),
                tile_pixels(bytes_views(tiles@)),
                8,
                8 * self.tiling_width,
                8 * self.tiling_height,
                self.tiling_width as int,
            ),
        ensures
            r.0.1 == 8 * self.tiling_width,
            r.0.2 == 8 * self.tiling_height,
            r.1@ == pal@,
            r.0.0@ == write_chunks(
                Seq::new((r.0.1 * r.0.2) as nat, |p: int| 0u8),
                bpc_chunk_entries(layer_map(*self, layer_id as int), chunk_idx * (self.tiling_width * self.tiling_height)),
                tile_pixels(bytes_views(tiles@)),
                bpc_chunk_entries(layer_map(*self, layer_id as int), chunk_idx * (self.tiling_width * self.tiling_height)).len(),
                8,
                r.0.1 as int,
                self.tiling_width as int,
            ),
    {
        let l = &self.layers[layer_id].0;
        let tw = self.tiling_width as usize;
        let th = self.tiling_height as usize;
        assert(tw * th <= 0xFFFF_FFFF) by (nonlinear_arith)
            requires tw <= 0xFFFF, th <= 0xFFFF;
        let dim: usize = tw * th;
        let len = l.tilemap.len();
        let start: usize = chunk_idx * dim;
        let count: usize = if len - start >= 9 { 9 } else { len - start };
        let entries = layer_entries(&l.tilemap, start, count);
        let tiledata = PixelGenerator::tiled4bpp(tiles.as_slice());
        assert(streams(tiledata@) =~= tile_pixels(bytes_views(tiles@)));
        match TiledImage::tiled_to_native(entries.as_slice(), tiledata.as_slice(), pal.as_slice(), 8, 8 * tw, 8 * th, tw) {
            Ok(img) => img,
            Err(_) => {
                proof {
                    assert(false);
                }
                IndexedImage(crate::image::Raster::new(0, 0), StBytes(Vec::new()))
            },
        }
    }

    /// All tiles of a layer side by side, `width_in_tiles` per row, each with palette
    /// `single_palette` where given, else with the palette of the first entry placing it.
    pub fn tiles_to_pil(&self, layer_id: usize, palettes: Vec<StBytes>, width_in_tiles: usize, single_palette: Option<u8>, py: Python) -> (r: IndexedImage)
        requires
            layer_id < self.layers@.len(),
            self.layers@[layer_id as int].0.number_tiles < 0xFFFF,
            width_in_tiles > 0,
            width_in_tiles * 8 <= usize::MAX,
            t2n_ok(
                bpc_tile_entries(layer_map(*self, layer_id as int), (self.layers@[layer_id as int].0.number_tiles + 1) as nat, single_palette),
                tile_pixels(bytes_views(self.layers@[layer_id as int].0.tiles@)),
                8,
                width_in_tiles * 8,
                tile_rows(self.layers@[layer_id as int].0.number_tiles + 1, width_in_tiles as int) * 8,
                1,
            ),
        ensures
            r.0.1 == width_in_tiles * 8,
            r.0.2 == tile_rows(self.layers@[layer_id as int].0.number_tiles + 1, width_in_tiles as int) * 8,
            r.1@ == pal_bytes(palettes@),
            r.0.0@ == write_chunks(
                Seq::new((r.0.1 * r.0.2) as nat, |p: int| 0u8),
                bpc_tile_entries(layer_map(*self, layer_id as int), (self.layers@[layer_id as int].0.number_tiles + 1) as nat, single_palette),
                tile_pixels(bytes_views(self.layers@[layer_id as int].0.tiles@)),
                (self.layers@[layer_id as int].0.number_tiles + 1) as nat,
                8,
                r.0.1 as int,
                1,
            ),
    {
        let n: usize = self.layers[layer_id].0.number_tiles as usize + 1;
        let ghost goal = bpc_tile_entries(layer_map(*self, layer_id as int), n as nat, single_palette);
        let mut entries: Vec<TilemapEntry> = Vec::new();
        let mut i: usize = 0;
        while i < n
            invariant
                i <= n,
                layer_id < self.layers@.len(),
                goal == bpc_tile_entries(layer_map(*self, layer_id as int), n as nat, single_palette),
                entries@ == goal.take(i as int),
            decreases n - i,
        {
            let p: u8 = match single_palette {
                None => self.get_palette_for_tile(layer_id, i, py),
                Some(p) => p,
            };
            entries.push(TilemapEntry(i, false, false, p));
            i = i + 1;
            assert(entries@ =~= goal.take(i as int));
        }
        assert(goal.take(n as int) == goal);
        let width: usize = width_in_tiles * 8;
        let rows: usize = (n - 1) / width_in_tiles + 1;
        proof {
            let wi = width_in_tiles as int;
            assert(tile_rows(n as int, wi) == (n - 1) / wi + 1) by (nonlinear_arith)
                requires wi > 0, n >= 1;
            assert(rows <= 0xFFFF) by (nonlinear_arith)
                requires rows == (n - 1) / wi + 1, n <= 0xFFFF, wi >= 1;
        }
        let height: usize = rows * 8;
        let l = &self.layers[layer_id].0;
        let tiledata = PixelGenerator::tiled4bpp(l.tiles.as_slice());
        assert(streams(tiledata@) =~= tile_pixels(bytes_views(l.tiles@)));
        let pal = concat_stbytes(&palettes);
        match TiledImage::tiled_to_native(entries.as_slice(), tiledata.as_slice(), pal.as_slice(), 8, width, height, 1) {
            Ok(img) => img,
            Err(_) => {
                proof {
                    assert(false);
                }
                IndexedImage(crate::image::Raster::new(0, 0), StBytes(Vec::new()))
            },
        }
    }

    /// Replaces the tiles of a layer with those of an image (see
    /// `TiledImage::native_to_tiled_seq`); tile maps are kept.
    pub fn pil_to_tiles(&mut self, layer_id: usize, image: IndexedImage, py: Python) -> (r: PyResult<()>)
        requires
            layer_id < old(self).layers@.len(),
            crate::st_bpa::image_ok(image),
            crate::st_bpa::image_tiles(image).len() >= 1,
        ensures
            (crate::st_bpa::image_tiles(image).len() > 1024) <==> r is Err,
            r is Err ==> *final(self) == *old(self),
            r is Ok ==> ({
                let l0 = old(self).layers@[layer_id as int].0;
                let l1 = final(self).layers@[layer_id as int].0;
                &&& only_layer_changed(*old(self), *final(self), layer_id as int, l1)
                &&& l1.bpas == l0.bpas && l1.chunk_tilemap_len == l0.chunk_tilemap_len && l1.tilemap@ == l0.tilemap@
                &&& bytes_views(l1.tiles@) == crate::st_bpa::image_tiles(image)
                &&& l1.number_tiles == (crate::st_bpa::image_tiles(image).len() - 1) as u16
            }),
    {
        let w = image.0.1;
        let h = image.0.2;
        let ghost ft = crate::st_bpa::image_tiles(image);
        let (tiles, _pal) = match TiledImage::native_to_tiled_seq(image, BPC_TILE_DIM, w, h) {
            Ok(t) => t,
            Err(e) => return Err(e),
        };
        let mut out: Vec<StBytes> = Vec::new();
        let mut i: usize = 0;
        while i < tiles.len()
            invariant
                i <= tiles@.len(),
                out@.len() == i,
                forall|k: int| 0 <= k < i ==> #[trigger] out@[k]@ == tiles@[k]@,
            decreases tiles@.len() - i,
        {
            out.push(StBytes(tiles[i].clone()));
            i = i + 1;
        }
        assert(bytes_views(out@) =~= Seq::new(tiles@.len(), |k: int| tiles@[k]@));
        let layer = layer_id;
        let mut l = self.take_layer(layer_id);
        let n = out.len();
        l.tiles = out;
        l.number_tiles = #[verifier::truncate] ((n - 1) as u16);
        let ghost mid = self.layers@[layer as int];
        self.put_layer(layer, l);
        proof {
            lemma_update_twice(old(self).layers@, layer as int, mid, Py(l));
        }
        Ok(())
    }

    /// Replaces tiles and tile map of a layer with those of an image (see
    /// `TiledImage::native_to_tiled`, chunks of `tiling_width` tiles) and returns the image's
    /// palette in pieces of 16 bytes.
    pub fn pil_to_chunks(&mut self, layer_id: usize, image: IndexedImage, force_import: bool, py: Python) -> (r: PyResult<Vec<StBytes>>)
        requires
            layer_id < old(self).layers@.len(),
            old(self).tiling_width > 0,
            old(self).tiling_height > 0,
            nt_ok(image.0.0@.len() as int, image.0.1 as int, image.0.2 as int, 8, old(self).tiling_width as int, 16, 0),
            bpc_chunk_tiles(image, old(self).tiling_width as int).len() >= 1,
        ensures
            (bpc_chunk_tiles(image, old(self).tiling_width as int).len() > 1024) <==> r is Err,
            r is Err ==> *final(self) == *old(self),
            r matches Ok(pals) ==> ({
                let l0 = old(self).layers@[layer_id as int].0;
                let l1 = final(self).layers@[layer_id as int].0;
                let ft = bpc_chunk_tiles(image, old(self).tiling_width as int);
                let es = bpc_chunk_map(image, old(self).tiling_width as int);
                &&& only_layer_changed(*old(self), *final(self), layer_id as int, l1)
                &&& l1.bpas == l0.bpas
                &&& bytes_views(l1.tiles@) == ft
                &&& entry_views(l1.tilemap@) == es
                &&& l1.number_tiles == (ft.len() - 1) as u16
                &&& l1.chunk_tilemap_len == (es.len() as u16) / old(self).tiling_width / old(self).tiling_height
                &&& bytes_views(pals@) == pal16(image.1@)
            }),
    {
        let w = image.0.1;
        let h = image.0.2;
        let tw = self.tiling_width;
        let th = self.tiling_height;
        let (tiles, palettes, tilemap) = match TiledImage::native_to_tiled(image, 16, BPC_TILE_DIM, w, h, tw as usize, 0) {
            Ok(t) => t,
            Err(e) => return Err(e),
        };
        let mut out: Vec<StBytes> = Vec::new();
        let mut i: usize = 0;
        while i < tiles.len()
            invariant
                i <= tiles@.len(),
                out@.len() == i,
                forall|k: int| 0 <= k < i ==> #[trigger] out@[k]@ == tiles@[k]@,
            decreases tiles@.len() - i,
        {
            out.push(StBytes(tiles[i].clone()));
            i = i + 1;
        }
        assert(bytes_views(out@) =~= Seq::new(tiles@.len(), |k: int| tiles@[k]@));
        let mut map: Vec<Py<TilemapEntry>> = Vec::new();
        let mut j: usize = 0;
        while j < tilemap.len()
            invariant
                j <= tilemap@.len(),
                entry_views(map@) == tilemap@.take(j as int),
            decreases tilemap@.len() - j,
        {
            let ghost v0 = map@;
            map.push(Py(tilemap[j]));
            proof {
                crate::st_dpc::lemma_entry_views_push(v0, Py(tilemap@[j as int]));
                assert(tilemap@.take(j as int + 1) =~= tilemap@.take(j as int).push(tilemap@[j as int]));
            }
            j = j + 1;
        }
        assert(tilemap@.take(tilemap@.len() as int) == tilemap@);
        let pn = palettes.len();
        let mut pals: Vec<StBytes> = Vec::new();
        let mut start: usize = 0;
        while start < pn
            invariant
                pn == palettes@.len(),
                start <= pn,
                start < pn ==> start % 16 == 0,
                pals@.len() == (start + 15) / 16,
                forall|c: int| 0 <= c < pals@.len() ==> #[trigger] pals@[c]@ == pal16(palettes@)[c],
            decreases pn - start,
        {
            let end: usize = if pn - start >= 16 { start + 16 } else { pn };
            let ch = crate::bytes::copy_range(palettes.as_slice(), start, end);
            assert(ch@ == window(palettes@, 16 * (pals@.len() as int), 16));
            pals.push(StBytes(ch));
            start = end;
        }
        assert(bytes_views(pals@) =~= pal16(palettes@));
        let layer = layer_id;
        let mut l = self.take_layer(layer_id);
        let n = out.len();
        let mlen = map.len();
        l.tiles = out;
        l.tilemap = map;
        l.number_tiles = #[verifier::truncate] ((n - 1) as u16);
        l.chunk_tilemap_len = (#[verifier::truncate] (mlen as u16)) / tw / th;
        let ghost mid = self.layers@[layer as int];
        self.put_layer(layer, l);
        proof {
            lemma_update_twice(old(self).layers@, layer as int, mid, Py(l));
        }
        Ok(pals)
    }
}

/// At most 9 entries of a tile map from `start` on.
pub open spec fn bpc_chunk_entries(m: Seq<TilemapEntry>, start: int) -> Seq<TilemapEntry> {
    if start + 9 <= m.len() {
        m.subrange(start, start + 9)
    } else {
        m.subrange(start, m.len() as int)
    }
}

/// The tiles, and the tile map, that cutting an image into chunks of `cd` tiles gives.
pub open spec fn bpc_chunk_tiles(img: IndexedImage, cd: int) -> Seq<Seq<u8>> {
    let (w, h) = (img.0.1 as int, img.0.2 as int);
    let n = ((w * h) / 8 / 8) as nat;
    dedup(nt_run(img.0.0@, img.0.0@.len(), n, 0, 16, 8, w, cd), 8, n).0
}

pub open spec fn bpc_chunk_map(img: IndexedImage, cd: int) -> Seq<TilemapEntry> {
    let (w, h) = (img.0.1 as int, img.0.2 as int);
    let n = ((w * h) / 8 / 8) as nat;
    dedup(nt_run(img.0.0@, img.0.0@.len(), n, 0, 16, 8, w, cd), 8, n).2
}

/// The frame a BPA shows after `f` steps: `f` modulo its number of frames (the first where it
/// has none).
pub open spec fn frame_of(b: InputBpa, f: int) -> int {
    let n = b.0.number_of_frames as int;
    if n == 0 {
        0
    } else {
        f % n
    }
}

/// The tiles of the frame a BPA shows after `f` steps.
pub open spec fn bpa_frame_tiles(b: InputBpa, f: int) -> Seq<Seq<u8>> {
    let nt = b.0.number_of_tiles as int;
    let k = frame_of(b, f);
    bytes_views(b.0.tiles@).subrange(k * nt, (k + 1) * nt)
}

/// A layer's tiles followed by the tiles of frame `f` of each of the first `k` BPAs.
pub open spec fn anim_tiles(base: Seq<Seq<u8>>, bs: Seq<InputBpa>, f: int, k: nat) -> Seq<Seq<u8>>
    decreases k,
{
    if k == 0 {
        base
    } else {
        anim_tiles(base, bs, f, (k - 1) as nat) + bpa_frame_tiles(bs[k - 1], f)
    }
}

/// Whether every frame of a BPA can be taken: it has frames, and they are all there.
pub open spec fn bpa_frames_ok(b: InputBpa) -> bool {
    let n = b.0.number_of_frames as int;
    let nt = b.0.number_of_tiles as int;
    &&& n > 0
    &&& n * nt <= 0xFFFF
    &&& n * nt <= b.0.tiles@.len()
}

/// Whether after `g` steps every BPA is back at its first frame.
pub open spec fn all_at_start(bs: Seq<InputBpa>, g: int) -> bool {
    forall|j: int| 0 <= j < bs.len() ==> frame_of(#[trigger] bs[j], g) == 0
}

/// Whether `n` is the first positive number of steps after which every BPA is back at its
/// first frame (the least common multiple of their frame counts).
pub open spec fn anim_len(bs: Seq<InputBpa>, n: int) -> bool {
    &&& n > 0
    &&& all_at_start(bs, n)
    &&& forall|g: int| 0 < g < n ==> !#[trigger] all_at_start(bs, g)
}

/// The product of the frame counts of the first `k` BPAs.
pub open spec fn frames_prod(bs: Seq<InputBpa>, k: nat) -> int
    decreases k,
{
    if k == 0 {
        1
    } else {
        frames_prod(bs, (k - 1) as nat) * (if bs[k - 1].0.number_of_frames == 0 { 1 } else { bs[k - 1].0.number_of_frames as int })
    }
}

/// The end of the (at most four) BPA slots of a layer that start at `s`.
pub open spec fn layer_slot_end(n: int, s: int) -> int {
    if s + 4 <= n {
        s + 4
    } else if s <= n {
        n
    } else {
        s
    }
}

/// Whether a BPA slot of the layer does not match the tile count the layer records for it.
pub open spec fn layer_bpas_bad(l: BpcLayer, bpas: Seq<Option<InputBpa>>, s: int) -> bool {
    exists|k: int| s <= k < layer_slot_end(bpas.len() as int, s) && #[trigger] slot_mismatch(l, bpas[k], k - s)
}

/// The BPAs of the layer's slots that start at `s`.
pub open spec fn layer_bpas(bpas: Seq<Option<InputBpa>>, s: int) -> Seq<InputBpa> {
    let e = layer_slot_end(bpas.len() as int, s);
    somes(bpas.subrange(s, e), e - s)
}

/// Whether a layer draws BPA tiles at all: some slots are given and the layer records tiles
/// for one of its four BPAs.
pub open spec fn uses_bpas(l: BpcLayer, bpas: Seq<Option<InputBpa>>) -> bool {
    bpas.len() > 0 && exists|k: int| 0 <= k < 4 && #[trigger] l.bpas@[k] > 0
}

/// Whether the chunks of layer `l` can be drawn with `tiles`, `wim` chunks per row.
pub open spec fn chunks_drawable(b: Bpc, l: int, tiles: Seq<Seq<u8>>, wim: int) -> bool {
    t2n_ok(
        layer_map(b, l),
        tile_pixels(tiles),
        8,
        wim * b.tiling_width * 8,
        tile_rows(b.layers@[l].0.chunk_tilemap_len as int, wim) * b.tiling_height * 8,
        b.tiling_width as int,
    )
}

/// Whether `img` shows the chunks of layer `l` drawn with `tiles`, `wim` chunks per row, with
/// palette `pal`.
pub open spec fn is_chunks_image(b: Bpc, l: int, tiles: Seq<Seq<u8>>, pal: Seq<u8>, wim: int, img: IndexedImage) -> bool {
    let w = wim * b.tiling_width * 8;
    let h = tile_rows(b.layers@[l].0.chunk_tilemap_len as int, wim) * b.tiling_height * 8;
    &&& img.0.1 == w
    &&& img.0.2 == h
    &&& img.1@ == pal
    &&& img.0.0@ == write_chunks(
        Seq::new((w * h) as nat, |p: int| 0u8),
        layer_map(b, l),
        tile_pixels(tiles),
        layer_map(b, l).len(),
        8,
        w,
        b.tiling_width as int,
    )
}

proof fn lemma_frames_prod(bs: Seq<InputBpa>, k: nat)
    requires
        k <= bs.len(),
    ensures
        frames_prod(bs, k) > 0,
        forall|j: int| 0 <= j < k ==> frame_of(#[trigger] bs[j], frames_prod(bs, k)) == 0,
    decreases k,
{
    if k > 0 {
        lemma_frames_prod(bs, (k - 1) as nat);
        let p = frames_prod(bs, (k - 1) as nat);
        let n = if bs[k - 1].0.number_of_frames == 0 { 1 } else { bs[k - 1].0.number_of_frames as int };
        assert(p * n > 0) by (nonlinear_arith)
            requires p > 0, n > 0;
        assert forall|j: int| 0 <= j < k implies frame_of(#[trigger] bs[j], frames_prod(bs, k)) == 0 by {
            let m = bs[j].0.number_of_frames as int;
            if m > 0 {
                if j < k - 1 {
                    assert(p % m == 0);
                    assert(p == m * (p / m)) by (nonlinear_arith)
                        requires p % m == 0, m > 0;
                    let c = (p / m) * n;
                    assert(p * n == c * m) by (nonlinear_arith)
                        requires p == m * (p / m), c == (p / m) * n;
                    vstd::arithmetic::div_mod::lemma_mod_multiples_basic(c, m);
                } else {
                    vstd::arithmetic::div_mod::lemma_mod_multiples_basic(p, n);
                    assert(p * n == n * p) by (nonlinear_arith);
                }
            }
        }
    }
}

proof fn lemma_mod_step(f: int, n: int, a: int)
    requires
        f >= 0,
        n > 0,
        a == f % n,
    ensures
        0 <= a < n,
        (a + 1 < n ==> (f + 1) % n == a + 1),
        (a + 1 == n ==> (f + 1) % n == 0),
{
    assert(0 <= a < n && f == n * (f / n) + a) by (nonlinear_arith)
        requires n > 0, a == f % n;
    if a + 1 < n {
        assert((f + 1) % n == a + 1) by (nonlinear_arith)
            requires n > 0, f + 1 == n * (f / n) + (a + 1), 0 <= a + 1 < n;
    } else {
        let c = f / n + 1;
        assert(f + 1 == c * n) by (nonlinear_arith)
            requires f == n * (f / n) + a, a + 1 == n, c == f / n + 1;
        vstd::arithmetic::div_mod::lemma_mod_multiples_basic(c, n);
    }
}

impl Bpc {
    /// The chunks of a layer with its BPA tiles drawn in, one image per animation step (see
    /// `chunks_to_pil`): where the layer draws no BPA tiles, the one image of its chunks; else
    /// step `f` draws frame `f` of each BPA after the layer's tiles, until all BPAs are back at
    /// their first frame. Fails where a BPA slot does not match the layer.
    pub fn chunks_animated_to_pil(
        &self,
        layer: u8,
        palettes: Vec<StBytes>,
        bpas: Vec<Option<InputBpa>>,
        width_in_mtiles: usize,
        py: Python,
    ) -> (r: PyResult<Vec<IndexedImage>>)
        requires
            (layer as int) < self.layers@.len(),
            width_in_mtiles > 0,
            width_in_mtiles * self.tiling_width * 8 <= usize::MAX,
            chunks_drawable(*self, layer as int, bytes_views(self.layers@[layer as int].0.tiles@), width_in_mtiles as int),
            uses_bpas(self.layers@[layer as int].0, bpas@) && !layer_bpas_bad(self.layers@[layer as int].0, bpas@, layer * 4) ==> {
                let used = layer_bpas(bpas@, layer * 4);
                &&& forall|j: int| 0 <= j < used.len() ==> bpa_frames_ok(#[trigger] used[j])
                &&& forall|f: int|
                    0 <= f ==> #[trigger] chunks_drawable(
                        *self,
                        layer as int,
                        anim_tiles(bytes_views(self.layers@[layer as int].0.tiles@), used, f, used.len()),
                        width_in_mtiles as int,
                    )
            },
        ensures
            ({
                let l = self.layers@[layer as int].0;
                let base = bytes_views(l.tiles@);
                let used = layer_bpas(bpas@, layer * 4);
                let pal = pal_bytes(palettes@);
                let w = width_in_mtiles as int;
                &&& !uses_bpas(l, bpas@) ==> (r matches Ok(v) && v@.len() == 1 && is_chunks_image(*self, layer as int, base, pal, w, v@[0]))
                &&& uses_bpas(l, bpas@) ==> (r is Err <==> layer_bpas_bad(l, bpas@, layer * 4))
                &&& uses_bpas(l, bpas@) ==> (r matches Err(e) ==> e.kind == ErrorKind::AssertionError)
                &&& uses_bpas(l, bpas@) ==> (r matches Ok(v) ==> anim_len(used, v@.len() as int) && forall|f: int|
                    0 <= f < v@.len() ==> is_chunks_image(*self, layer as int, anim_tiles(base, used, f, used.len()), pal, w, #[trigger] v@[f]))
            }),
    {
        let li = layer as usize;
        let l = &self.layers[li].0;
        let pal = concat_stbytes(&palettes);
        let ghost base = bytes_views(l.tiles@);
        let mut using = false;
        if bpas.len() > 0 {
            let mut k: usize = 0;
            while k < 4
                invariant
                    k <= 4,
                    using <==> exists|q: int| 0 <= q < k && #[trigger] l.bpas@[q] > 0,
                decreases 4 - k,
            {
                if l.bpas[k] > 0 {
                    using = true;
                }
                k = k + 1;
            }
        }
        if !using {
            let img = self.chunks_image(li, &l.tiles, &pal, width_in_mtiles);
            let mut v: Vec<IndexedImage> = Vec::new();
            v.push(img);
            return Ok(v);
        }
        let ghost bv = bpas@;
        let used = match self.get_bpas_for_layer(li, bpas, py) {
            Ok(v) => v,
            Err(e) => return Err(e),
        };
        assert(used@ == layer_bpas(bv, layer * 4));
        let nb = used.len();
        proof {
            lemma_frames_prod(used@, nb as nat);
        }
        let ghost total = frames_prod(used@, nb as nat);
        let mut idx: Vec<u16> = Vec::new();
        let mut j: usize = 0;
        while j < nb
            invariant
                j <= nb,
                idx@.len() == j,
                forall|q: int| 0 <= q < j ==> idx@[q] == 0,
            decreases nb - j,
        {
            idx.push(0);
            j = j + 1;
        }
        let mut frames: Vec<IndexedImage> = Vec::new();
        let ghost mut f: int = 0;
        loop
            invariant_except_break
                li == layer as usize,
                *l == self.layers@[li as int].0,
                base == bytes_views(l.tiles@),
                (layer as int) < self.layers@.len(),
                width_in_mtiles > 0,
                width_in_mtiles * self.tiling_width * 8 <= usize::MAX,
                nb == used@.len(),
                used@ == layer_bpas(bv, layer * 4),
                pal@ == pal_bytes(palettes@),
                forall|q: int| 0 <= q < used@.len() ==> bpa_frames_ok(#[trigger] used@[q]),
                forall|g: int|
                    0 <= g ==> #[trigger] chunks_drawable(*self, layer as int, anim_tiles(base, used@, g, used@.len()), width_in_mtiles as int),
                total > 0,
                all_at_start(used@, total),
                0 <= f < total,
                idx@.len() == nb,
                forall|q: int| 0 <= q < nb ==> #[trigger] idx@[q] == f % (used@[q].0.number_of_frames as int),
                frames@.len() == f,
                forall|g: int| 0 <= g < f ==> is_chunks_image(*self, layer as int, anim_tiles(base, used@, g, used@.len()), pal@, width_in_mtiles as int, #[trigger] frames@[g]),
                forall|g: int| 0 < g <= f ==> !#[trigger] all_at_start(used@, g),
            ensures
                anim_len(used@, frames@.len() as int),
                forall|g: int| 0 <= g < frames@.len() ==> is_chunks_image(*self, layer as int, anim_tiles(base, used@, g, used@.len()), pal@, width_in_mtiles as int, #[trigger] frames@[g]),
            decreases total - f,
        {
            let mut ext: Vec<StBytes> = Vec::new();
            let mut i: usize = 0;
            while i < l.tiles.len()
                invariant
                    i <= l.tiles@.len(),
                    bytes_views(ext@) == bytes_views(l.tiles@).take(i as int),
                decreases l.tiles@.len() - i,
            {
                let tb = l.tiles[i].clone();
                let ghost e0 = ext@;
                ext.push(tb);
                proof {
                    crate::st_dpci::lemma_bytes_views_push(e0, tb);
                    assert(bytes_views(l.tiles@).take(i + 1) =~= bytes_views(l.tiles@).take(i as int).push(l.tiles@[i as int]@));
                }
                i = i + 1;
            }
            assert(bytes_views(l.tiles@).take(l.tiles@.len() as int) =~= base);
            let mut b: usize = 0;
            while b < nb
                invariant
                    b <= nb,
                    nb == used@.len(),
                    idx@.len() == nb,
                    forall|q: int| 0 <= q < nb ==> #[trigger] idx@[q] == f % (used@[q].0.number_of_frames as int),
                    forall|q: int| 0 <= q < used@.len() ==> bpa_frames_ok(#[trigger] used@[q]),
                    f >= 0,
                    bytes_views(ext@) == anim_tiles(base, used@, f, b as nat),
                decreases nb - b,
            {
                let bp = &used[b].0;
                let fr = idx[b];
                proof {
                    assert(bpa_frames_ok(used@[b as int]));
                    assert(idx@[b as int] == f % (used@[b as int].0.number_of_frames as int));
                    let n = bp.number_of_frames as int;
                    let nt = bp.number_of_tiles as int;
                    lemma_mod_step(f, n, fr as int);
                    assert((fr + 1) * nt <= n * nt) by (nonlinear_arith)
                        requires fr + 1 <= n, nt >= 0;
                }
                let ft = bp.tiles_for_frame(fr);
                let mut q: usize = 0;
                let ghost e0 = bytes_views(ext@);
                while q < ft.len()
                    invariant
                        q <= ft@.len(),
                        bytes_views(ext@) == e0 + bytes_views(ft@).take(q as int),
                    decreases ft@.len() - q,
                {
                    let tb = ft[q].clone();
                    let ghost e1 = ext@;
                    ext.push(tb);
                    proof {
                        crate::st_dpci::lemma_bytes_views_push(e1, tb);
                        assert(bytes_views(ft@).take(q + 1) =~= bytes_views(ft@).take(q as int).push(ft@[q as int]@));
                        assert(e0 + bytes_views(ft@).take(q + 1) =~= (e0 + bytes_views(ft@).take(q as int)).push(ft@[q as int]@));
                    }
                    q = q + 1;
                }
                proof {
                    assert(bytes_views(ft@).take(ft@.len() as int) =~= bytes_views(ft@));
                    assert(bytes_views(ft@) == bpa_frame_tiles(used@[b as int], f));
                    assert(anim_tiles(base, used@, f, (b + 1) as nat) == anim_tiles(base, used@, f, b as nat) + bpa_frame_tiles(used@[b as int], f));
                }
                b = b + 1;
            }
            proof {
                assert(chunks_drawable(*self, layer as int, anim_tiles(base, used@, f, used@.len()), width_in_mtiles as int));
            }
            let img = self.chunks_image(li, &ext, &pal, width_in_mtiles);
            frames.push(img);
            let mut all0 = true;
            let mut b2: usize = 0;
            while b2 < nb
                invariant
                    b2 <= nb,
                    nb == used@.len(),
                    idx@.len() == nb,
                    f >= 0,
                    forall|q: int| 0 <= q < used@.len() ==> bpa_frames_ok(#[trigger] used@[q]),
                    forall|q: int| b2 <= q < nb ==> #[trigger] idx@[q] == f % (used@[q].0.number_of_frames as int),
                    forall|q: int| 0 <= q < b2 ==> #[trigger] idx@[q] == (f + 1) % (used@[q].0.number_of_frames as int),
                    all0 <==> forall|q: int| 0 <= q < b2 ==> (f + 1) % ((#[trigger] used@[q]).0.number_of_frames as int) == 0,
                decreases nb - b2,
            {
                let n = used[b2].0.number_of_frames;
                let cur = idx[b2];
                proof {
                    assert(bpa_frames_ok(used@[b2 as int]));
                    lemma_mod_step(f, n as int, cur as int);
                }
                let nx: u16 = if cur + 1 == n { 0 } else { cur + 1 };
                idx.set(b2, nx);
                if nx != 0 {
                    all0 = false;
                }
                b2 = b2 + 1;
            }
            proof {
                f = f + 1;
            }
            if all0 {
                proof {
                    assert(all_at_start(used@, f));
                }
                break;
            }
            proof {
                assert(!all_at_start(used@, f));
                assert(f != total);
            }
        }
        Ok(frames)
    }
}

/// Whether every frame a BPA shows can be taken (its first where it has no frames).
pub open spec fn bpa_frames_ok0(b: InputBpa) -> bool {
    let n = b.0.number_of_frames as int;
    let nt = b.0.number_of_tiles as int;
    &&& n == 0 ==> nt <= b.0.tiles@.len()
    &&& n > 0 ==> n * nt <= 0xFFFF && n * nt <= b.0.tiles@.len()
}

/// Whether one of the (at most `tiling_width * tiling_height`) entries of chunk `ci` of layer
/// `l` places a tile past the layer's own, that is a BPA tile.
pub open spec fn chunk_uses_bpa(b: Bpc, l: int, ci: int) -> bool {
    let dim = b.tiling_width * b.tiling_height;
    let m = layer_map(b, l);
    exists|i: int| ci * dim <= i < ci * dim + dim && i < m.len() && #[trigger] m[i].0 > b.layers@[l].0.number_tiles
}

/// Whether chunk `ci` of layer `l` can be drawn with `tiles`.
pub open spec fn chunk_drawable(b: Bpc, l: int, ci: int, tiles: Seq<Seq<u8>>) -> bool {
    t2n_ok(
        bpc_chunk_entries(layer_map(b, l), ci * (b.tiling_width * b.tiling_height)),
        tile_pixels(tiles),
        8,
        8 * b.tiling_width,
        8 * b.tiling_height,
        b.tiling_width as int,
    )
}

/// Whether `img` shows chunk `ci` of layer `l` drawn with `tiles`, with palette `pal`.
pub open spec fn is_chunk_image(b: Bpc, l: int, ci: int, tiles: Seq<Seq<u8>>, pal: Seq<u8>, img: IndexedImage) -> bool {
    let es = bpc_chunk_entries(layer_map(b, l), ci * (b.tiling_width * b.tiling_height));
    &&& img.0.1 == 8 * b.tiling_width
    &&& img.0.2 == 8 * b.tiling_height
    &&& img.1@ == pal
    &&& img.0.0@ == write_chunks(
        Seq::new((img.0.1 * img.0.2) as nat, |p: int| 0u8),
        es,
        tile_pixels(tiles),
        es.len(),
        8,
        img.0.1 as int,
        b.tiling_width as int,
    )
}

impl Bpc {
    /// One chunk of a layer with its BPA tiles drawn in, one image per animation step (see
    /// `single_chunk_to_pil` and `chunks_animated_to_pil`): where the layer draws no BPA tiles or
    /// the chunk places none, the one image of the chunk; else step `f` draws the frame each
    /// BPA shows after `f` steps (a BPA without frames always shows its first), until all are
    /// back at their first frame. Fails where a BPA slot does not match the layer.
    pub fn single_chunk_animated_to_pil(
        &self,
        layer: u8,
        chunk_idx: u16,
        palettes: Vec<StBytes>,
        bpas: Vec<Option<InputBpa>>,
        py: Python,
    ) -> (r: PyResult<Vec<IndexedImage>>)
        requires
            (layer as int) < self.layers@.len(),
            chunk_idx * (self.tiling_width * self.tiling_height) <= self.layers@[layer as int].0.tilemap@.len(),
            chunk_drawable(*self, layer as int, chunk_idx as int, bytes_views(self.layers@[layer as int].0.tiles@)),
            uses_bpas(self.layers@[layer as int].0, bpas@) && chunk_uses_bpa(*self, layer as int, chunk_idx as int)
                && !layer_bpas_bad(self.layers@[layer as int].0, bpas@, layer * 4) ==> {
                let used = layer_bpas(bpas@, layer * 4);
                &&& forall|j: int| 0 <= j < used.len() ==> bpa_frames_ok0(#[trigger] used[j])
                &&& forall|f: int|
                    0 <= f ==> #[trigger] chunk_drawable(
                        *self,
                        layer as int,
                        chunk_idx as int,
                        anim_tiles(bytes_views(self.layers@[layer as int].0.tiles@), used, f, used.len()),
                    )
            },
        ensures
            ({
                let l = self.layers@[layer as int].0;
                let base = bytes_views(l.tiles@);
                let used = layer_bpas(bpas@, layer * 4);
                let pal = pal_bytes(palettes@);
                let using = uses_bpas(l, bpas@) && chunk_uses_bpa(*self, layer as int, chunk_idx as int);
                &&& !using ==> (r matches Ok(v) && v@.len() == 1 && is_chunk_image(*self, layer as int, chunk_idx as int, base, pal, v@[0]))
                &&& using ==> (r is Err <==> layer_bpas_bad(l, bpas@, layer * 4))
                &&& using ==> (r matches Err(e) ==> e.kind == ErrorKind::AssertionError)
                &&& using ==> (r matches Ok(v) ==> anim_len(used, v@.len() as int) && forall|f: int|
                    0 <= f < v@.len() ==> is_chunk_image(*self, layer as int, chunk_idx as int, anim_tiles(base, used, f, used.len()), pal, #[trigger] v@[f]))
            }),
    {
        let li = layer as usize;
        let ci = chunk_idx as usize;
        let l = &self.layers[li].0;
        let pal = concat_stbytes(&palettes);
        let ghost base = bytes_views(l.tiles@);
        let tw = self.tiling_width as usize;
        let th = self.tiling_height as usize;
        assert(tw * th <= 0xFFFF_FFFF) by (nonlinear_arith)
            requires tw <= 0xFFFF, th <= 0xFFFF;
        let dim: usize = tw * th;
        let mut using = false;
        if bpas.len() > 0 {
            let mut k: usize = 0;
            while k < 4
                invariant
                    k <= 4,
                    using <==> exists|q: int| 0 <= q < k && #[trigger] l.bpas@[q] > 0,
                decreases 4 - k,
            {
                if l.bpas[k] > 0 {
                    using = true;
                }
                k = k + 1;
            }
        }
        if using {
            let ghost m = layer_map(*self, li as int);
            assert(ci * dim == chunk_idx * (self.tiling_width * self.tiling_height));
            assert(*l == self.layers@[li as int].0);
            let len0 = l.tilemap.len();
            assert(ci * dim <= len0);
            let start: usize = ci * dim;
            let len = l.tilemap.len();
            let end: usize = if len - start >= dim { start + dim } else { len };
            let mut found = false;
            let mut i: usize = start;
            while i < end
                invariant
                    start <= i <= end <= len,
                    len == l.tilemap@.len(),
                    m == entry_views(l.tilemap@),
                    start == ci * dim,
                    dim == self.tiling_width * self.tiling_height,
                    end == (if len - start >= dim { start + dim } else { len as int }),
                    *l == self.layers@[li as int].0,
                    found <==> exists|q: int| start <= q < i && #[trigger] m[q].0 > l.number_tiles,
                decreases end - i,
            {
                assert(m[i as int] == l.tilemap@[i as int].0);
                if l.tilemap[i].0.0 > l.number_tiles as usize {
                    found = true;
                }
                i = i + 1;
            }
            proof {
                if found {
                    let q = choose|q: int| start <= q < end && #[trigger] m[q].0 > l.number_tiles;
                    assert(m[q].0 > self.layers@[li as int].0.number_tiles);
                }
                if chunk_uses_bpa(*self, li as int, ci as int) {
                    let q = choose|q: int| ci * dim <= q < ci * dim + dim && q < m.len() && #[trigger] m[q].0 > self.layers@[li as int].0.number_tiles;
                    assert(m[q].0 > l.number_tiles);
                }
            }
            using = found;
        }
        if !using {
            let img = self.single_chunk_image(li, ci, &l.tiles, &pal);
            let mut v: Vec<IndexedImage> = Vec::new();
            v.push(img);
            return Ok(v);
        }
        let ghost bv = bpas@;
        let used = match self.get_bpas_for_layer(li, bpas, py) {
            Ok(v) => v,
            Err(e) => return Err(e),
        };
        assert(used@ == layer_bpas(bv, layer * 4));
        let nb = used.len();
        proof {
            lemma_frames_prod(used@, nb as nat);
        }
        let ghost total = frames_prod(used@, nb as nat);
        let mut idx: Vec<u16> = Vec::new();
        let mut j: usize = 0;
        while j < nb
            invariant
                j <= nb,
                idx@.len() == j,
                forall|q: int| 0 <= q < j ==> idx@[q] == 0,
            decreases nb - j,
        {
            idx.push(0);
            j = j + 1;
        }
        let mut frames: Vec<IndexedImage> = Vec::new();
        let ghost mut f: int = 0;
        loop
            invariant_except_break
                li == layer as usize,
                ci == chunk_idx as usize,
                *l == self.layers@[li as int].0,
                base == bytes_views(l.tiles@),
                (layer as int) < self.layers@.len(),
                chunk_idx * (self.tiling_width * self.tiling_height) <= self.layers@[layer as int].0.tilemap@.len(),
                nb == used@.len(),
                used@ == layer_bpas(bv, layer * 4),
                pal@ == pal_bytes(palettes@),
                forall|q: int| 0 <= q < used@.len() ==> bpa_frames_ok0(#[trigger] used@[q]),
                forall|g: int|
                    0 <= g ==> #[trigger] chunk_drawable(*self, layer as int, chunk_idx as int, anim_tiles(base, used@, g, used@.len())),
                total > 0,
                all_at_start(used@, total),
                0 <= f < total,
                idx@.len() == nb,
                forall|q: int| 0 <= q < nb ==> #[trigger] idx@[q] == frame_of(used@[q], f),
                frames@.len() == f,
                forall|g: int| 0 <= g < f ==> is_chunk_image(*self, layer as int, chunk_idx as int, anim_tiles(base, used@, g, used@.len()), pal@, #[trigger] frames@[g]),
                forall|g: int| 0 < g <= f ==> !#[trigger] all_at_start(used@, g),
            ensures
                anim_len(used@, frames@.len() as int),
                forall|g: int| 0 <= g < frames@.len() ==> is_chunk_image(*self, layer as int, chunk_idx as int, anim_tiles(base, used@, g, used@.len()), pal@, #[trigger] frames@[g]),
            decreases total - f,
        {
            let mut ext: Vec<StBytes> = Vec::new();
            let mut i: usize = 0;
            while i < l.tiles.len()
                invariant
                    i <= l.tiles@.len(),
                    bytes_views(ext@) == bytes_views(l.tiles@).take(i as int),
                decreases l.tiles@.len() - i,
            {
                let tb = l.tiles[i].clone();
                let ghost e0 = ext@;
                ext.push(tb);
                proof {
                    crate::st_dpci::lemma_bytes_views_push(e0, tb);
                    assert(bytes_views(l.tiles@).take(i + 1) =~= bytes_views(l.tiles@).take(i as int).push(l.tiles@[i as int]@));
                }
                i = i + 1;
            }
            assert(bytes_views(l.tiles@).take(l.tiles@.len() as int) =~= base);
            let mut b: usize = 0;
            while b < nb
                invariant
                    b <= nb,
                    nb == used@.len(),
                    idx@.len() == nb,
                    forall|q: int| 0 <= q < nb ==> #[trigger] idx@[q] == frame_of(used@[q], f),
                    forall|q: int| 0 <= q < used@.len() ==> bpa_frames_ok0(#[trigger] used@[q]),
                    f >= 0,
                    bytes_views(ext@) == anim_tiles(base, used@, f, b as nat),
                decreases nb - b,
            {
                let bp = &used[b].0;
                let fr = idx[b];
                proof {
                    assert(bpa_frames_ok0(used@[b as int]));
                    assert(idx@[b as int] == frame_of(used@[b as int], f));
                    let n = bp.number_of_frames as int;
                    let nt = bp.number_of_tiles as int;
                    if n > 0 {
                        lemma_mod_step(f, n, fr as int);
                        assert((fr + 1) * nt <= n * nt) by (nonlinear_arith)
                            requires fr + 1 <= n, nt >= 0;
                    } else {
                        assert(fr == 0);
                        assert((fr + 1) * nt == nt) by (nonlinear_arith)
                            requires fr == 0;
                    }
                }
                let ft = bp.tiles_for_frame(fr);
                let mut q: usize = 0;
                let ghost e0 = bytes_views(ext@);
                while q < ft.len()
                    invariant
                        q <= ft@.len(),
                        bytes_views(ext@) == e0 + bytes_views(ft@).take(q as int),
                    decreases ft@.len() - q,
                {
                    let tb = ft[q].clone();
                    let ghost e1 = ext@;
                    ext.push(tb);
                    proof {
                        crate::st_dpci::lemma_bytes_views_push(e1, tb);
                        assert(bytes_views(ft@).take(q + 1) =~= bytes_views(ft@).take(q as int).push(ft@[q as int]@));
                        assert(e0 + bytes_views(ft@).take(q + 1) =~= (e0 + bytes_views(ft@).take(q as int)).push(ft@[q as int]@));
                    }
                    q = q + 1;
                }
                proof {
                    assert(bytes_views(ft@).take(ft@.len() as int) =~= bytes_views(ft@));
                    assert(bytes_views(ft@) == bpa_frame_tiles(used@[b as int], f));
                    assert(anim_tiles(base, used@, f, (b + 1) as nat) == anim_tiles(base, used@, f, b as nat) + bpa_frame_tiles(used@[b as int], f));
                }
                b = b + 1;
            }
            proof {
                assert(chunk_drawable(*self, layer as int, chunk_idx as int, anim_tiles(base, used@, f, used@.len())));
            }
            let img = self.single_chunk_image(li, ci, &ext, &pal);
            frames.push(img);
            let mut all0 = true;
            let mut b2: usize = 0;
            while b2 < nb
                invariant
                    b2 <= nb,
                    nb == used@.len(),
                    idx@.len() == nb,
                    f >= 0,
                    forall|q: int| 0 <= q < used@.len() ==> bpa_frames_ok0(#[trigger] used@[q]),
                    forall|q: int| b2 <= q < nb ==> #[trigger] idx@[q] == frame_of(used@[q], f),
                    forall|q: int| 0 <= q < b2 ==> #[trigger] idx@[q] == frame_of(used@[q], f + 1),
                    all0 <==> forall|q: int| 0 <= q < b2 ==> frame_of(#[trigger] used@[q], f + 1) == 0,
                decreases nb - b2,
            {
                let n = used[b2].0.number_of_frames;
                let cur = idx[b2];
                if n > 0 {
                    proof {
                        lemma_mod_step(f, n as int, cur as int);
                    }
                    let nx: u16 = if cur + 1 == n { 0 } else { cur + 1 };
                    idx.set(b2, nx);
                    if nx != 0 {
                        all0 = false;
                    }
                } else {
                    assert(frame_of(used@[b2 as int], f + 1) == 0);
                }
                b2 = b2 + 1;
            }
            proof {
                f = f + 1;
            }
            if all0 {
                proof {
                    assert(all_at_start(used@, f));
                }
                break;
            }
            proof {
                assert(!all_at_start(used@, f));
                assert(f != total);
            }
        }
        Ok(frames)
    }
}

} // verus!
