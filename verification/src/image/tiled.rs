//! Conversion between indexed images and tiles with a tile map.
use crate::bytes::StBytes;
use crate::bytes::StBytesMut;
use crate::image::tilemap_entry::TilemapEntry;
use crate::image::IndexedImage;
use crate::image::PixelGenerator;
use crate::image::Raster;
use crate::python::PyResult;
use crate::python::exceptions::PyValueError;
use vstd::prelude::*;

verus! {

/// A coordinate inside a tile of size `dim`, mirrored when `flip`.
pub open spec fn flip_coord(v: int, dim: int, flip: bool) -> int {
    if flip {
        dim - v - 1
    } else {
        v
    }
}

/// Column (in tiles) of the tile that the `i`-th tile map entry places.
pub open spec fn t2n_tile_x(i: int, td: int, w: int, cd: int) -> int {
    let tic = cd * cd;
    let cpr = (w / td) / cd;
    ((i / tic) % cpr) * cd + i % cd
}

/// Row (in tiles) of the tile that the `i`-th tile map entry places.
pub open spec fn t2n_tile_y(i: int, td: int, w: int, cd: int) -> int {
    let tic = cd * cd;
    let cpr = (w / td) / cd;
    ((i / tic) / cpr) * cd + (i / cd) % cd
}

/// Index in the image of the `k`-th pixel of the tile that the `i`-th entry `e` places.
pub open spec fn t2n_pos(i: int, k: int, e: TilemapEntry, td: int, w: int, cd: int) -> int {
    (t2n_tile_y(i, td, w, cd) * td + flip_coord(k / td, td, e.2)) * w + t2n_tile_x(i, td, w, cd) * td + flip_coord(
        k % td,
        td,
        e.1,
    )
}

/// The pixels of every tile.
pub open spec fn streams(t: Seq<PixelGenerator>) -> Seq<Seq<u8>> {
    Seq::new(t.len(), |j: int| t[j].0@)
}

/// The tile an entry refers to; an index past the last tile means the first tile.
pub open spec fn t2n_stream(tiles: Seq<Seq<u8>>, e: TilemapEntry) -> Seq<u8> {
    if tiles.len() <= e.0 {
        tiles[0]
    } else {
        tiles[e.0 as int]
    }
}

/// `img` after writing the first `k` pixels of `pix` (the tile of the `i`-th entry `e`), each
/// shifted into the entry's sub-palette.
pub open spec fn write_tile(img: Seq<u8>, pix: Seq<u8>, k: nat, i: int, e: TilemapEntry, td: int, w: int, cd: int) -> Seq<u8>
    decreases k,
{
    if k == 0 {
        img
    } else {
        let prev = write_tile(img, pix, (k - 1) as nat, i, e, td, w, cd);
        let pos = t2n_pos(i, k - 1, e, td, w, cd);
        Seq::new(prev.len(), |p: int| if p == pos { (16 * e.3 + pix[k - 1]) as u8 } else { prev[p] })
    }
}

/// `img` after placing the tiles of the first `n` entries.
pub open spec fn write_chunks(img: Seq<u8>, chunks: Seq<TilemapEntry>, tiles: Seq<Seq<u8>>, n: nat, td: int, w: int, cd: int) -> Seq<u8>
    decreases n,
{
    if n == 0 {
        img
    } else {
        let e = chunks[n - 1];
        let pix = t2n_stream(tiles, e);
        write_tile(write_chunks(img, chunks, tiles, (n - 1) as nat, td, w, cd), pix, pix.len(), n - 1, e, td, w, cd)
    }
}

/// What `tiled_to_native` needs to place every pixel inside the image without overflow: each
/// placed tile lies inside the image, has at most `td * td` pixels, and its pixel values stay
/// below 256 once shifted into the entry's sub-palette.
pub open spec fn t2n_ok(chunks: Seq<TilemapEntry>, tiles: Seq<Seq<u8>>, td: int, w: int, h: int, cd: int) -> bool {
    &&& td > 0
    &&& cd > 0
    &&& cd * cd <= usize::MAX
    &&& w * h <= usize::MAX
    &&& chunks.len() > 0 ==> tiles.len() > 0 && (w / td) / cd > 0
    &&& forall|i: int|
        0 <= i < chunks.len() ==> {
            let e = #[trigger] chunks[i];
            let s = t2n_stream(tiles, e);
            &&& s.len() <= td * td
            &&& 16 * e.3 <= 255
            &&& t2n_tile_x(i, td, w, cd) * td + td <= w
            &&& t2n_tile_y(i, td, w, cd) * td + td <= h
            &&& forall|k: int| 0 <= k < s.len() ==> 16 * e.3 + #[trigger] s[k] <= 255
        }
}

pub proof fn lemma_write_tile_len(img: Seq<u8>, pix: Seq<u8>, k: nat, i: int, e: TilemapEntry, td: int, w: int, cd: int)
    ensures
        write_tile(img, pix, k, i, e, td, w, cd).len() == img.len(),
    decreases k,
{
    if k > 0 {
        lemma_write_tile_len(img, pix, (k - 1) as nat, i, e, td, w, cd);
    }
}

pub proof fn lemma_write_chunks_len(img: Seq<u8>, chunks: Seq<TilemapEntry>, tiles: Seq<Seq<u8>>, n: nat, td: int, w: int, cd: int)
    ensures
        write_chunks(img, chunks, tiles, n, td, w, cd).len() == img.len(),
    decreases n,
{
    if n > 0 {
        lemma_write_chunks_len(img, chunks, tiles, (n - 1) as nat, td, w, cd);
        let e = chunks[n - 1];
        let pix = t2n_stream(tiles, e);
        lemma_write_tile_len(write_chunks(img, chunks, tiles, (n - 1) as nat, td, w, cd), pix, pix.len(), n - 1, e, td, w, cd);
    }
}

proof fn lemma_pos_in_image(ry: int, rx: int, w: int, h: int)
    by (nonlinear_arith)
    requires
        0 <= ry < h,
        0 <= rx < w,
    ensures
        ry * w + rx < w * h,
        ry * w <= w * h,
{
}

proof fn lemma_tile_coords(i: int, td: int, w: int, cd: int)
    by (nonlinear_arith)
    requires
        i >= 0,
        td > 0,
        cd > 0,
        (w / td) / cd > 0,
    ensures
        cd * cd > 0,
        ((i / (cd * cd)) % ((w / td) / cd)) * cd <= t2n_tile_x(i, td, w, cd),
        ((i / (cd * cd)) / ((w / td) / cd)) * cd <= t2n_tile_y(i, td, w, cd),
        ((i / (cd * cd)) % ((w / td) / cd)) * cd >= 0,
        ((i / (cd * cd)) / ((w / td) / cd)) * cd >= 0,
{
}

proof fn lemma_mul_le(a: int, b: int, c: int)
    by (nonlinear_arith)
    requires
        0 <= a <= b,
        0 <= c,
    ensures
        a * c <= b * c,
{
}

proof fn lemma_div_mod_bounds(k: int, td: int)
    by (nonlinear_arith)
    requires
        0 <= k < td * td,
        td > 0,
    ensures
        0 <= k / td < td,
        0 <= k % td < td,
{
}

/// Conversions between indexed images and tiles.
pub struct TiledImage {}

impl TiledImage {
    /// All tiles, one after the other.
    pub fn unpack_tiles(tiles: Vec<Vec<u8>>) -> (r: Vec<u8>)
        ensures
            r@ == Seq::new(tiles@.len(), |j: int| tiles@[j]@).flatten(),
    {
        let ghost ts = Seq::new(tiles@.len(), |j: int| tiles@[j]@);
        let mut out: Vec<u8> = Vec::new();
        let mut i: usize = 0;
        while i < tiles.len()
            invariant
                i <= tiles.len(),
                ts == Seq::new(tiles@.len(), |j: int| tiles@[j]@),
                out@ == ts.take(i as int).flatten(),
            decreases tiles.len() - i,
        {
            let ghost before = out@;
            crate::bytes::push_all(&mut out, tiles[i].as_slice());
            proof {
                assert(ts.take(i as int + 1) == ts.take(i as int).push(tiles@[i as int]@));
                ts.take(i as int).lemma_flatten_push(tiles@[i as int]@);
            }
            i = i + 1;
        }
        proof {
            assert(ts.take(tiles.len() as int) == ts);
        }
        out
    }

    /// The position of pixel (`x`, `y`) of a `w` x `h` tile once the tile is flipped.
    pub fn px_pos_flipped(x: usize, y: usize, w: usize, h: usize, flip_x: bool, flip_y: bool) -> (r: (usize, usize))
        requires
            flip_x ==> x < w,
            flip_y ==> y < h,
        ensures
            r.0 == flip_coord(x as int, w as int, flip_x),
            r.1 == flip_coord(y as int, h as int, flip_y),
    {
        (if flip_x { w - x - 1 } else { x }, if flip_y { h - y - 1 } else { y })
    }

    /// The image that the tile map `chunks` makes of the tiles `tiledata`, with the palette
    /// `paldata`: each entry places its tile (flipped as it says, with its sub-palette added to
    /// every pixel) at its position, entries grouped into square chunks of `chunk_dim` tiles.
    pub fn tiled_to_native(
        chunks: &[TilemapEntry],
        tiledata: &[PixelGenerator],
        paldata: &[u8],
        tile_dim: usize,
        img_width: usize,
        img_height: usize,
        chunk_dim: usize,
    ) -> (r: PyResult<IndexedImage>)
        requires
            t2n_ok(chunks@, streams(tiledata@), tile_dim as int, img_width as int, img_height as int, chunk_dim as int),
        ensures
            r is Ok,
            r matches Ok(img) && img.0.1 == img_width && img.0.2 == img_height && img.1@ == paldata@
                && img.0.0@ == write_chunks(
                Seq::new((img_width * img_height) as nat, |p: int| 0u8),
                chunks@,
                streams(tiledata@),
                chunks@.len(),
                tile_dim as int,
                img_width as int,
                chunk_dim as int,
            ),
    {
        let td = tile_dim;
        let w = img_width;
        let cd = chunk_dim;
        let ghost tiles = streams(tiledata@);
        let n_px: usize = img_width * img_height;
        let mut imagedata: Vec<u8> = crate::bytes::filled(0, n_px);
        let ghost zero = imagedata@;
        let mut i: usize = 0;
        while i < chunks.len()
            invariant
                t2n_ok(chunks@, tiles, td as int, w as int, img_height as int, cd as int),
                tiles == streams(tiledata@),
                td == tile_dim,
                w == img_width,
                cd == chunk_dim,
                n_px == img_width * img_height,
                i <= chunks.len(),
                zero == Seq::new(n_px as nat, |p: int| 0u8),
                imagedata@ == write_chunks(zero, chunks@, tiles, i as nat, td as int, w as int, cd as int),
                imagedata@.len() == n_px,
            decreases chunks.len() - i,
        {
            let e = chunks[i];
            proof {
                lemma_tile_coords(i as int, td as int, w as int, cd as int);
            }
            let tic: usize = cd * cd;
            let wt: usize = w / td;
            let cpr: usize = wt / cd;
            let chunk_x: usize = (i / tic) % cpr;
            let chunk_y: usize = (i / tic) / cpr;
            assert(e == chunks@[i as int]);
            let ghost tx = t2n_tile_x(i as int, td as int, w as int, cd as int);
            let ghost ty = t2n_tile_y(i as int, td as int, w as int, cd as int);
            proof {
                assert(tx * td + td <= w);
                assert(ty * td + td <= img_height);
                lemma_mul_le(1, td as int, tx);
                lemma_mul_le(1, td as int, ty);
                assert(tx <= w && ty <= img_height);
                assert(chunk_x * cd <= tx);
                assert(chunk_y * cd <= ty);
            }
            let tile_x: usize = (chunk_x * cd) + (i % cd);
            let tile_y: usize = (chunk_y * cd) + ((i / cd) % cd);
            assert(tile_x == tx && tile_y == ty);
            let sidx: usize = if tiledata.len() <= e.0 { 0 } else { e.0 };
            let stream = tiledata[sidx].0.as_slice();
            assert(stream@ == t2n_stream(tiles, e));
            let pal_start_offset: u8 = 16 * e.3;
            let slen = stream.len();
            let ghost base = imagedata@;
            let mut idx: usize = 0;
            proof {
                lemma_mul_le(tx, tx, td as int);
            }
            while idx < slen
                invariant
                    t2n_ok(chunks@, tiles, td as int, w as int, img_height as int, cd as int),
                    td == tile_dim,
                    w == img_width,
                    cd == chunk_dim,
                    td > 0,
                    n_px == img_width * img_height,
                    i < chunks.len(),
                    e == chunks@[i as int],
                    stream@ == t2n_stream(tiles, e),
                    slen == stream@.len(),
                    slen <= td * td,
                    tile_x == t2n_tile_x(i as int, td as int, w as int, cd as int),
                    tile_y == t2n_tile_y(i as int, td as int, w as int, cd as int),
                    tile_x * td + td <= w,
                    tile_y * td + td <= img_height,
                    pal_start_offset == 16 * e.3,
                    idx <= slen,
                    base.len() == n_px,
                    imagedata@ == write_tile(base, stream@, idx as nat, i as int, e, td as int, w as int, cd as int),
                    imagedata@.len() == n_px,
                decreases slen - idx,
            {
                proof {
                    lemma_div_mod_bounds(idx as int, td as int);
                }
                let (x_in_tile, y_in_tile) = Self::px_pos_flipped(idx % td, idx / td, td, td, e.1, e.2);
                proof {
                    lemma_mul_le(0, tile_x as int, td as int);
                    lemma_mul_le(0, tile_y as int, td as int);
                }
                let real_x: usize = tile_x * td + x_in_tile;
                let real_y: usize = tile_y * td + y_in_tile;
                proof {
                    lemma_pos_in_image(real_y as int, real_x as int, w as int, img_height as int);
                }
                let pos: usize = real_y * img_width + real_x;
                assert(pos == t2n_pos(i as int, idx as int, e, td as int, w as int, cd as int));
                let col = stream[idx];
                assert(16 * e.3 + stream@[idx as int] <= 255);
                let v: u8 = pal_start_offset + col;
                imagedata.set(pos, v);
                idx = idx + 1;
            }
            proof {
                lemma_write_tile_len(base, stream@, slen as nat, i as int, e, td as int, w as int, cd as int);
            }
            i = i + 1;
        }
        let raster = Raster(StBytesMut(imagedata), img_width, img_height);
        let pal = crate::bytes::copy_range(paldata, 0, paldata.len());
        proof {
            assert(paldata@.subrange(0, paldata@.len() as int) == paldata@);
        }
        Ok(IndexedImage(raster, StBytes(pal)))
    }

    /// As `tiled_to_native`, with the tiles placed in order, one per entry, unflipped and with
    /// sub-palette 0.
    pub fn tiled_to_native_seq(
        tiledata: &[PixelGenerator],
        paldata: &[u8],
        tile_dim: usize,
        img_width: usize,
        img_height: usize,
    ) -> (r: PyResult<IndexedImage>)
        requires
            tile_dim > 0,
            img_width * img_height <= usize::MAX,
            t2n_ok(
                Seq::new(((img_width * img_height) / (tile_dim as int)) as nat / (tile_dim as nat), |i: int| TilemapEntry(i as usize, false, false, 0)),
                streams(tiledata@),
                tile_dim as int,
                img_width as int,
                img_height as int,
                1,
            ),
        ensures
            r is Ok,
            r matches Ok(img) && img.0.1 == img_width && img.0.2 == img_height && img.1@ == paldata@
                && img.0.0@ == write_chunks(
                Seq::new((img_width * img_height) as nat, |p: int| 0u8),
                Seq::new(((img_width * img_height) / (tile_dim as int)) as nat / (tile_dim as nat), |i: int| TilemapEntry(i as usize, false, false, 0)),
                streams(tiledata@),
                ((img_width * img_height) / (tile_dim as int)) as nat / (tile_dim as nat),
                tile_dim as int,
                img_width as int,
                1,
            ),
    {
        let number_chunks: usize = img_width * img_height / tile_dim / tile_dim;
        let mut entries: Vec<TilemapEntry> = Vec::new();
        let mut i: usize = 0;
        while i < number_chunks
            invariant
                i <= number_chunks,
                entries@ == Seq::new(i as nat, |j: int| TilemapEntry(j as usize, false, false, 0)),
            decreases number_chunks - i,
        {
            entries.push(TilemapEntry(i, false, false, 0));
            i = i + 1;
        }
        assert(entries@ == Seq::new(((img_width * img_height) / (tile_dim as int)) as nat / (tile_dim as nat), |i: int| TilemapEntry(i as usize, false, false, 0)));
        Self::tiled_to_native(entries.as_slice(), tiledata, paldata, tile_dim, img_width, img_height, 1)
    }
}


// ---------------------------------------------------------------------------------------------
// From an indexed image to tiles.

/// Index of the tile (in the order the tile map lists them) that pixel `idx` of a `w` pixels wide
/// image belongs to, with tiles of `td` pixels grouped into square chunks of `cd` tiles.
pub open spec fn nt_tile_id(idx: int, w: int, td: int, cd: int) -> int {
    let x = idx % w;
    let y = idx / w;
    let chunk_x = x / (td * cd);
    let chunk_y = y / (td * cd);
    let ups = (w / td) * chunk_y * cd;
    let tile_x = chunk_x * cd * cd + (x / td - chunk_x * cd);
    let tile_y = chunk_y * cd + (y / td - chunk_y * cd);
    ups + (tile_y - cd * chunk_y) * cd + tile_x
}

/// Index of the byte, inside its tile, that holds pixel `idx` (two pixels per byte).
pub open spec fn nt_nidx(idx: int, w: int, td: int) -> int {
    let x = idx % w;
    let y = idx / w;
    ((y - td * (y / td)) * td + (x - td * (x / td))) / 2
}

/// The state while the pixels are read: the tiles built so far, their pixel sums, their
/// sub-palettes, which tiles were started, the current tile and byte, and the current pixel pair.
pub struct NtState {
    pub tiles: Seq<Seq<u8>>,
    pub sums: Seq<int>,
    pub pal: Seq<u8>,
    pub init: Seq<bool>,
    pub tile_id: int,
    pub nidx: int,
    pub two0: u8,
    pub two1: u8,
}

pub open spec fn nt_initial(n: nat) -> NtState {
    NtState {
        tiles: Seq::new(n, |t: int| Seq::<u8>::empty()),
        sums: Seq::new(n, |t: int| 0int),
        pal: Seq::new(n, |t: int| 0u8),
        init: Seq::new(n, |t: int| false),
        tile_id: 0,
        nidx: 0,
        two0: 0,
        two1: 0,
    }
}

/// The value a pixel is stored with: its offset into the tile's sub-palette, or 0 where it lies
/// outside that sub-palette.
pub open spec fn nt_real_pix(pix: int, pal: u8, sps: int) -> u8 {
    let rp = pix - pal * sps;
    if rp > sps - 1 || rp < 0 {
        0u8
    } else {
        rp as u8
    }
}

/// The state once pixel `idx` (value `pix`) has selected its tile: at an even index, the tile
/// and byte of the pixel pair, starting the tile (with the sub-palette of this pixel) if it is new.
pub open spec fn nt_pre(s: NtState, idx: int, pix: int, sps: int, td: int, w: int, cd: int) -> NtState {
    if idx % 2 == 0 {
        let t = nt_tile_id(idx, w, td, cd);
        let ni = nt_nidx(idx, w, td);
        if !s.init[t] {
            NtState {
                tiles: s.tiles.update(t, Seq::new((td * td / 2) as nat, |j: int| 0u8)),
                sums: s.sums.update(t, 0),
                pal: s.pal.update(t, (pix / sps) as u8),
                init: s.init.update(t, true),
                tile_id: t,
                nidx: ni,
                ..s
            }
        } else {
            NtState { tile_id: t, nidx: ni, ..s }
        }
    } else {
        s
    }
}

/// The state once pixel `idx` (value `pix`) is stored: the first pixel of a pair is kept, the
/// second completes the byte and adds the pair to the tile's sum.
pub open spec fn nt_post(s1: NtState, idx: int, pix: int, sps: int) -> NtState {
    let rp = nt_real_pix(pix, s1.pal[s1.tile_id], sps);
    if idx % 2 == 0 {
        NtState { two0: rp, ..s1 }
    } else {
        let t = s1.tile_id;
        NtState {
            two1: rp,
            sums: s1.sums.update(t, s1.sums[t] + s1.two0 + rp),
            tiles: s1.tiles.update(t, s1.tiles[t].update(s1.nidx, (s1.two0 + rp * 16) as u8)),
            ..s1
        }
    }
}

/// The state after reading pixel `idx` whose value (with the palette offset added) is `pix`.
pub open spec fn nt_step(s: NtState, idx: int, pix: int, sps: int, td: int, w: int, cd: int) -> NtState {
    nt_post(nt_pre(s, idx, pix, sps, td, w, cd), idx, pix, sps)
}

/// The state after reading the first `k` pixels of `data`.
pub open spec fn nt_run(data: Seq<u8>, k: nat, n: nat, po: int, sps: int, td: int, w: int, cd: int) -> NtState
    decreases k,
{
    if k == 0 {
        nt_initial(n)
    } else {
        nt_step(nt_run(data, (k - 1) as nat, n, po, sps, td, w, cd), k - 1, data[k - 1] + po * sps, sps, td, w, cd)
    }
}

/// What `native_to_tiled` needs to run without overflow or out-of-range access: 4bpp tiles of an
/// even size, a sub-palette size of 1 to 16, and every pixel pair falling into an existing tile
/// and byte.
pub open spec fn nt_ok(len: int, w: int, h: int, td: int, cd: int, sps: int, po: int) -> bool {
    &&& td > 0
    &&& td % 2 == 0
    &&& cd > 0
    &&& td * cd <= usize::MAX
    &&& td * td <= usize::MAX
    &&& 1 <= sps <= 16
    &&& po * sps + 255 <= i64::MAX
    &&& po * sps + 255 <= usize::MAX
    &&& len * 32 <= usize::MAX
    &&& w * h <= usize::MAX
    &&& len > 0 ==> w > 0
    &&& forall|idx: int|
        0 <= idx < len && idx % 2 == 0 ==> 0 <= #[trigger] nt_tile_id(idx, w, td, cd) < (w * h) / td / td && 0
            <= nt_nidx(idx, w, td) < td * td / 2
}

/// Nibble-swapped byte: how a pixel pair reads once mirrored.
pub open spec fn swap_nibbles(b: u8) -> u8 {
    ((b & 0x0F) << 4u8 | (b & 0xF0) >> 4u8) as u8
}

/// Where byte `i` of a tile goes when the tile is mirrored horizontally.
pub open spec fn flip_x_pos(i: int, td: int) -> int {
    let row_idx = i * 2 % td;
    let col_idx = i * 2 / td;
    (col_idx * td + (td - 1 - row_idx)) / 2
}

/// Where byte `i` of a tile goes when the tile is mirrored vertically.
pub open spec fn flip_y_pos(i: int, td: int) -> int {
    let row_idx = i * 2 % td;
    let col_idx = i * 2 / td;
    ((td - 1 - col_idx) * td + row_idx) / 2
}

/// A tile of zeros with the first `k` bytes of `t` written to their mirrored places.
pub open spec fn flip_writes(t: Seq<u8>, td: int, k: nat, horizontal: bool) -> Seq<u8>
    decreases k,
{
    if k == 0 {
        Seq::new(t.len(), |j: int| 0u8)
    } else {
        let prev = flip_writes(t, td, (k - 1) as nat, horizontal);
        let pos = if horizontal { flip_x_pos(k - 1, td) } else { flip_y_pos(k - 1, td) };
        let v = if horizontal { swap_nibbles(t[k - 1]) } else { t[k - 1] };
        Seq::new(prev.len(), |j: int| if j == pos { v } else { prev[j] })
    }
}

pub open spec fn flip_tile_x_spec(t: Seq<u8>, td: int) -> Seq<u8> {
    flip_writes(t, td, t.len(), true)
}

pub open spec fn flip_tile_y_spec(t: Seq<u8>, td: int) -> Seq<u8> {
    flip_writes(t, td, t.len(), false)
}

/// The first tile from `j` on with the same pixel sum that equals `needle` as it is, mirrored
/// horizontally, mirrored vertically or both (tried in that order), and the mirroring used.
pub open spec fn search_tile(fin_sums: Seq<int>, fin_tiles: Seq<Seq<u8>>, sum: int, needle: Seq<u8>, td: int, j: nat) -> (Option<int>, bool, bool)
    decreases fin_sums.len() - j,
{
    if j >= fin_sums.len() {
        (None, false, false)
    } else if fin_sums[j as int] == sum && fin_tiles[j as int] == needle {
        (Some(j as int), false, false)
    } else if fin_sums[j as int] == sum && flip_tile_x_spec(fin_tiles[j as int], td) == needle {
        (Some(j as int), true, false)
    } else if fin_sums[j as int] == sum && flip_tile_y_spec(fin_tiles[j as int], td) == needle {
        (Some(j as int), false, true)
    } else if fin_sums[j as int] == sum && flip_tile_y_spec(flip_tile_x_spec(fin_tiles[j as int], td), td) == needle {
        (Some(j as int), true, true)
    } else {
        search_tile(fin_sums, fin_tiles, sum, needle, td, (j + 1) as nat)
    }
}

/// After looking at the first `k` built tiles: the distinct tiles kept, their sums, and one
/// tile map entry per built tile.
pub open spec fn dedup(s: NtState, td: int, k: nat) -> (Seq<Seq<u8>>, Seq<int>, Seq<TilemapEntry>)
    decreases k,
{
    if k == 0 {
        (Seq::<Seq<u8>>::empty(), Seq::<int>::empty(), Seq::<TilemapEntry>::empty())
    } else {
        let (ft, fs, es) = dedup(s, td, (k - 1) as nat);
        let t = k - 1;
        let (found, fx, fy) = search_tile(fs, ft, s.sums[t], s.tiles[t], td, 0);
        match found {
            Some(i) => (ft, fs, es.push(TilemapEntry(i as usize, fx, fy, s.pal[t]))),
            None => (ft.push(s.tiles[t]), fs.push(s.sums[t]), es.push(TilemapEntry(ft.len() as usize, false, false, s.pal[t]))),
        }
    }
}

proof fn lemma_flip_pos_bounds(i: int, td: int)
    requires
        td > 0,
        td % 2 == 0,
        0 <= i < td * td / 2,
    ensures
        0 <= flip_x_pos(i, td) < td * td / 2,
        0 <= flip_y_pos(i, td) < td * td / 2,
        i * 2 <= td * td,
        0 <= i * 2 / td < td,
        0 <= i * 2 % td < td,
        (i * 2 / td) * td + (td - 1 - i * 2 % td) < td * td,
        0 <= (td - 1 - i * 2 / td) * td,
        (td - 1 - i * 2 / td) * td + i * 2 % td < td * td,
{
    let p = i * 2;
    let row = p % td;
    let col = p / td;
    vstd::arithmetic::div_mod::lemma_fundamental_div_mod(p, td);
    vstd::arithmetic::div_mod::lemma_mod_bound(p, td);
    assert(p < td * td) by (nonlinear_arith)
        requires p == i * 2, i < td * td / 2, td > 0;
    assert(col < td && col >= 0) by (nonlinear_arith)
        requires p == td * col + row, 0 <= row < td, 0 <= p < td * td, td > 0;
    let a = td / 2;
    assert(td == 2 * a);
    assert(row == 2 * (i - a * col)) by (nonlinear_arith)
        requires p == td * col + row, td == 2 * a, p == i * 2;
    assert(row % 2 == 0);
    assert(col * td + td <= td * td) by (nonlinear_arith)
        requires col < td, col >= 0, td > 0;
    assert(td * td == 2 * (a * td)) by (nonlinear_arith)
        requires td == 2 * a;
    assert((td * td) % 2 == 0);
    assert(col * td >= 0) by (nonlinear_arith)
        requires col >= 0, td > 0;
    assert((td - 1 - col) * td >= 0) by (nonlinear_arith)
        requires col < td, td > 0;
    assert((td - 1 - col) * td + td <= td * td) by (nonlinear_arith)
        requires col >= 0, td > 0;
}

proof fn lemma_nt_geometry(idx: int, w: int, td: int, cd: int)
    requires
        idx >= 0,
        w > 0,
        td > 0,
        cd > 0,
    ensures
        idx % w >= 0,
        idx / w >= 0,
        (idx % w) / (td * cd) >= 0,
        (idx / w) / (td * cd) >= 0,
        ((idx % w) / (td * cd)) * cd <= (idx % w) / td,
        ((idx / w) / (td * cd)) * cd <= (idx / w) / td,
        td * ((idx % w) / td) <= idx % w,
        td * ((idx / w) / td) <= idx / w,
        (w / td) >= 0,
        (w / td) * ((idx / w) / (td * cd)) >= 0,
        (w / td) * ((idx / w) / (td * cd)) * cd >= 0,
        ((idx % w) / (td * cd)) * cd * cd >= 0,
        td * cd > 0,
        (w / td) * ((idx / w) / (td * cd)) <= (w / td) * ((idx / w) / (td * cd)) * cd,
        ((idx / w) / td - cd * ((idx / w) / (td * cd))) * cd >= 0,
        ((idx % w) / (td * cd)) * cd <= ((idx % w) / (td * cd)) * cd * cd,
        ((idx / w) / (td * cd)) * cd == cd * ((idx / w) / (td * cd)),
{
    let x = idx % w;
    let y = idx / w;
    vstd::arithmetic::div_mod::lemma_mod_bound(idx, w);
    vstd::arithmetic::div_mod::lemma_div_pos_is_pos(idx, w);
    vstd::arithmetic::div_mod::lemma_div_denominator(x, td, cd);
    vstd::arithmetic::div_mod::lemma_div_denominator(y, td, cd);
    vstd::arithmetic::div_mod::lemma_fundamental_div_mod(x / td, cd);
    vstd::arithmetic::div_mod::lemma_fundamental_div_mod(y / td, cd);
    vstd::arithmetic::div_mod::lemma_mod_bound(x / td, cd);
    vstd::arithmetic::div_mod::lemma_mod_bound(y / td, cd);
    vstd::arithmetic::div_mod::lemma_fundamental_div_mod(x, td);
    vstd::arithmetic::div_mod::lemma_fundamental_div_mod(y, td);
    vstd::arithmetic::div_mod::lemma_mod_bound(x, td);
    vstd::arithmetic::div_mod::lemma_mod_bound(y, td);
    vstd::arithmetic::div_mod::lemma_div_pos_is_pos(x, td);
    vstd::arithmetic::div_mod::lemma_div_pos_is_pos(y, td);
    vstd::arithmetic::div_mod::lemma_div_pos_is_pos(x / td, cd);
    vstd::arithmetic::div_mod::lemma_div_pos_is_pos(y / td, cd);
    vstd::arithmetic::div_mod::lemma_div_pos_is_pos(w, td);
    vstd::arithmetic::mul::lemma_mul_nonnegative(w / td, y / (td * cd));
    vstd::arithmetic::mul::lemma_mul_nonnegative((w / td) * (y / (td * cd)), cd);
    vstd::arithmetic::mul::lemma_mul_nonnegative(x / (td * cd), cd);
    vstd::arithmetic::mul::lemma_mul_nonnegative((x / (td * cd)) * cd, cd);
    vstd::arithmetic::mul::lemma_mul_strictly_positive(td, cd);
    assert(((x / td) / cd) * cd == cd * ((x / td) / cd)) by (nonlinear_arith);
    assert(((y / td) / cd) * cd == cd * ((y / td) / cd)) by (nonlinear_arith);
    let cy = y / (td * cd);
    let cx = x / (td * cd);
    assert((w / td) * cy <= (w / td) * cy * cd) by (nonlinear_arith)
        requires (w / td) * cy >= 0, cd > 0;
    assert(cx * cd <= cx * cd * cd) by (nonlinear_arith)
        requires cx * cd >= 0, cd > 0;
    assert((y / td - cd * cy) * cd >= 0) by (nonlinear_arith)
        requires cy * cd <= y / td, cd > 0, cy * cd == cd * cy;
    assert(cy * cd == cd * cy) by (nonlinear_arith);
}

impl TiledImage {
    fn flip_tile(tile: &[u8], tile_dim: usize, horizontal: bool) -> (r: Vec<u8>)
        requires
            tile_dim * tile_dim <= usize::MAX,
            tile_dim > 0,
            tile_dim % 2 == 0,
            tile@.len() == 0 || tile@.len() == tile_dim * tile_dim / 2,
        ensures
            r@ == flip_writes(tile@, tile_dim as int, tile@.len(), horizontal),
            r@.len() == tile@.len(),
    {
        let n = tile.len();
        let mut out = crate::bytes::filled(0, n);
        let mut i: usize = 0;
        assert(out@ == flip_writes(tile@, tile_dim as int, 0, horizontal));
        while i < n
            invariant
                i <= n,
                n == tile@.len(),
                tile_dim * tile_dim <= usize::MAX,
                tile_dim > 0,
                tile_dim % 2 == 0,
                n == 0 || n == tile_dim * tile_dim / 2,
                out@ == flip_writes(tile@, tile_dim as int, i as nat, horizontal),
                out@.len() == n,
            decreases n - i,
        {
            proof {
                lemma_flip_pos_bounds(i as int, tile_dim as int);
            }
            let b = tile[i];
            let row_idx: usize = i * 2 % tile_dim;
            let col_idx: usize = i * 2 / tile_dim;
            if horizontal {
                let pos: usize = (col_idx * tile_dim + (tile_dim - 1 - row_idx)) / 2;
                assert(pos == flip_x_pos(i as int, tile_dim as int));
                out.set(pos, (b & 0x0F) << 4 | (b & 0xF0) >> 4);
            } else {
                let pos: usize = ((tile_dim - 1 - col_idx) * tile_dim + row_idx) / 2;
                assert(pos == flip_y_pos(i as int, tile_dim as int));
                out.set(pos, b);
            }
            assert(out@ =~= flip_writes(tile@, tile_dim as int, (i + 1) as nat, horizontal));
            i = i + 1;
        }
        out
    }

    fn flip_tile_x(tile: &[u8], tile_dim: usize) -> (r: Vec<u8>)
        requires
            tile_dim * tile_dim <= usize::MAX,
            tile_dim > 0,
            tile_dim % 2 == 0,
            tile@.len() == 0 || tile@.len() == tile_dim * tile_dim / 2,
        ensures
            r@ == flip_tile_x_spec(tile@, tile_dim as int),
            r@.len() == tile@.len(),
    {
        Self::flip_tile(tile, tile_dim, true)
    }

    fn flip_tile_y(tile: &[u8], tile_dim: usize) -> (r: Vec<u8>)
        requires
            tile_dim * tile_dim <= usize::MAX,
            tile_dim > 0,
            tile_dim % 2 == 0,
            tile@.len() == 0 || tile@.len() == tile_dim * tile_dim / 2,
        ensures
            r@ == flip_tile_y_spec(tile@, tile_dim as int),
            r@.len() == tile@.len(),
    {
        Self::flip_tile(tile, tile_dim, false)
    }

    fn bytes_eq(a: &[u8], b: &[u8]) -> (r: bool)
        ensures
            r == (a@ == b@),
    {
        if a.len() != b.len() {
            return false;
        }
        let mut i: usize = 0;
        while i < a.len()
            invariant
                i <= a@.len(),
                a@.len() == b@.len(),
                forall|j: int| 0 <= j < i ==> a@[j] == b@[j],
            decreases a@.len() - i,
        {
            if a[i] != b[i] {
                return false;
            }
            i = i + 1;
        }
        assert(a@ =~= b@);
        true
    }

    fn search_for_tile_with_sum(
        fin_sums: &Vec<usize>,
        fin_tiles: &Vec<Vec<u8>>,
        sum: usize,
        needle: &Vec<u8>,
        tile_dim: usize,
    ) -> (r: (Option<usize>, bool, bool))
        requires
            tile_dim * tile_dim <= usize::MAX,
            tile_dim > 0,
            tile_dim % 2 == 0,
            fin_sums@.len() == fin_tiles@.len(),
            forall|j: int| 0 <= j < fin_tiles@.len() ==> #[trigger] fin_tiles@[j]@.len() == 0
                || fin_tiles@[j]@.len() == tile_dim * tile_dim / 2,
        ensures
            ({
                let s = search_tile(
                    Seq::new(fin_sums@.len(), |j: int| fin_sums@[j] as int),
                    Seq::new(fin_tiles@.len(), |j: int| fin_tiles@[j]@),
                    sum as int,
                    needle@,
                    tile_dim as int,
                    0,
                );
                &&& r.1 == s.1
                &&& r.2 == s.2
                &&& (s.0 matches Some(i) ==> r.0 == Some(i as usize))
                &&& (s.0 is None ==> r.0 is None)
            }),
    {
        let ghost fs = Seq::new(fin_sums@.len(), |j: int| fin_sums@[j] as int);
        let ghost ft = Seq::new(fin_tiles@.len(), |j: int| fin_tiles@[j]@);
        let mut i: usize = 0;
        while i < fin_sums.len()
            invariant
                i <= fin_sums@.len(),
                fin_sums@.len() == fin_tiles@.len(),
                tile_dim * tile_dim <= usize::MAX,
                tile_dim > 0,
                tile_dim % 2 == 0,
                forall|j: int| 0 <= j < fin_tiles@.len() ==> #[trigger] fin_tiles@[j]@.len() == 0
                    || fin_tiles@[j]@.len() == tile_dim * tile_dim / 2,
                fs == Seq::new(fin_sums@.len(), |j: int| fin_sums@[j] as int),
                ft == Seq::new(fin_tiles@.len(), |j: int| fin_tiles@[j]@),
                search_tile(fs, ft, sum as int, needle@, tile_dim as int, i as nat)
                    == search_tile(fs, ft, sum as int, needle@, tile_dim as int, 0),
            decreases fin_sums@.len() - i,
        {
            if fin_sums[i] == sum {
                let cand = fin_tiles[i].as_slice();
                assert(ft[i as int] == cand@);
                if Self::bytes_eq(cand, needle.as_slice()) {
                    return (Some(i), false, false);
                }
                let x_flipped = Self::flip_tile_x(cand, tile_dim);
                if Self::bytes_eq(x_flipped.as_slice(), needle.as_slice()) {
                    return (Some(i), true, false);
                }
                let y_flipped = Self::flip_tile_y(cand, tile_dim);
                if Self::bytes_eq(y_flipped.as_slice(), needle.as_slice()) {
                    return (Some(i), false, true);
                }
                let xy_flipped = Self::flip_tile_y(x_flipped.as_slice(), tile_dim);
                if Self::bytes_eq(xy_flipped.as_slice(), needle.as_slice()) {
                    return (Some(i), true, true);
                }
            }
            i = i + 1;
        }
        (None, false, false)
    }


    /// Cuts an indexed image into 4bpp tiles and a tile map. Pixel values (plus
    /// `palette_offset` sub-palettes) are stored relative to the sub-palette of their tile, which
    /// is set by the tile's first pixel; a pixel outside it is stored as 0 (the caller gets no
    /// warning). Tiles that equal an earlier tile as they are or mirrored are not kept again; the
    /// tile map refers to the earlier tile with the mirroring instead. Fails where the image is
    /// not `img_width` x `img_height`, or where more than 1024 distinct tiles remain.
    #[verifier::rlimit(100)]
    #[verifier::spinoff_prover]
    pub fn native_to_tiled(
        n_img: IndexedImage,
        single_palette_size: u8,
        tile_dim: usize,
        img_width: usize,
        img_height: usize,
        chunk_dim: usize,
        palette_offset: usize,
    ) -> (r: PyResult<(Vec<Vec<u8>>, Vec<u8>, Vec<TilemapEntry>)>)
        requires
            n_img.0.1 == img_width && n_img.0.2 == img_height ==> nt_ok(
                n_img.0.0@.len() as int,
                img_width as int,
                img_height as int,
                tile_dim as int,
                chunk_dim as int,
                single_palette_size as int,
                palette_offset as int,
            ),
        ensures
            (n_img.0.1 != img_width || n_img.0.2 != img_height) ==> r is Err,
            (n_img.0.1 == img_width && n_img.0.2 == img_height) ==> {
                let n = ((img_width * img_height) / (tile_dim as int) / (tile_dim as int)) as nat;
                let st = nt_run(
                    n_img.0.0@,
                    n_img.0.0@.len(),
                    n,
                    palette_offset as int,
                    single_palette_size as int,
                    tile_dim as int,
                    img_width as int,
                    chunk_dim as int,
                );
                let (ft, fs, es) = dedup(st, tile_dim as int, n);
                &&& (ft.len() > 1024 <==> r is Err)
                &&& (r matches Ok((tiles, pal, entries)) ==> Seq::new(tiles@.len(), |j: int| tiles@[j]@) == ft
                    && pal@ == n_img.1@ && entries@ == es)
                &&& (r matches Ok((tiles, pal, entries)) ==> entries@.len() == n
                    && forall|j: int| 0 <= j < entries@.len() ==> (#[trigger] entries@[j]).0 < tiles@.len())
            },
            r matches Err(e) ==> e.kind == crate::python::ErrorKind::ValueError,
    {
        if n_img.0.1 != img_width || n_img.0.2 != img_height {
            return Err(PyValueError::new_err(
                "Can not convert PIL image to PMD tiled image: Image dimensions do not match.",
            ));
        }
        let td = tile_dim;
        let w = img_width;
        let cd = chunk_dim;
        let sps: usize = single_palette_size as usize;
        let po = palette_offset;
        let data = n_img.0.0.0.as_slice();
        let len = data.len();
        let number_of_tiles: usize = (img_width * img_height) / td / td;
        let ghost n = number_of_tiles as nat;
        let half: usize = td * td / 2;
        let off: usize = po * sps;
        let mut tiles: Vec<Vec<u8>> = Vec::new();
        let mut sums: Vec<usize> = Vec::new();
        let mut pal: Vec<u8> = Vec::new();
        let mut init: Vec<bool> = Vec::new();
        let mut j: usize = 0;
        while j < number_of_tiles
            invariant
                j <= number_of_tiles,
                tiles@.len() == j,
                sums@.len() == j,
                pal@.len() == j,
                init@.len() == j,
                forall|t: int| 0 <= t < j ==> #[trigger] tiles@[t]@ == Seq::<u8>::empty(),
                forall|t: int| 0 <= t < j ==> #[trigger] sums@[t] == 0,
                forall|t: int| 0 <= t < j ==> #[trigger] pal@[t] == 0,
                forall|t: int| 0 <= t < j ==> #[trigger] init@[t] == false,
            decreases number_of_tiles - j,
        {
            tiles.push(Vec::new());
            sums.push(0);
            pal.push(0);
            init.push(false);
            j = j + 1;
        }
        let mut tile_id: usize = 0;
        let mut nidx: usize = 0;
        let mut two0: u8 = 0;
        let mut two1: u8 = 0;
        let mut k: usize = 0;
        assert(Seq::new(tiles@.len(), |t: int| tiles@[t]@) == nt_initial(n).tiles);
        assert(Seq::new(sums@.len(), |t: int| sums@[t] as int) == nt_initial(n).sums);
        while k < len
            invariant
                nt_ok(len as int, w as int, img_height as int, td as int, cd as int, sps as int, po as int),
                data@ == n_img.0.0@,
                len == data@.len(),
                k <= len,
                td == tile_dim,
                w == img_width,
                cd == chunk_dim,
                sps == single_palette_size as usize,
                po == palette_offset,
                off == po * sps,
                half == td * td / 2,
                number_of_tiles == (img_width * img_height) / (td as int) / (td as int),
                n == number_of_tiles,
                tiles@.len() == n,
                sums@.len() == n,
                pal@.len() == n,
                init@.len() == n,
                forall|t: int| 0 <= t < n ==> (#[trigger] tiles@[t]@).len() == (if init@[t] { half as int } else { 0 }),
                forall|t: int| 0 <= t < n ==> #[trigger] sums@[t] <= 30 * k,
                k > 0 ==> tile_id < n && init@[tile_id as int] && nidx < half,
                two0 < 16,
                two1 < 16,
                ({
                    let st = nt_run(data@, k as nat, n, po as int, sps as int, td as int, w as int, cd as int);
                    &&& Seq::new(tiles@.len(), |t: int| tiles@[t]@) == st.tiles
                    &&& Seq::new(sums@.len(), |t: int| sums@[t] as int) == st.sums
                    &&& pal@ == st.pal
                    &&& init@ == st.init
                    &&& tile_id == st.tile_id
                    &&& nidx == st.nidx
                    &&& two0 == st.two0
                    &&& two1 == st.two1
                }),
            decreases len - k,
        {
            let ghost st = nt_run(data@, k as nat, n, po as int, sps as int, td as int, w as int, cd as int);
            let pix: usize = (data[k] as usize) + off;
            if k % 2 == 0 {
                proof {
                    lemma_nt_geometry(k as int, w as int, td as int, cd as int);
                    assert(0 <= nt_tile_id(k as int, w as int, td as int, cd as int) < n);
                }
                let x: usize = k % w;
                let y: usize = k / w;
                let tdcd: usize = td * cd;
                let chunk_x: usize = x / tdcd;
                let chunk_y: usize = y / tdcd;
                let ghost tid_spec = nt_tile_id(k as int, w as int, td as int, cd as int);
                let ups: usize = w / td * chunk_y * cd;
                let tile_x: usize = (chunk_x * cd * cd) + ((x / td) - (chunk_x * cd));
                let tile_y: usize = (chunk_y * cd) + ((y / td) - (chunk_y * cd));
                let tid: usize = ups + ((tile_y - cd * chunk_y) * cd) + tile_x;
                assert(tid == tid_spec);
                let in_tile_x: usize = x - td * (x / td);
                let in_tile_y: usize = y - td * (y / td);
                proof {
                    assert(0 <= nt_nidx(k as int, w as int, td as int) < half);
                    vstd::arithmetic::mul::lemma_mul_nonnegative(in_tile_y as int, td as int);
                }
                let idx_in_tile: usize = in_tile_y * td + in_tile_x;
                let ni: usize = idx_in_tile / 2;
                assert(ni == nt_nidx(k as int, w as int, td as int));
                tile_id = tid;
                nidx = ni;
                assert(sps > 0);
                if !init[tid] {
                    init.set(tid, true);
                    let z = crate::bytes::filled(0, half);
                    tiles.set(tid, z);
                    sums.set(tid, 0);
                    pal.set(tid, #[verifier::truncate] ((pix / sps) as u8));
                }
            }
            proof {
                let ghost s1 = nt_pre(st, k as int, pix as int, sps as int, td as int, w as int, cd as int);
                assert(Seq::new(tiles@.len(), |t: int| tiles@[t]@) =~= s1.tiles);
                assert(Seq::new(sums@.len(), |t: int| sums@[t] as int) =~= s1.sums);
                assert(pal@ =~= s1.pal);
                assert(init@ =~= s1.init);
                assert(tile_id == s1.tile_id && nidx == s1.nidx);
                assert(pix <= i64::MAX);
            }
            let ghost s1 = nt_pre(st, k as int, pix as int, sps as int, td as int, w as int, cd as int);
            assert((pal@[tile_id as int] as int) * (sps as int) <= 4080) by (nonlinear_arith)
                requires pal@[tile_id as int] <= 255, sps <= 16;
            let rp_i: i64 = pix as i64 - (pal[tile_id] as i64 * sps as i64);
            let rp: u8 = if rp_i > (sps - 1) as i64 || rp_i < 0 {
                0
            } else {
                rp_i as u8
            };
            assert(rp == nt_real_pix(pix as int, pal@[tile_id as int], sps as int));
            if k % 2 == 0 {
                two0 = rp;
            } else {
                two1 = rp;
                let add: usize = (two0 as usize) + (two1 as usize);
                let old_sum = sums[tile_id];
                sums.set(tile_id, old_sum + add);
                let hi: u8 = two1 << 4;
                assert(hi == two1 * 16) by (bit_vector)
                    requires two1 < 16, hi == two1 << 4u8;
                let v: u8 = two0 + hi;
                let cur = tiles[tile_id].as_slice();
                let mut row = crate::bytes::copy_range(cur, 0, cur.len());
                assert(row@ =~= cur@);
                row.set(nidx, v);
                assert(v == (s1.two0 + rp * 16) as u8);
                assert(row@ == s1.tiles[tile_id as int].update(nidx as int, v));
                tiles.set(tile_id, row);
            }
            proof {
                let st2 = nt_run(data@, (k + 1) as nat, n, po as int, sps as int, td as int, w as int, cd as int);
                assert(st2 == nt_post(s1, k as int, pix as int, sps as int));
                assert(Seq::new(tiles@.len(), |t: int| tiles@[t]@) =~= st2.tiles);
                assert(Seq::new(sums@.len(), |t: int| sums@[t] as int) =~= st2.sums);
                assert(pal@ =~= st2.pal);
                assert(init@ =~= st2.init);
            }
            k = k + 1;
        }
        let ghost st = nt_run(data@, len as nat, n, po as int, sps as int, td as int, w as int, cd as int);
        let mut fin_tiles: Vec<Vec<u8>> = Vec::new();
        let mut fin_sums: Vec<usize> = Vec::new();
        let mut entries: Vec<TilemapEntry> = Vec::new();
        let mut t: usize = 0;
        while t < number_of_tiles
            invariant
                t <= number_of_tiles,
                n == number_of_tiles,
                td == tile_dim,
                td > 0,
                td % 2 == 0,
                td * td <= usize::MAX,
                half == td * td / 2,
                tiles@.len() == n,
                sums@.len() == n,
                pal@.len() == n,
                forall|u: int| 0 <= u < n ==> (#[trigger] tiles@[u]@).len() == 0 || tiles@[u]@.len() == half,
                Seq::new(tiles@.len(), |u: int| tiles@[u]@) == st.tiles,
                Seq::new(sums@.len(), |u: int| sums@[u] as int) == st.sums,
                pal@ == st.pal,
                fin_sums@.len() == fin_tiles@.len(),
                forall|u: int| 0 <= u < fin_tiles@.len() ==> (#[trigger] fin_tiles@[u]@).len() == 0
                    || fin_tiles@[u]@.len() == half,
                ({
                    let (ft, fs, es) = dedup(st, td as int, t as nat);
                    &&& Seq::new(fin_tiles@.len(), |u: int| fin_tiles@[u]@) == ft
                    &&& Seq::new(fin_sums@.len(), |u: int| fin_sums@[u] as int) == fs
                    &&& entries@ == es
                }),
            decreases number_of_tiles - t,
        {
            assert(st.tiles[t as int] == tiles@[t as int]@);
            assert(st.sums[t as int] == sums@[t as int] as int);
            let ghost prev = dedup(st, td as int, t as nat);
            let (found, fx, fy) = Self::search_for_tile_with_sum(&fin_sums, &fin_tiles, sums[t], &tiles[t], td);
            let ghost ft_old = Seq::new(fin_tiles@.len(), |u: int| fin_tiles@[u]@);
            let ghost fs_old = Seq::new(fin_sums@.len(), |u: int| fin_sums@[u] as int);
            let ghost sr = search_tile(prev.1, prev.0, st.sums[t as int], st.tiles[t as int], td as int, 0);
            assert(ft_old == prev.0 && fs_old == prev.1);
            match found {
                Some(i) => {
                    entries.push(TilemapEntry(i, fx, fy, pal[t]));
                },
                None => {
                    let idx_new = fin_tiles.len();
                    let cur = tiles[t].as_slice();
                    let copy = crate::bytes::copy_range(cur, 0, cur.len());
                    assert(copy@ =~= cur@);
                    fin_tiles.push(copy);
                    fin_sums.push(sums[t]);
                    entries.push(TilemapEntry(idx_new, false, false, pal[t]));
                },
            }
            proof {
                let nxt = dedup(st, td as int, (t + 1) as nat);
                match sr.0 {
                    Some(i) => {
                        assert(nxt.0 == prev.0 && nxt.1 == prev.1);
                    },
                    None => {
                        assert(nxt.0 == prev.0.push(st.tiles[t as int]));
                        assert(nxt.1 == prev.1.push(st.sums[t as int]));
                    },
                }
                assert(Seq::new(fin_tiles@.len(), |u: int| fin_tiles@[u]@) =~= nxt.0);
                assert(Seq::new(fin_sums@.len(), |u: int| fin_sums@[u] as int) =~= nxt.1);
            }
            t = t + 1;
        }
        if fin_tiles.len() > 1024 {
            return Err(PyValueError::new_err(
                "An image selected to import is too complex. It has too many unique tiles (max allowed are 1024).",
            ));
        }
        let palv = crate::bytes::copy_range(n_img.1.as_slice(), 0, n_img.1.len());
        proof {
            assert(n_img.1@.subrange(0, n_img.1@.len() as int) == n_img.1@);
            lemma_dedup_bound(st, td as int, n);
        }
        Ok((fin_tiles, palv, entries))
    }

    /// As `native_to_tiled` with 16-color sub-palettes, chunks of one tile and no palette offset;
    /// gives the tiles and the first 16 colors of the palette.
    pub fn native_to_tiled_seq(n_img: IndexedImage, tile_dim: usize, img_width: usize, img_height: usize) -> (r: PyResult<(Vec<Vec<u8>>, Vec<u8>)>)
        requires
            n_img.0.1 == img_width && n_img.0.2 == img_height ==> nt_ok(
                n_img.0.0@.len() as int,
                img_width as int,
                img_height as int,
                tile_dim as int,
                1,
                16,
                0,
            ),
            n_img.1@.len() >= 48,
        ensures
            (n_img.0.1 != img_width || n_img.0.2 != img_height) ==> r is Err,
            (n_img.0.1 == img_width && n_img.0.2 == img_height) ==> {
                let n = ((img_width * img_height) / (tile_dim as int) / (tile_dim as int)) as nat;
                let st = nt_run(n_img.0.0@, n_img.0.0@.len(), n, 0, 16, tile_dim as int, img_width as int, 1);
                let (ft, fs, es) = dedup(st, tile_dim as int, n);
                &&& (ft.len() > 1024 <==> r is Err)
                &&& (r matches Ok((tiles, pal)) ==> Seq::new(tiles@.len(), |j: int| tiles@[j]@) == ft
                    && pal@ == n_img.1@.subrange(0, 48))
            },
    {
        let ghost palv = n_img.1@;
        let res = Self::native_to_tiled(n_img, 16, tile_dim, img_width, img_height, 1, 0);
        match res {
            Ok((tiles, pal, _entries)) => {
                let p = crate::bytes::copy_range(pal.as_slice(), 0, 48);
                Ok((tiles, p))
            },
            Err(e) => Err(e),
        }
    }
}

/// The first chunk of `tm` (cut into pieces as long as `chunk`), from the `c`-th on, that
/// equals `chunk`.
pub open spec fn chunk_search(chunk: Seq<TilemapEntry>, tm: Seq<TilemapEntry>, c: nat) -> Option<nat>
    decreases tm.len() - c,
{
    let l = chunk.len();
    if l == 0 || c >= tm.len() || (c + 1) * l > tm.len() {
        None
    } else if tm.subrange((c * l) as int, (c * l + l) as int) == chunk {
        Some(c)
    } else {
        chunk_search(chunk, tm, c + 1)
    }
}

pub proof fn lemma_chunk_search_bound(chunk: Seq<TilemapEntry>, tm: Seq<TilemapEntry>, c: nat)
    ensures
        chunk_search(chunk, tm, c) matches Some(i) ==> (i + 1) * chunk.len() <= tm.len() && c <= i,
    decreases tm.len() - c,
{
    let l = chunk.len();
    if !(l == 0 || c >= tm.len() || (c + 1) * l > tm.len()) {
        lemma_chunk_search_bound(chunk, tm, c + 1);
    }
}

pub proof fn lemma_search_tile_bound(fin_sums: Seq<int>, fin_tiles: Seq<Seq<u8>>, sum: int, needle: Seq<u8>, td: int, j: nat)
    ensures
        search_tile(fin_sums, fin_tiles, sum, needle, td, j).0 matches Some(i) ==> j <= i < fin_sums.len(),
    decreases fin_sums.len() - j,
{
    if j < fin_sums.len() {
        lemma_search_tile_bound(fin_sums, fin_tiles, sum, needle, td, j + 1);
    }
}

/// Every entry that deduplication gives refers to a kept tile.
pub proof fn lemma_dedup_bound(s: NtState, td: int, k: nat)
    ensures
        dedup(s, td, k).2.len() == k,
        dedup(s, td, k).0.len() == dedup(s, td, k).1.len(),
        dedup(s, td, k).0.len() <= k,
        forall|j: int| 0 <= j < k ==> #[trigger] dedup(s, td, k).2[j].0 < dedup(s, td, k).0.len(),
    decreases k,
{
    if k > 0 {
        lemma_dedup_bound(s, td, (k - 1) as nat);
        let (ft, fs, es) = dedup(s, td, (k - 1) as nat);
        let t = k - 1;
        lemma_search_tile_bound(fs, ft, s.sums[t], s.tiles[t], td, 0);
        let r = dedup(s, td, k);
        assert forall|j: int| 0 <= j < k implies #[trigger] r.2[j].0 < r.0.len() by {
            if j < k - 1 {
                assert(r.2[j] == es[j]);
            }
        }
    }
}

impl TiledImage {
    /// The index of the first chunk of `tile_mappings` (cut into pieces as long as `chunk`)
    /// that equals `chunk`.
    pub fn search_for_chunk(chunk: &[TilemapEntry], tile_mappings: &[TilemapEntry]) -> (r: Option<usize>)
        ensures
            r matches Some(c) ==> chunk_search(chunk@, tile_mappings@, 0) == Some(c as nat),
            r is None ==> chunk_search(chunk@, tile_mappings@, 0) is None,
    {
        let l = chunk.len();
        let n = tile_mappings.len();
        if l == 0 {
            return None;
        }
        let mut c: usize = 0;
        let mut pos: usize = 0;
        while c < n && pos <= n && n - pos >= l
            invariant
                l == chunk@.len(),
                n == tile_mappings@.len(),
                l > 0,
                pos == c * l,
                chunk_search(chunk@, tile_mappings@, 0) == chunk_search(chunk@, tile_mappings@, c as nat),
            decreases n - c,
        {
            let mut k: usize = 0;
            let mut same = true;
            while k < l
                invariant
                    k <= l,
                    l == chunk@.len(),
                    pos + l <= n,
                    n == tile_mappings@.len(),
                    same == (forall|j: int| 0 <= j < k ==> tile_mappings@[pos + j] == chunk@[j]),
                decreases l - k,
            {
                if tile_mappings[pos + k] != chunk[k] {
                    same = false;
                }
                k = k + 1;
            }
            proof {
                assert(pos + l == (c + 1) * l) by (nonlinear_arith)
                    requires pos == c * l;
                if same {
                    assert(tile_mappings@.subrange(pos as int, pos + l) =~= chunk@);
                } else {
                    let j = choose|j: int| 0 <= j < l && tile_mappings@[pos + j] != chunk@[j];
                    assert(tile_mappings@.subrange(pos as int, pos + l)[j] != chunk@[j]);
                }
            }
            if same {
                return Some(c);
            }
            c = c + 1;
            pos = pos + l;
        }
        proof {
            if c < n && pos <= n {
                assert((c + 1) * l > n) by (nonlinear_arith)
                    requires pos == c * l, n - pos < l;
            }
            if pos > n {
                assert((c + 1) * l > n) by (nonlinear_arith)
                    requires pos == c * l, pos > n, l > 0;
            }
        }
        None
    }
}

} // verus!
