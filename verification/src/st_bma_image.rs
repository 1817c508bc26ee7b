//! Drawing a map background: the chunks of the BPC placed as the BMA's layers say.
use crate::image::crop_rows;
use crate::image::paste_rows;
use crate::image::IndexedImage;
use crate::image::Raster;
use crate::bytes::StBytes;
use crate::bytes::StU8List;
use crate::image::tiled::chunk_search;
use crate::image::tiled::dedup;
use crate::image::tiled::nt_ok;
use crate::image::tiled::nt_run;
use crate::image::tiled::write_chunks;
use crate::image::tiled::TiledImage;
use crate::image::tilemap_entry::InputTilemapEntry;
use crate::image::tilemap_entry::TilemapEntry;
use crate::image::window;
use crate::st_bpc::empty_tile;
use crate::st_bpc::only_layer_changed;
use crate::st_dpc::corrected;
use crate::st_dpc::entry_views;
use crate::st_dpc::null_entry;
use crate::st_dpci::vec_views;
use crate::no_python::Py;
use crate::no_python::Python;
use crate::python::ErrorKind;
use crate::python::PyErr;
use crate::python::PyResult;
use crate::st_bma::Bma;
use crate::st_bpa::InputBpa;
use crate::st_bpc::anim_len;
use crate::st_bpc::anim_tiles;
use crate::st_bpc::bpa_frames_ok;
use crate::st_bpc::chunks_drawable;
use crate::st_bpc::is_chunks_image;
use crate::st_bpc::layer_bpas;
use crate::st_bpc::layer_bpas_bad;
use crate::st_bpc::layer_map;
use crate::st_bpc::layer_slot_end;
use crate::st_bpc::slot_mismatch;
use crate::st_bpc::uses_bpas;
use crate::st_bpc::Bpc;
use crate::st_bpl::bpl_frame_palette;
use crate::st_bpl::frames_before;
use crate::st_bpl::specs_of;
use crate::st_bpl::Bpl;
use crate::st_dpci::bytes_views;
use crate::st_dpci::concat_all;
use crate::st_dpci::tile_pixels;
use crate::st_dpci::tile_rows;
use crate::st_dpl::u8_lists;
use vstd::prelude::*;

verus! {

/// The pixels after placing the first `k` cells of a layer (`mwc` chunks per row) into an image
/// `map_w` pixels wide: cell `i` takes the chunk `layer[i]` out of `chunks` (chunks of `cw` x
/// `ch` pixels one below the other, in rows of `sw` pixels) and puts it at its place, over
/// everything (`masked` false) or over everything but its transparent pixels (`masked`).
pub open spec fn map_layer_paste(
    base: Seq<u8>,
    map_w: int,
    chunks: Seq<u8>,
    sw: int,
    cw: int,
    ch: int,
    layer: Seq<u16>,
    mwc: int,
    k: nat,
    masked: bool,
) -> Seq<u8>
    decreases k,
{
    if k == 0 || map_w == 0 || cw == 0 || sw == 0 || mwc == 0 {
        base
    } else {
        let prev = map_layer_paste(base, map_w, chunks, sw, cw, ch, layer, mwc, (k - 1) as nat, masked);
        let i = k - 1;
        let src = crop_rows(chunks, sw, (layer[i] * cw) * sw, 0, cw, ch as nat);
        paste_rows(prev, map_w, ((i / mwc) * ch) * map_w, src, cw, 0, (i % mwc) * cw, ch as nat, masked, masked)
    }
}

/// Places every cell of `layer` into `img` (see `map_layer_paste`).
fn paste_layer(img: &mut Raster, chunks: &Raster, layer: &Vec<u16>, mwc: usize, cw: usize, ch: usize, masked: bool)
    requires
        layer@.len() <= mwc * 255,
        cw <= 0xFFFF,
        ch <= 0xFFFF,
        mwc <= 255,
        old(img).1 == mwc * cw,
    ensures
        final(img).1 == old(img).1,
        final(img).2 == old(img).2,
        final(img).0@ == map_layer_paste(
            old(img).0@, old(img).1 as int, chunks.0@, chunks.1 as int, cw as int, ch as int, layer@, mwc as int,
            layer@.len(), masked),
{
    if img.1 == 0 || cw == 0 || chunks.1 == 0 || mwc == 0 {
        proof {
            if layer@.len() > 0 {
                assert(map_layer_paste(img.0@, img.1 as int, chunks.0@, chunks.1 as int, cw as int, ch as int, layer@, mwc as int, layer@.len(), masked) == img.0@);
            }
        }
        return;
    }
    let ghost start = img.0@;
    let mut i: usize = 0;
    while i < layer.len()
        invariant
            i <= layer@.len(),
            layer@.len() <= mwc * 255,
            cw <= 0xFFFF,
            ch <= 0xFFFF,
            0 < mwc <= 255,
            cw > 0,
            chunks.1 > 0,
            img.1 == mwc * cw,
            img.1 > 0,
            img.1 == old(img).1,
            img.2 == old(img).2,
            start == old(img).0@,
            img.0@ == map_layer_paste(start, img.1 as int, chunks.0@, chunks.1 as int, cw as int, ch as int, layer@, mwc as int, i as nat, masked),
        decreases layer@.len() - i,
    {
        let x = i % mwc;
        let y = i / mwc;
        assert(x * cw < mwc * cw) by (nonlinear_arith)
            requires x < mwc, cw > 0;
        assert(y <= 255) by (nonlinear_arith)
            requires y == i / mwc, i < mwc * 255, mwc > 0;
        assert(y * ch <= 255 * 0xFFFF) by (nonlinear_arith)
            requires y <= 255, ch <= 0xFFFF;
        assert(layer[i as int] * cw <= 0xFFFF * 0xFFFF) by (nonlinear_arith)
            requires layer[i as int] <= 0xFFFF, cw <= 0xFFFF;
        let src = chunks.crop(0, layer[i] as usize * cw, cw, ch);
        if masked {
            img.paste_masked(src, x * cw, y * ch, true);
        } else {
            img.paste(src, x * cw, y * ch);
        }
        i = i + 1;
    }
}

/// The tiles layer `l` of the BPC is drawn with in animation step `g`: its own tiles, followed
/// by step `g` of its BPAs where it draws BPA tiles.
pub open spec fn bma_layer_tiles(b: Bpc, l: int, bpas: Seq<Option<InputBpa>>, g: int) -> Seq<Seq<u8>> {
    let base = bytes_views(b.layers@[l].0.tiles@);
    let used = layer_bpas(bpas, l * 4);
    if uses_bpas(b.layers@[l].0, bpas) {
        anim_tiles(base, used, g, used.len())
    } else {
        base
    }
}

/// The pixels of the chunks of layer `l` in animation step `g`, one chunk below the other.
pub open spec fn bpc_chunk_px(b: Bpc, l: int, bpas: Seq<Option<InputBpa>>, g: int) -> Seq<u8> {
    let w = b.tiling_width * 8;
    let h = tile_rows(b.layers@[l].0.chunk_tilemap_len as int, 1) * b.tiling_height * 8;
    write_chunks(
        Seq::new((w * h) as nat, |p: int| 0u8),
        layer_map(b, l),
        tile_pixels(bma_layer_tiles(b, l, bpas, g)),
        layer_map(b, l).len(),
        8,
        w,
        b.tiling_width as int,
    )
}

/// Whether layer `l` has `n` animation steps.
pub open spec fn layer_frames(b: Bpc, l: int, bpas: Seq<Option<InputBpa>>, n: int) -> bool {
    if uses_bpas(b.layers@[l].0, bpas) {
        anim_len(layer_bpas(bpas, l * 4), n)
    } else {
        n == 1
    }
}

/// Whether drawing layer `l` fails: it draws BPA tiles and a BPA slot does not match it.
pub open spec fn layer_fails(b: Bpc, l: int, bpas: Seq<Option<InputBpa>>) -> bool {
    uses_bpas(b.layers@[l].0, bpas) && layer_bpas_bad(b.layers@[l].0, bpas, l * 4)
}

/// Whether layer `l` can be drawn in every animation step (what drawing its chunks needs).
pub open spec fn layer_drawable(b: Bpc, l: int, bpas: Seq<Option<InputBpa>>) -> bool {
    &&& chunks_drawable(b, l, bytes_views(b.layers@[l].0.tiles@), 1)
    &&& uses_bpas(b.layers@[l].0, bpas) && !layer_bpas_bad(b.layers@[l].0, bpas, l * 4) ==> {
        let used = layer_bpas(bpas, l * 4);
        &&& forall|j: int| 0 <= j < used.len() ==> bpa_frames_ok(#[trigger] used[j])
        &&& forall|f: int|
            0 <= f ==> #[trigger] chunks_drawable(
                b,
                l,
                anim_tiles(bytes_views(b.layers@[l].0.tiles@), used, f, used.len()),
                1,
            )
    }
}

/// The BPC layer the BMA's lower layer is drawn from: the only one, or the second.
pub open spec fn lower_bpc_layer(b: Bpc) -> int {
    if b.number_of_layers == 1 {
        0
    } else {
        1
    }
}

/// Whether `g` is a multiple of both `a` and `b`.
pub open spec fn common_multiple(a: int, b: int, g: int) -> bool {
    g % a == 0 && g % b == 0
}

/// Whether `m` is the least common multiple of `a` and `b`.
pub open spec fn lcm_is(a: int, b: int, m: int) -> bool {
    &&& m > 0
    &&& common_multiple(a, b, m)
    &&& forall|g: int| 0 < g < m ==> !#[trigger] common_multiple(a, b, g)
}

/// The pixels of frame `f` of the map: the cells of the lower layer from step `f % nl` of the
/// lower BPC layer, then, where the BPC has two layers, the cells of the upper layer from step
/// `f % nh` of its first layer over them, but for their transparent pixels.
pub open spec fn bma_frame_px(m: Bma, b: Bpc, bpas: Seq<Option<InputBpa>>, f: int, nl: int, nh: int) -> Seq<u8> {
    let cw = 8 * m.tiling_width;
    let ch = 8 * m.tiling_height;
    let w = m.map_width_chunks * cw;
    let h = m.map_height_chunks * ch;
    let sw = b.tiling_width * 8;
    let low = map_layer_paste(
        Seq::new((w * h) as nat, |p: int| 0u8),
        w,
        bpc_chunk_px(b, lower_bpc_layer(b), bpas, f % nl),
        sw,
        cw,
        ch,
        m.layer0@,
        m.map_width_chunks as int,
        m.layer0@.len(),
        false,
    );
    if b.number_of_layers > 1 {
        let up = m.layer1.unwrap()@;
        map_layer_paste(low, w, bpc_chunk_px(b, 0, bpas, f % nh), sw, cw, ch, up, m.map_width_chunks as int, up.len(), true)
    } else {
        low
    }
}

/// Whether the map is drawn with its palette animation: one image per animation palette.
pub open spec fn with_pal_ani(p: Bpl, pal_ani: bool, single_frame: bool) -> bool {
    pal_ani && !single_frame && p.has_palette_animation && p.animation_palette@.len() > 0
}

/// The palette of frame `q` of the palette animation, all palettes one after the other.
pub open spec fn pal_ani_palette(p: Bpl, q: int) -> Seq<u8> {
    concat_all(Seq::new(
        p.animation_specs@.len(),
        |i: int| bpl_frame_palette(specs_of(p.animation_specs@), u8_lists(p.palettes@), u8_lists(p.animation_palette@), q % 0x10000, i),
    ))
}

/// The palettes as byte buffers.
fn lists_to_bytes(v: &Vec<StU8List>) -> (r: Vec<StBytes>)
    ensures
        bytes_views(r@) == u8_lists(v@),
{
    let mut out: Vec<StBytes> = Vec::new();
    let mut i: usize = 0;
    while i < v.len()
        invariant
            i <= v@.len(),
            bytes_views(out@) == u8_lists(v@).take(i as int),
        decreases v@.len() - i,
    {
        let b = StBytes(v[i].0.clone());
        let ghost o = out@;
        out.push(b);
        proof {
            crate::st_dpci::lemma_bytes_views_push(o, b);
            assert(u8_lists(v@).take(i + 1) =~= u8_lists(v@).take(i as int).push(v@[i as int]@));
        }
        i = i + 1;
    }
    assert(u8_lists(v@).take(v@.len() as int) =~= u8_lists(v@));
    out
}

/// The palettes' bytes one after the other.
fn flatten_lists(v: &Vec<StU8List>) -> (r: StBytes)
    ensures
        r@ == concat_all(u8_lists(v@)),
{
    let mut out: Vec<u8> = Vec::new();
    let mut i: usize = 0;
    while i < v.len()
        invariant
            i <= v@.len(),
            out@ == concat_all(u8_lists(v@).take(i as int)),
        decreases v@.len() - i,
    {
        proof {
            assert(u8_lists(v@).take(i + 1).drop_last() =~= u8_lists(v@).take(i as int));
        }
        crate::bytes::push_all(&mut out, v[i].0.as_slice());
        i = i + 1;
    }
    assert(u8_lists(v@).take(v@.len() as int) =~= u8_lists(v@));
    StBytes(out)
}

/// Parts the eight BPA slots in two lists of the same length: the first keeps the slots of the
/// first layer (the first four), the second those of the second layer.
fn split_slots(v: Vec<Option<InputBpa>>) -> (r: (Vec<Option<InputBpa>>, Vec<Option<InputBpa>>))
    ensures
        r.0@.len() == v@.len(),
        r.1@.len() == v@.len(),
        forall|k: int| 0 <= k < v@.len() && k < 4 ==> #[trigger] r.0@[k] == v@[k],
        forall|k: int| 4 <= k < v@.len() ==> #[trigger] r.1@[k] == v@[k],
        forall|k: int| 0 <= k < v@.len() && k < 4 ==> #[trigger] r.1@[k] is None,
        forall|k: int| 4 <= k < v@.len() ==> #[trigger] r.0@[k] is None,
{
    let ghost vv = v@;
    let n = v.len();
    let mut rest = v;
    let mut rev: Vec<Option<InputBpa>> = Vec::new();
    while rest.len() > 0
        invariant
            rest@ == vv.subrange(0, rest@.len() as int),
            rest@.len() + rev@.len() == n,
            n == vv.len(),
            forall|q: int| 0 <= q < rev@.len() ==> #[trigger] rev@[q] == vv[n - 1 - q],
        decreases rest@.len(),
    {
        let x = rest.pop().unwrap();
        rev.push(x);
    }
    let mut a: Vec<Option<InputBpa>> = Vec::new();
    let mut b: Vec<Option<InputBpa>> = Vec::new();
    let mut k: usize = 0;
    while k < n
        invariant
            n == vv.len(),
            k <= n,
            rev@.len() == n - k,
            forall|q: int| 0 <= q < rev@.len() ==> #[trigger] rev@[q] == vv[n - 1 - q],
            a@.len() == k,
            b@.len() == k,
            forall|q: int| 0 <= q < k && q < 4 ==> #[trigger] a@[q] == vv[q],
            forall|q: int| 4 <= q < k ==> #[trigger] b@[q] == vv[q],
            forall|q: int| 0 <= q < k && q < 4 ==> #[trigger] b@[q] is None,
            forall|q: int| 4 <= q < k ==> #[trigger] a@[q] is None,
        decreases n - k,
    {
        let x = rev.pop().unwrap();
        assert(x == vv[k as int]);
        if k < 4 {
            a.push(x);
            b.push(None);
        } else {
            a.push(None);
            b.push(x);
        }
        k = k + 1;
    }
    (a, b)
}

proof fn lemma_split_same(v: Seq<Option<InputBpa>>, w: Seq<Option<InputBpa>>, s: int)
    requires
        s == 0 || s == 4,
        v.len() == w.len(),
        forall|k: int| s <= k < s + 4 && k < v.len() ==> #[trigger] w[k] == v[k],
    ensures
        layer_bpas(w, s) == layer_bpas(v, s),
        forall|l: crate::st_bpc::BpcLayer| layer_bpas_bad(l, w, s) == layer_bpas_bad(l, v, s),
        forall|l: crate::st_bpc::BpcLayer| uses_bpas(l, w) == uses_bpas(l, v),
{
    let e = layer_slot_end(v.len() as int, s);
    if s <= v.len() {
        assert(s <= e <= v.len());
        assert(w.subrange(s, e) =~= v.subrange(s, e));
    }
    assert forall|l: crate::st_bpc::BpcLayer| layer_bpas_bad(l, w, s) == layer_bpas_bad(l, v, s) by {
        if layer_bpas_bad(l, w, s) {
            let k = choose|k: int| s <= k < layer_slot_end(w.len() as int, s) && #[trigger] slot_mismatch(l, w[k], k - s);
            assert(slot_mismatch(l, v[k], k - s));
        }
        if layer_bpas_bad(l, v, s) {
            let k = choose|k: int| s <= k < layer_slot_end(v.len() as int, s) && #[trigger] slot_mismatch(l, v[k], k - s);
            assert(slot_mismatch(l, w[k], k - s));
        }
    }
}

/// Whether `g` is a multiple of `a`.
pub open spec fn is_multiple(a: int, g: int) -> bool {
    g % a == 0
}

proof fn lemma_next_multiple(m: int, a: int, p: int)
    requires
        a > 0,
        m >= 0,
        m % a == 0,
        p % a == 0,
        m < p,
    ensures
        m + a <= p,
        forall|g: int| m < g < m + a ==> !#[trigger] is_multiple(a, g),
{
    assert(m == a * (m / a)) by (nonlinear_arith)
        requires a > 0, m % a == 0;
    assert(p == a * (p / a)) by (nonlinear_arith)
        requires a > 0, p % a == 0;
    assert(m / a < p / a) by (nonlinear_arith)
        requires a > 0, m == a * (m / a), p == a * (p / a), m < p;
    assert(m + a <= p) by (nonlinear_arith)
        requires a > 0, m == a * (m / a), p == a * (p / a), m / a + 1 <= p / a;
    assert forall|g: int| m < g < m + a implies !#[trigger] is_multiple(a, g) by {
        if g % a == 0 {
            assert(g == a * (g / a)) by (nonlinear_arith)
                requires a > 0, g % a == 0;
            assert(false) by (nonlinear_arith)
                requires a > 0, m == a * (m / a), g == a * (g / a), m < g, g < m + a;
        }
    }
}

/// The least common multiple of `a` and `b`, where it fits.
fn lcm_of(a: usize, b: usize) -> (r: Option<usize>)
    requires
        a > 0,
        b > 0,
    ensures
        r matches Some(m) ==> lcm_is(a as int, b as int, m as int),
{
    let ghost p: int = a * b;
    assert(p % (a as int) == 0 && p % (b as int) == 0 && p >= a) by (nonlinear_arith)
        requires p == a * b, a > 0, b > 0;
    proof {
        lemma_next_multiple(0, a as int, p);
        assert forall|g: int| 0 < g < a implies !#[trigger] common_multiple(a as int, b as int, g) by {
            assert(!is_multiple(a as int, g));
        }
    }
    let mut m: usize = a;
    while m % b != 0
        invariant
            a > 0,
            b > 0,
            p == a * b,
            p % (a as int) == 0,
            p % (b as int) == 0,
            0 < m <= p,
            m % a == 0,
            forall|g: int| 0 < g < m ==> !#[trigger] common_multiple(a as int, b as int, g),
        decreases p - m,
    {
        proof {
            if m == p {
                assert(false);
            }
            lemma_next_multiple(m as int, a as int, p);
            assert forall|g: int| 0 < g < m + a implies !#[trigger] common_multiple(a as int, b as int, g) by {
                if g >= m {
                    if g == m {
                        assert(m % b != 0);
                    } else {
                        assert(!is_multiple(a as int, g));
                    }
                }
            }
        }
        if m > usize::MAX - a {
            return None;
        }
        m = m + a;
        assert((m as int) % (a as int) == 0) by (nonlinear_arith)
            requires (m - a) % (a as int) == 0, a > 0;
    }
    Some(m)
}

/// A copy of an image.
fn copy_image(img: &IndexedImage) -> (r: IndexedImage)
    ensures
        r.0.0@ == img.0.0@,
        r.0.1 == img.0.1,
        r.0.2 == img.0.2,
        r.1@ == img.1@,
{
    IndexedImage(img.0.clone(), img.1.clone())
}

/// Whether `nl`, `nh` and `n` are the numbers of animation steps of the lower and the upper
/// layer and the number of frames of the map drawn from them (their least common multiple; one
/// for a single frame).
pub open spec fn bma_frame_counts(b: Bpc, bpas: Seq<Option<InputBpa>>, single_frame: bool, nl: int, nh: int, n: int) -> bool {
    let two = b.number_of_layers > 1;
    &&& layer_frames(b, lower_bpc_layer(b), bpas, nl)
    &&& two ==> layer_frames(b, 0, bpas, nh)
    &&& single_frame ==> n == 1
    &&& !single_frame && two ==> lcm_is(nl, nh, n)
    &&& !single_frame && !two ==> n == nl
}

impl Bma {
    /// Draws one layer of the map (0: lower, else upper) in the first animation step, with
    /// `palettes` as its palette: the cells of the BMA layer take their chunks from the BPC's
    /// lower layer (for the lower layer) or its first layer (for the upper one). Fails where a
    /// BPA slot does not match that BPC layer.
    pub fn to_pil_single_layer(
        &self,
        bpc: &Bpc,
        palettes: Vec<StBytes>,
        bpas: Vec<Option<InputBpa>>,
        layer: usize,
        py: Python,
    ) -> (r: PyResult<IndexedImage>)
        requires
            ({
                let lid = if layer == 0 { lower_bpc_layer(*bpc) } else { 0 };
                &&& lid < bpc.layers@.len()
                &&& layer_drawable(*bpc, lid, bpas@)
            }),
            self.layer0@.len() == self.map_width_chunks * self.map_height_chunks,
            layer != 0 ==> (self.layer1 matches Some(l1) && l1@.len() == self.map_width_chunks * self.map_height_chunks),
            (self.map_width_chunks * (8 * self.tiling_width)) * (self.map_height_chunks * (8 * self.tiling_height))
                <= usize::MAX,
        ensures
            ({
                let lid = if layer == 0 { lower_bpc_layer(*bpc) } else { 0 };
                let cw = 8 * self.tiling_width;
                let ch = 8 * self.tiling_height;
                let w = self.map_width_chunks * cw;
                let h = self.map_height_chunks * ch;
                let cells = if layer == 0 { self.layer0@ } else { self.layer1.unwrap()@ };
                &&& (r is Err <==> layer_fails(*bpc, lid, bpas@))
                &&& (r matches Err(e) ==> e.kind == ErrorKind::AssertionError)
                &&& (r matches Ok(img) ==> {
                    &&& img.0.1 == w
                    &&& img.0.2 == h
                    &&& img.1@ == crate::st_bpc::pal_bytes(palettes@)
                    &&& img.0.0@ == map_layer_paste(
                        Seq::new((w * h) as nat, |p: int| 0u8),
                        w,
                        bpc_chunk_px(*bpc, lid, bpas@, 0),
                        bpc.tiling_width * 8,
                        cw,
                        ch,
                        cells,
                        self.map_width_chunks as int,
                        cells.len(),
                        false,
                    )
                })
            }),
    {
        let lid: u8 = if layer == 0 {
            if bpc.number_of_layers == 1 { 0 } else { 1 }
        } else {
            0
        };
        let ghost bv = bpas@;
        let chunks = match bpc.chunks_animated_to_pil(lid, palettes, bpas, 1, py) {
            Ok(v) => v,
            Err(e) => return Err(e),
        };
        let cw: usize = 8 * self.tiling_width as usize;
        let ch: usize = 8 * self.tiling_height as usize;
        let mwc = self.map_width_chunks as usize;
        assert(mwc * cw <= 255 * 2040) by (nonlinear_arith)
            requires mwc <= 255, cw <= 2040;
        assert(self.map_height_chunks as usize * ch <= 255 * 2040) by (nonlinear_arith)
            requires self.map_height_chunks <= 255, ch <= 2040;
        let w: usize = mwc * cw;
        let h: usize = self.map_height_chunks as usize * ch;
        let mut img = Raster::new(w, h);
        proof {
            assert(bpc_chunk_px(*bpc, lid as int, bv, 0) == chunks@[0].0.0@);
        }
        if layer == 0 {
            assert(self.layer0@.len() <= mwc * 255) by (nonlinear_arith)
                requires self.layer0@.len() == mwc * self.map_height_chunks, self.map_height_chunks <= 255;
            paste_layer(&mut img, &chunks[0].0, &self.layer0, mwc, cw, ch, false);
        } else {
            match &self.layer1 {
                Some(l1) => {
                    assert(l1@.len() <= mwc * 255) by (nonlinear_arith)
                        requires l1@.len() == mwc * self.map_height_chunks, self.map_height_chunks <= 255;
                    paste_layer(&mut img, &chunks[0].0, l1, mwc, cw, ch, false);
                },
                None => {},
            }
        }
        Ok(IndexedImage(img, chunks[0].1.clone()))
    }

    /// Draws the map, one image per animation frame, each `map_width_chunks * tiling_width * 8`
    /// by `map_height_chunks * tiling_height * 8` pixels (see `bma_frame_px`): the lower layer's
    /// chunks come from the BPC's lower layer, the upper layer's (where the BPC has two layers)
    /// from its first layer, drawn over them but for their transparent pixels. BPA animations of
    /// the two layers run side by side until both are back at their first frame; with
    /// `single_frame`, only the first frame is drawn. With `pal_ani` (and not `single_frame`), where
    /// the BPL has a palette animation, there is one image per animation palette, cycling
    /// through the frames, each with its frame of the palette animation. Fails where a BPA slot
    /// does not match the BPC layer that draws it, or where the frame count does not fit in a
    /// `usize`. Collision and the unknown data layer are not drawn.
    #[verifier::loop_isolation(false)]
    pub fn to_pil(
        &self,
        bpc: &Bpc,
        bpl: &Bpl,
        bpas: Vec<Option<InputBpa>>,
        include_collision: bool,
        include_unknown_data_block: bool,
        pal_ani: bool,
        single_frame: bool,
        py: Python,
    ) -> (r: PyResult<Vec<IndexedImage>>)
        requires
            lower_bpc_layer(*bpc) < bpc.layers@.len(),
            self.layer0@.len() == self.map_width_chunks * self.map_height_chunks,
            bpc.number_of_layers > 1 ==> (self.layer1 matches Some(l1) && l1@.len() == self.map_width_chunks
                * self.map_height_chunks),
            (self.map_width_chunks * (8 * self.tiling_width)) * (self.map_height_chunks * (8 * self.tiling_height))
                <= usize::MAX,
            layer_drawable(*bpc, lower_bpc_layer(*bpc), bpas@),
            bpc.number_of_layers > 1 ==> layer_drawable(*bpc, 0, bpas@),
            with_pal_ani(*bpl, pal_ani, single_frame) ==> {
                &&& frames_before(specs_of(bpl.animation_specs@), bpl.animation_specs@.len()) <= 0xFFFF
                &&& forall|i: int|
                    0 <= i < bpl.animation_specs@.len() && #[trigger] bpl.animation_specs@[i].0.number_of_frames == 0
                        ==> i < bpl.palettes@.len()
            },
        ensures
            ({
                let lo = lower_bpc_layer(*bpc);
                let two = bpc.number_of_layers > 1;
                let fails = layer_fails(*bpc, lo, bpas@) || (two && layer_fails(*bpc, 0, bpas@));
                let w = self.map_width_chunks * (8 * self.tiling_width);
                let h = self.map_height_chunks * (8 * self.tiling_height);
                &&& fails ==> r is Err
                &&& !fails ==> (r matches Err(e) ==> e.kind == ErrorKind::ValueError && two && !single_frame)
                &&& r matches Ok(v) ==> exists|nl: int, nh: int, n: int|
                    #[trigger] bma_frame_counts(*bpc, bpas@, single_frame, nl, nh, n) && {
                        &&& with_pal_ani(*bpl, pal_ani, single_frame) ==> {
                            &&& v@.len() == bpl.animation_palette@.len()
                            &&& forall|q: int|
                                0 <= q < v@.len() ==> {
                                    &&& (#[trigger] v@[q]).0.1 == w
                                    &&& v@[q].0.2 == h
                                    &&& v@[q].0.0@ == bma_frame_px(*self, *bpc, bpas@, q % n, nl, nh)
                                    &&& v@[q].1@ == pal_ani_palette(*bpl, q)
                                }
                        }
                        &&& !with_pal_ani(*bpl, pal_ani, single_frame) ==> {
                            &&& v@.len() == n
                            &&& forall|f: int|
                                0 <= f < v@.len() ==> {
                                    &&& (#[trigger] v@[f]).0.1 == w
                                    &&& v@[f].0.2 == h
                                    &&& v@[f].0.0@ == bma_frame_px(*self, *bpc, bpas@, f, nl, nh)
                                    &&& v@[f].1@ == concat_all(u8_lists(bpl.palettes@))
                                }
                        }
                    }
            }),
    {
        let two = bpc.number_of_layers > 1;
        let lo: u8 = if bpc.number_of_layers == 1 { 0 } else { 1 };
        let ghost bv = bpas@;
        let (bl, bu) = if two {
            let (b0, b1) = split_slots(bpas);
            proof {
                lemma_split_same(bv, b1@, 4);
                lemma_split_same(bv, b0@, 0);
            }
            (b1, b0)
        } else {
            (bpas, Vec::new())
        };
        let pals1 = lists_to_bytes(&bpl.palettes);
        let lower = match bpc.chunks_animated_to_pil(lo, pals1, bl, 1, py) {
            Ok(v) => v,
            Err(e) => return Err(e),
        };
        let nl = lower.len();
        let upper: Vec<IndexedImage> = if two {
            let pals2 = lists_to_bytes(&bpl.palettes);
            match bpc.chunks_animated_to_pil(0, pals2, bu, 1, py) {
                Ok(v) => v,
                Err(e) => return Err(e),
            }
        } else {
            Vec::new()
        };
        let nh: usize = if two { upper.len() } else { 1 };
        assert(nl > 0);
        assert(nh > 0);
        let n: usize = if single_frame {
            1
        } else if two {
            if nl == nh {
                proof {
                    lemma_next_multiple(0, nl as int, nl as int);
                    assert forall|g: int| 0 < g < nl implies !#[trigger] common_multiple(nl as int, nh as int, g) by {
                        assert(!is_multiple(nl as int, g));
                    }
                    assert((nl as int) % (nl as int) == 0);
                }
                nl
            } else {
                match lcm_of(nl, nh) {
                    Some(m) => m,
                    None => {
                        return Err(PyErr { kind: ErrorKind::ValueError, value: String::from_str("too many animation frames"), user_error: false });
                    },
                }
            }
        } else {
            nl
        };
        assert(bma_frame_counts(*bpc, bv, single_frame, nl as int, nh as int, n as int));
        let cw: usize = 8 * self.tiling_width as usize;
        let ch: usize = 8 * self.tiling_height as usize;
        let mwc = self.map_width_chunks as usize;
        assert(mwc * cw <= 255 * 2040) by (nonlinear_arith)
            requires mwc <= 255, cw <= 2040;
        assert(self.map_height_chunks as usize * ch <= 255 * 2040) by (nonlinear_arith)
            requires self.map_height_chunks <= 255, ch <= 2040;
        let w: usize = mwc * cw;
        let h: usize = self.map_height_chunks as usize * ch;
        assert(self.layer0@.len() <= mwc * 255) by (nonlinear_arith)
            requires self.layer0@.len() == mwc * self.map_height_chunks, self.map_height_chunks <= 255;
        assert(two ==> self.layer1.unwrap()@.len() <= mwc * 255) by (nonlinear_arith)
            requires two ==> self.layer1.unwrap()@.len() == mwc * self.map_height_chunks, self.map_height_chunks <= 255;
        let mut frames: Vec<IndexedImage> = Vec::new();
        let mut f: usize = 0;
        while f < n
            invariant
                f <= n,
                frames@.len() == f,
                forall|g: int|
                    0 <= g < f ==> {
                        &&& (#[trigger] frames@[g]).0.1 == w
                        &&& frames@[g].0.2 == h
                        &&& frames@[g].0.0@ == bma_frame_px(*self, *bpc, bv, g, nl as int, nh as int)
                        &&& frames@[g].1@ == concat_all(u8_lists(bpl.palettes@))
                    },
            decreases n - f,
        {
            let li = f % nl;
            let mut img = Raster::new(w, h);
            paste_layer(&mut img, &lower[li].0, &self.layer0, mwc, cw, ch, false);
            if two {
                let hi = f % nh;
                match &self.layer1 {
                    Some(l1) => {
                        paste_layer(&mut img, &upper[hi].0, l1, mwc, cw, ch, true);
                    },
                    None => {},
                }
            }
            let ghost li_i = li as int;
            proof {
                assert(bpc_chunk_px(*bpc, lo as int, bv, f as int % nl as int) == lower@[li_i].0.0@);
                if two {
                    assert(bpc_chunk_px(*bpc, 0, bv, f as int % nh as int) == upper@[(f % nh) as int].0.0@);
                }
            }
            frames.push(IndexedImage(img, lower[li].1.clone()));
            f = f + 1;
        }
        if pal_ani && !single_frame && bpl.has_palette_animation && bpl.animation_palette.len() > 0 {
            let a = bpl.animation_palette.len();
            let mut out: Vec<IndexedImage> = Vec::new();
            let mut q: usize = 0;
            while q < a
                invariant
                    q <= a,
                    out@.len() == q,
                    forall|g: int|
                        0 <= g < q ==> {
                            &&& (#[trigger] out@[g]).0.1 == w
                            &&& out@[g].0.2 == h
                            &&& out@[g].0.0@ == bma_frame_px(*self, *bpc, bv, g % (n as int), nl as int, nh as int)
                            &&& out@[g].1@ == pal_ani_palette(*bpl, g)
                        },
                decreases a - q,
            {
                let base = copy_image(&frames[q % n]);
                let fr: u16 = (q % 0x10000) as u16;
                let pl = bpl.apply_palette_animations(fr, py);
                let pal = flatten_lists(&pl);
                proof {
                    assert(concat_all(u8_lists(pl@)) == pal_ani_palette(*bpl, q as int));
                }
                out.push(IndexedImage(base.0, pal));
                q = q + 1;
            }
            return Ok(out);
        }
        Ok(frames)
    }
}

/// The palette cut into palettes of 16 colours (48 bytes; the last may be shorter).
pub open spec fn palettes48(p: Seq<u8>) -> Seq<Seq<u8>> {
    Seq::new(((p.len() + 47) / 48) as nat, |c: int| window(p, 48 * c, 48))
}

/// Tile map entries with each repeated chunk kept once: the kept entries, the chunk index (from
/// 1) of every chunk, and the number of kept chunks.
pub struct ChunkDedup {
    pub tm: Seq<TilemapEntry>,
    pub cm: Seq<u16>,
    pub count: nat,
}

/// Keeping each of the first `k` chunks of `tic` entries of `es` once: a chunk equal to a kept
/// one takes that one's index, another is kept with the next index.
pub open spec fn chunk_dedup(es: Seq<TilemapEntry>, tic: nat, k: nat) -> ChunkDedup
    decreases k,
{
    if k == 0 {
        ChunkDedup { tm: Seq::empty(), cm: Seq::empty(), count: 0 }
    } else {
        let d = chunk_dedup(es, tic, (k - 1) as nat);
        let chunk = es.subrange((k - 1) * tic, (k * tic) as int);
        match chunk_search(chunk, d.tm, 0) {
            Some(c) => ChunkDedup { tm: d.tm, cm: d.cm.push((c + 1) as u16), count: d.count },
            None => ChunkDedup { tm: d.tm + chunk, cm: d.cm.push((d.count + 1) as u16), count: d.count + 1 },
        }
    }
}

/// The tiles (kept once, up to flips) and tile map of an image cut into tiles of 8 pixels in
/// chunks of `cd` tiles, with sub-palettes counted from `po`.
pub open spec fn img_tiling(img: IndexedImage, cd: int, po: int) -> (Seq<Seq<u8>>, Seq<int>, Seq<TilemapEntry>) {
    let w = img.0.1 as int;
    let h = img.0.2 as int;
    let n = ((w * h) / 8 / 8) as nat;
    dedup(nt_run(img.0.0@, img.0.0@.len(), n, po, 16, 8, w, cd), 8, n)
}

/// Whether layer `l` of the BPC holds what importing an image gives: the empty tile and the
/// image's tiles, the null chunk and the kept chunks (tile indices counted from 1).
pub open spec fn imported_layer(l: crate::st_bpc::BpcLayer, ft: Seq<Seq<u8>>, d: ChunkDedup, dim: nat) -> bool {
    &&& bytes_views(l.tiles@) == seq![empty_tile()] + ft
    &&& l.number_tiles == ft.len() as u16
    &&& entry_views(l.tilemap@) == Seq::new(dim, |i: int| null_entry()) + Seq::new(d.tm.len(), |i: int| corrected(d.tm[i], true))
}

proof fn lemma_chunk_dedup(es: Seq<TilemapEntry>, tic: nat, k: nat, bound: int)
    requires
        tic > 0,
        k * tic <= es.len(),
        forall|j: int| 0 <= j < es.len() ==> (#[trigger] es[j]).0 < bound,
    ensures
        chunk_dedup(es, tic, k).tm.len() == chunk_dedup(es, tic, k).count * tic,
        chunk_dedup(es, tic, k).count <= k,
        chunk_dedup(es, tic, k).cm.len() == k,
        forall|j: int| 0 <= j < chunk_dedup(es, tic, k).tm.len() ==> (#[trigger] chunk_dedup(es, tic, k).tm[j]).0 < bound,
    decreases k,
{
    if k > 0 {
        assert((k - 1) * tic + tic == k * tic) by (nonlinear_arith);
        lemma_chunk_dedup(es, tic, (k - 1) as nat, bound);
        let d = chunk_dedup(es, tic, (k - 1) as nat);
        assert((d.count + 1) * tic == d.count * tic + tic) by (nonlinear_arith);
    }
}

impl Bma {
    /// Imports one image as a layer: its tiles and chunks (each repeated chunk kept once) go
    /// into layer `bpc_layer_id` of the BPC, the chunk indices into the BMA's upper
    /// (`is_upper`) or lower layer; gives the image's palettes. Fails where more than 1024
    /// tiles remain, changing nothing.
    fn from_pil_step(
        &mut self,
        is_upper: bool,
        bpc_layer_id: usize,
        img: IndexedImage,
        palette_offset: usize,
        bpc: &mut Bpc,
        py: Python,
    ) -> (r: PyResult<Vec<Vec<u8>>>)
        requires
            bpc_layer_id < old(bpc).layers@.len(),
            old(bpc).tiling_width * old(bpc).tiling_height <= 0xFFFF,
            old(bpc).tiling_width > 0,
            old(bpc).tiling_height > 0,
            img.0.1 == old(self).map_width_chunks * (8 * old(self).tiling_width),
            img.0.2 == old(self).map_height_chunks * (8 * old(self).tiling_height),
            nt_ok(img.0.0@.len() as int, img.0.1 as int, img.0.2 as int, 8, old(self).tiling_width as int, 16, palette_offset as int),
            old(self).tiling_height > 0,
        ensures
            ({
                let (ft, fs, es) = img_tiling(img, old(self).tiling_width as int, palette_offset as int);
                let tic = (old(self).tiling_width * old(self).tiling_height) as nat;
                let d = chunk_dedup(es, tic, (old(self).map_width_chunks * old(self).map_height_chunks) as nat);
                let l1 = final(bpc).layers@[bpc_layer_id as int].0;
                &&& (r is Err <==> ft.len() > 1024)
                &&& (r matches Err(e) ==> e.kind == ErrorKind::ValueError && *final(bpc) == *old(bpc) && *final(self) == *old(self))
                &&& (r matches Ok(p) ==> {
                    &&& vec_views(p@) == palettes48(img.1@)
                    &&& only_layer_changed(*old(bpc), *final(bpc), bpc_layer_id as int, l1)
                    &&& l1.bpas == old(bpc).layers@[bpc_layer_id as int].0.bpas
                    &&& imported_layer(l1, ft, d, (old(bpc).tiling_width * old(bpc).tiling_height) as nat)
                    &&& l1.chunk_tilemap_len == ((old(bpc).tiling_width * old(bpc).tiling_height + d.tm.len()) as u16) / old(bpc).tiling_width / old(bpc).tiling_height
                    &&& (is_upper ==> (old(self).layer1 is Some ==> (final(self).layer1 matches Some(v) && v@ == d.cm))
                        && (old(self).layer1 is None ==> final(self).layer1 is None) && final(self).layer0 == old(self).layer0)
                    &&& (!is_upper ==> final(self).layer0@ == d.cm && final(self).layer1 == old(self).layer1)
                    &&& final(self).map_width_chunks == old(self).map_width_chunks
                    &&& final(self).map_height_chunks == old(self).map_height_chunks
                    &&& final(self).tiling_width == old(self).tiling_width
                    &&& final(self).tiling_height == old(self).tiling_height
                    &&& final(self).number_of_layers == old(self).number_of_layers
                })
            }),
    {
        let w = img.0.1;
        let h = img.0.2;
        let tw = self.tiling_width as usize;
        let th = self.tiling_height as usize;
        let mwc = self.map_width_chunks as usize;
        let mhc = self.map_height_chunks as usize;
        let ghost pal_in = img.1@;
        let ghost tl = img_tiling(img, tw as int, palette_offset as int);
        let (tiles, pal, entries) = match TiledImage::native_to_tiled(img, 16, 8, w, h, tw, palette_offset) {
            Ok(x) => x,
            Err(e) => return Err(e),
        };
        let ghost ft = tl.0;
        let ghost es = tl.2;
        assert(tw * th <= 255 * 255 && mwc * mhc <= 255 * 255) by (nonlinear_arith)
            requires tw <= 255, th <= 255, mwc <= 255, mhc <= 255;
        let tic: usize = tw * th;
        let nch: usize = mwc * mhc;
        assert(nch * tic <= 4228250625) by (nonlinear_arith)
            requires nch <= 255 * 255, tic <= 255 * 255;
        proof {
            let s = nt_run(img.0.0@, img.0.0@.len(), ((w * h) / 8 / 8) as nat, palette_offset as int, 16, 8, w as int, tw as int);
            crate::image::tiled::lemma_dedup_bound(s, 8, ((w * h) / 8 / 8) as nat);
            assert(w * h == 64 * (nch * tic)) by (nonlinear_arith)
                requires w == mwc * (8 * tw), h == mhc * (8 * th), nch == mwc * mhc, tic == tw * th;
            assert((w * h) / 8 / 8 == nch * tic) by (nonlinear_arith)
                requires w * h == 64 * (nch * tic);
            assert(tw > 0);
            assert(tic > 0) by (nonlinear_arith)
                requires tic == tw * th, tw > 0, th > 0;
        }
        assert(es.len() == nch * tic);
        let mut out_tiles: Vec<StBytes> = Vec::new();
        let mut i: usize = 0;
        while i < tiles.len()
            invariant
                i <= tiles@.len(),
                bytes_views(out_tiles@) == Seq::new(i as nat, |k: int| tiles@[k]@),
            decreases tiles@.len() - i,
        {
            let ghost o = out_tiles@;
            let b = StBytes(tiles[i].clone());
            out_tiles.push(b);
            proof {
                crate::st_dpci::lemma_bytes_views_push(o, b);
                assert(Seq::new((i + 1) as nat, |k: int| tiles@[k]@) =~= Seq::new(i as nat, |k: int| tiles@[k]@).push(tiles@[i as int]@));
            }
            i = i + 1;
        }
        bpc.import_tiles(bpc_layer_id, out_tiles, false, py);
        let mut tm: Vec<TilemapEntry> = Vec::new();
        let mut cm: Vec<u16> = Vec::new();
        let mut count: usize = 0;
        let mut k: usize = 0;
        while k < nch
            invariant
                k <= nch,
                entries@ == es,
                es.len() == nch * tic,
                tm@ == chunk_dedup(es, tic as nat, k as nat).tm,
                cm@ == chunk_dedup(es, tic as nat, k as nat).cm,
                count == chunk_dedup(es, tic as nat, k as nat).count,
                tm@.len() == count * tic,
                count <= k,
                nch <= 255 * 255,
                nch * tic <= 4228250625,
            decreases nch - k,
        {
            assert(k * tic + tic <= nch * tic) by (nonlinear_arith)
                requires k < nch;
            assert(k * tic + tic <= 0xFFFF_FFFF);
            assert(0xFFFF_FFFF <= usize::MAX);
            let start: usize = k * tic;
            let mut chunk: Vec<TilemapEntry> = Vec::new();
            let mut q: usize = 0;
            while q < tic
                invariant
                    q <= tic,
                    start == k * tic,
                    start + tic <= nch * tic,
                    nch * tic <= 4228250625,
                    es.len() == nch * tic,
                    entries@ == es,
                    chunk@ == es.subrange(start as int, start + q),
                decreases tic - q,
            {
                chunk.push(entries[start + q]);
                q = q + 1;
                assert(chunk@ =~= es.subrange(start as int, start + q));
            }
            assert((k + 1) * tic == k * tic + tic) by (nonlinear_arith);
            let found = TiledImage::search_for_chunk(chunk.as_slice(), tm.as_slice());
            proof {
                crate::image::tiled::lemma_chunk_search_bound(chunk@, tm@, 0);
            }
            match found {
                Some(c) => {
                    assert(c + 1 <= count) by (nonlinear_arith)
                        requires (c + 1) * chunk@.len() <= tm@.len(), tm@.len() == count * tic, chunk@.len() == tic, tic > 0;
                    cm.push((c + 1) as u16);
                },
                None => {
                    let mut q2: usize = 0;
                    let ghost t0 = tm@;
                    while q2 < chunk.len()
                        invariant
                            q2 <= chunk@.len(),
                            tm@ == t0 + chunk@.take(q2 as int),
                        decreases chunk@.len() - q2,
                    {
                        tm.push(chunk[q2]);
                        q2 = q2 + 1;
                        assert(tm@ =~= t0 + chunk@.take(q2 as int));
                    }
                    assert(chunk@.take(chunk@.len() as int) =~= chunk@);
                    count = count + 1;
                    assert(tm@.len() == count * tic) by (nonlinear_arith)
                        requires tm@.len() == t0.len() + tic, t0.len() == (count - 1) * tic;
                    cm.push(count as u16);
                },
            }
            k = k + 1;
        }
        proof {
            lemma_chunk_dedup(es, tic as nat, nch as nat, 1025);
        }
        let mut ims: Vec<InputTilemapEntry> = Vec::new();
        let mut j: usize = 0;
        while j < tm.len()
            invariant
                j <= tm@.len(),
                ims@.len() == j,
                forall|x: int| 0 <= x < j ==> (#[trigger] ims@[x]).0 == tm@[x],
            decreases tm@.len() - j,
        {
            ims.push(InputTilemapEntry(tm[j]));
            j = j + 1;
        }
        let ghost b1 = *bpc;
        bpc.import_tile_mappings(bpc_layer_id, ims, false, true, py);
        proof {
            let l1 = bpc.layers@[bpc_layer_id as int].0;
            assert(bpc.layers@ =~= old(bpc).layers@.update(bpc_layer_id as int, Py(l1)));
            assert(Seq::new(ims@.len(), |i: int| corrected(ims@[i].0, true)) =~= Seq::new(tm@.len(), |i: int| corrected(tm@[i], true)));
        }
        if is_upper {
            if self.layer1.is_some() {
                self.layer1 = Some(cm);
            }
        } else {
            self.layer0 = cm;
        }
        let mut pals: Vec<Vec<u8>> = Vec::new();
        let pn = pal.len();
        let mut c: usize = 0;
        while c < pn
            invariant
                pn == pal@.len(),
                c <= pn,
                c < pn ==> c == 48 * pals@.len(),
                c == pn ==> pals@.len() == palettes48(pal@).len(),
                c == 48 * pals@.len() || c == pn,
                vec_views(pals@) == palettes48(pal@).take(pals@.len() as int),
                pals@.len() <= palettes48(pal@).len(),
            decreases pn - c,
        {
            let ghost ci = pals@.len() as int;
            assert(ci < palettes48(pal@).len()) by (nonlinear_arith)
                requires c == 48 * ci, c < pn, palettes48(pal@).len() == (pn + 47) / 48;
            let end: usize = if pn - c >= 48 { c + 48 } else { pn };
            let part = crate::bytes::copy_range(pal.as_slice(), c, end);
            let ghost p0 = pals@;
            pals.push(part);
            proof {
                assert(part@ == window(pal@, 48 * ci, 48));
                assert(vec_views(pals@) =~= vec_views(p0).push(part@));
                assert(palettes48(pal@).take(ci + 1) =~= palettes48(pal@).take(ci).push(window(pal@, 48 * ci, 48)));
                if end == pn {
                    assert(ci + 1 == (pn + 47) / 48) by (nonlinear_arith)
                        requires c == 48 * ci, c < pn, pn <= c + 48;
                }
            }
            c = end;
        }
        assert(palettes48(pal@).take(pals@.len() as int) =~= palettes48(pal@));
        Ok(pals)
    }
}

/// The palette of the lower image where both images are imported with fewer than 16 palettes
/// for the lower one: its first `hm` palettes, then the first `16 - hm` of the upper image.
pub open spec fn combined_palette(lower: Seq<u8>, upper: Seq<u8>, hm: int) -> Seq<u8> {
    lower.take(hm * 48) + upper.take((16 - hm) * 48)
}

/// The palettes of the images after combining (see `combined_palette`), and the sub-palette
/// offset of the upper image.
pub open spec fn import_palettes_of(lower: Option<IndexedImage>, upper: Option<IndexedImage>, hm: int) -> (Seq<u8>, Seq<u8>, int) {
    match (lower, upper) {
        (Some(l), Some(u)) => if hm < 16 {
            (combined_palette(l.1@, u.1@, hm), combined_palette(l.1@, u.1@, hm), hm)
        } else {
            (l.1@, u.1@, 0)
        },
        (Some(l), None) => (l.1@, Seq::empty(), 0),
        (None, Some(u)) => (Seq::empty(), u.1@, 0),
        (None, None) => (Seq::empty(), Seq::empty(), 0),
    }
}

fn append_number(s: &mut String, n: usize)
    ensures
        final(s)@ == old(s)@ + crate::python::decimal(n as nat),
{
    crate::python::append_decimal(s, n);
}

impl Bma {
    /// Imports the map from one image per layer (either may be left out), each as wide and
    /// high as the map: each image is cut into tiles and chunks (see `from_pil_step`); the lower
    /// image goes into the BMA's lower layer and the BPC's lower layer, the upper one into the
    /// upper layers (which are added where missing); the palettes of the last image imported go
    /// into the BPL. Where both are given and `how_many_palettes_lower_layer` is below 16, both
    /// use the first that many palettes of the lower image followed by the first palettes of the
    /// upper one, and the upper image's sub-palettes are counted from there. Fails where an
    /// image has the wrong size (changing nothing), where more than 1024 tiles remain in an
    /// image, or where more than 16 palettes would be imported.
    pub fn from_pil(
        &mut self,
        bpc: &mut Bpc,
        bpl: &mut Bpl,
        lower_img: Option<IndexedImage>,
        upper_img: Option<IndexedImage>,
        force_import: bool,
        how_many_palettes_lower_layer: usize,
        py: Python,
    ) -> (r: PyResult<()>)
        requires
            old(bpc).layers@.len() >= 1,
            old(bpc).number_of_layers != 1 ==> old(bpc).layers@.len() >= 2,
            old(bpc).tiling_width * old(bpc).tiling_height <= 0xFFFF,
            old(bpc).tiling_width > 0,
            old(bpc).tiling_height > 0,
            old(self).tiling_height > 0,
            lower_img matches Some(l) ==> nt_ok(l.0.0@.len() as int, l.0.1 as int, l.0.2 as int, 8, old(self).tiling_width as int, 16, 0),
            upper_img matches Some(u) ==> nt_ok(u.0.0@.len() as int, u.0.1 as int, u.0.2 as int, 8, old(self).tiling_width as int, 16,
                import_palettes_of(lower_img, upper_img, how_many_palettes_lower_layer as int).2),
            (lower_img is Some && upper_img is Some && how_many_palettes_lower_layer < 16) ==> (lower_img.unwrap().1@.len() >= how_many_palettes_lower_layer * 48
                && upper_img.unwrap().1@.len() >= (16 - how_many_palettes_lower_layer) * 48),
        ensures
            ({
                let w = old(self).map_width_chunks * (8 * old(self).tiling_width);
                let h = old(self).map_height_chunks * (8 * old(self).tiling_height);
                let bad_w = (lower_img matches Some(l) && l.0.1 != w) || (upper_img matches Some(u) && u.0.1 != w);
                let bad_h = (lower_img matches Some(l) && l.0.2 != h) || (upper_img matches Some(u) && u.0.2 != h);
                let pals = import_palettes_of(lower_img, upper_img, how_many_palettes_lower_layer as int);
                let tic = (old(self).tiling_width * old(self).tiling_height) as nat;
                let nch = (old(self).map_width_chunks * old(self).map_height_chunks) as nat;
                let dim = (old(bpc).tiling_width * old(bpc).tiling_height) as nat;
                let lt = img_tiling(lower_img.unwrap(), old(self).tiling_width as int, 0);
                let ut = img_tiling(upper_img.unwrap(), old(self).tiling_width as int, pals.2);
                let dl = chunk_dedup(lt.2, tic, nch);
                let du = chunk_dedup(ut.2, tic, nch);
                let last = if upper_img is Some { palettes48(pals.1) } else if lower_img is Some { palettes48(pals.0) } else { Seq::empty() };
                let lo = if final(bpc).number_of_layers == 1 { 0int } else { 1int };
                &&& (bad_w || bad_h) ==> (r matches Err(e) && e.kind == ErrorKind::ValueError && *final(self) == *old(self)
                    && *final(bpc) == *old(bpc) && *final(bpl) == *old(bpl))
                &&& !(bad_w || bad_h) ==> {
                    &&& (r is Ok <==> !(lower_img is Some && lt.0.len() > 1024) && !(upper_img is Some && ut.0.len() > 1024) && last.len() <= 16)
                    &&& (r is Ok ==> {
                        &&& (lower_img is Some ==> final(self).layer0@ == dl.cm)
                        &&& (lower_img is Some && !(upper_img is Some && lo == 0) ==> imported_layer(final(bpc).layers@[lo].0, lt.0, dl, dim))
                        &&& (upper_img is Some ==> imported_layer(final(bpc).layers@[0].0, ut.0, du, dim))
                        &&& (upper_img is Some ==> (final(self).layer1 matches Some(v) ==> v@ == du.cm))
                        &&& (upper_img is Some && (old(self).number_of_layers < 2 || old(self).layer1 is Some) ==> final(self).layer1 is Some)
                        &&& u8_lists(final(bpl).palettes@) == last
                        &&& final(bpl).number_palettes == last.len()
                    })
                }
            }),
    {
        let tw = self.tiling_width as usize;
        let th = self.tiling_height as usize;
        let mwc = self.map_width_chunks as usize;
        let mhc = self.map_height_chunks as usize;
        assert(tw * mwc * 8 <= 255 * 255 * 8 && th * mhc * 8 <= 255 * 255 * 8) by (nonlinear_arith)
            requires tw <= 255, mwc <= 255, th <= 255, mhc <= 255;
        let ew: usize = tw * mwc * 8;
        let eh: usize = th * mhc * 8;
        assert(ew == mwc * (8 * tw) && eh == mhc * (8 * th)) by (nonlinear_arith)
            requires ew == tw * mwc * 8, eh == th * mhc * 8;
        let bad_lw = match &lower_img {
            Some(l) => l.0.1 != ew,
            None => false,
        };
        let bad_uw = match &upper_img {
            Some(u) => u.0.1 != ew,
            None => false,
        };
        if bad_lw || bad_uw {
            let mut msg = String::from_str("Can not import map background: Width of both images must match the current map width: ");
            append_number(&mut msg, ew);
            msg.append("px");
            return Err(PyErr { kind: ErrorKind::ValueError, value: msg, user_error: false });
        }
        let bad_lh = match &lower_img {
            Some(l) => l.0.2 != eh,
            None => false,
        };
        let bad_uh = match &upper_img {
            Some(u) => u.0.2 != eh,
            None => false,
        };
        if bad_lh || bad_uh {
            let mut msg = String::from_str("Can not import map background: Height of both images must match the current map width: ");
            append_number(&mut msg, eh);
            msg.append("px");
            return Err(PyErr { kind: ErrorKind::ValueError, value: msg, user_error: false });
        }
        let hm = how_many_palettes_lower_layer;
        let ghost pals = import_palettes_of(lower_img, upper_img, hm as int);
        let ghost lo0 = lower_img;
        let ghost up0 = upper_img;
        let (lower_img, upper_img, off) = match (lower_img, upper_img) {
            (Some(l), Some(u)) => {
                if hm < 16 {
                    let mut np = crate::bytes::copy_range(l.1.0.as_slice(), 0, hm * 48);
                    let up = crate::bytes::copy_range(u.1.0.as_slice(), 0, (16 - hm) * 48);
                    crate::bytes::push_all(&mut np, up.as_slice());
                    let np2 = np.clone();
                    proof {
                        assert(np@ =~= combined_palette(l.1@, u.1@, hm as int));
                    }
                    (Some(IndexedImage(l.0, StBytes(np))), Some(IndexedImage(u.0, StBytes(np2))), hm)
                } else {
                    (Some(l), Some(u), 0)
                }
            },
            (l, u) => (l, u, 0),
        };
        assert(lower_img is Some == lo0 is Some);
        assert(upper_img is Some == up0 is Some);
        assert(lower_img matches Some(l) ==> l.0 == lo0.unwrap().0 && l.1@ == pals.0);
        assert(upper_img matches Some(u) ==> u.0 == up0.unwrap().0 && u.1@ == pals.1);
        assert(off == pals.2);
        let nol: u16 = if upper_img.is_some() { 2 } else { 1 };
        if nol > self.number_of_layers {
            self.add_upper_layer();
            match bpc.add_upper_layer(py) {
                Ok(()) => {},
                Err(e) => return Err(e),
            }
        }
        let ghost b_mid = *bpc;
        let mut palettes: Vec<Vec<u8>> = Vec::new();
        match lower_img {
            Some(l) => {
                let lid: usize = if bpc.number_of_layers == 1 { 0 } else { 1 };
                palettes = match self.from_pil_step(false, lid, l, 0, bpc, py) {
                    Ok(p) => p,
                    Err(e) => return Err(e),
                };
            },
            None => {},
        }
        let ghost b_low = *bpc;
        match upper_img {
            Some(u) => {
                palettes = match self.from_pil_step(true, 0, u, off, bpc, py) {
                    Ok(p) => p,
                    Err(e) => return Err(e),
                };
            },
            None => {},
        }
        let mut lists: Vec<StU8List> = Vec::new();
        let mut i: usize = 0;
        while i < palettes.len()
            invariant
                i <= palettes@.len(),
                u8_lists(lists@) == vec_views(palettes@).take(i as int),
            decreases palettes@.len() - i,
        {
            let x = StU8List(palettes[i].clone());
            let ghost l0 = lists@;
            lists.push(x);
            proof {
                assert(x@ == palettes@[i as int]@);
                assert(u8_lists(lists@) =~= u8_lists(l0).push(x@));
                assert(vec_views(palettes@).take(i + 1) =~= vec_views(palettes@).take(i as int).push(palettes@[i as int]@));
            }
            i = i + 1;
        }
        assert(vec_views(palettes@).take(palettes@.len() as int) =~= vec_views(palettes@));
        bpl.import_palettes(lists, py)
    }
}

} // verus!
