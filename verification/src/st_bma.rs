//! BMA: the layout of a map background: the chunk of every position on one or two layers,
//! an optional data layer and up to two collision layers, each compressed.
use crate::bytes::le16;
use crate::bytes::StBytes;
use crate::compression::bma_collision_rle::rle_decompress;
use crate::compression::bma_collision_rle::rle_used;
use crate::compression::bma_collision_rle::BmaCollisionRleDecompressor;
use crate::compression::nrl::nrl_decompress;
use crate::compression::nrl::nrl_decompress_exec;
use crate::compression::nrl::NrlUnit;
use crate::python::exceptions::PyValueError;
use crate::python::PyResult;
use vstd::prelude::*;

verus! {

/// A map background layout.
pub struct Bma {
    pub map_width_camera: u8,
    pub map_height_camera: u8,
    pub tiling_width: u8,
    pub tiling_height: u8,
    pub map_width_chunks: u8,
    pub map_height_chunks: u8,
    pub number_of_layers: u16,
    pub unk6: u16,
    pub number_of_collision_layers: u16,
    pub layer0: Vec<u16>,
    pub layer1: Option<Vec<u16>>,
    pub unknown_data_block: Option<Vec<u8>>,
    pub collision: Option<Vec<bool>>,
    pub collision2: Option<Vec<bool>>,
}

/// The state of reading a layer's 16-bit values: the chunks so far, the last chunk of every
/// column, how many chunks were read, whether the value before was skipped, whether reading
/// ended.
pub struct BmaLayerSt {
    pub layer: Seq<u16>,
    pub prev: Seq<u16>,
    pub i: nat,
    pub skipped: bool,
    pub done: bool,
}

/// The 16-bit little-endian values of decompressed layer data.
pub open spec fn u16_values(d: Seq<u8>) -> Seq<u16> {
    Seq::new(d.len() / 2, |k: int| le16(d, 2 * k) as u16)
}

/// Reading the first `k` values of a layer of width `w`: each chunk is stored XORed with the
/// chunk above it; for an odd width every row has one more value, which is skipped; reading
/// ends after `max` chunks.
pub open spec fn bma_layer_run(vals: Seq<u16>, w: nat, max: nat, k: nat) -> BmaLayerSt
    decreases k,
{
    if k == 0 {
        BmaLayerSt { layer: Seq::empty(), prev: Seq::new(w, |j: int| 0u16), i: 0, skipped: true, done: false }
    } else {
        let s = bma_layer_run(vals, w, max, (k - 1) as nat);
        if s.done {
            s
        } else if s.i >= max {
            BmaLayerSt { done: true, ..s }
        } else {
            let idx = s.i % w;
            if !s.skipped && idx == 0 && w % 2 != 0 {
                BmaLayerSt { skipped: true, ..s }
            } else {
                let cv = vals[k - 1] ^ s.prev[idx as int];
                BmaLayerSt { layer: s.layer.push(cv), prev: s.prev.update(idx as int, cv), i: s.i + 1, skipped: false, done: false }
            }
        }
    }
}

/// The chunks of a layer of `w` x `h` chunks read from its decompressed data.
pub open spec fn bma_layer(d: Seq<u8>, w: nat, h: nat) -> Seq<u16> {
    bma_layer_run(u16_values(d), w, w * h, u16_values(d).len()).layer
}

/// The first `k` values of a collision layer of width `w`: each is stored XORed with the one
/// above it.
pub open spec fn bma_collision(d: Seq<u8>, w: nat, k: nat) -> Seq<bool>
    decreases k,
{
    if k == 0 {
        Seq::empty()
    } else {
        let p = bma_collision(d, w, (k - 1) as nat);
        let above = if k - 1 >= w { p[k - 1 - w] } else { false };
        p.push((d[k - 1] ^ (if above { 1u8 } else { 0u8 })) != 0)
    }
}

/// Bytes of one compressed layer's data: 2 per chunk, one more chunk per row for an odd width.
pub open spec fn bma_layer_len(wc: nat, hc: nat) -> nat {
    wc * hc * 2 + if wc % 2 != 0 { hc * 2 } else { 0 }
}

/// What reading BMA data gives: both layers, the data layer, both collision layers (each only
/// where the header announces it), or `None` where decompressing fails.
pub open spec fn bma_read(d: Seq<u8>) -> Option<(Seq<u16>, Option<Seq<u16>>, Option<Seq<u8>>, Option<Seq<bool>>, Option<Seq<bool>>)> {
    let (wcam, hcam, wc, hc) = (d[0] as nat, d[1] as nat, d[4] as nat, d[5] as nat);
    let (nl, unk6, ncl) = (le16(d, 6), le16(d, 8), le16(d, 10));
    let ll = bma_layer_len(wc, hc);
    match nrl_decompress(NrlUnit::Pair24, d.skip(12), ll) {
        None => None,
        Some((c0, w0)) => {
            let p1 = 12 + c0;
            let r1 = if nl > 1 { nrl_decompress(NrlUnit::Pair24, d.skip(p1 as int), ll) } else { Some((0nat, Seq::<u8>::empty())) };
            match r1 {
                None => None,
                Some((c1, w1)) => {
                    let p2 = p1 + c1;
                    let r2 = if unk6 > 0 { nrl_decompress(NrlUnit::Byte, d.skip(p2 as int), wcam * hcam) } else { Some((0nat, Seq::<u8>::empty())) };
                    match r2 {
                        None => None,
                        Some((c2, w2)) => {
                            let p3 = p2 + c2;
                            let r3 = if ncl > 0 { rle_decompress(d.skip(p3 as int), wcam * hcam) } else { Some(Seq::<u8>::empty()) };
                            match r3 {
                                None => None,
                                Some(w3) => {
                                    let p4 = p3 + (if ncl > 0 { rle_used(d.skip(p3 as int), wcam * hcam) } else { 0 });
                                    let r4 = if ncl > 1 { rle_decompress(d.skip(p4 as int), wcam * hcam) } else { Some(Seq::<u8>::empty()) };
                                    match r4 {
                                        None => None,
                                        Some(w4) => Some((
                                            bma_layer(w0, wc, hc),
                                            if nl > 1 { Some(bma_layer(w1, wc, hc)) } else { None },
                                            if unk6 > 0 { Some(w2) } else { None },
                                            if ncl > 0 { Some(bma_collision(w3, wcam, w3.len())) } else { None },
                                            if ncl > 1 { Some(bma_collision(w4, wcam, w4.len())) } else { None },
                                        )),
                                    }
                                },
                            }
                        },
                    }
                },
            }
        },
    }
}

/// The chunks of an optional layer.
pub open spec fn opt_u16s(o: Option<Vec<u16>>) -> Option<Seq<u16>> {
    match o {
        Some(v) => Some(v@),
        None => None,
    }
}

pub open spec fn opt_u8s(o: Option<Vec<u8>>) -> Option<Seq<u8>> {
    match o {
        Some(v) => Some(v@),
        None => None,
    }
}

pub open spec fn opt_bools(o: Option<Vec<bool>>) -> Option<Seq<bool>> {
    match o {
        Some(v) => Some(v@),
        None => None,
    }
}

proof fn lemma_layer_done(vals: Seq<u16>, w: nat, max: nat, k: nat, m: nat)
    requires
        k <= m,
        bma_layer_run(vals, w, max, k).done,
    ensures
        bma_layer_run(vals, w, max, m) == bma_layer_run(vals, w, max, k),
    decreases m - k,
{
    if m > k {
        lemma_layer_done(vals, w, max, k, (m - 1) as nat);
    }
}

proof fn lemma_layer_prev_len(vals: Seq<u16>, w: nat, max: nat, k: nat)
    requires
        w > 0 || max == 0,
    ensures
        bma_layer_run(vals, w, max, k).prev.len() == w,
        bma_layer_run(vals, w, max, k).layer.len() == bma_layer_run(vals, w, max, k).i,
    decreases k,
{
    if k > 0 {
        lemma_layer_prev_len(vals, w, max, (k - 1) as nat);
    }
}

impl Bma {
    /// The chunks of a layer from its decompressed data (see `bma_layer`).
    fn read_layer(map_width_chunks: usize, map_height_chunks: usize, data: &[u8]) -> (r: Vec<u16>)
        requires
            map_width_chunks <= 0xFF,
            map_height_chunks <= 0xFF,
        ensures
            r@ == bma_layer(data@, map_width_chunks as nat, map_height_chunks as nat),
    {
        let w = map_width_chunks;
        assert(w * map_height_chunks <= 0xFF * 0xFF && (w == 0 ==> w * map_height_chunks == 0)) by (nonlinear_arith)
            requires
                w <= 0xFF,
                map_height_chunks <= 0xFF,
        ;
        let max_tiles: usize = w * map_height_chunks;
        let len = data.len();
        let ghost vals = u16_values(data@);
        let n = data.len() / 2;
        let mut prev: Vec<u16> = Vec::new();
        let mut j: usize = 0;
        while j < w
            invariant
                j <= w,
                prev@ == Seq::new(j as nat, |q: int| 0u16),
            decreases w - j,
        {
            prev.push(0);
            j = j + 1;
            assert(prev@ =~= Seq::new(j as nat, |q: int| 0u16));
        }
        let mut layer: Vec<u16> = Vec::new();
        let mut i: usize = 0;
        let mut skipped = true;
        let mut done = false;
        let mut k: usize = 0;
        assert(bma_layer_run(vals, w as nat, max_tiles as nat, 0).prev =~= prev@);
        while k < n && !done
            invariant
                n == data@.len() / 2,
                len == data@.len(),
                w == 0 ==> max_tiles == 0,
                vals == u16_values(data@),
                k <= n,
                max_tiles == w * map_height_chunks,
                ({
                    let s = bma_layer_run(vals, w as nat, max_tiles as nat, k as nat);
                    &&& s.layer == layer@
                    &&& s.prev == prev@
                    &&& s.i == i
                    &&& s.skipped == skipped
                    &&& s.done == done
                }),
                i <= max_tiles,
            decreases n - k,
        {
            proof {
                lemma_layer_prev_len(vals, w as nat, max_tiles as nat, k as nat);
            }
            assert(2 * k + 2 <= len);
            let v = crate::bytes::read_u16_le(data, 2 * k);
            if i >= max_tiles {
                done = true;
            } else {
                let idx = i % w;
                if !skipped && idx == 0 && w % 2 != 0 {
                    skipped = true;
                } else {
                    let cv = v ^ prev[idx];
                    prev.set(idx, cv);
                    layer.push(cv);
                    i = i + 1;
                    skipped = false;
                }
            }
            k = k + 1;
        }
        proof {
            if done {
                lemma_layer_done(vals, w as nat, max_tiles as nat, k as nat, n as nat);
            }
            assert(vals.len() == n);
        }
        layer
    }

    /// A collision layer from its decompressed data (see `bma_collision`).
    fn read_collision(map_width_camera: usize, data: &[u8]) -> (r: Vec<bool>)
        requires
            map_width_camera > 0 || data@.len() == 0,
        ensures
            r@ == bma_collision(data@, map_width_camera as nat, data@.len()),
    {
        let w = map_width_camera;
        let mut col: Vec<bool> = Vec::new();
        let mut i: usize = 0;
        while i < data.len()
            invariant
                i <= data@.len(),
                w > 0 || data@.len() == 0,
                col@ == bma_collision(data@, w as nat, i as nat),
                col@.len() == i,
            decreases data@.len() - i,
        {
            let above: bool = if i >= w { col[i - w] } else { false };
            let b: u8 = if above { 1 } else { 0 };
            col.push((data[i] ^ b) != 0);
            i = i + 1;
        }
        col
    }

    /// Reads a BMA: the header, then each part the header announces, decompressed.
    #[verifier::rlimit(40)]
    pub fn new(data: StBytes) -> (r: PyResult<Self>)
        requires
            data@.len() >= 12,
        ensures
            ({
                let d = data@;
                match bma_read(d) {
                    None => r is Err,
                    Some((l0, l1, u, c1, c2)) => r matches Ok(b) && {
                        &&& b.map_width_camera == d[0] && b.map_height_camera == d[1]
                        &&& b.tiling_width == d[2] && b.tiling_height == d[3]
                        &&& b.map_width_chunks == d[4] && b.map_height_chunks == d[5]
                        &&& b.number_of_layers == le16(d, 6) && b.unk6 == le16(d, 8)
                        &&& b.number_of_collision_layers == le16(d, 10)
                        &&& b.layer0@ == l0
                        &&& opt_u16s(b.layer1) == l1
                        &&& opt_u8s(b.unknown_data_block) == u
                        &&& opt_bools(b.collision) == c1
                        &&& opt_bools(b.collision2) == c2
                    },
                }
            }),
    {
        let d = data.as_slice();
        let n = d.len();
        let wcam = d[0];
        let hcam = d[1];
        let tw = d[2];
        let th = d[3];
        let wc = d[4];
        let hc = d[5];
        let nl = crate::bytes::read_u16_le(d, 6);
        let unk6 = crate::bytes::read_u16_le(d, 8);
        let ncl = crate::bytes::read_u16_le(d, 10);
        assert(wc as usize * hc as usize <= 0xFF * 0xFF) by (nonlinear_arith)
            requires
                wc <= 0xFF,
                hc <= 0xFF,
        ;
        let mut ll: usize = wc as usize * hc as usize * 2;
        if wc % 2 != 0 {
            ll = ll + hc as usize * 2;
        }
        assert(ll == bma_layer_len(wc as nat, hc as nat));
        let (p1, w0) = match nrl_decompress_exec(NrlUnit::Pair24, d, 12, ll) {
            Some(x) => x,
            None => return Err(PyValueError::new_err("BMA Layer NRL Decompressor: Phase1: End result length unexpected.")),
        };
        let layer0 = Self::read_layer(wc as usize, hc as usize, w0.as_slice());
        let mut p2 = p1;
        let layer1: Option<Vec<u16>> = if nl > 1 {
            match nrl_decompress_exec(NrlUnit::Pair24, d, p1, ll) {
                Some((p, w1)) => {
                    p2 = p;
                    Some(Self::read_layer(wc as usize, hc as usize, w1.as_slice()))
                },
                None => return Err(PyValueError::new_err("BMA Layer NRL Decompressor: Phase1: End result length unexpected.")),
            }
        } else {
            None
        };
        assert(wcam as usize * hcam as usize <= 0xFF * 0xFF && (wcam == 0 ==> wcam as usize * hcam as usize == 0)) by (nonlinear_arith)
            requires
                wcam <= 0xFF,
                hcam <= 0xFF,
        ;
        let cam: usize = wcam as usize * hcam as usize;
        let mut p3 = p2;
        let unknown_data_block: Option<Vec<u8>> = if unk6 > 0 {
            match nrl_decompress_exec(NrlUnit::Byte, d, p2, cam) {
                Some((p, w2)) => {
                    p3 = p;
                    Some(w2)
                },
                None => return Err(PyValueError::new_err("BMA Collision Decompressor: End result length unexpected.")),
            }
        } else {
            None
        };
        let mut p4 = p3;
        let collision: Option<Vec<bool>> = if ncl > 0 {
            let rest = crate::bytes::copy_range(d, p3, n);
            assert(rest@ == d@.skip(p3 as int));
            match BmaCollisionRleDecompressor::run_counted(rest.as_slice(), cam) {
                Ok((w3, used)) => {
                    p4 = p3 + used;
                    assert(cam == 0 ==> w3@.len() == 0);
                    Some(Self::read_collision(wcam as usize, w3.as_slice()))
                },
                Err(e) => return Err(e),
            }
        } else {
            None
        };
        let collision2: Option<Vec<bool>> = if ncl > 1 {
            let rest = crate::bytes::copy_range(d, p4, n);
            assert(rest@ == d@.skip(p4 as int));
            match BmaCollisionRleDecompressor::run_counted(rest.as_slice(), cam) {
                Ok((w4, _used)) => {
                    assert(cam == 0 ==> w4@.len() == 0);
                    Some(Self::read_collision(wcam as usize, w4.as_slice()))
                },
                Err(e) => return Err(e),
            }
        } else {
            None
        };
        Ok(Bma {
            map_width_camera: wcam,
            map_height_camera: hcam,
            tiling_width: tw,
            tiling_height: th,
            map_width_chunks: wc,
            map_height_chunks: hc,
            number_of_layers: nl,
            unk6,
            number_of_collision_layers: ncl,
            layer0,
            layer1,
            unknown_data_block,
            collision,
            collision2,
        })
    }
}


/// The value a resized grid holds at row `r`, column `c`: the old value where the old grid of
/// width `old_w` had one there, else `fill`.
pub open spec fn resize_cell<T>(s: Seq<T>, old_w: nat, r: nat, c: nat, fill: T) -> T {
    if c < old_w && r * old_w + c < s.len() {
        s[(r * old_w + c) as int]
    } else {
        fill
    }
}

/// A grid of width `old_w`, stored row by row, cut or padded with `fill` to `new_w` x `new_h`:
/// every value keeps its row and column.
pub open spec fn layer_resized<T>(s: Seq<T>, old_w: nat, new_w: nat, new_h: nat, fill: T) -> Seq<T> {
    Seq::new(new_w * new_h, |k: int| resize_cell(s, old_w, (k / new_w as int) as nat, (k % new_w as int) as nat, fill))
}

pub open spec fn opt_resized<T>(o: Option<Seq<T>>, old_w: nat, new_w: nat, new_h: nat, fill: T) -> Option<Seq<T>> {
    match o {
        Some(s) => Some(layer_resized(s, old_w, new_w, new_h, fill)),
        None => None,
    }
}

/// Resizes a grid stored row by row (see `layer_resized`).
fn layer_resize<T: Copy>(v: &Vec<T>, old_w: u8, new_w: u8, new_h: u8, fill: T) -> (r: Vec<T>)
    requires
        old_w > 0,
    ensures
        r@ == layer_resized(v@, old_w as nat, new_w as nat, new_h as nat, fill),
{
    assert(new_w as usize * new_h as usize <= 0xFF * 0xFF) by (nonlinear_arith)
        requires
            new_w <= 0xFF,
            new_h <= 0xFF,
    ;
    let total: usize = new_w as usize * new_h as usize;
    let ow = old_w as usize;
    let nw = new_w as usize;
    let ghost goal = layer_resized(v@, old_w as nat, new_w as nat, new_h as nat, fill);
    let mut out: Vec<T> = Vec::with_capacity(total);
    let mut k: usize = 0;
    while k < total
        invariant
            k <= total,
            total == new_w as nat * new_h as nat,
            total <= 0xFF * 0xFF,
            ow == old_w,
            nw == new_w,
            ow > 0,
            goal == layer_resized(v@, old_w as nat, new_w as nat, new_h as nat, fill),
            out@ == goal.take(k as int),
        decreases total - k,
    {
        assert(nw > 0) by (nonlinear_arith)
            requires
                k < total,
                total == nw * new_h as nat,
        ;
        let row = k / nw;
        let col = k % nw;
        assert(row <= k) by (nonlinear_arith)
            requires
                row == k / nw,
                nw > 0,
        ;
        assert(row * ow <= 0xFF * 0xFF * 0xFF) by (nonlinear_arith)
            requires
                row <= 0xFF * 0xFF,
                ow <= 0xFF,
        ;
        let x: T = if col < ow && row * ow + col < v.len() {
            v[row * ow + col]
        } else {
            fill
        };
        proof {
            assert(goal.take(k as int + 1) =~= goal.take(k as int).push(x));
        }
        out.push(x);
        k = k + 1;
    }
    proof {
        assert(goal.take(total as int) =~= goal);
    }
    out
}

/// Resizes an optional grid (see `layer_resized`).
fn opt_layer_resize<T: Copy>(o: &Option<Vec<T>>, old_w: u8, new_w: u8, new_h: u8, fill: T) -> (r: Option<Vec<T>>)
    requires
        o is Some ==> old_w > 0,
    ensures
        match o {
            Some(v) => r matches Some(rv) && rv@ == layer_resized(v@, old_w as nat, new_w as nat, new_h as nat, fill),
            None => r is None,
        },
{
    match o {
        Some(v) => Some(layer_resize(v, old_w, new_w, new_h, fill)),
        None => None,
    }
}

fn clone_opt<T: Copy>(o: &Option<Vec<T>>) -> (r: Option<Vec<T>>)
    ensures
        match o {
            Some(v) => r matches Some(rv) && rv@ == v@,
            None => r is None,
        },
{
    match o {
        Some(v) => {
            let mut c: Vec<T> = Vec::with_capacity(v.len());
            let mut i: usize = 0;
            while i < v.len()
                invariant
                    i <= v@.len(),
                    c@ == v@.take(i as int),
                decreases v@.len() - i,
            {
                proof {
                    assert(v@.take(i as int + 1) =~= v@.take(i as int).push(v@[i as int]));
                }
                c.push(v[i]);
                i = i + 1;
            }
            proof {
                assert(v@.take(i as int) =~= v@);
            }
            Some(c)
        },
        None => None,
    }
}

impl Bma {
    /// Removes the upper layer; does nothing where there is none.
    pub fn remove_upper_layer(&mut self)
        ensures
            old(self).number_of_layers > 1 ==> final(self).number_of_layers == 1 && final(self).layer1 is None,
            old(self).number_of_layers <= 1 ==> final(self).number_of_layers == old(self).number_of_layers
                && opt_u16s(final(self).layer1) == opt_u16s(old(self).layer1),
            final(self).layer0@ == old(self).layer0@,
            final(self).map_width_chunks == old(self).map_width_chunks,
            final(self).map_height_chunks == old(self).map_height_chunks,
            final(self).map_width_camera == old(self).map_width_camera,
            final(self).map_height_camera == old(self).map_height_camera,
    {
        if self.number_of_layers > 1 {
            self.number_of_layers = 1;
            self.layer1 = None;
        }
    }

    /// Adds an upper layer of chunk 0 everywhere; does nothing where there is one.
    pub fn add_upper_layer(&mut self)
        ensures
            old(self).number_of_layers < 2 ==> final(self).number_of_layers == 2
                && opt_u16s(final(self).layer1) == Some(Seq::new(
                    old(self).map_width_chunks as nat * old(self).map_height_chunks as nat, |i: int| 0u16)),
            old(self).number_of_layers >= 2 ==> final(self).number_of_layers == old(self).number_of_layers
                && opt_u16s(final(self).layer1) == opt_u16s(old(self).layer1),
            final(self).layer0@ == old(self).layer0@,
            final(self).map_width_chunks == old(self).map_width_chunks,
            final(self).map_height_chunks == old(self).map_height_chunks,
            final(self).map_width_camera == old(self).map_width_camera,
            final(self).map_height_camera == old(self).map_height_camera,
            final(self).tiling_width == old(self).tiling_width,
            final(self).tiling_height == old(self).tiling_height,
    {
        if self.number_of_layers < 2 {
            self.number_of_layers = 2;
            let wc = self.map_width_chunks as usize;
            let hc = self.map_height_chunks as usize;
            assert(wc * hc <= 0xFF * 0xFF) by (nonlinear_arith)
                requires
                    wc <= 0xFF,
                    hc <= 0xFF,
            ;
            let n: usize = wc * hc;
            let mut l: Vec<u16> = Vec::with_capacity(n);
            let mut i: usize = 0;
            while i < n
                invariant
                    i <= n,
                    l@ == Seq::new(i as nat, |j: int| 0u16),
                decreases n - i,
            {
                l.push(0);
                i = i + 1;
                assert(l@ =~= Seq::new(i as nat, |j: int| 0u16));
            }
            self.layer1 = Some(l);
        }
    }

    /// Changes the dimensions of the map: every chunk, collision and data value keeps its row
    /// and column; what falls outside the new size is dropped, new places get 0 / not solid.
    pub fn resize(&mut self, new_width_chunks: u8, new_height_chunks: u8, new_width_camera: u8, new_height_camera: u8)
        requires
            old(self).map_width_chunks > 0,
            old(self).collision is Some || old(self).collision2 is Some || old(self).unknown_data_block is Some
                ==> old(self).map_width_camera > 0,
        ensures
            final(self).layer0@ == layer_resized(old(self).layer0@, old(self).map_width_chunks as nat,
                new_width_chunks as nat, new_height_chunks as nat, 0u16),
            opt_u16s(final(self).layer1) == opt_resized(opt_u16s(old(self).layer1), old(self).map_width_chunks as nat,
                new_width_chunks as nat, new_height_chunks as nat, 0u16),
            opt_bools(final(self).collision) == opt_resized(opt_bools(old(self).collision), old(self).map_width_camera as nat,
                new_width_camera as nat, new_height_camera as nat, false),
            opt_bools(final(self).collision2) == opt_resized(opt_bools(old(self).collision2), old(self).map_width_camera as nat,
                new_width_camera as nat, new_height_camera as nat, false),
            opt_u8s(final(self).unknown_data_block) == opt_resized(opt_u8s(old(self).unknown_data_block),
                old(self).map_width_camera as nat, new_width_camera as nat, new_height_camera as nat, 0u8),
            final(self).map_width_chunks == new_width_chunks,
            final(self).map_height_chunks == new_height_chunks,
            final(self).map_width_camera == new_width_camera,
            final(self).map_height_camera == new_height_camera,
            final(self).tiling_width == old(self).tiling_width,
            final(self).tiling_height == old(self).tiling_height,
            final(self).number_of_layers == old(self).number_of_layers,
            final(self).unk6 == old(self).unk6,
            final(self).number_of_collision_layers == old(self).number_of_collision_layers,
    {
        let wc = self.map_width_chunks;
        let wcam = self.map_width_camera;
        self.layer0 = layer_resize(&self.layer0, wc, new_width_chunks, new_height_chunks, 0u16);
        self.layer1 = opt_layer_resize(&self.layer1, wc, new_width_chunks, new_height_chunks, 0u16);
        self.collision = opt_layer_resize(&self.collision, wcam, new_width_camera, new_height_camera, false);
        self.collision2 = opt_layer_resize(&self.collision2, wcam, new_width_camera, new_height_camera, false);
        self.unknown_data_block = opt_layer_resize(&self.unknown_data_block, wcam, new_width_camera, new_height_camera, 0u8);
        self.map_width_chunks = new_width_chunks;
        self.map_height_chunks = new_height_chunks;
        self.map_width_camera = new_width_camera;
        self.map_height_camera = new_height_camera;
    }

    /// Places a chunk at column `x`, row `y` of layer 0, or of layer 1 for any other id.
    pub fn place_chunk(&mut self, layer_id: u8, x: usize, y: usize, chunk_index: u16)
        requires
            layer_id == 0 ==> y * old(self).map_width_chunks + x < old(self).layer0@.len(),
            layer_id != 0 ==> (old(self).layer1 matches Some(l) && y * old(self).map_width_chunks + x < l@.len()),
        ensures
            layer_id == 0 ==> final(self).layer0@ == old(self).layer0@.update(
                y * old(self).map_width_chunks + x, chunk_index) && opt_u16s(final(self).layer1) == opt_u16s(old(self).layer1),
            layer_id != 0 ==> final(self).layer0@ == old(self).layer0@ && opt_u16s(final(self).layer1) == Some(
                old(self).layer1->0@.update(y * old(self).map_width_chunks + x, chunk_index)),
            final(self).map_width_chunks == old(self).map_width_chunks,
            final(self).map_height_chunks == old(self).map_height_chunks,
            final(self).number_of_layers == old(self).number_of_layers,
    {
        let w = self.map_width_chunks as usize;
        if layer_id == 0 {
            let n = self.layer0.len();
            assert(y * w + x < n);
            let i: usize = y * w + x;
            self.layer0.set(i, chunk_index);
        } else {
            let mut l = self.layer1.take().unwrap();
            let n = l.len();
            assert(y * w + x < n);
            let i: usize = y * w + x;
            l.set(i, chunk_index);
            self.layer1 = Some(l);
        }
    }

    /// Sets whether column `x`, row `y` is solid, on the first collision layer, or on the second
    /// for any other id.
    pub fn place_collision(&mut self, collision_layer_id: u8, x: usize, y: usize, is_solid: bool)
        requires
            collision_layer_id == 0 ==> (old(self).collision matches Some(l)
                && y * old(self).map_width_camera + x < l@.len()),
            collision_layer_id != 0 ==> (old(self).collision2 matches Some(l)
                && y * old(self).map_width_camera + x < l@.len()),
        ensures
            collision_layer_id == 0 ==> opt_bools(final(self).collision) == Some(old(self).collision->0@.update(
                y * old(self).map_width_camera + x, is_solid)) && opt_bools(final(self).collision2) == opt_bools(old(self).collision2),
            collision_layer_id != 0 ==> opt_bools(final(self).collision2) == Some(old(self).collision2->0@.update(
                y * old(self).map_width_camera + x, is_solid)) && opt_bools(final(self).collision) == opt_bools(old(self).collision),
            final(self).layer0@ == old(self).layer0@,
            final(self).map_width_camera == old(self).map_width_camera,
            final(self).map_height_camera == old(self).map_height_camera,
    {
        let w = self.map_width_camera as usize;
        if collision_layer_id == 0 {
            let mut l = self.collision.take().unwrap();
            let n = l.len();
            assert(y * w + x < n);
            let i: usize = y * w + x;
            l.set(i, is_solid);
            self.collision = Some(l);
        } else {
            let mut l = self.collision2.take().unwrap();
            let n = l.len();
            assert(y * w + x < n);
            let i: usize = y * w + x;
            l.set(i, is_solid);
            self.collision2 = Some(l);
        }
    }

    /// Sets the data value at column `x`, row `y`.
    pub fn place_data(&mut self, x: usize, y: usize, data: u8)
        requires
            old(self).unknown_data_block matches Some(l) && y * old(self).map_width_camera + x < l@.len(),
        ensures
            opt_u8s(final(self).unknown_data_block) == Some(old(self).unknown_data_block->0@.update(
                y * old(self).map_width_camera + x, data)),
            final(self).layer0@ == old(self).layer0@,
            final(self).map_width_camera == old(self).map_width_camera,
            final(self).map_height_camera == old(self).map_height_camera,
    {
        let w = self.map_width_camera as usize;
        let mut l = self.unknown_data_block.take().unwrap();
        let n = l.len();
        assert(y * w + x < n);
        let i: usize = y * w + x;
        l.set(i, data);
        self.unknown_data_block = Some(l);
    }

    /// A copy of this map background.
    pub fn deepcopy(&self) -> (r: Self)
        ensures
            r.map_width_camera == self.map_width_camera,
            r.map_height_camera == self.map_height_camera,
            r.tiling_width == self.tiling_width,
            r.tiling_height == self.tiling_height,
            r.map_width_chunks == self.map_width_chunks,
            r.map_height_chunks == self.map_height_chunks,
            r.number_of_layers == self.number_of_layers,
            r.unk6 == self.unk6,
            r.number_of_collision_layers == self.number_of_collision_layers,
            r.layer0@ == self.layer0@,
            opt_u16s(r.layer1) == opt_u16s(self.layer1),
            opt_u8s(r.unknown_data_block) == opt_u8s(self.unknown_data_block),
            opt_bools(r.collision) == opt_bools(self.collision),
            opt_bools(r.collision2) == opt_bools(self.collision2),
    {
        Bma {
            map_width_camera: self.map_width_camera,
            map_height_camera: self.map_height_camera,
            tiling_width: self.tiling_width,
            tiling_height: self.tiling_height,
            map_width_chunks: self.map_width_chunks,
            map_height_chunks: self.map_height_chunks,
            number_of_layers: self.number_of_layers,
            unk6: self.unk6,
            number_of_collision_layers: self.number_of_collision_layers,
            layer0: self.layer0.clone(),
            layer1: clone_opt(&self.layer1),
            unknown_data_block: clone_opt(&self.unknown_data_block),
            collision: clone_opt(&self.collision),
            collision2: clone_opt(&self.collision2),
        }
    }
}

} // verus!
