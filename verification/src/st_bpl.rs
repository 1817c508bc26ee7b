//! BPL: the palettes of a map background, with optional palette animation.
use crate::bytes::le16;
use crate::bytes::u16_le_bytes;
use crate::bytes::StBytes;
use crate::bytes::StU8List;
use crate::no_python::Py;
use crate::no_python::Python;
use crate::python::exceptions::PyAssertionError;
use crate::python::ErrorKind;
use crate::python::PyResult;
use crate::st_dpl::u8_lists;
use crate::st_dpla::expand4;
use crate::st_dpla::rgb_of;
use vstd::prelude::*;

verus! {

pub const BPL_PAL_LEN: usize = 15;

pub const BPL_IMG_PAL_LEN: usize = 16;

pub const BPL_MAX_PAL: u8 = 16;

pub const BPL_FOURTH_COLOR: u8 = 0x00;

pub const BPL_PAL_ENTRY_LEN: usize = 4;

pub const BPL_HEADER_LEN: usize = 4;

pub const BPL_COL_INDEX_ENTRY_LEN: usize = 4;

pub const BPL_PAL_SIZE: usize = 60;

/// How one palette is animated: frame duration and number of frames (0: not animated).
#[derive(Clone, Copy, PartialEq, Eq, Structural, Debug)]
pub struct BplAnimationSpec {
    pub duration_per_frame: u16,
    pub number_of_frames: u16,
}

impl BplAnimationSpec {
    pub fn new(duration_per_frame: u16, number_of_frames: u16) -> (r: Self)
        ensures
            r == (BplAnimationSpec { duration_per_frame, number_of_frames }),
    {
        BplAnimationSpec { duration_per_frame, number_of_frames }
    }
}

/// The palette that fills the unused slots: 16 grays in steps of 16.
pub open spec fn bpl_dummy_palette() -> Seq<u8> {
    Seq::new(48, |i: int| ((i / 3) * 16) as u8)
}

/// `pals` filled up with dummy palettes to 16 palettes.
pub open spec fn bpl_with_dummies(pals: Seq<Seq<u8>>) -> Seq<Seq<u8>> {
    if pals.len() >= 16 {
        pals
    } else {
        pals + Seq::new((16 - pals.len()) as nat, |i: int| bpl_dummy_palette())
    }
}

/// Palette `i` of BPL data: a transparent black first color, then 15 colors.
pub open spec fn bpl_palette(d: Seq<u8>, i: int) -> Seq<u8> {
    seq![0u8, 0u8, 0u8] + rgb_of(d.subrange(4 + 60 * i, d.len() as int), 15)
}

/// Animation palettes read so far and the one being read, after `k` 4-byte entries: only
/// complete palettes of 15 colors are kept.
pub open spec fn bpl_anim_state(s: Seq<u8>, k: nat) -> (Seq<Seq<u8>>, Seq<u8>)
    decreases k,
{
    if k == 0 {
        (Seq::<Seq<u8>>::empty(), Seq::<u8>::empty())
    } else {
        let (p, c) = bpl_anim_state(s, (k - 1) as nat);
        let c2 = c + s.subrange(4 * (k - 1), 4 * (k - 1) + 3);
        if c2.len() == 45 {
            (p.push(c2), Seq::<u8>::empty())
        } else {
            (p, c2)
        }
    }
}

proof fn lemma_anim_state_len(s: Seq<u8>, k: nat)
    requires
        4 * k <= s.len(),
    ensures
        bpl_anim_state(s, k).1.len() < 45,
        bpl_anim_state(s, k).1.len() % 3 == 0,
    decreases k,
{
    if k > 0 {
        lemma_anim_state_len(s, (k - 1) as nat);
    }
}

/// The `np` palettes stored in BPL data.
pub open spec fn bpl_read_pals(d: Seq<u8>, np: nat) -> Seq<Seq<u8>> {
    Seq::new(np, |i: int| bpl_palette(d, i))
}

/// The `np` animation specs stored in BPL data.
pub open spec fn bpl_read_specs(d: Seq<u8>, np: nat) -> Seq<BplAnimationSpec> {
    Seq::new(
        np,
        |j: int| BplAnimationSpec {
            duration_per_frame: le16(d, bpl_specs_start(d) + 4 * j) as u16,
            number_of_frames: le16(d, bpl_specs_start(d) + 4 * j + 2) as u16,
        },
    )
}

/// Where the animation specs start.
pub open spec fn bpl_specs_start(d: Seq<u8>) -> int {
    4 + 60 * le16(d, 0)
}

/// What reading BPL data needs: all palettes, and with animation all specs and whole
/// 4-byte entries after them.
pub open spec fn bpl_data_ok(d: Seq<u8>) -> bool {
    &&& d.len() >= 4
    &&& d.len() >= bpl_specs_start(d)
    &&& le16(d, 2) > 0 ==> d.len() >= bpl_specs_start(d) + 4 * le16(d, 0) && (d.len() - bpl_specs_start(d) - 4
        * le16(d, 0)) % 4 == 0
}

/// The sum of the frame counts of the first `k` specs.
pub open spec fn frames_before(specs: Seq<BplAnimationSpec>, k: nat) -> int
    decreases k,
{
    if k == 0 {
        0
    } else {
        frames_before(specs, (k - 1) as nat) + specs[k - 1].number_of_frames
    }
}

/// Palette `i` in frame `frame`: an animated palette shows its current animation palette (black
/// where there is none), after a transparent first color; the others stay.
pub open spec fn bpl_frame_palette(
    specs: Seq<BplAnimationSpec>,
    pals: Seq<Seq<u8>>,
    anim: Seq<Seq<u8>>,
    frame: int,
    i: int,
) -> Seq<u8> {
    let nof = specs[i].number_of_frames;
    if nof > 0 {
        let a = frames_before(specs, i as nat) + frame % (nof as int);
        seq![0u8, 0u8, 0u8] + (if a < anim.len() { anim[a] } else { Seq::new(45, |k: int| 0u8) })
    } else {
        pals[i]
    }
}

/// The specs out of their handles.
pub open spec fn specs_of(v: Seq<Py<BplAnimationSpec>>) -> Seq<BplAnimationSpec> {
    Seq::new(v.len(), |i: int| v[i].0)
}

/// A palette without its first color.
pub open spec fn drop_first_color(p: Seq<u8>) -> Seq<u8> {
    if p.len() >= 3 {
        p.skip(3)
    } else {
        Seq::<u8>::empty()
    }
}

/// The BPL bytes of the first `k` palettes (each without its first color).
pub open spec fn bpl_write_pals(pals: Seq<Seq<u8>>, k: nat) -> Seq<u8>
    decreases k,
{
    if k == 0 {
        Seq::<u8>::empty()
    } else {
        bpl_write_pals(pals, (k - 1) as nat) + expand4(drop_first_color(pals[k - 1]), 0)
    }
}

/// The BPL bytes of the first `k` specs.
pub open spec fn bpl_write_specs(specs: Seq<BplAnimationSpec>, k: nat) -> Seq<u8>
    decreases k,
{
    if k == 0 {
        Seq::<u8>::empty()
    } else {
        bpl_write_specs(specs, (k - 1) as nat) + u16_le_bytes(specs[k - 1].duration_per_frame) + u16_le_bytes(
            specs[k - 1].number_of_frames,
        )
    }
}

/// The BPL bytes of the first `k` animation palettes.
pub open spec fn bpl_write_anim(anim: Seq<Seq<u8>>, k: nat) -> Seq<u8>
    decreases k,
{
    if k == 0 {
        Seq::<u8>::empty()
    } else {
        bpl_write_anim(anim, (k - 1) as nat) + expand4(anim[k - 1], 0)
    }
}

/// A BPL file.
pub struct Bpl {
    pub number_palettes: u16,
    pub has_palette_animation: bool,
    pub palettes: Vec<StU8List>,
    pub animation_specs: Vec<Py<BplAnimationSpec>>,
    pub animation_palette: Vec<StU8List>,
}

fn copy_lists(v: &Vec<StU8List>) -> (r: Vec<StU8List>)
    ensures
        u8_lists(r@) == u8_lists(v@),
{
    let mut out: Vec<StU8List> = Vec::new();
    let mut i: usize = 0;
    while i < v.len()
        invariant
            i <= v@.len(),
            out@.len() == i,
            forall|j: int| 0 <= j < i ==> #[trigger] out@[j]@ == v@[j]@,
        decreases v@.len() - i,
    {
        out.push(v[i].clone());
        i = i + 1;
    }
    assert(u8_lists(out@) =~= u8_lists(v@));
    out
}

fn dummy_palette() -> (r: StU8List)
    ensures
        r@ == bpl_dummy_palette(),
{
    let mut v: Vec<u8> = Vec::new();
    let mut i: u8 = 0;
    while i < 48
        invariant
            i <= 48,
            v@ == Seq::new(i as nat, |k: int| ((k / 3) * 16) as u8),
        decreases 48 - i,
    {
        v.push((i / 3) * 16);
        i = i + 1;
    }
    StU8List(v)
}

impl Bpl {
    /// Whether `data` can be read as a BPL (see `bpl_data_ok`).
    pub fn readable(data: &[u8]) -> (r: bool)
        ensures
            r == bpl_data_ok(data@),
    {
        let n = data.len();
        if n < 4 {
            return false;
        }
        let np = crate::bytes::read_u16_le(data, 0) as usize;
        let anim = crate::bytes::read_u16_le(data, 2);
        let start: usize = 4 + 60 * np;
        if n < start {
            return false;
        }
        if anim > 0 {
            if n - start < 4 * np {
                return false;
            }
            (n - start - 4 * np) % 4 == 0
        } else {
            true
        }
    }
    /// The palettes in use (the first `number_palettes`).
    pub fn get_real_palettes_slices(&self) -> (r: &[StU8List])
        requires
            self.number_palettes <= self.palettes@.len(),
        ensures
            r@ == self.palettes@.subrange(0, self.number_palettes as int),
    {
        vstd::slice::slice_subrange(self.palettes.as_slice(), 0, self.number_palettes as usize)
    }

    fn add_dummy_palettes(palettes: &mut Vec<StU8List>)
        ensures
            u8_lists(final(palettes)@) == bpl_with_dummies(u8_lists(old(palettes)@)),
    {
        let ghost start = u8_lists(palettes@);
        while palettes.len() < 16
            invariant
                palettes@.len() >= start.len(),
                start.len() < 16 ==> palettes@.len() <= 16,
                start.len() >= 16 ==> palettes@.len() == start.len(),
                forall|j: int| 0 <= j < start.len() ==> #[trigger] palettes@[j]@ == start[j],
                forall|j: int| start.len() <= j < palettes@.len() ==> #[trigger] palettes@[j]@ == bpl_dummy_palette(),
            decreases 16 - palettes@.len(),
        {
            palettes.push(dummy_palette());
        }
        assert(u8_lists(palettes@) =~= bpl_with_dummies(start));
    }

    /// Reads BPL data: the palettes (filled up to 16 with dummies), and with animation the specs
    /// and the complete animation palettes.
    pub fn new(data: StBytes, py: Python) -> (r: PyResult<Self>)
        requires
            bpl_data_ok(data@),
        ensures
            ({
                let d = data@;
                let np = le16(d, 0);
                let anim = le16(d, 2) > 0;
                let ss = bpl_specs_start(d);
                let rest = d.subrange(ss + 4 * np, d.len() as int);
                r matches Ok(b) && b.number_palettes == np && b.has_palette_animation == anim && u8_lists(b.palettes@)
                    == bpl_with_dummies(bpl_read_pals(d, np as nat)) && (anim ==> specs_of(b.animation_specs@)
                    == bpl_read_specs(d, np as nat) && u8_lists(b.animation_palette@) == bpl_anim_state(rest, rest.len() / 4).0) && (!anim
                    ==> b.animation_specs@.len() == 0 && b.animation_palette@.len() == 0)
            }),
    {
        let d = data.as_slice();
        let len = d.len();
        let number_palettes = crate::bytes::read_u16_le(d, 0);
        let has_palette_animation = crate::bytes::read_u16_le(d, 2) > 0;
        let np = number_palettes as usize;
        let mut palettes: Vec<StU8List> = Vec::new();
        let mut i: usize = 0;
        while i < np
            invariant
                len == d@.len(),
                np == le16(d@, 0),
                4 + 60 * np <= len,
                i <= np,
                palettes@.len() == i,
                forall|j: int| 0 <= j < i ==> #[trigger] palettes@[j]@ == bpl_palette(d@, j),
            decreases np - i,
        {
            let base = 4 + 60 * i;
            let ghost s = d@.subrange(base as int, len as int);
            let mut cur: Vec<u8> = vec![0, 0, 0];
            let mut c: usize = 0;
            while c < 15
                invariant
                    len == d@.len(),
                    base + 60 <= len,
                    s == d@.subrange(base as int, len as int),
                    c <= 15,
                    cur@ == seq![0u8, 0u8, 0u8] + rgb_of(s, c as nat),
                decreases 15 - c,
            {
                let q = base + 4 * c;
                cur.push(d[q]);
                cur.push(d[q + 1]);
                cur.push(d[q + 2]);
                assert(s.subrange(4 * c, 4 * c + 3) =~= seq![d@[q as int], d@[q + 1], d@[q + 2]]);
                c = c + 1;
            }
            palettes.push(StU8List(cur));
            i = i + 1;
        }
        let ghost pal0 = u8_lists(palettes@);
        assert(pal0 =~= Seq::new(np as nat, |i: int| bpl_palette(d@, i)));
        Self::add_dummy_palettes(&mut palettes);
        let mut animation_specs: Vec<Py<BplAnimationSpec>> = Vec::new();
        let mut animation_palette: Vec<StU8List> = Vec::new();
        if has_palette_animation {
            let ss: usize = 4 + 60 * np;
            let mut j: usize = 0;
            while j < np
                invariant
                    len == d@.len(),
                    ss == 4 + 60 * np,
                    ss + 4 * np <= len,
                    j <= np,
                    animation_specs@.len() == j,
                    specs_of(animation_specs@) == Seq::new(
                        j as nat,
                        |x: int| BplAnimationSpec { duration_per_frame: le16(d@, ss + 4 * x) as u16, number_of_frames: le16(d@, ss + 4 * x + 2) as u16 },
                    ),
                decreases np - j,
            {
                let dur = crate::bytes::read_u16_le(d, ss + 4 * j);
                let nof = crate::bytes::read_u16_le(d, ss + 4 * j + 2);
                let spec = BplAnimationSpec::new(dur, nof);
                assert(spec == BplAnimationSpec { duration_per_frame: le16(d@, ss + 4 * j) as u16, number_of_frames: le16(d@, ss + 4 * j + 2) as u16 });
                match Py::new(py, spec) {
                    Ok(p) => {
                        assert(p.0 == spec);
                        let ghost before = animation_specs@;
                        animation_specs.push(p);
                        assert(animation_specs@ == before.push(p));
                        assert(before.len() == j);
                        assert(animation_specs@.len() == j + 1);
                        assert(animation_specs@[j as int].0 == spec);
                        assert(specs_of(animation_specs@)[j as int] == spec);
                        assert forall|x: int| 0 <= x < j implies #[trigger] specs_of(animation_specs@)[x] == specs_of(before)[x] by {
                            assert(animation_specs@[x] == before[x]);
                        }
                        assert(specs_of(animation_specs@) =~= Seq::new(
                            (j + 1) as nat,
                            |x: int| BplAnimationSpec { duration_per_frame: le16(d@, ss + 4 * x) as u16, number_of_frames: le16(d@, ss + 4 * x + 2) as u16 },
                        ));
                    },
                    Err(e) => {
                        return Err(e);
                    },
                }
                j = j + 1;
            }
            let rs: usize = ss + 4 * np;
            let ghost rest = d@.subrange(rs as int, len as int);
            let nent: usize = (len - rs) / 4;
            let mut cur: Vec<u8> = Vec::new();
            let mut k: usize = 0;
            while k < nent
                invariant
                    len == d@.len(),
                    rs <= len,
                    rest == d@.subrange(rs as int, len as int),
                    nent == rest.len() / 4,
                    k <= nent,
                    u8_lists(animation_palette@) == bpl_anim_state(rest, k as nat).0,
                    cur@ == bpl_anim_state(rest, k as nat).1,
                decreases nent - k,
            {
                let q = rs + 4 * k;
                cur.push(d[q]);
                cur.push(d[q + 1]);
                cur.push(d[q + 2]);
                proof {
                    lemma_anim_state_len(rest, k as nat);
                    lemma_anim_state_len(rest, (k + 1) as nat);
                    assert(rest.subrange(4 * k, 4 * k + 3) =~= seq![d@[q as int], d@[q + 1], d@[q + 2]]);
                }
                assert(cur@ == bpl_anim_state(rest, k as nat).1 + rest.subrange(4 * k, 4 * k + 3));
                if cur.len() == 45 {
                    animation_palette.push(StU8List(cur));
                    cur = Vec::new();
                    assert(u8_lists(animation_palette@) =~= bpl_anim_state(rest, (k + 1) as nat).0);
                }
                k = k + 1;
            }
        }
        Ok(Bpl { number_palettes, has_palette_animation, palettes, animation_specs, animation_palette })
    }

    /// Replaces the palettes (at most 16); with animation, specs are dropped or added (not
    /// animated) to match the new number of palettes.
    pub fn import_palettes(&mut self, palettes: Vec<StU8List>, py: Python) -> (r: PyResult<()>)
        ensures
            palettes@.len() > 16 ==> (r matches Err(e) && e.kind == ErrorKind::AssertionError) && *final(self)
                == *old(self),
            palettes@.len() <= 16 ==> r is Ok && final(self).number_palettes == palettes@.len() && u8_lists(
                final(self).palettes@,
            ) == u8_lists(palettes@) && final(self).has_palette_animation == old(self).has_palette_animation
                && u8_lists(final(self).animation_palette@) == u8_lists(old(self).animation_palette@) && specs_of(
                final(self).animation_specs@,
            ) == (if !old(self).has_palette_animation {
                specs_of(old(self).animation_specs@)
            } else if palettes@.len() < old(self).number_palettes {
                specs_of(old(self).animation_specs@).take(
                    if palettes@.len() < old(self).animation_specs@.len() { palettes@.len() as int } else { old(self).animation_specs@.len() as int },
                )
            } else {
                specs_of(old(self).animation_specs@) + Seq::new(
                    (palettes@.len() - old(self).number_palettes) as nat,
                    |i: int| BplAnimationSpec { duration_per_frame: 0, number_of_frames: 0 },
                )
            }),
    {
        if palettes.len() > 16 {
            return Err(PyAssertionError::new_err("Number of palettes must be <= 16."));
        }
        let nb_pal_old = self.number_palettes;
        let ghost old_specs = specs_of(self.animation_specs@);
        self.number_palettes = palettes.len() as u16;
        self.palettes = palettes;
        if self.has_palette_animation {
            if self.number_palettes < nb_pal_old {
                let keep: usize = self.number_palettes as usize;
                if keep < self.animation_specs.len() {
                    self.animation_specs.truncate(keep);
                }
                assert(specs_of(self.animation_specs@) =~= old_specs.take(
                    if (keep as int) < old_specs.len() { keep as int } else { old_specs.len() as int },
                ));
            } else if self.number_palettes > nb_pal_old {
                let mut k: u16 = nb_pal_old;
                while k < self.number_palettes
                    invariant
                        nb_pal_old <= k <= self.number_palettes,
                        self.number_palettes <= 16,
                        self.animation_specs@.len() == old_specs.len() + (k - nb_pal_old),
                        old_specs.len() == old(self).animation_specs@.len(),
                        specs_of(self.animation_specs@) == old_specs + Seq::new(
                            (k - nb_pal_old) as nat,
                            |i: int| BplAnimationSpec { duration_per_frame: 0, number_of_frames: 0 },
                        ),
                        u8_lists(self.palettes@) == u8_lists(palettes@),
                        self.number_palettes == palettes@.len(),
                        self.has_palette_animation == old(self).has_palette_animation,
                        u8_lists(self.animation_palette@) == u8_lists(old(self).animation_palette@),
                    decreases self.number_palettes - k,
                {
                    let spec = BplAnimationSpec::new(0, 0);
                    match Py::new(py, spec) {
                        Ok(p) => {
                            assert(p.0 == spec);
                            let ghost before = self.animation_specs@;
                            self.animation_specs.push(p);
                            assert(self.animation_specs@ == before.push(p));
                            assert forall|x: int| 0 <= x < before.len() implies #[trigger] specs_of(self.animation_specs@)[x] == specs_of(before)[x] by {
                                assert(self.animation_specs@[x] == before[x]);
                            }
                            assert(specs_of(self.animation_specs@) =~= old_specs + Seq::new(
                                (k + 1 - nb_pal_old) as nat,
                                |i: int| BplAnimationSpec { duration_per_frame: 0, number_of_frames: 0 },
                            ));
                        },
                        Err(e) => {
                            return Err(e);
                        },
                    }
                    k = k + 1;
                }
            } else {
                assert(specs_of(self.animation_specs@) =~= old_specs + Seq::new(
                    0,
                    |i: int| BplAnimationSpec { duration_per_frame: 0, number_of_frames: 0 },
                ));
            }
        }
        Ok(())
    }

    /// The palettes in frame `frame` of the animation, one per spec.
    pub fn apply_palette_animations(&self, frame: u16, py: Python) -> (r: Vec<StU8List>)
        requires
            frames_before(specs_of(self.animation_specs@), self.animation_specs@.len()) <= 0xFFFF,
            forall|i: int|
                0 <= i < self.animation_specs@.len() && #[trigger] self.animation_specs@[i].0.number_of_frames == 0 ==> i
                    < self.palettes@.len(),
        ensures
            u8_lists(r@) == Seq::new(
                self.animation_specs@.len(),
                |i: int|
                    bpl_frame_palette(
                        specs_of(self.animation_specs@),
                        u8_lists(self.palettes@),
                        u8_lists(self.animation_palette@),
                        frame as int,
                        i,
                    ),
            ),
    {
        let ghost specs = specs_of(self.animation_specs@);
        let ghost target = Seq::new(
            self.animation_specs@.len(),
            |i: int| bpl_frame_palette(specs, u8_lists(self.palettes@), u8_lists(self.animation_palette@), frame as int, i),
        );
        let mut already_used_colors: u16 = 0;
        let mut f_palettes: Vec<StU8List> = Vec::new();
        let mut i: usize = 0;
        while i < self.animation_specs.len()
            invariant
                specs == specs_of(self.animation_specs@),
                frames_before(specs, specs.len()) <= 0xFFFF,
                forall|x: int|
                    0 <= x < self.animation_specs@.len() && #[trigger] self.animation_specs@[x].0.number_of_frames == 0 ==> x
                        < self.palettes@.len(),
                target == Seq::new(
                    self.animation_specs@.len(),
                    |i: int| bpl_frame_palette(specs, u8_lists(self.palettes@), u8_lists(self.animation_palette@), frame as int, i),
                ),
                i <= self.animation_specs@.len(),
                already_used_colors == frames_before(specs, i as nat),
                f_palettes@.len() == i,
                forall|x: int| 0 <= x < i ==> #[trigger] f_palettes@[x]@ == target[x],
            decreases self.animation_specs@.len() - i,
        {
            proof {
                lemma_frames_before_mono(specs, (i + 1) as nat, specs.len());
            }
            let spec = self.animation_specs[i].0;
            assert(spec == specs[i as int]);
            if spec.number_of_frames > 0 {
                let actual_frame_for_pal: u16 = already_used_colors + (frame % spec.number_of_frames);
                already_used_colors = already_used_colors + spec.number_of_frames;
                let mut v: Vec<u8> = vec![0, 0, 0];
                let a = actual_frame_for_pal as usize;
                if a < self.animation_palette.len() {
                    crate::bytes::push_all(&mut v, self.animation_palette[a].0.as_slice());
                } else {
                    let z = crate::bytes::filled(0, 45);
                    crate::bytes::push_all(&mut v, z.as_slice());
                }
                f_palettes.push(StU8List(v));
            } else {
                f_palettes.push(self.palettes[i].clone());
            }
            i = i + 1;
        }
        assert(u8_lists(f_palettes@) =~= target);
        f_palettes
    }

    /// Whether palette `pal_idx` is animated.
    pub fn is_palette_affected_by_animation(&self, pal_idx: usize, py: Python) -> (r: bool)
        requires
            self.has_palette_animation ==> pal_idx < self.animation_specs@.len(),
        ensures
            r == (self.has_palette_animation && self.animation_specs@[pal_idx as int].0.number_of_frames > 0),
    {
        if self.has_palette_animation {
            self.animation_specs[pal_idx].0.number_of_frames > 0
        } else {
            false
        }
    }

    /// A copy of the palettes in use.
    pub fn get_real_palettes(&self) -> (r: Vec<StU8List>)
        requires
            self.number_palettes <= self.palettes@.len(),
        ensures
            u8_lists(r@) == u8_lists(self.palettes@.subrange(0, self.number_palettes as int)),
    {
        let s = self.get_real_palettes_slices();
        let mut out: Vec<StU8List> = Vec::new();
        let mut i: usize = 0;
        while i < s.len()
            invariant
                i <= s@.len(),
                out@.len() == i,
                forall|j: int| 0 <= j < i ==> #[trigger] out@[j]@ == s@[j]@,
            decreases s@.len() - i,
        {
            out.push(s[i].clone());
            i = i + 1;
        }
        assert(u8_lists(out@) =~= u8_lists(s@));
        out
    }

    /// Replaces the palettes: those given are in use, dummies fill up to 16.
    pub fn set_palettes(&mut self, palettes: Vec<StU8List>)
        ensures
            final(self).number_palettes == palettes@.len() as u16,
            u8_lists(final(self).palettes@) == bpl_with_dummies(u8_lists(palettes@)),
            final(self).has_palette_animation == old(self).has_palette_animation,
            specs_of(final(self).animation_specs@) == specs_of(old(self).animation_specs@),
            u8_lists(final(self).animation_palette@) == u8_lists(old(self).animation_palette@),
    {
        let mut p = palettes;
        let n = p.len() as u16;
        Self::add_dummy_palettes(&mut p);
        self.palettes = p;
        self.number_palettes = n;
    }
}

proof fn lemma_frames_before_mono(specs: Seq<BplAnimationSpec>, a: nat, b: nat)
    requires
        a <= b <= specs.len(),
    ensures
        frames_before(specs, a) <= frames_before(specs, b),
    decreases b - a,
{
    if a < b {
        lemma_frames_before_mono(specs, a, (b - 1) as nat);
    }
}

/// Serializer of BPL files.
pub struct BplWriter;

impl BplWriter {
    pub fn new() -> (r: Self) {
        BplWriter
    }

    /// Header (number of palettes, animation flag), the palettes in use without their first
    /// color, and with animation the specs and the animation palettes; a 0 after every color.
    pub fn write(&self, model: Py<Bpl>, py: Python) -> (r: PyResult<StBytes>)
        requires
            model.0.number_palettes <= model.0.palettes@.len(),
        ensures
            ({
                let m = model.0;
                let pals = u8_lists(m.palettes@);
                r matches Ok(b) && b@ == u16_le_bytes(m.number_palettes) + u16_le_bytes(
                    if m.has_palette_animation { 1u16 } else { 0u16 },
                ) + bpl_write_pals(pals, m.number_palettes as nat) + (if m.has_palette_animation {
                    bpl_write_specs(specs_of(m.animation_specs@), m.animation_specs@.len()) + bpl_write_anim(
                        u8_lists(m.animation_palette@),
                        m.animation_palette@.len(),
                    )
                } else {
                    Seq::<u8>::empty()
                })
            }),
    {
        let m = &model.0;
        let ghost pals = u8_lists(m.palettes@);
        let mut data: Vec<u8> = Vec::new();
        crate::bytes::push_u16_le(&mut data, m.number_palettes);
        crate::bytes::push_u16_le(&mut data, if m.has_palette_animation { 1u16 } else { 0u16 });
        let ghost head = data@;
        let used = m.get_real_palettes_slices();
        let mut p: usize = 0;
        while p < used.len()
            invariant
                p <= used@.len(),
                used@ == m.palettes@.subrange(0, m.number_palettes as int),
                pals == u8_lists(m.palettes@),
                m.number_palettes <= m.palettes@.len(),
                data@ == head + bpl_write_pals(pals, p as nat),
            decreases used@.len() - p,
        {
            let pal = used[p].0.as_slice();
            let ghost before = data@;
            let ghost sk = drop_first_color(pal@);
            let mut i: usize = 3;
            if pal.len() < 3 {
                i = pal.len();
            }
            assert(pal.len() < 3 ==> sk =~= Seq::<u8>::empty());
            while i < pal.len()
                invariant
                    3 <= i <= pal@.len() || (pal@.len() < 3 && i == pal@.len()),
                    sk == drop_first_color(pal@),
                    pal@.len() >= 3 ==> data@ == before + expand4(sk.take(i - 3), 0),
                    pal@.len() < 3 ==> data@ == before,
                decreases pal@.len() - i,
            {
                proof {
                    assert(sk.take(i - 3 + 1).drop_last() == sk.take(i - 3));
                    assert(sk.take(i - 3 + 1).last() == pal@[i as int]);
                }
                data.push(pal[i]);
                if (i - 3) % 3 == 2 {
                    data.push(0);
                }
                i = i + 1;
            }
            proof {
                if pal@.len() >= 3 {
                    assert(sk.take(pal@.len() - 3) == sk);
                } else {
                    assert(expand4(sk, 0) == Seq::<u8>::empty());
                }
                assert(pals[p as int] == pal@);
            }
            p = p + 1;
        }
        if m.has_palette_animation {
            let ghost mid = data@;
            let ghost specs = specs_of(m.animation_specs@);
            let mut s: usize = 0;
            while s < m.animation_specs.len()
                invariant
                    s <= m.animation_specs@.len(),
                    specs == specs_of(m.animation_specs@),
                    data@ == mid + bpl_write_specs(specs, s as nat),
                decreases m.animation_specs@.len() - s,
            {
                let sp = m.animation_specs[s].0;
                crate::bytes::push_u16_le(&mut data, sp.duration_per_frame);
                crate::bytes::push_u16_le(&mut data, sp.number_of_frames);
                s = s + 1;
            }
            let ghost mid2 = data@;
            let ghost anim = u8_lists(m.animation_palette@);
            let mut f: usize = 0;
            while f < m.animation_palette.len()
                invariant
                    f <= m.animation_palette@.len(),
                    anim == u8_lists(m.animation_palette@),
                    data@ == mid2 + bpl_write_anim(anim, f as nat),
                decreases m.animation_palette@.len() - f,
            {
                let frame = m.animation_palette[f].0.as_slice();
                let ghost before = data@;
                let mut i: usize = 0;
                while i < frame.len()
                    invariant
                        i <= frame@.len(),
                        data@ == before + expand4(frame@.take(i as int), 0),
                    decreases frame@.len() - i,
                {
                    proof {
                        assert(frame@.take(i as int + 1).drop_last() == frame@.take(i as int));
                    }
                    data.push(frame[i]);
                    if i % 3 == 2 {
                        data.push(0);
                    }
                    i = i + 1;
                }
                proof {
                    assert(frame@.take(frame@.len() as int) == frame@);
                    assert(anim[f as int] == frame@);
                }
                f = f + 1;
            }
        }
        Ok(StBytes(data))
    }
}

/// Access to a BPL model.
pub trait BplProvider {
    spec fn model(&self) -> Bpl;

    fn get_palettes(&self, py: Python) -> (r: PyResult<Vec<StU8List>>)
        ensures
            r matches Ok(v) && u8_lists(v@) == u8_lists(self.model().palettes@),
    ;

    fn get_has_palette_animation(&self, py: Python) -> (r: PyResult<bool>)
        ensures
            r == Ok::<bool, crate::python::PyErr>(self.model().has_palette_animation),
    ;

    fn get_animation_palette(&self, py: Python) -> (r: PyResult<Vec<StU8List>>)
        ensures
            r matches Ok(v) && u8_lists(v@) == u8_lists(self.model().animation_palette@),
    ;
}

impl BplProvider for Py<Bpl> {
    open spec fn model(&self) -> Bpl {
        self.0
    }

    fn get_palettes(&self, py: Python) -> (r: PyResult<Vec<StU8List>>) {
        Ok(copy_lists(&self.0.palettes))
    }

    fn get_has_palette_animation(&self, py: Python) -> (r: PyResult<bool>) {
        Ok(self.0.has_palette_animation)
    }

    fn get_animation_palette(&self, py: Python) -> (r: PyResult<Vec<StU8List>>) {
        Ok(copy_lists(&self.0.animation_palette))
    }
}

/// A BPL model handed in by a caller.
pub enum InputBpl {
    Rs(Py<Bpl>),
}


proof fn lemma_expand4(c: Seq<u8>, f: u8)
    ensures
        expand4(c, f).len() == c.len() + c.len() / 3,
        forall|j: int| 0 <= j < c.len() ==> #[trigger] expand4(c, f)[j + j / 3] == c[j],
    decreases c.len(),
{
    if c.len() > 0 {
        let c1 = c.drop_last();
        lemma_expand4(c1, f);
        let e1 = expand4(c1, f);
        let l = c.len();
        assert forall|j: int| 0 <= j < l implies #[trigger] expand4(c, f)[j + j / 3] == c[j] by {
            if j < l - 1 {
                assert(expand4(c1, f)[j + j / 3] == c1[j]);
                assert(j + j / 3 < e1.len()) by (nonlinear_arith)
                    requires
                        j < l - 1,
                        e1.len() == (l - 1) + (l - 1) / 3,
                        0 <= j,
                ;
            }
        }
    }
}

proof fn lemma_bpl_write_pals(pals: Seq<Seq<u8>>, n: nat)
    requires
        n <= pals.len(),
        forall|i: int| 0 <= i < n ==> (#[trigger] pals[i]).len() == 48,
    ensures
        bpl_write_pals(pals, n).len() == 60 * n,
        forall|i: int, j: int| 0 <= i < n && 0 <= j < 45 ==> #[trigger] bpl_write_pals(pals, n)[60 * i + j + j / 3]
            == pals[i][3 + j],
    decreases n,
{
    if n > 0 {
        lemma_bpl_write_pals(pals, (n - 1) as nat);
        let x = drop_first_color(pals[n - 1]);
        lemma_expand4(x, 0);
        let w = bpl_write_pals(pals, n);
        let w1 = bpl_write_pals(pals, (n - 1) as nat);
        assert forall|i: int, j: int| 0 <= i < n && 0 <= j < 45 implies #[trigger] w[60 * i + j + j / 3] == pals[i][3 + j] by {
            assert(0 <= j / 3 <= 14);
            if i < n - 1 {
                assert(w[60 * i + j + j / 3] == w1[60 * i + j + j / 3]);
            } else {
                assert(w[60 * i + j + j / 3] == expand4(x, 0)[j + j / 3]);
            }
        }
    }
}

proof fn lemma_bpl_write_specs(specs: Seq<BplAnimationSpec>, n: nat)
    requires
        n <= specs.len(),
    ensures
        bpl_write_specs(specs, n).len() == 4 * n,
        forall|j: int| 0 <= j < n ==> #[trigger] bpl_write_specs(specs, n).subrange(4 * j, 4 * j + 4) == u16_le_bytes(
            specs[j].duration_per_frame,
        ) + u16_le_bytes(specs[j].number_of_frames),
    decreases n,
{
    if n > 0 {
        lemma_bpl_write_specs(specs, (n - 1) as nat);
        let b = bpl_write_specs(specs, n);
        let p = bpl_write_specs(specs, (n - 1) as nat);
        assert forall|j: int| 0 <= j < n implies #[trigger] b.subrange(4 * j, 4 * j + 4) == u16_le_bytes(
            specs[j].duration_per_frame,
        ) + u16_le_bytes(specs[j].number_of_frames) by {
            if j < n - 1 {
                assert(b.subrange(4 * j, 4 * j + 4) =~= p.subrange(4 * j, 4 * j + 4));
            } else {
                assert(b.subrange(4 * j, 4 * j + 4) =~= u16_le_bytes(specs[j].duration_per_frame) + u16_le_bytes(
                    specs[j].number_of_frames,
                ));
            }
        }
    }
}

proof fn lemma_bpl_write_anim(anim: Seq<Seq<u8>>, n: nat)
    requires
        n <= anim.len(),
        forall|i: int| 0 <= i < n ==> (#[trigger] anim[i]).len() == 45,
    ensures
        bpl_write_anim(anim, n).len() == 60 * n,
        forall|i: int, j: int| 0 <= i < n && 0 <= j < 45 ==> #[trigger] bpl_write_anim(anim, n)[60 * i + j + j / 3]
            == anim[i][j],
    decreases n,
{
    if n > 0 {
        lemma_bpl_write_anim(anim, (n - 1) as nat);
        lemma_expand4(anim[n - 1], 0);
        let w = bpl_write_anim(anim, n);
        let w1 = bpl_write_anim(anim, (n - 1) as nat);
        assert forall|i: int, j: int| 0 <= i < n && 0 <= j < 45 implies #[trigger] w[60 * i + j + j / 3] == anim[i][j] by {
            assert(0 <= j / 3 <= 14);
            if i < n - 1 {
                assert(w[60 * i + j + j / 3] == w1[60 * i + j + j / 3]);
            } else {
                assert(w[60 * i + j + j / 3] == expand4(anim[n - 1], 0)[j + j / 3]);
            }
        }
    }
}

proof fn lemma_bpl_anim_run(anim: Seq<Seq<u8>>, k: nat, r: nat)
    requires
        forall|i: int| 0 <= i < anim.len() ==> (#[trigger] anim[i]).len() == 45,
        k < anim.len() || (k == anim.len() && r == 0),
        r < 15,
    ensures
        bpl_anim_state(bpl_write_anim(anim, anim.len()), 15 * k + r) == (anim.take(k as int), if k < anim.len() {
            anim[k as int].take(3 * (r as int))
        } else {
            Seq::<u8>::empty()
        }),
    decreases k, r,
{
    let w = bpl_write_anim(anim, anim.len());
    lemma_bpl_write_anim(anim, anim.len());
    if r == 0 {
        if k == 0 {
            assert(anim.take(0) =~= Seq::<Seq<u8>>::empty());
            if k < anim.len() {
                assert(anim[0].take(0) =~= Seq::<u8>::empty());
            }
        } else {
            lemma_bpl_anim_run(anim, (k - 1) as nat, 14);
            let c = anim[k - 1];
            let m: int = 15 * (k - 1) + 14;
            assert(w.subrange(4 * m, 4 * m + 3) =~= c.subrange(42, 45)) by {
                assert forall|t: int| 0 <= t < 3 implies #[trigger] w.subrange(4 * m, 4 * m + 3)[t] == c.subrange(42, 45)[t] by {
                    let j = 42 + t;
                    assert(j / 3 == 14);
                    assert(w[60 * (k - 1) + j + j / 3] == anim[k - 1][j]);
                }
            }
            assert(c.take(42) + c.subrange(42, 45) =~= c);
            assert(anim.take(k - 1).push(c) =~= anim.take(k as int));
            assert(15 * (k - 1) + 14 + 1 == 15 * k);
            if k < anim.len() {
                assert(anim[k as int].take(0) =~= Seq::<u8>::empty());
            }
        }
    } else {
        lemma_bpl_anim_run(anim, k, (r - 1) as nat);
        let c = anim[k as int];
        let m: int = 15 * k + r - 1;
        assert(w.subrange(4 * m, 4 * m + 3) =~= c.subrange(3 * (r - 1), 3 * (r as int))) by {
            assert forall|t: int| 0 <= t < 3 implies #[trigger] w.subrange(4 * m, 4 * m + 3)[t] == c.subrange(
                3 * (r - 1),
                3 * (r as int),
            )[t] by {
                let j = 3 * (r - 1) + t;
                assert(j / 3 == r - 1) by (nonlinear_arith)
                    requires
                        j == 3 * (r - 1) + t,
                        0 <= t < 3,
                ;
                assert(w[60 * k + j + j / 3] == anim[k as int][j]);
                assert(60 * k + j + j / 3 == 4 * m + t);
            }
        }
        assert(c.take(3 * (r - 1)) + c.subrange(3 * (r - 1), 3 * (r as int)) =~= c.take(3 * (r as int)));
    }
}

/// What a BPL model must hold to be written and read back: its counted palettes have 16
/// colors, the first transparent black; one animation spec per palette where it is animated;
/// animation palettes of 15 colors.
pub open spec fn bpl_model_ok(np: u16, anim: bool, pals: Seq<Seq<u8>>, specs: Seq<BplAnimationSpec>, apals: Seq<Seq<u8>>) -> bool {
    &&& np <= pals.len()
    &&& forall|i: int| 0 <= i < np ==> (#[trigger] pals[i]).len() == 48 && pals[i][0] == 0 && pals[i][1] == 0
        && pals[i][2] == 0
    &&& anim ==> specs.len() == np
    &&& forall|i: int| 0 <= i < apals.len() ==> (#[trigger] apals[i]).len() == 45
}

/// The bytes that writing a BPL model gives.
pub open spec fn bpl_file(np: u16, anim: bool, pals: Seq<Seq<u8>>, specs: Seq<BplAnimationSpec>, apals: Seq<Seq<u8>>) -> Seq<u8> {
    u16_le_bytes(np) + u16_le_bytes(if anim { 1u16 } else { 0u16 }) + bpl_write_pals(pals, np as nat) + (if anim {
        bpl_write_specs(specs, specs.len()) + bpl_write_anim(apals, apals.len())
    } else {
        Seq::<u8>::empty()
    })
}

/// Reading back what writing a BPL model gives returns its palette count, animation flag, its
/// counted palettes, and (where animated) its animation specs and palettes.
pub proof fn lemma_bpl_roundtrip(np: u16, anim: bool, pals: Seq<Seq<u8>>, specs: Seq<BplAnimationSpec>, apals: Seq<Seq<u8>>)
    requires
        bpl_model_ok(np, anim, pals, specs, apals),
    ensures
        ({
            let d = bpl_file(np, anim, pals, specs, apals);
            let ss = bpl_specs_start(d);
            let rest = d.subrange(ss + 4 * np, d.len() as int);
            &&& bpl_data_ok(d)
            &&& le16(d, 0) == np
            &&& (le16(d, 2) > 0) == anim
            &&& bpl_read_pals(d, np as nat) == pals.take(np as int)
            &&& anim ==> bpl_read_specs(d, np as nat) == specs
            &&& anim ==> bpl_anim_state(rest, rest.len() / 4).0 == apals
        }),
{
    let d = bpl_file(np, anim, pals, specs, apals);
    let wp = bpl_write_pals(pals, np as nat);
    lemma_bpl_write_pals(pals, np as nat);
    assert(d.subrange(0, 2) =~= u16_le_bytes(np));
    crate::bytes::lemma_le16_at(d, 0, np);
    let fl: u16 = if anim { 1u16 } else { 0u16 };
    assert(d.subrange(2, 4) =~= u16_le_bytes(fl));
    crate::bytes::lemma_le16_at(d, 2, fl);
    let ss = bpl_specs_start(d);
    assert(ss == 4 + 60 * np);
    assert forall|i: int| 0 <= i < np implies #[trigger] bpl_read_pals(d, np as nat)[i] == pals.take(np as int)[i] by {
        let sub = d.subrange(4 + 60 * i, d.len() as int);
        assert(4 + 60 * i + 60 <= d.len());
        crate::st_dpla::lemma_rgb_of_at(sub, 15);
        let x = rgb_of(sub, 15);
        let p = pals[i];
        assert(bpl_palette(d, i) =~= p) by {
            assert forall|m: int| 0 <= m < 48 implies #[trigger] bpl_palette(d, i)[m] == p[m] by {
                if m >= 3 {
                    let j = m - 3;
                    assert(x[j] == sub[j + j / 3]);
                    assert(sub[j + j / 3] == d[4 + 60 * i + j + j / 3]);
                    assert(d[4 + 60 * i + j + j / 3] == wp[60 * i + j + j / 3]);
                }
            }
        }
    }
    assert(bpl_read_pals(d, np as nat) =~= pals.take(np as int));
    if anim {
        let ws = bpl_write_specs(specs, specs.len());
        let wa = bpl_write_anim(apals, apals.len());
        lemma_bpl_write_specs(specs, specs.len());
        lemma_bpl_write_anim(apals, apals.len());
        assert forall|j: int| 0 <= j < np implies #[trigger] bpl_read_specs(d, np as nat)[j] == specs[j] by {
            let e = ws.subrange(4 * j, 4 * j + 4);
            assert(d.subrange(ss + 4 * j, ss + 4 * j + 2) =~= e.subrange(0, 2));
            assert(d.subrange(ss + 4 * j + 2, ss + 4 * j + 4) =~= e.subrange(2, 4));
            assert(e.subrange(0, 2) =~= u16_le_bytes(specs[j].duration_per_frame));
            assert(e.subrange(2, 4) =~= u16_le_bytes(specs[j].number_of_frames));
            crate::bytes::lemma_le16_at(d, ss + 4 * j, specs[j].duration_per_frame);
            crate::bytes::lemma_le16_at(d, ss + 4 * j + 2, specs[j].number_of_frames);
        }
        assert(bpl_read_specs(d, np as nat) =~= specs);
        let rest = d.subrange(ss + 4 * np, d.len() as int);
        assert(rest =~= wa);
        lemma_bpl_anim_run(apals, apals.len(), 0);
        assert(apals.take(apals.len() as int) =~= apals);
        assert(rest.len() / 4 == 15 * apals.len());
    }
}

} // verus!
