//! DPLA: palette animations; per color a list of frames and a duration per frame.
use crate::bytes::le16;
use crate::bytes::le32;
use crate::bytes::u16_le_bytes;
use crate::bytes::u32_le_bytes;
use crate::bytes::StBytes;
use crate::no_python::Py;
use crate::no_python::Python;
use crate::python::exceptions::PyIndexError;
use crate::python::exceptions::PyValueError;
use crate::python::ErrorKind;
use crate::python::PyResult;
use vstd::prelude::*;

verus! {

pub const DPLA_COLORS_PER_PALETTE: usize = 16;

/// The RGB bytes of the first `k` 4-byte entries of `s`.
pub open spec fn rgb_of(s: Seq<u8>, k: nat) -> Seq<u8>
    decreases k,
{
    if k == 0 {
        Seq::<u8>::empty()
    } else {
        rgb_of(s, (k - 1) as nat) + s.subrange(4 * (k - 1), 4 * (k - 1) + 3)
    }
}

/// The pointer to the `j`-th color record.
pub open spec fn dpla_pointer(data: Seq<u8>, ptp: int, j: int) -> int {
    le32(data, ptp + 4 * j)
}

/// How many color records the pointer table from `ptp` on lists.
pub open spec fn dpla_count(data: Seq<u8>, ptp: int) -> int {
    if ptp < data.len() {
        (data.len() - ptp) / 4
    } else {
        0
    }
}

/// What reading DPLA data needs: whole pointers, and each record (count, duration, entries)
/// inside the data.
pub open spec fn dpla_ok(data: Seq<u8>, ptp: int) -> bool {
    &&& (ptp < data.len() ==> (data.len() - ptp) % 4 == 0)
    &&& forall|j: int|
        0 <= j < dpla_count(data, ptp) ==> {
            let p = #[trigger] dpla_pointer(data, ptp, j);
            p + 4 + 4 * le16(data, p) <= data.len()
        }
}

/// The frames (RGB bytes) of the `j`-th color.
pub open spec fn dpla_colors_of(data: Seq<u8>, ptp: int, j: int) -> Seq<u8> {
    let p = dpla_pointer(data, ptp, j);
    rgb_of(data.subrange(p + 4, data.len() as int), le16(data, p) as nat)
}

/// The frame duration of the `j`-th color.
pub open spec fn dpla_duration_of(data: Seq<u8>, ptp: int, j: int) -> u16 {
    le16(data, dpla_pointer(data, ptp, j) + 2) as u16
}

/// The colors of palette `pal` in frame `frame`: per color its frame (cycling), black where it
/// has none.
pub open spec fn dpla_frame(colors: Seq<Seq<u8>>, pal: int, frame: int) -> Seq<u8> {
    Seq::new(
        16,
        |c: int|
            {
                let col = colors[pal * 16 + c];
                if col.len() == 0 {
                    seq![0u8, 0u8, 0u8]
                } else {
                    col.subrange((frame % (col.len() as int / 3)) * 3, (frame % (col.len() as int / 3)) * 3 + 3)
                }
            },
    ).flatten()
}

/// One serialized color record: count, duration, then the entries (a black entry with fourth
/// byte 0 where the color has no frames; else the frames with fourth byte 128).
pub open spec fn dpla_record(col: Seq<u8>, dur: u16) -> Seq<u8> {
    let null = col.len() == 0;
    let frames = if null { seq![0u8, 0u8, 0u8] } else { col };
    u16_le_bytes((col.len() / 3) as u16) + u16_le_bytes(dur) + expand4(frames, if null { 0u8 } else { 128u8 })
}

/// The bytes with `fourth` inserted after every third one.
pub open spec fn expand4(c: Seq<u8>, fourth: u8) -> Seq<u8>
    decreases c.len(),
{
    if c.len() == 0 {
        Seq::<u8>::empty()
    } else {
        expand4(c.drop_last(), fourth) + seq![c.last()] + (if (c.len() - 1) % 3 == 2 {
            seq![fourth]
        } else {
            Seq::<u8>::empty()
        })
    }
}

/// The records of the first `k` colors.
pub open spec fn dpla_records(colors: Seq<Seq<u8>>, durs: Seq<u16>, k: nat) -> Seq<u8>
    decreases k,
{
    if k == 0 {
        Seq::<u8>::empty()
    } else {
        dpla_records(colors, durs, (k - 1) as nat) + dpla_record(colors[k - 1], durs[k - 1])
    }
}

/// The pointer table for the first `k` colors: where each record starts.
pub open spec fn dpla_table(colors: Seq<Seq<u8>>, durs: Seq<u16>, k: nat) -> Seq<u8>
    decreases k,
{
    if k == 0 {
        Seq::<u8>::empty()
    } else {
        dpla_table(colors, durs, (k - 1) as nat) + u32_le_bytes(
            dpla_records(colors, durs, (k - 1) as nat).len() as u32,
        )
    }
}

/// Whether the colors can be serialized: a duration for each, and a frame count that fits in
/// 16 bits.
pub open spec fn dpla_serializable(colors: Seq<Seq<u8>>, durs: Seq<u16>) -> bool {
    &&& durs.len() >= colors.len()
    &&& forall|i: int| 0 <= i < colors.len() ==> #[trigger] colors[i].len() / 3 <= 0xFFFF
}

proof fn lemma_expand4_len(c: Seq<u8>, fourth: u8)
    ensures
        expand4(c, fourth).len() <= 2 * c.len(),
    decreases c.len(),
{
    if c.len() > 0 {
        lemma_expand4_len(c.drop_last(), fourth);
    }
}

/// A DPLA file.
pub struct Dpla {
    pub colors: Vec<Vec<u8>>,
    pub durations_per_frame_for_colors: Vec<u16>,
}

/// The views of a list of byte lists.
pub open spec fn byte_lists(v: Seq<Vec<u8>>) -> Seq<Seq<u8>> {
    Seq::new(v.len(), |i: int| v[i]@)
}

impl Clone for Dpla {
    fn clone(&self) -> (r: Self)
        ensures
            byte_lists(r.colors@) == byte_lists(self.colors@),
            r.durations_per_frame_for_colors@ == self.durations_per_frame_for_colors@,
    {
        let mut out: Vec<Vec<u8>> = Vec::new();
        let mut i: usize = 0;
        while i < self.colors.len()
            invariant
                i <= self.colors@.len(),
                out@.len() == i,
                forall|j: int| 0 <= j < i ==> #[trigger] out@[j]@ == self.colors@[j]@,
            decreases self.colors@.len() - i,
        {
            out.push(crate::bytes::copy_range(self.colors[i].as_slice(), 0, self.colors[i].len()));
            proof {
                assert(self.colors@[i as int]@.subrange(0, self.colors@[i as int]@.len() as int) == self.colors@[i as int]@);
            }
            i = i + 1;
        }
        assert(byte_lists(out@) =~= byte_lists(self.colors@));
        Dpla { colors: out, durations_per_frame_for_colors: self.durations_per_frame_for_colors.clone() }
    }
}

impl Dpla {
    /// Reads DPLA data whose pointer table starts at `pointer_to_pointers`.
    pub fn new(data: StBytes, pointer_to_pointers: u32) -> (r: PyResult<Self>)
        requires
            dpla_ok(data@, pointer_to_pointers as int),
        ensures
            r matches Ok(d) && byte_lists(d.colors@) == Seq::new(
                dpla_count(data@, pointer_to_pointers as int) as nat,
                |j: int| dpla_colors_of(data@, pointer_to_pointers as int, j),
            ) && d.durations_per_frame_for_colors@ == Seq::new(
                dpla_count(data@, pointer_to_pointers as int) as nat,
                |j: int| dpla_duration_of(data@, pointer_to_pointers as int, j),
            ),
    {
        let d = data.as_slice();
        let len = d.len();
        let ptp = pointer_to_pointers as usize;
        let count: usize = if ptp < len { (len - ptp) / 4 } else { 0 };
        let ghost cnt = dpla_count(d@, ptp as int);
        let mut colors: Vec<Vec<u8>> = Vec::new();
        let mut durs: Vec<u16> = Vec::new();
        let mut j: usize = 0;
        while j < count
            invariant
                len == d@.len(),
                ptp == pointer_to_pointers as usize,
                count == dpla_count(d@, ptp as int),
                dpla_ok(d@, ptp as int),
                j <= count,
                colors@.len() == j,
                durs@.len() == j,
                forall|i: int| 0 <= i < j ==> #[trigger] colors@[i]@ == dpla_colors_of(d@, ptp as int, i),
                forall|i: int| 0 <= i < j ==> #[trigger] durs@[i] == dpla_duration_of(d@, ptp as int, i),
            decreases count - j,
        {
            let pnt = crate::bytes::read_u32_le(d, ptp + 4 * j) as usize;
            assert(pnt == dpla_pointer(d@, ptp as int, j as int));
            let number_colors = crate::bytes::read_u16_le(d, pnt) as usize;
            let dur = crate::bytes::read_u16_le(d, pnt + 2);
            let ghost s = d@.subrange(pnt + 4, len as int);
            let mut frame_colors: Vec<u8> = Vec::new();
            let mut k: usize = 0;
            while k < number_colors
                invariant
                    len == d@.len(),
                    pnt + 4 + 4 * number_colors <= len,
                    s == d@.subrange(pnt + 4, len as int),
                    k <= number_colors,
                    frame_colors@ == rgb_of(s, k as nat),
                decreases number_colors - k,
            {
                let q = pnt + 4 + 4 * k;
                frame_colors.push(d[q]);
                frame_colors.push(d[q + 1]);
                frame_colors.push(d[q + 2]);
                assert(s.subrange(4 * k, 4 * k + 3) =~= seq![d@[q as int], d@[q + 1], d@[q + 2]]);
                k = k + 1;
            }
            colors.push(frame_colors);
            durs.push(dur);
            j = j + 1;
        }
        proof {
            assert(byte_lists(colors@) =~= Seq::new(cnt as nat, |j: int| dpla_colors_of(d@, ptp as int, j)));
            assert(durs@ =~= Seq::new(cnt as nat, |j: int| dpla_duration_of(d@, ptp as int, j)));
        }
        Ok(Dpla { colors, durations_per_frame_for_colors: durs })
    }

    /// The 16 colors of palette `pal_idx` in frame `frame_id`; fails if the palette is past the
    /// colors.
    pub fn get_palette_for_frame(&self, pal_idx: usize, frame_id: usize) -> (r: PyResult<Vec<u8>>)
        requires
            (pal_idx + 1) * 16 <= usize::MAX,
            (pal_idx + 1) * 16 <= self.colors@.len() ==> forall|c: int|
                pal_idx * 16 <= c < pal_idx * 16 + 16 ==> #[trigger] self.colors@[c]@.len() == 0 || self.colors@[c]@.len()
                    >= 3,
        ensures
            (pal_idx + 1) * 16 > self.colors@.len() ==> (r matches Err(e) && e.kind == ErrorKind::IndexError),
            (pal_idx + 1) * 16 <= self.colors@.len() ==> (r matches Ok(v) && v@ == dpla_frame(
                byte_lists(self.colors@),
                pal_idx as int,
                frame_id as int,
            )),
    {
        let start = pal_idx * 16;
        if start + 16 > self.colors.len() {
            return Err(PyIndexError::new_err("Palette index out of range."));
        }
        let ghost parts = Seq::new(
            16,
            |c: int|
                {
                    let col = byte_lists(self.colors@)[pal_idx * 16 + c];
                    if col.len() == 0 {
                        seq![0u8, 0u8, 0u8]
                    } else {
                        col.subrange(((frame_id as int) % (col.len() as int / 3)) * 3, ((frame_id as int) % (col.len() as int / 3)) * 3 + 3)
                    }
                },
        );
        let mut out: Vec<u8> = Vec::new();
        let mut c: usize = 0;
        while c < 16
            invariant
                c <= 16,
                start == pal_idx * 16,
                start + 16 <= self.colors@.len(),
                forall|x: int| start <= x < start + 16 ==> #[trigger] self.colors@[x]@.len() == 0 || self.colors@[x]@.len() >= 3,
                parts == Seq::new(
                    16,
                    |c: int|
                        {
                            let col = byte_lists(self.colors@)[pal_idx * 16 + c];
                            if col.len() == 0 {
                                seq![0u8, 0u8, 0u8]
                            } else {
                                col.subrange(((frame_id as int) % (col.len() as int / 3)) * 3, ((frame_id as int) % (col.len() as int / 3)) * 3 + 3)
                            }
                        },
                ),
                out@ == parts.take(c as int).flatten(),
            decreases 16 - c,
        {
            let color = self.colors[start + c].as_slice();
            let ghost before = out@;
            if color.len() == 0 {
                out.push(0);
                out.push(0);
                out.push(0);
                assert(out@ == before + parts[c as int]);
            } else {
                let color_len = color.len() / 3;
                let f = (frame_id % color_len) * 3;
                assert(f + 3 <= color@.len()) by (nonlinear_arith)
                    requires f == (frame_id % color_len) * 3, color_len == color@.len() / 3, color_len > 0;
                out.push(color[f]);
                out.push(color[f + 1]);
                out.push(color[f + 2]);
                assert(out@ == before + parts[c as int]);
            }
            proof {
                assert(parts.take(c as int + 1) == parts.take(c as int).push(parts[c as int]));
                parts.take(c as int).lemma_flatten_push(parts[c as int]);
            }
            c = c + 1;
        }
        proof {
            assert(parts.take(16) == parts);
        }
        Ok(out)
    }

    /// Whether palette `palette_idx` is animated: its first color has frames.
    pub fn has_for_palette(&self, palette_idx: usize) -> (r: bool)
        requires
            palette_idx * 16 <= usize::MAX,
        ensures
            r == (palette_idx * 16 < self.colors@.len() && self.colors@[palette_idx * 16]@.len() > 0),
    {
        let i = palette_idx * DPLA_COLORS_PER_PALETTE;
        if i < self.colors.len() {
            self.colors[i].len() > 0
        } else {
            false
        }
    }

    /// The number of frames of palette `palette_idx`'s first color.
    pub fn get_frame_count_for_palette(&self, palette_idx: usize) -> (r: PyResult<usize>)
        requires
            palette_idx * 16 <= usize::MAX,
        ensures
            palette_idx * 16 < self.colors@.len() ==> r == Ok::<usize, crate::python::PyErr>(
                (self.colors@[palette_idx * 16]@.len() / 3) as usize,
            ),
            palette_idx * 16 >= self.colors@.len() ==> (r matches Err(e) && e.kind == ErrorKind::ValueError),
    {
        let i = palette_idx * DPLA_COLORS_PER_PALETTE;
        if i < self.colors.len() {
            Ok(self.colors[i].len() / 3)
        } else {
            Err(PyValueError::new_err("This palette has no animation."))
        }
    }

    /// Animates palette `palid`: adds black single-frame colors up to its end, and gives each of
    /// its colors without frames a black frame. Does nothing where it is animated already.
    pub fn enable_for_palette(&mut self, palid: usize)
        requires
            (palid + 1) * 16 <= usize::MAX,
        ensures
            ({
                let old_c = byte_lists(old(self).colors@);
                let anim = palid * 16 < old_c.len() && old_c[palid * 16].len() > 0;
                let n = if old_c.len() < (palid + 1) * 16 { (palid + 1) * 16 } else { old_c.len() as int };
                &&& anim ==> byte_lists(final(self).colors@) == old_c
                &&& !anim ==> byte_lists(final(self).colors@) == Seq::new(
                    n as nat,
                    |j: int|
                        if j < old_c.len() && !(palid * 16 <= j < palid * 16 + 16 && old_c[j].len() == 0) {
                            old_c[j]
                        } else {
                            seq![0u8, 0u8, 0u8]
                        },
                )
            }),
            final(self).durations_per_frame_for_colors@ == old(self).durations_per_frame_for_colors@,
    {
        if self.has_for_palette(palid) {
            return;
        }
        let ghost old_c = byte_lists(self.colors@);
        let end = (palid + 1) * DPLA_COLORS_PER_PALETTE;
        while self.colors.len() < end
            invariant
                self.colors@.len() <= end || self.colors@.len() == old_c.len(),
                end == (palid + 1) * 16,
                old_c.len() <= self.colors@.len(),
                forall|j: int| 0 <= j < old_c.len() ==> #[trigger] self.colors@[j]@ == old_c[j],
                forall|j: int| old_c.len() <= j < self.colors@.len() ==> #[trigger] self.colors@[j]@ == seq![0u8, 0u8, 0u8],
                self.durations_per_frame_for_colors@ == old(self).durations_per_frame_for_colors@,
            decreases end - self.colors@.len(),
        {
            self.colors.push(vec![0, 0, 0]);
        }
        let mut j: usize = palid * 16;
        while j < end
            invariant
                end == (palid + 1) * 16,
                palid * 16 <= j <= end,
                end <= self.colors@.len(),
                self.colors@.len() == (if old_c.len() < end { end as int } else { old_c.len() as int }),
                forall|x: int| 0 <= x < self.colors@.len() ==> #[trigger] self.colors@[x]@ == (
                    if x < old_c.len() && !(palid * 16 <= x < j && old_c[x].len() == 0) {
                        old_c[x]
                    } else {
                        seq![0u8, 0u8, 0u8]
                    }),
                self.durations_per_frame_for_colors@ == old(self).durations_per_frame_for_colors@,
            decreases end - j,
        {
            if self.colors[j].len() == 0 {
                self.colors.set(j, vec![0, 0, 0]);
            }
            j = j + 1;
        }
        assert(byte_lists(self.colors@) =~= Seq::new(
            (if old_c.len() < end { end as int } else { old_c.len() as int }) as nat,
            |x: int|
                if x < old_c.len() && !(palid * 16 <= x < palid * 16 + 16 && old_c[x].len() == 0) {
                    old_c[x]
                } else {
                    seq![0u8, 0u8, 0u8]
                },
        ));
    }

    /// Stops animating palette `palid`: its colors lose their frames. Does nothing where it is
    /// not animated.
    pub fn disable_for_palette(&mut self, palid: usize)
        requires
            (palid + 1) * 16 <= usize::MAX,
        ensures
            ({
                let old_c = byte_lists(old(self).colors@);
                let anim = palid * 16 < old_c.len() && old_c[palid * 16].len() > 0;
                &&& anim ==> byte_lists(final(self).colors@) == Seq::new(
                    old_c.len(),
                    |j: int| if palid * 16 <= j < palid * 16 + 16 { Seq::<u8>::empty() } else { old_c[j] },
                )
                &&& !anim ==> byte_lists(final(self).colors@) == old_c
            }),
            final(self).durations_per_frame_for_colors@ == old(self).durations_per_frame_for_colors@,
    {
        if !self.has_for_palette(palid) {
            return;
        }
        let ghost old_c = byte_lists(self.colors@);
        let end = (palid + 1) * DPLA_COLORS_PER_PALETTE;
        let mut j: usize = palid * 16;
        while j < end && j < self.colors.len()
            invariant
                end == (palid + 1) * 16,
                palid * 16 <= j <= end,
                self.colors@.len() == old_c.len(),
                forall|x: int| 0 <= x < self.colors@.len() ==> #[trigger] self.colors@[x]@ == (
                    if palid * 16 <= x < j { Seq::<u8>::empty() } else { old_c[x] }),
                self.durations_per_frame_for_colors@ == old(self).durations_per_frame_for_colors@,
            decreases end - j,
        {
            self.colors.set(j, Vec::new());
            j = j + 1;
        }
        assert(byte_lists(self.colors@) =~= Seq::new(
            old_c.len(),
            |x: int| if palid * 16 <= x < palid * 16 + 16 { Seq::<u8>::empty() } else { old_c[x] },
        ));
    }

    /// The frame duration of palette `palette_idx` (that of its first color).
    pub fn get_duration_for_palette(&self, palette_idx: usize) -> (r: PyResult<u16>)
        requires
            palette_idx * 16 <= usize::MAX,
        ensures
            palette_idx * 16 < self.durations_per_frame_for_colors@.len() ==> r == Ok::<u16, crate::python::PyErr>(
                self.durations_per_frame_for_colors@[palette_idx * 16],
            ),
            palette_idx * 16 >= self.durations_per_frame_for_colors@.len() ==> (r matches Err(e) && e.kind
                == ErrorKind::IndexError),
    {
        let i = palette_idx * DPLA_COLORS_PER_PALETTE;
        if i < self.durations_per_frame_for_colors.len() {
            Ok(self.durations_per_frame_for_colors[i])
        } else {
            Err(PyIndexError::new_err("Palette index out of range."))
        }
    }

    /// Sets the frame duration of every color of palette `palid` (as far as there are any).
    pub fn set_duration_for_palette(&mut self, palid: usize, duration: u16)
        requires
            (palid + 1) * 16 <= usize::MAX,
        ensures
            byte_lists(final(self).colors@) == byte_lists(old(self).colors@),
            final(self).durations_per_frame_for_colors@ == Seq::new(
                old(self).durations_per_frame_for_colors@.len(),
                |j: int|
                    if palid * 16 <= j < palid * 16 + 16 {
                        duration
                    } else {
                        old(self).durations_per_frame_for_colors@[j]
                    },
            ),
    {
        let end = (palid + 1) * DPLA_COLORS_PER_PALETTE;
        let mut j: usize = palid * 16;
        let ghost old_d = self.durations_per_frame_for_colors@;
        while j < end && j < self.durations_per_frame_for_colors.len()
            invariant
                end == (palid + 1) * 16,
                palid * 16 <= j <= end,
                byte_lists(self.colors@) == byte_lists(old(self).colors@),
                old_d == old(self).durations_per_frame_for_colors@,
                self.durations_per_frame_for_colors@.len() == old_d.len(),
                forall|x: int| 0 <= x < old_d.len() ==> #[trigger] self.durations_per_frame_for_colors@[x] == (
                    if palid * 16 <= x < j { duration } else { old_d[x] }),
            decreases end - j,
        {
            self.durations_per_frame_for_colors.set(j, duration);
            j = j + 1;
        }
        assert(self.durations_per_frame_for_colors@ =~= Seq::new(
            old_d.len(),
            |x: int| if palid * 16 <= x < palid * 16 + 16 { duration } else { old_d[x] },
        ));
    }

    /// Replaces palettes 10 and 11 by the current frame of animated palettes 0 and 1.
    pub fn apply_palette_animations(&self, palettes: Vec<Vec<u8>>, frame_idx: usize) -> (r: PyResult<Vec<Vec<u8>>>)
        requires
            self.colors@.len() >= 32 ==> forall|c: int|
                0 <= c < 32 ==> #[trigger] self.colors@[c]@.len() == 0 || self.colors@[c]@.len() >= 3,
            self.colors@.len() >= 16 ==> forall|c: int|
                0 <= c < 16 ==> #[trigger] self.colors@[c]@.len() == 0 || self.colors@[c]@.len() >= 3,
        ensures
            ({
                let c = byte_lists(self.colors@);
                let has0 = 0 < c.len() && c[0].len() > 0;
                let has1 = 16 < c.len() && c[16].len() > 0;
                let p = byte_lists(palettes@);
                let fail = (has0 && (p.len() < 11 || c.len() < 16)) || (has1 && (p.len() < 12 || c.len() < 32));
                &&& fail ==> r is Err
                &&& !fail ==> (r matches Ok(v) && byte_lists(v@) == (if has1 {
                    (if has0 { p.update(10, dpla_frame(c, 0, frame_idx as int)) } else { p }).update(11, dpla_frame(c, 1, frame_idx as int))
                } else if has0 {
                    p.update(10, dpla_frame(c, 0, frame_idx as int))
                } else {
                    p
                }))
            }),
    {
        let mut palettes = palettes;
        let ghost p0 = byte_lists(palettes@);
        if self.has_for_palette(0) {
            if palettes.len() < 11 {
                return Err(PyIndexError::new_err("Palette index out of range."));
            }
            let f = self.get_palette_for_frame(0, frame_idx)?;
            palettes.set(10, f);
        }
        let ghost p1 = byte_lists(palettes@);
        if self.has_for_palette(1) {
            if palettes.len() < 12 {
                return Err(PyIndexError::new_err("Palette index out of range."));
            }
            let f = self.get_palette_for_frame(1, frame_idx)?;
            palettes.set(11, f);
        }
        proof {
            let c = byte_lists(self.colors@);
            if self.colors@.len() > 0 && self.colors@[0]@.len() > 0 {
                assert(p1 =~= p0.update(10, dpla_frame(c, 0, frame_idx as int)));
            } else {
                assert(p1 =~= p0);
            }
            if self.colors@.len() > 16 && self.colors@[16]@.len() > 0 {
                assert(byte_lists(palettes@) =~= p1.update(11, dpla_frame(c, 1, frame_idx as int)));
            } else {
                assert(byte_lists(palettes@) =~= p1);
            }
        }
        Ok(palettes)
    }

    /// The serialized records followed by the pointer table, or an error where a color has no
    /// duration or too many frames.
    pub fn sir0_serialize_parts(&self) -> (r: PyResult<(StBytes, Vec<u32>, Option<u32>)>)
        requires
            self.colors@.len() * 4 <= u32::MAX,
            forall|i: int| 0 <= i < self.colors@.len() ==> #[trigger] self.colors@[i]@.len() <= 0x1000,
            self.colors@.len() * (8 + 2 * 0x1000) <= u32::MAX,
        ensures
            ({
                let c = byte_lists(self.colors@);
                let d = self.durations_per_frame_for_colors@;
                &&& dpla_serializable(c, d) <==> r is Ok
                &&& r matches Ok((b, ptrs, off)) ==> b@ == dpla_records(c, d, c.len()) + dpla_table(c, d, c.len()) && off
                    == Some(dpla_records(c, d, c.len()).len() as u32) && ptrs@ == Seq::new(
                    c.len(),
                    |j: int| (dpla_records(c, d, c.len()).len() + 4 * j) as u32,
                )
            }),
    {
        let ghost c = byte_lists(self.colors@);
        let ghost d = self.durations_per_frame_for_colors@;
        let n = self.colors.len();
        let mut data: Vec<u8> = Vec::new();
        let mut table: Vec<u8> = Vec::new();
        let mut pointer_offsets: Vec<u32> = Vec::new();
        let mut i: usize = 0;
        while i < n
            invariant
                n == self.colors@.len(),
                c == byte_lists(self.colors@),
                d == self.durations_per_frame_for_colors@,
                n * 4 <= u32::MAX,
                n * (8 + 2 * 0x1000) <= u32::MAX,
                forall|x: int| 0 <= x < n ==> #[trigger] self.colors@[x]@.len() <= 0x1000,
                i <= n,
                i <= d.len(),
                forall|x: int| 0 <= x < i ==> #[trigger] c[x].len() / 3 <= 0xFFFF,
                data@ == dpla_records(c, d, i as nat),
                data@.len() <= i * (4 + 2 * 0x1000),
                table@ == dpla_table(c, d, i as nat),
            decreases n - i,
        {
            let color = self.colors[i].as_slice();
            let number_colors = color.len() / 3;
            if i >= self.durations_per_frame_for_colors.len() {
                assert(!dpla_serializable(c, d));
                return Err(PyIndexError::new_err("Frame durations out of range while trying to build color."));
            }
            let start = data.len() as u32;
            crate::bytes::push_u32_le(&mut table, start);
            let null_color = color.len() == 0;
            crate::bytes::push_u16_le(&mut data, number_colors as u16);
            crate::bytes::push_u16_le(&mut data, self.durations_per_frame_for_colors[i]);
            let ghost before = data@;
            let frames: Vec<u8> = if null_color { vec![0, 0, 0] } else { crate::bytes::copy_range(color, 0, color.len()) };
            assert(frames@ == (if null_color { seq![0u8, 0u8, 0u8] } else { c[i as int] }));
            let fourth: u8 = if null_color { 0 } else { 128 };
            let mut k: usize = 0;
            while k < frames.len()
                invariant
                    k <= frames@.len(),
                    data@ == before + expand4(frames@.take(k as int), fourth),
                decreases frames@.len() - k,
            {
                proof {
                    assert(frames@.take(k as int + 1).drop_last() == frames@.take(k as int));
                }
                data.push(frames[k]);
                if k % 3 == 2 {
                    data.push(fourth);
                }
                k = k + 1;
            }
            proof {
                assert(frames@.take(frames@.len() as int) == frames@);
                lemma_expand4_len(frames@, fourth);
                assert(data@.len() <= (i + 1) * (4 + 2 * 0x1000)) by (nonlinear_arith)
                    requires
                        data@.len() <= before.len() + 2 * frames@.len(),
                        before.len() <= i * (4 + 2 * 0x1000) + 4,
                        frames@.len() <= 0x1000;
            }
            i = i + 1;
        }
        proof {
            assert(dpla_serializable(c, d));
        }
        let data_offset = data.len() as u32;
        assert(data@.len() + 4 * n <= u32::MAX) by (nonlinear_arith)
            requires data@.len() <= n * (4 + 2 * 0x1000), n * (8 + 2 * 0x1000) <= u32::MAX;
        let mut j: usize = 0;
        while j < n
            invariant
                j <= n,
                data@.len() + 4 * n <= u32::MAX,
                pointer_offsets@ == Seq::new(j as nat, |x: int| (data@.len() + 4 * x) as u32),
            decreases n - j,
        {
            pointer_offsets.push((data.len() + 4 * j) as u32);
            j = j + 1;
        }
        crate::bytes::push_all(&mut data, table.as_slice());
        Ok((StBytes(data), pointer_offsets, Some(data_offset)))
    }
}

/// Serializer of DPLA files.
pub struct DplaWriter;

impl DplaWriter {
    pub fn new() -> (r: Self) {
        DplaWriter
    }

    /// The serialized model (records and pointer table); fails as `sir0_serialize_parts` does,
    /// as a value error.
    pub fn write(&self, model: Py<Dpla>, py: Python) -> (r: PyResult<StBytes>)
        requires
            model.0.colors@.len() * 4 <= u32::MAX,
            forall|i: int| 0 <= i < model.0.colors@.len() ==> #[trigger] model.0.colors@[i]@.len() <= 0x1000,
            model.0.colors@.len() * (8 + 2 * 0x1000) <= u32::MAX,
        ensures
            ({
                let c = byte_lists(model.0.colors@);
                let d = model.0.durations_per_frame_for_colors@;
                &&& dpla_serializable(c, d) <==> r is Ok
                &&& r matches Ok(b) ==> b@ == dpla_records(c, d, c.len()) + dpla_table(c, d, c.len())
                &&& r matches Err(e) ==> e.kind == ErrorKind::ValueError
            }),
    {
        match model.0.sir0_serialize_parts() {
            Ok((c, _, _)) => Ok(c),
            Err(e) => Err(crate::python::PyErr::new(ErrorKind::ValueError, "Failed to serialize the palette animations.")),
        }
    }
}

/// The colors of the first `k` 4-byte records: 3 bytes each, the fourth skipped.
pub proof fn lemma_rgb_of_at(s: Seq<u8>, k: nat)
    requires
        4 * k <= s.len(),
    ensures
        rgb_of(s, k).len() == 3 * k,
        forall|j: int| 0 <= j < 3 * k ==> #[trigger] rgb_of(s, k)[j] == s[j + j / 3],
    decreases k,
{
    if k > 0 {
        lemma_rgb_of_at(s, (k - 1) as nat);
        let r = rgb_of(s, k);
        let r1 = rgb_of(s, (k - 1) as nat);
        assert forall|j: int| 0 <= j < 3 * k implies #[trigger] r[j] == s[j + j / 3] by {
            if j < 3 * (k - 1) {
                assert(r[j] == r1[j]);
            } else {
                let t = j - 3 * (k - 1);
                assert(j / 3 == k - 1) by (nonlinear_arith)
                    requires
                        3 * (k - 1) <= j < 3 * k,
                ;
                assert(r[j] == s.subrange(4 * (k - 1), 4 * (k - 1) + 3)[t]);
            }
        }
    }
}


proof fn lemma_expand4_at(c: Seq<u8>, f: u8)
    ensures
        expand4(c, f).len() == c.len() + c.len() / 3,
        forall|j: int| 0 <= j < c.len() ==> #[trigger] expand4(c, f)[j + j / 3] == c[j],
    decreases c.len(),
{
    if c.len() > 0 {
        let c1 = c.drop_last();
        lemma_expand4_at(c1, f);
        let e1 = expand4(c1, f);
        let l = c.len();
        assert forall|j: int| 0 <= j < l implies #[trigger] expand4(c, f)[j + j / 3] == c[j] by {
            if j < l - 1 {
                assert(expand4(c1, f)[j + j / 3] == c1[j]);
                assert(j + j / 3 < e1.len()) by (nonlinear_arith)
                    requires
                        j < l - 1,
                        e1.len() == (l - 1) + (l - 1) / 3,
                        0 <= j,
                ;
            }
        }
    }
}

proof fn lemma_dpla_records(colors: Seq<Seq<u8>>, durs: Seq<u16>, k: nat, j: nat)
    requires
        j < k <= colors.len(),
        k <= durs.len(),
    ensures
        dpla_records(colors, durs, j).len() + dpla_record(colors[j as int], durs[j as int]).len() <= dpla_records(
            colors,
            durs,
            k,
        ).len(),
        dpla_records(colors, durs, k).subrange(
            dpla_records(colors, durs, j).len() as int,
            (dpla_records(colors, durs, j).len() + dpla_record(colors[j as int], durs[j as int]).len()) as int,
        ) == dpla_record(colors[j as int], durs[j as int]),
    decreases k,
{
    let rj = dpla_records(colors, durs, j);
    let rec = dpla_record(colors[j as int], durs[j as int]);
    if k == j + 1 {
        assert(dpla_records(colors, durs, k).subrange(rj.len() as int, (rj.len() + rec.len()) as int) =~= rec);
    } else {
        lemma_dpla_records(colors, durs, (k - 1) as nat, j);
        let r1 = dpla_records(colors, durs, (k - 1) as nat);
        assert(dpla_records(colors, durs, k).subrange(rj.len() as int, (rj.len() + rec.len()) as int) =~= r1.subrange(
            rj.len() as int,
            (rj.len() + rec.len()) as int,
        ));
    }
}

proof fn lemma_dpla_table(colors: Seq<Seq<u8>>, durs: Seq<u16>, k: nat, j: nat)
    requires
        j < k <= colors.len(),
        k <= durs.len(),
    ensures
        dpla_table(colors, durs, k).len() == 4 * k,
        dpla_table(colors, durs, k).subrange(4 * (j as int), 4 * (j as int) + 4) == u32_le_bytes(
            dpla_records(colors, durs, j).len() as u32,
        ),
    decreases k,
{
    if k == j + 1 {
        if j > 0 {
            lemma_dpla_table(colors, durs, j, (j - 1) as nat);
        }
        assert(dpla_table(colors, durs, k).subrange(4 * (j as int), 4 * (j as int) + 4) =~= u32_le_bytes(
            dpla_records(colors, durs, j).len() as u32,
        ));
    } else {
        lemma_dpla_table(colors, durs, (k - 1) as nat, j);
        let t1 = dpla_table(colors, durs, (k - 1) as nat);
        assert(dpla_table(colors, durs, k).subrange(4 * (j as int), 4 * (j as int) + 4) =~= t1.subrange(
            4 * (j as int),
            4 * (j as int) + 4,
        ));
    }
}

proof fn lemma_dpla_records_mono(colors: Seq<Seq<u8>>, durs: Seq<u16>, j: nat, k: nat)
    requires
        j <= k <= colors.len(),
        k <= durs.len(),
    ensures
        dpla_records(colors, durs, j).len() <= dpla_records(colors, durs, k).len(),
    decreases k,
{
    if j < k {
        lemma_dpla_records_mono(colors, durs, j, (k - 1) as nat);
    }
}

/// Reading back the content that serializing DPLA colors gives (with the pointer table where
/// serializing says) returns the colors and their durations, for colors of whole RGB entries
/// that the serialization accepts and data within 2^32 - 1 bytes.
pub proof fn lemma_dpla_roundtrip(colors: Seq<Seq<u8>>, durs: Seq<u16>)
    requires
        dpla_serializable(colors, durs),
        forall|i: int| 0 <= i < colors.len() ==> (#[trigger] colors[i]).len() % 3 == 0,
        dpla_records(colors, durs, colors.len()).len() + 4 * colors.len() <= u32::MAX,
    ensures
        ({
            let n = colors.len();
            let recs = dpla_records(colors, durs, n);
            let b = recs + dpla_table(colors, durs, n);
            let ptp = recs.len() as int;
            &&& dpla_ok(b, ptp)
            &&& dpla_count(b, ptp) == n
            &&& Seq::new(n, |j: int| dpla_colors_of(b, ptp, j)) == colors
            &&& Seq::new(n, |j: int| dpla_duration_of(b, ptp, j)) == durs.take(n as int)
        }),
{
    let n = colors.len();
    let recs = dpla_records(colors, durs, n);
    let tab = dpla_table(colors, durs, n);
    let b = recs + tab;
    let ptp = recs.len() as int;
    if n > 0 {
        lemma_dpla_table(colors, durs, n, 0);
    }
    assert(tab.len() == 4 * n);
    assert(dpla_count(b, ptp) == n) by {
        if n == 0 {
            assert(b.len() == ptp);
        }
    }
    assert forall|j: int| 0 <= j < n implies {
        &&& #[trigger] dpla_pointer(b, ptp, j) == dpla_records(colors, durs, j as nat).len()
        &&& dpla_pointer(b, ptp, j) + 4 + 4 * le16(b, dpla_pointer(b, ptp, j)) <= b.len()
        &&& dpla_colors_of(b, ptp, j) == colors[j]
        &&& dpla_duration_of(b, ptp, j) == durs[j]
    } by {
        lemma_dpla_table(colors, durs, n, j as nat);
        lemma_dpla_records(colors, durs, n, j as nat);
        let off = dpla_records(colors, durs, j as nat).len();
        lemma_dpla_records_mono(colors, durs, j as nat, n);
        assert(b.subrange(ptp + 4 * j, ptp + 4 * j + 4) =~= tab.subrange(4 * j, 4 * j + 4));
        crate::bytes::lemma_le32_at(b, ptp + 4 * j, off as u32);
        let col = colors[j];
        let rec = dpla_record(col, durs[j]);
        assert(b.subrange(off as int, (off + rec.len()) as int) =~= rec) by {
            assert(recs.subrange(off as int, (off + rec.len()) as int) == rec);
        }
        let cnt = (col.len() / 3) as u16;
        assert(rec.subrange(0, 2) =~= u16_le_bytes(cnt));
        assert(rec.subrange(2, 4) =~= u16_le_bytes(durs[j]));
        assert(b.subrange(off as int, off + 2int) =~= u16_le_bytes(cnt));
        assert(b.subrange(off + 2int, off + 4int) =~= u16_le_bytes(durs[j]));
        crate::bytes::lemma_le16_at(b, off as int, cnt);
        crate::bytes::lemma_le16_at(b, off + 2int, durs[j]);
        let null = col.len() == 0;
        let frames = if null { seq![0u8, 0u8, 0u8] } else { col };
        let ex = expand4(frames, if null { 0u8 } else { 128u8 });
        lemma_expand4_at(frames, if null { 0u8 } else { 128u8 });
        let sub = b.subrange(off + 4int, b.len() as int);
        assert(4 + ex.len() == rec.len());
        crate::st_dpla::lemma_rgb_of_at(sub, cnt as nat);
        let x = rgb_of(sub, cnt as nat);
        assert(x =~= col) by {
            assert forall|m: int| 0 <= m < col.len() implies x[m] == col[m] by {
                assert(x[m] == sub[m + m / 3]);
                assert(sub[m + m / 3] == rec[4 + m + m / 3]);
                assert(ex[m + m / 3] == frames[m]);
            }
        }
    }
    assert(Seq::new(n, |j: int| dpla_colors_of(b, ptp, j)) =~= colors);
    assert(Seq::new(n, |j: int| dpla_duration_of(b, ptp, j)) =~= durs.take(n as int));
}

} // verus!
