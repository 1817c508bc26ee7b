//! KAO: the portrait file; per species 40 slots of compressed 40x40 portraits.
use crate::bytes::le16;
use crate::bytes::u32_le_bytes;
use crate::bytes::StBytes;
use crate::bytes::StBytesMut;
use crate::no_python::Py;
use crate::no_python::Python;
use crate::python::exceptions::PyValueError;
use crate::python::ErrorKind;
use crate::python::PyResult;
use crate::st_at_common::container_magic;
use crate::st_at_common::CommonAt;
use vstd::prelude::*;

verus! {

pub const KAO_IMAGE_LIMIT: usize = 800;

pub const KAO_IMG_PAL_B_SIZE: usize = 48;

pub const PORTRAIT_SLOTS: usize = 40;

pub const TOC_PADDING: usize = 160;

/// One portrait: its palette (16 colors) and its compressed image (an AT container).
pub struct KaoImage {
    pub pal_data: StBytesMut,
    pub compressed_img_data: StBytesMut,
}

impl Clone for KaoImage {
    fn clone(&self) -> (r: Self)
        ensures
            r.pal_data@ == self.pal_data@,
            r.compressed_img_data@ == self.compressed_img_data@,
    {
        KaoImage { pal_data: self.pal_data.clone(), compressed_img_data: self.compressed_img_data.clone() }
    }
}

/// Where a portrait's container starts in raw data, and what `new` needs to read it.
pub open spec fn kao_image_ok(raw: Seq<u8>) -> bool {
    let rest = raw.subrange(48, raw.len() as int);
    &&& raw.len() >= 53
    &&& container_magic(rest) is Some ==> raw.len() >= 55 && 48 + le16(raw, 53) <= raw.len()
}

impl KaoImage {
    /// Reads a portrait: 48 bytes of palette, then an AT container (as long as its header says).
    pub fn new(raw_data: &[u8]) -> (r: PyResult<Self>)
        requires
            kao_image_ok(raw_data@),
        ensures
            container_magic(raw_data@.subrange(48, raw_data@.len() as int)) is None ==> (r matches Err(e) && e.kind
                == ErrorKind::ValueError),
            container_magic(raw_data@.subrange(48, raw_data@.len() as int)) is Some ==> (r matches Ok(k)
                && k.pal_data@ == raw_data@.subrange(0, 48) && k.compressed_img_data@ == raw_data@.subrange(
                48,
                48 + le16(raw_data@, 53),
            )),
    {
        let cont_len = match CommonAt::cont_size(raw_data, 48) {
            Some(x) => x as usize,
            None => {
                return Err(PyValueError::new_err("Invalid Kao image data; image not an AT container."));
            },
        };
        let pal = crate::bytes::copy_range(raw_data, 0, 48);
        let img = crate::bytes::copy_range(raw_data, 48, 48 + cont_len);
        Ok(KaoImage { pal_data: StBytesMut(pal), compressed_img_data: StBytesMut(img) })
    }

    /// A portrait of the given compressed image and palette.
    pub fn create_from_raw(cimg: &[u8], pal: &[u8]) -> (r: PyResult<Self>)
        ensures
            r matches Ok(k) && k.pal_data@ == pal@ && k.compressed_img_data@ == cimg@,
    {
        let p = crate::bytes::copy_range(pal, 0, pal.len());
        let c = crate::bytes::copy_range(cimg, 0, cimg.len());
        proof {
            assert(pal@.subrange(0, pal@.len() as int) == pal@);
            assert(cimg@.subrange(0, cimg@.len() as int) == cimg@);
        }
        Ok(KaoImage { pal_data: StBytesMut(p), compressed_img_data: StBytesMut(c) })
    }

    /// The stored bytes: palette, then compressed image.
    pub fn iter(&self) -> (r: Vec<u8>)
        ensures
            r@ == self.pal_data@ + self.compressed_img_data@,
    {
        let mut v: Vec<u8> = Vec::new();
        crate::bytes::push_all(&mut v, self.pal_data.0.as_slice());
        crate::bytes::push_all(&mut v, self.compressed_img_data.0.as_slice());
        v
    }

    /// The stored size: palette and compressed image.
    pub fn size(&self) -> (r: PyResult<usize>)
        requires
            48 + self.compressed_img_data@.len() <= usize::MAX,
        ensures
            r == Ok::<usize, crate::python::PyErr>((48 + self.compressed_img_data@.len()) as usize),
    {
        Ok(KAO_IMG_PAL_B_SIZE + self.compressed_img_data.len())
    }

    /// The compressed image and the palette.
    pub fn raw(&self) -> (r: PyResult<(&[u8], &[u8])>)
        ensures
            r matches Ok((c, p)) && c@ == self.compressed_img_data@ && p@ == self.pal_data@,
    {
        Ok((self.compressed_img_data.0.as_slice(), self.pal_data.0.as_slice()))
    }
}

/// The portraits of all species: 40 slots each.
pub struct Kao {
    pub portraits: Vec<Vec<Option<Py<KaoImage>>>>,
}

/// What a slot holds: the stored bytes of its portrait, if any.
pub open spec fn slot_view(s: Option<Py<KaoImage>>) -> Option<Seq<u8>> {
    match s {
        Some(p) => Some(p.0.pal_data@ + p.0.compressed_img_data@),
        None => None,
    }
}

/// The slots of all species, species by species.
pub open spec fn kao_view(p: Seq<Vec<Option<Py<KaoImage>>>>) -> Seq<Seq<Option<Seq<u8>>>> {
    Seq::new(p.len(), |i: int| Seq::new(p[i]@.len(), |j: int| slot_view(p[i]@[j])))
}

/// Every species has 40 slots.
pub open spec fn kao_wf(p: Seq<Vec<Option<Py<KaoImage>>>>) -> bool {
    forall|i: int| 0 <= i < p.len() ==> (#[trigger] p[i])@.len() == 40
}

fn empty_portraits() -> (r: Vec<Option<Py<KaoImage>>>)
    ensures
        r@.len() == 40,
        forall|j: int| 0 <= j < 40 ==> (#[trigger] r@[j]) is None,
{
    let mut v: Vec<Option<Py<KaoImage>>> = Vec::new();
    let mut i: usize = 0;
    while i < 40
        invariant
            i <= 40,
            v@.len() == i,
            forall|j: int| 0 <= j < i ==> (#[trigger] v@[j]) is None,
        decreases 40 - i,
    {
        v.push(None);
        i = i + 1;
    }
    v
}

/// What reading one table-of-contents pointer (at `q`) gives.
pub enum KaoSlotRead {
    /// The data ends inside the pointer, or the portrait it points at is cut short.
    Cut,
    /// The pointer points at data that is no AT container.
    NotContainer,
    /// No portrait (a pointer that is not positive).
    Empty,
    /// A portrait: its palette and container bytes.
    Image(Seq<u8>),
}

/// The portrait that the pointer at `q` designates.
pub open spec fn kao_slot(raw: Seq<u8>, q: nat) -> KaoSlotRead {
    if q + 4 > raw.len() {
        KaoSlotRead::Cut
    } else {
        let p = crate::bytes::le32(raw, q as int);
        if p == 0 || p >= 0x8000_0000 {
            KaoSlotRead::Empty
        } else if p > raw.len() || !kao_image_ok(raw.subrange(p, raw.len() as int)) {
            KaoSlotRead::Cut
        } else if container_magic(raw.subrange(p + 48, raw.len() as int)) is None {
            KaoSlotRead::NotContainer
        } else {
            KaoSlotRead::Image(raw.subrange(p, p + 48 + le16(raw, p + 53)))
        }
    }
}

/// Reading a table-of-contents row (or, for `j` below 40, its first `j` pointers) at `pos`,
/// with `first` the first positive pointer met so far (0 for none).
pub enum KaoRow {
    Cut,
    NotContainer,
    Read(Seq<Option<Seq<u8>>>, nat),
}

pub open spec fn kao_row(raw: Seq<u8>, pos: nat, first: nat, j: nat) -> KaoRow
    decreases j,
{
    if j == 0 {
        KaoRow::Read(Seq::empty(), first)
    } else {
        match kao_row(raw, pos, first, (j - 1) as nat) {
            KaoRow::Read(s, f) => match kao_slot(raw, (pos + 4 * (j - 1)) as nat) {
                KaoSlotRead::Cut => KaoRow::Cut,
                KaoSlotRead::NotContainer => KaoRow::NotContainer,
                KaoSlotRead::Empty => KaoRow::Read(s.push(None), f),
                KaoSlotRead::Image(b) => KaoRow::Read(
                    s.push(Some(b)),
                    if f == 0 { crate::bytes::le32(raw, pos + 4 * (j - 1)) as nat } else { f },
                ),
            },
            other => other,
        }
    }
}

/// What reading KAO data gives.
pub enum KaoRead {
    /// The data ends too early (reading panics).
    Cut,
    /// A pointer designates no container, or the table runs past the first portrait.
    Invalid,
    Species(Seq<Seq<Option<Seq<u8>>>>),
}

/// Reading the table of contents from `pos`: rows of 40 pointers until the first portrait
/// is reached.
pub open spec fn kao_scan(raw: Seq<u8>, pos: nat, first: nat) -> KaoRead
    decreases raw.len() - pos,
{
    if !(first == 0 || pos < first) {
        if pos > first {
            KaoRead::Invalid
        } else {
            KaoRead::Species(Seq::empty())
        }
    } else {
        match kao_row(raw, pos, first, 40) {
            KaoRow::Cut => KaoRead::Cut,
            KaoRow::NotContainer => KaoRead::Invalid,
            KaoRow::Read(s, f) => if pos + 160 <= raw.len() {
                match kao_scan(raw, pos + 160, f) {
                    KaoRead::Species(rest) => KaoRead::Species(seq![s] + rest),
                    other => other,
                }
            } else {
                KaoRead::Cut
            },
        }
    }
}

/// The species read so far followed by what reading the rest gives.
pub open spec fn kao_join(acc: Seq<Seq<Option<Seq<u8>>>>, r: KaoRead) -> KaoRead {
    match r {
        KaoRead::Species(rest) => KaoRead::Species(acc + rest),
        other => other,
    }
}

proof fn lemma_kao_row_stuck(raw: Seq<u8>, pos: nat, first: nat, j: nat, m: nat)
    requires
        j <= m,
        !(kao_row(raw, pos, first, j) is Read),
    ensures
        kao_row(raw, pos, first, m) == kao_row(raw, pos, first, j),
    decreases m - j,
{
    if m > j {
        lemma_kao_row_stuck(raw, pos, first, j, (m - 1) as nat);
    }
}

proof fn lemma_kao_row_len(raw: Seq<u8>, pos: nat, first: nat, j: nat)
    ensures
        kao_row(raw, pos, first, j) matches KaoRow::Read(s, f) ==> s.len() == j && (f == 0 ==> first == 0)
            && (j > 0 ==> pos + 4 * j <= raw.len()),
    decreases j,
{
    if j > 0 {
        lemma_kao_row_len(raw, pos, first, (j - 1) as nat);
    }
}

impl Kao {
    /// Reads KAO data: after 160 bytes of padding, rows of 40 pointers (one row per species)
    /// until the first portrait, each positive pointer designating a portrait.
    #[verifier::rlimit(40)]
    pub fn new(raw_data: &[u8], py: Python) -> (r: PyResult<Self>)
        requires
            !(kao_scan(raw_data@, 160, 0) is Cut),
        ensures
            kao_scan(raw_data@, 160, 0) is Invalid ==> (r matches Err(e) && e.kind == ErrorKind::ValueError),
            kao_scan(raw_data@, 160, 0) matches KaoRead::Species(sp) ==> (r matches Ok(k) && kao_wf(k.portraits@)
                && kao_view(k.portraits@) == sp),
    {
        let ghost raw = raw_data@;
        let ghost goal = kao_scan(raw, 160, 0);
        let n = raw_data.len();
        let mut portraits: Vec<Vec<Option<Py<KaoImage>>>> = Vec::new();
        let mut pos: usize = 160;
        let mut first: usize = 0;
        assert(kao_view(portraits@) =~= Seq::<Seq<Option<Seq<u8>>>>::empty());
        assert(kao_join(Seq::empty(), goal) == goal) by {
            match goal {
                KaoRead::Species(rest) => {
                    assert(Seq::<Seq<Option<Seq<u8>>>>::empty() + rest =~= rest);
                },
                _ => {},
            }
        }
        while first == 0 || pos < first
            invariant
                raw == raw_data@,
                n == raw.len(),
                goal == kao_scan(raw, 160, 0),
                !(goal is Cut),
                pos <= n + 160,
                goal == kao_join(kao_view(portraits@), kao_scan(raw, pos as nat, first as nat)),
                kao_wf(portraits@),
            decreases n + 160 - pos,
        {
            let ghost first0 = first as nat;
            let ghost acc = kao_view(portraits@);
            let mut species: Vec<Option<Py<KaoImage>>> = Vec::new();
            let mut j: usize = 0;
            assert(Seq::new(species@.len(), |i: int| slot_view(species@[i])) =~= Seq::<Option<Seq<u8>>>::empty());
            while j < 40
                invariant
                    pos <= n + 160,
                    raw == raw_data@,
                    n == raw.len(),
                    j <= 40,
                    first0 == 0 || pos < first0,
                    goal == kao_scan(raw, 160, 0),
                    goal == kao_join(acc, kao_scan(raw, pos as nat, first0)),
                    !(goal is Cut),
                    kao_row(raw, pos as nat, first0, j as nat) == KaoRow::Read(
                        Seq::new(species@.len(), |i: int| slot_view(species@[i])), first as nat),
                    species@.len() == j,
                decreases 40 - j,
            {
                proof {
                    lemma_kao_row_len(raw, pos as nat, first0, j as nat);
                }
                let ghost before = Seq::new(species@.len(), |i: int| slot_view(species@[i]));
                let fits: bool = n >= 4 && pos <= n - 4 && 4 * j <= n - 4 - pos;
                if !fits {
                    proof {
                        assert(kao_row(raw, pos as nat, first0, (j + 1) as nat) is Cut);
                        lemma_kao_row_stuck(raw, pos as nat, first0, (j + 1) as nat, 40);
                    }
                    return Err(PyValueError::new_err("Corrupt KAO TOC."));
                }
                let q = pos + 4 * j;
                let ptr = crate::bytes::read_u32_le(raw_data, q);
                if ptr == 0 || ptr >= 0x8000_0000 {
                    species.push(None);
                    proof {
                        assert(Seq::new(species@.len(), |i: int| slot_view(species@[i])) =~= before.push(None));
                    }
                } else {
                    let p = ptr as usize;
                    if p > n || n - p < 53 {
                        proof {
                            assert(kao_row(raw, pos as nat, first0, (j + 1) as nat) is Cut);
                            lemma_kao_row_stuck(raw, pos as nat, first0, (j + 1) as nat, 40);
                        }
                        return Err(PyValueError::new_err("Corrupt KAO TOC."));
                    }
                    let rest = vstd::slice::slice_subrange(raw_data, p, n);
                    let after_pal = vstd::slice::slice_subrange(rest, 48, rest.len());
                    assert(rest@.subrange(48, rest@.len() as int) =~= raw.subrange(p + 48, n as int));
                    assert(after_pal@ =~= raw.subrange(p + 48, n as int));
                    if CommonAt::magic(after_pal).is_none() {
                        proof {
                            assert(kao_row(raw, pos as nat, first0, (j + 1) as nat) is NotContainer);
                            lemma_kao_row_stuck(raw, pos as nat, first0, (j + 1) as nat, 40);
                        }
                        return Err(PyValueError::new_err("Invalid Kao image data; image not an AT container."));
                    }
                    if n - p < 55 || (n - p - 48) < crate::bytes::read_u16_le(rest, 53) as usize {
                        proof {
                            assert(kao_row(raw, pos as nat, first0, (j + 1) as nat) is Cut);
                            lemma_kao_row_stuck(raw, pos as nat, first0, (j + 1) as nat, 40);
                        }
                        return Err(PyValueError::new_err("Corrupt KAO TOC."));
                    }
                    let img = KaoImage::new(rest)?;
                    proof {
                        assert(img.pal_data@ + img.compressed_img_data@ =~= raw.subrange(p as int, p + 48 + le16(raw, p + 53)));
                    }
                    if first == 0 {
                        first = p;
                    }
                    species.push(Some(Py(img)));
                    proof {
                        assert(Seq::new(species@.len(), |i: int| slot_view(species@[i])) =~= before.push(
                            Some(raw.subrange(p as int, p + 48 + le16(raw, p + 53)))));
                    }
                }
                j = j + 1;
            }
            proof {
                lemma_kao_row_len(raw, pos as nat, first0, 40);
                let s = Seq::new(species@.len(), |i: int| slot_view(species@[i]));
                assert(kao_view(portraits@.push(species)) =~= acc.push(s));
                match kao_scan(raw, (pos + 160) as nat, first as nat) {
                    KaoRead::Species(rest) => {
                        assert(acc + (seq![s] + rest) =~= acc.push(s) + rest);
                    },
                    _ => {},
                }
            }
            portraits.push(species);
            pos = pos + 160;
        }
        if pos > first {
            return Err(PyValueError::new_err("Corrupt KAO TOC."));
        }
        proof {
            assert(kao_view(portraits@) + Seq::<Seq<Option<Seq<u8>>>>::empty() =~= kao_view(portraits@));
        }
        Ok(Kao { portraits })
    }

    /// A file of `number_entries` species with empty slots.
    pub fn create_new(number_entries: usize) -> (r: Self)
        ensures
            kao_wf(r.portraits@),
            kao_view(r.portraits@) == Seq::new(number_entries as nat, |i: int| Seq::new(40, |j: int| None::<Seq<u8>>)),
    {
        let mut portraits: Vec<Vec<Option<Py<KaoImage>>>> = Vec::new();
        let mut i: usize = 0;
        while i < number_entries
            invariant
                i <= number_entries,
                portraits@.len() == i,
                kao_wf(portraits@),
                forall|x: int, j: int| 0 <= x < i && 0 <= j < 40 ==> (#[trigger] portraits@[x]@[j]) is None,
            decreases number_entries - i,
        {
            portraits.push(empty_portraits());
            i = i + 1;
        }
        assert(kao_view(portraits@) =~= Seq::new(number_entries as nat, |i: int| Seq::new(40, |j: int| None::<Seq<u8>>))) by {
            assert forall|x: int| 0 <= x < number_entries implies #[trigger] kao_view(portraits@)[x] =~= Seq::new(40, |j: int| None::<Seq<u8>>) by {
                assert(portraits@[x]@.len() == 40);
            }
        }
        Kao { portraits }
    }

    /// The number of species.
    pub fn n_entries(&self) -> (r: usize)
        ensures
            r == self.portraits@.len(),
    {
        self.portraits.len()
    }

    /// Adds species with empty slots up to `new_size`; fails where that would remove species.
    pub fn expand(&mut self, new_size: usize) -> (r: PyResult<()>)
        ensures
            new_size < old(self).portraits@.len() ==> (r matches Err(e) && e.kind == ErrorKind::ValueError)
                && kao_view(final(self).portraits@) == kao_view(old(self).portraits@),
            new_size >= old(self).portraits@.len() ==> r is Ok && kao_view(final(self).portraits@) == kao_view(
                old(self).portraits@,
            ) + Seq::new((new_size - old(self).portraits@.len()) as nat, |i: int| Seq::new(40, |j: int| None::<Seq<u8>>)),
            kao_wf(old(self).portraits@) ==> kao_wf(final(self).portraits@),
    {
        if new_size < self.portraits.len() {
            return Err(PyValueError::new_err("Can't reduce the number of entries."));
        }
        let ghost old_v = kao_view(self.portraits@);
        let ghost old_len = self.portraits@.len();
        let ghost was_wf = kao_wf(self.portraits@);
        while self.portraits.len() < new_size
            invariant
                old_len <= self.portraits@.len() <= new_size,
                forall|x: int| 0 <= x < old_len ==> #[trigger] kao_view(self.portraits@)[x] == old_v[x],
                old_v.len() == old_len,
                forall|x: int, j: int| old_len <= x < self.portraits@.len() && 0 <= j < 40 ==> (#[trigger] self.portraits@[x]@[j]) is None,
                forall|x: int| old_len <= x < self.portraits@.len() ==> (#[trigger] self.portraits@[x])@.len() == 40,
                was_wf ==> forall|x: int| 0 <= x < old_len ==> (#[trigger] self.portraits@[x])@.len() == 40,
            decreases new_size - self.portraits@.len(),
        {
            let ghost before = self.portraits@;
            self.portraits.push(empty_portraits());
            assert forall|x: int| 0 <= x < old_len implies #[trigger] kao_view(self.portraits@)[x] == old_v[x] by {
                assert(self.portraits@[x] == before[x]);
                assert(kao_view(self.portraits@)[x] == kao_view(before)[x]);
            }
        }
        assert(kao_view(self.portraits@) =~= old_v + Seq::new((new_size - old_len) as nat, |i: int| Seq::new(40, |j: int| None::<Seq<u8>>))) by {
            assert forall|x: int| old_len <= x < new_size implies #[trigger] kao_view(self.portraits@)[x] =~= Seq::new(40, |j: int| None::<Seq<u8>>) by {
                assert(self.portraits@[x]@.len() == 40);
            }
        }
        Ok(())
    }

    /// The portrait in slot `subindex` of species `index` (a copy), or `None` for an empty slot;
    /// fails where either index is out of range.
    pub fn get(&self, index: usize, subindex: usize, py: Python) -> (r: PyResult<Option<Py<KaoImage>>>)
        requires
            kao_wf(self.portraits@),
        ensures
            (index >= self.portraits@.len() || subindex >= 40) ==> (r matches Err(e) && e.kind == ErrorKind::ValueError),
            (index < self.portraits@.len() && subindex < 40) ==> (r matches Ok(v) && slot_view(v)
                == kao_view(self.portraits@)[index as int][subindex as int]),
    {
        if index < self.portraits.len() {
            if subindex < PORTRAIT_SLOTS {
                let s = &self.portraits[index];
                assert(s@.len() == 40);
                let v = match &s[subindex] {
                    Some(p) => Some(Py(p.0.clone())),
                    None => None,
                };
                return Ok(v);
            }
            return Err(PyValueError::new_err("The subindex requested must be between 0 and 40"));
        }
        Err(PyValueError::new_err("The index requested must be between 0 and the number of entries"))
    }

    /// Puts `img` into slot `subindex` of species `index`; fails where either index is out of
    /// range.
    pub fn set(&mut self, index: usize, subindex: usize, img: Py<KaoImage>) -> (r: PyResult<()>)
        requires
            kao_wf(old(self).portraits@),
            index != old(self).portraits@.len(),
        ensures
            kao_wf(final(self).portraits@),
            (index > old(self).portraits@.len() || subindex >= 40) ==> (r matches Err(e) && e.kind == ErrorKind::ValueError)
                && kao_view(final(self).portraits@) == kao_view(old(self).portraits@),
            (index < old(self).portraits@.len() && subindex < 40) ==> r is Ok && kao_view(final(self).portraits@)
                == kao_view(old(self).portraits@).update(
                index as int,
                kao_view(old(self).portraits@)[index as int].update(subindex as int, slot_view(Some(img))),
            ),
    {
        if index <= self.portraits.len() {
            if subindex < PORTRAIT_SLOTS {
                self.set_slot(index, subindex, Some(img));
                return Ok(());
            }
            return Err(PyValueError::new_err("The subindex requested must be between 0 and 40"));
        }
        Err(PyValueError::new_err("The index requested must be between 0 and the number of entries"))
    }

    /// Empties slot `subindex` of species `index`, where both are in range.
    pub fn delete(&mut self, index: usize, subindex: usize) -> (r: PyResult<()>)
        requires
            kao_wf(old(self).portraits@),
            index != old(self).portraits@.len(),
        ensures
            r is Ok,
            kao_wf(final(self).portraits@),
            (index < old(self).portraits@.len() && subindex < 40) ==> kao_view(final(self).portraits@) == kao_view(
                old(self).portraits@,
            ).update(index as int, kao_view(old(self).portraits@)[index as int].update(subindex as int, None)),
            !(index < old(self).portraits@.len() && subindex < 40) ==> kao_view(final(self).portraits@) == kao_view(
                old(self).portraits@,
            ),
    {
        if index <= self.portraits.len() && subindex < PORTRAIT_SLOTS {
            self.set_slot(index, subindex, None);
        }
        Ok(())
    }

    fn set_slot(&mut self, index: usize, subindex: usize, v: Option<Py<KaoImage>>)
        requires
            kao_wf(old(self).portraits@),
            index < old(self).portraits@.len(),
            subindex < 40,
        ensures
            kao_wf(final(self).portraits@),
            kao_view(final(self).portraits@) == kao_view(old(self).portraits@).update(
                index as int,
                kao_view(old(self).portraits@)[index as int].update(subindex as int, slot_view(v)),
            ),
    {
        let ghost old_p = self.portraits@;
        let mut species: Vec<Option<Py<KaoImage>>> = Vec::new();
        let mut j: usize = 0;
        let n = self.portraits[index].len();
        assert(n == 40);
        while j < n
            invariant
                j <= n,
                n == 40,
                old_p == self.portraits@,
                index < old_p.len(),
                n == old_p[index as int]@.len(),
                species@.len() == j,
                forall|x: int| 0 <= x < j ==> slot_view(#[trigger] species@[x]) == slot_view(old_p[index as int]@[x]),
            decreases n - j,
        {
            let cur = match &self.portraits[index][j] {
                Some(p) => Some(Py(p.0.clone())),
                None => None,
            };
            species.push(cur);
            j = j + 1;
        }
        species.set(subindex, v);
        self.portraits.set(index, species);
        assert(kao_view(self.portraits@) =~= kao_view(old_p).update(
            index as int,
            kao_view(old_p)[index as int].update(subindex as int, slot_view(v)),
        )) by {
            assert(kao_view(self.portraits@)[index as int] =~= kao_view(old_p)[index as int].update(subindex as int, slot_view(v)));
        }
    }
}

/// The table of contents and the data for the first `k` slots (species by species, 40 each),
/// with data starting at `start`: per slot a little-endian 32-bit pointer (negated for an empty
/// slot, where it points at the end of the data so far), and the stored bytes of each portrait.
pub open spec fn kao_write(slots: Seq<Option<Seq<u8>>>, start: int, k: nat) -> (Seq<u8>, Seq<u8>)
    decreases k,
{
    if k == 0 {
        (Seq::<u8>::empty(), Seq::<u8>::empty())
    } else {
        let (toc, data) = kao_write(slots, start, (k - 1) as nat);
        let cur = start + data.len();
        match slots[k - 1] {
            None => (toc + u32_le_bytes((0x1_0000_0000 - cur) as u32), data),
            Some(b) => (toc + u32_le_bytes(cur as u32), data + b),
        }
    }
}

/// The slots in the order they are written.
pub open spec fn kao_slots(v: Seq<Seq<Option<Seq<u8>>>>) -> Seq<Option<Seq<u8>>> {
    v.flatten()
}

/// Serializer of KAO files.
pub struct KaoWriter;

impl KaoWriter {
    pub fn new() -> (r: Self) {
        KaoWriter
    }

    fn write_species(
        species: &Vec<Option<Py<KaoImage>>>,
        toc: &mut Vec<u8>,
        data: &mut Vec<u8>,
        cur: i32,
        start: usize,
        Ghost(slots): Ghost<Seq<Option<Seq<u8>>>>,
        Ghost(base): Ghost<nat>,
    ) -> (r: i32)
        requires
            species@.len() == 40,
            base + 40 <= slots.len(),
            160 <= start,
            forall|j: int| 0 <= j < 40 ==> #[trigger] slots[base + j] == slot_view(species@[j]),
            old(toc)@ == Seq::new(160, |i: int| 0u8) + kao_write(slots, start as int, base).0,
            old(data)@ == kao_write(slots, start as int, base).1,
            cur == start + old(data)@.len(),
            start + kao_write(slots, start as int, base + 40).1.len() <= i32::MAX,
        ensures
            final(toc)@ == Seq::new(160, |i: int| 0u8) + kao_write(slots, start as int, base + 40).0,
            final(data)@ == kao_write(slots, start as int, base + 40).1,
            r == start + final(data)@.len(),
    {
        let mut cur = cur;
        let mut j: usize = 0;
        while j < 40
            invariant
                j <= 40,
                species@.len() == 40,
                base + 40 <= slots.len(),
                160 <= start,
                forall|x: int| 0 <= x < 40 ==> #[trigger] slots[base + x] == slot_view(species@[x]),
                toc@ == Seq::new(160, |i: int| 0u8) + kao_write(slots, start as int, (base + j) as nat).0,
                data@ == kao_write(slots, start as int, (base + j) as nat).1,
                cur == start + data@.len(),
                start + kao_write(slots, start as int, base + 40).1.len() <= i32::MAX,
            decreases 40 - j,
        {
            proof {
                lemma_kao_write_mono(slots, start as int, (base + j + 1) as nat, base + 40);
                assert(slots[base + j] == slot_view(species@[j as int]));
            }
            cur = Self::write_slot(&species[j], toc, data, cur, start);
            j = j + 1;
        }
        cur
    }

    fn write_slot(slot: &Option<Py<KaoImage>>, toc: &mut Vec<u8>, data: &mut Vec<u8>, cur: i32, start: usize) -> (r: i32)
        requires
            cur == start + old(data)@.len(),
            160 <= start,
            start + old(data)@.len() + (match slot_view(*slot) {
                Some(b) => b.len() as int,
                None => 0,
            }) <= i32::MAX,
        ensures
            r == start + final(data)@.len(),
            match slot_view(*slot) {
                None => final(toc)@ == old(toc)@ + u32_le_bytes((0x1_0000_0000 - cur) as u32) && final(data)@ == old(data)@,
                Some(b) => final(toc)@ == old(toc)@ + u32_le_bytes(cur as u32) && final(data)@ == old(data)@ + b,
            },
    {
        match slot {
            None => {
                crate::bytes::push_i32_le(toc, -cur);
                cur
            },
            Some(p) => {
                crate::bytes::push_i32_le(toc, cur);
                let b = p.0.iter();
                crate::bytes::push_all(data, b.as_slice());
                cur + b.len() as i32
            },
        }
    }

    /// 160 zero bytes, the table of contents, then the portraits.
    #[verifier::rlimit(100)]
    #[verifier::spinoff_prover]
    pub fn write(&self, model: Py<Kao>, py: Python) -> (r: PyResult<StBytes>)
        requires
            kao_wf(model.0.portraits@),
            ({
                let slots = kao_slots(kao_view(model.0.portraits@));
                let start: int = 160 + (slots.len() as int) * 4;
                start + kao_write(slots, start, slots.len()).1.len() <= i32::MAX
            }),
        ensures
            ({
                let slots = kao_slots(kao_view(model.0.portraits@));
                let start: int = 160 + (slots.len() as int) * 4;
                let (toc, data) = kao_write(slots, start, slots.len());
                r matches Ok(b) && b@ == Seq::new(160, |i: int| 0u8) + toc + data
            }),
    {
        let ghost v = kao_view(model.0.portraits@);
        let ghost slots = kao_slots(v);
        let ps = &model.0.portraits;
        proof {
            lemma_flatten_len_40(v);
        }
        let toc_len: usize = 160 + ps.len() * 40 * 4;
        let mut toc: Vec<u8> = crate::bytes::filled(0, 160);
        let mut data: Vec<u8> = Vec::new();
        let mut current_image_end: i32 = toc_len as i32;
        let mut s: usize = 0;
        while s < ps.len()
            invariant
                s <= ps@.len(),
                kao_wf(ps@),
                v == kao_view(ps@),
                slots == kao_slots(v),
                slots.len() == ps@.len() * 40,
                toc_len == 160 + slots.len() * 4,
                toc_len + kao_write(slots, toc_len as int, slots.len()).1.len() <= i32::MAX,
                toc@ == Seq::new(160, |i: int| 0u8) + kao_write(slots, toc_len as int, (s * 40) as nat).0,
                data@ == kao_write(slots, toc_len as int, (s * 40) as nat).1,
                current_image_end == toc_len + data@.len(),
            decreases ps@.len() - s,
        {
            let species = &ps[s];
            proof {
                assert forall|j: int| 0 <= j < 40 implies #[trigger] slots[s * 40 + j] == slot_view(species@[j]) by {
                    lemma_slot_index(v, s as int, j);
                }
                lemma_kao_write_mono(slots, toc_len as int, (s * 40 + 40) as nat, slots.len());
            }
            current_image_end = Self::write_species(species, &mut toc, &mut data, current_image_end, toc_len, Ghost(slots), Ghost((s * 40) as nat));
            s = s + 1;
        }
        proof {
            assert(slots.len() == ps@.len() * 40);
        }
        crate::bytes::push_all(&mut toc, data.as_slice());
        Ok(StBytes(toc))
    }
}

proof fn lemma_flatten_len_40(v: Seq<Seq<Option<Seq<u8>>>>)
    requires
        forall|i: int| 0 <= i < v.len() ==> (#[trigger] v[i]).len() == 40,
    ensures
        v.flatten().len() == v.len() * 40,
    decreases v.len(),
{
    if v.len() > 0 {
        lemma_flatten_len_40(v.drop_last());
        v.drop_last().lemma_flatten_push(v.last());
        assert(v.drop_last().push(v.last()) == v);
    }
}

proof fn lemma_slot_index(v: Seq<Seq<Option<Seq<u8>>>>, s: int, j: int)
    requires
        forall|i: int| 0 <= i < v.len() ==> (#[trigger] v[i]).len() == 40,
        0 <= s < v.len(),
        0 <= j < 40,
    ensures
        v.flatten()[s * 40 + j] == v[s][j],
        s * 40 + j < v.flatten().len(),
    decreases v.len(),
{
    lemma_flatten_len_40(v);
    if s < v.len() - 1 {
        lemma_slot_index(v.drop_last(), s, j);
        v.drop_last().lemma_flatten_push(v.last());
        assert(v.drop_last().push(v.last()) == v);
        lemma_flatten_len_40(v.drop_last());
    } else {
        v.drop_last().lemma_flatten_push(v.last());
        assert(v.drop_last().push(v.last()) == v);
        lemma_flatten_len_40(v.drop_last());
    }
}

proof fn lemma_kao_write_mono(slots: Seq<Option<Seq<u8>>>, start: int, a: nat, b: nat)
    requires
        a <= b,
    ensures
        kao_write(slots, start, a).1.len() <= kao_write(slots, start, b).1.len(),
    decreases b - a,
{
    if a < b {
        lemma_kao_write_mono(slots, start, a, (b - 1) as nat);
    }
}


/// Stored portrait bytes that read back as themselves: a palette, then an AT container whose
/// header gives its own length.
pub open spec fn kao_image_wf(b: Seq<u8>) -> bool {
    &&& b.len() >= 55
    &&& container_magic(b.subrange(48, b.len() as int)) is Some
    &&& 48 + le16(b, 53) == b.len()
}

/// The bytes that writing the species `v` gives.
pub open spec fn kao_file(v: Seq<Seq<Option<Seq<u8>>>>) -> Seq<u8> {
    let slots = kao_slots(v);
    let start: int = 160 + (slots.len() as int) * 4;
    let (toc, data) = kao_write(slots, start, slots.len());
    Seq::new(160, |i: int| 0u8) + toc + data
}

/// How much portrait data the first `i` slots write.
pub open spec fn kao_d(slots: Seq<Option<Seq<u8>>>, start: int, i: nat) -> nat {
    kao_write(slots, start, i).1.len()
}

/// The table entry written for slot `i`.
pub open spec fn kao_ptr_bytes(slots: Seq<Option<Seq<u8>>>, start: int, i: nat) -> Seq<u8> {
    let cur = start + kao_d(slots, start, i);
    match slots[i as int] {
        None => u32_le_bytes((0x1_0000_0000 - cur) as u32),
        Some(b) => u32_le_bytes(cur as u32),
    }
}

/// Whether one of the first `k` slots holds a portrait.
pub open spec fn kao_has_img(slots: Seq<Option<Seq<u8>>>, k: nat) -> bool {
    exists|i: int| 0 <= i < k && (#[trigger] slots[i]) is Some
}

proof fn lemma_kao_toc(slots: Seq<Option<Seq<u8>>>, start: int, k: nat, i: nat)
    requires
        i < k <= slots.len(),
    ensures
        kao_write(slots, start, k).0.len() == 4 * k,
        kao_write(slots, start, k).0.subrange(4 * (i as int), 4 * (i as int) + 4) == kao_ptr_bytes(slots, start, i),
    decreases k,
{
    if k == i + 1 {
        if i > 0 {
            lemma_kao_toc(slots, start, i, (i - 1) as nat);
        }
        let t = kao_write(slots, start, i).0;
        assert(kao_write(slots, start, k).0.subrange(4 * (i as int), 4 * (i as int) + 4) =~= kao_ptr_bytes(slots, start, i));
    } else {
        lemma_kao_toc(slots, start, (k - 1) as nat, i);
        let t = kao_write(slots, start, (k - 1) as nat).0;
        assert(kao_write(slots, start, k).0.subrange(4 * (i as int), 4 * (i as int) + 4) =~= t.subrange(4 * (i as int), 4 * (i as int) + 4));
    }
}

proof fn lemma_kao_data_prefix(slots: Seq<Option<Seq<u8>>>, start: int, i: nat, k: nat)
    requires
        i <= k <= slots.len(),
    ensures
        kao_d(slots, start, i) <= kao_d(slots, start, k),
        kao_write(slots, start, k).1.subrange(0, kao_d(slots, start, i) as int) == kao_write(slots, start, i).1,
    decreases k,
{
    if i == k {
        assert(kao_write(slots, start, k).1.subrange(0, kao_d(slots, start, i) as int) =~= kao_write(slots, start, i).1);
    } else {
        lemma_kao_data_prefix(slots, start, i, (k - 1) as nat);
        let d = kao_write(slots, start, (k - 1) as nat).1;
        assert(kao_write(slots, start, k).1.subrange(0, kao_d(slots, start, i) as int) =~= d.subrange(
            0,
            kao_d(slots, start, i) as int,
        ));
    }
}

proof fn lemma_kao_no_img(slots: Seq<Option<Seq<u8>>>, start: int, k: nat)
    requires
        k <= slots.len(),
        !kao_has_img(slots, k),
    ensures
        kao_d(slots, start, k) == 0,
    decreases k,
{
    if k > 0 {
        assert(slots[k - 1] is None);
        assert(!kao_has_img(slots, (k - 1) as nat));
        lemma_kao_no_img(slots, start, (k - 1) as nat);
    }
}

proof fn lemma_flatten_uniform_len(v: Seq<Seq<Option<Seq<u8>>>>, r: nat)
    requires
        r <= v.len(),
        forall|q: int| 0 <= q < v.len() ==> (#[trigger] v[q]).len() == 40,
    ensures
        v.take(r as int).flatten().len() == 40 * r,
    decreases r,
{
    if r > 0 {
        lemma_flatten_uniform_len(v, (r - 1) as nat);
        assert(v.take(r as int) =~= v.take(r - 1).push(v[r - 1]));
        v.take(r - 1).lemma_flatten_push(v[r - 1]);
    }
}

proof fn lemma_flatten_uniform_index(v: Seq<Seq<Option<Seq<u8>>>>, r: int, j: int)
    requires
        0 <= r < v.len(),
        0 <= j < 40,
        forall|q: int| 0 <= q < v.len() ==> (#[trigger] v[q]).len() == 40,
    ensures
        v.flatten().len() == 40 * v.len(),
        v.flatten()[40 * r + j] == v[r][j],
{
    lemma_flatten_uniform_len(v, v.len());
    assert(v.take(v.len() as int) =~= v);
    lemma_flatten_uniform_len(v, r as nat);
    let t = v.take(r + 1);
    assert(t =~= v.take(r).push(v[r]));
    v.take(r).lemma_flatten_push(v[r]);
    assert(v =~= t + v.skip(r + 1int));
    vstd::seq_lib::lemma_flatten_concat(t, v.skip(r + 1int));
    assert(t.flatten() =~= v.take(r).flatten() + v[r]);
    assert(v.flatten()[40 * r + j] == t.flatten()[40 * r + j]);
}

/// What reading slot `i` of a written file gives: its portrait, or no portrait.
pub open spec fn kao_slot_of(o: Option<Seq<u8>>) -> KaoSlotRead {
    match o {
        Some(b) => KaoSlotRead::Image(b),
        None => KaoSlotRead::Empty,
    }
}

/// Whether the species `v` can be written and read back: 40 slots each, well-formed
/// portraits, at least one portrait, and a file within 2^31 - 1 bytes.
pub open spec fn kao_roundtrip_ok(v: Seq<Seq<Option<Seq<u8>>>>) -> bool {
    let slots = kao_slots(v);
    let start: int = 160 + (slots.len() as int) * 4;
    &&& forall|q: int| 0 <= q < v.len() ==> (#[trigger] v[q]).len() == 40
    &&& forall|i: int| 0 <= i < slots.len() ==> ((#[trigger] slots[i]) matches Some(b) ==> kao_image_wf(b))
    &&& kao_has_img(slots, slots.len())
    &&& start + kao_write(slots, start, slots.len()).1.len() <= i32::MAX
}

proof fn lemma_kao_slot_read(v: Seq<Seq<Option<Seq<u8>>>>, i: nat)
    requires
        kao_roundtrip_ok(v),
        i < kao_slots(v).len(),
    ensures
        kao_slot(kao_file(v), 160 + 4 * i) == kao_slot_of(kao_slots(v)[i as int]),
{
    let slots = kao_slots(v);
    let n = slots.len();
    let start: int = 160 + (n as int) * 4;
    let (toc, data) = kao_write(slots, start, n);
    let bytes = kao_file(v);
    lemma_kao_toc(slots, start, n, i);
    assert(bytes.len() == start + data.len());
    let q: int = 160 + 4 * (i as int);
    assert(bytes.subrange(q, q + 4) =~= toc.subrange(4 * (i as int), 4 * (i as int) + 4));
    let di = kao_d(slots, start, i);
    lemma_kao_data_prefix(slots, start, i, n);
    lemma_kao_data_prefix(slots, start, i + 1, n);
    let cur = start + di;
    assert(0 < cur <= i32::MAX);
    match slots[i as int] {
        None => {
            let x: u32 = (0x1_0000_0000 - cur) as u32;
            assert(x == 0x1_0000_0000 - cur);
            crate::bytes::lemma_le32_at(bytes, q, x);
        },
        Some(b) => {
            let x: u32 = cur as u32;
            crate::bytes::lemma_le32_at(bytes, q, x);
            assert(kao_write(slots, start, i + 1).1 == kao_write(slots, start, i).1 + b);
            let dn = kao_write(slots, start, (i + 1) as nat).1;
            assert(data.subrange(0, (di + b.len()) as int) == dn);
            assert(bytes.subrange(cur, cur + b.len()) =~= b) by {
                assert forall|m: int| 0 <= m < b.len() implies bytes.subrange(cur, cur + b.len())[m] == b[m] by {
                    assert(bytes[cur + m] == data[di + m]);
                    assert(data[di + m] == data.subrange(0, (di + b.len()) as int)[di + m]);
                    assert(dn[di + m] == b[m]);
                }
            }
            let rest = bytes.subrange(cur, bytes.len() as int);
            assert(rest.subrange(48, rest.len() as int).subrange(0, 5) =~= b.subrange(48, b.len() as int).subrange(0, 5)) by {
                assert forall|m: int| 0 <= m < 5 implies rest.subrange(48, rest.len() as int).subrange(0, 5)[m]
                    == b.subrange(48, b.len() as int).subrange(0, 5)[m] by {
                    assert(bytes.subrange(cur, cur + b.len())[48 + m] == b[48 + m]);
                }
            }
            assert(bytes.subrange(cur + 48, bytes.len() as int) =~= rest.subrange(48, rest.len() as int));
            assert(bytes[cur + 53] == b[53] && bytes[cur + 54] == b[54]) by {
                assert(bytes.subrange(cur, cur + b.len())[53] == b[53]);
                assert(bytes.subrange(cur, cur + b.len())[54] == b[54]);
            }
            assert(rest[53] == b[53] && rest[54] == b[54]);
        },
    }
}

proof fn lemma_kao_row_read(v: Seq<Seq<Option<Seq<u8>>>>, r: nat, j: nat)
    requires
        kao_roundtrip_ok(v),
        r < v.len(),
        j <= 40,
    ensures
        ({
            let slots = kao_slots(v);
            let start: int = 160 + (slots.len() as int) * 4;
            let f0: nat = if kao_has_img(slots, 40 * r) { start as nat } else { 0 };
            let fj: nat = if kao_has_img(slots, 40 * r + j) { start as nat } else { 0 };
            kao_row(kao_file(v), 160 + 160 * r, f0, j) == KaoRow::Read(v[r as int].take(j as int), fj)
        }),
    decreases j,
{
    let slots = kao_slots(v);
    let n = slots.len();
    let start: int = 160 + (n as int) * 4;
    let f0: nat = if kao_has_img(slots, 40 * r) { start as nat } else { 0 };
    lemma_flatten_uniform_index(v, r as int, 0);
    if j == 0 {
        assert(v[r as int].take(0) =~= Seq::<Option<Seq<u8>>>::empty());
    } else {
        lemma_kao_row_read(v, r, (j - 1) as nat);
        let i: nat = (40 * r + j - 1) as nat;
        lemma_flatten_uniform_index(v, r as int, j - 1);
        assert(slots[i as int] == v[r as int][j - 1]);
        assert(160 + 160 * r + 4 * (j - 1) == 160 + 4 * i);
        lemma_kao_slot_read(v, i);
        let fp: nat = if kao_has_img(slots, i) { start as nat } else { 0 };
        assert(v[r as int].take(j as int) =~= v[r as int].take(j - 1).push(v[r as int][j - 1]));
        match slots[i as int] {
            None => {
                if kao_has_img(slots, i + 1) {
                    let w = choose|w: int| 0 <= w < i + 1 && (#[trigger] slots[w]) is Some;
                    assert(0 <= w < i && slots[w] is Some);
                    assert(kao_has_img(slots, i));
                } else {
                    assert(!kao_has_img(slots, i)) by {
                        if kao_has_img(slots, i) {
                            let w = choose|w: int| 0 <= w < i && (#[trigger] slots[w]) is Some;
                            assert(0 <= w < i + 1 && slots[w] is Some);
                        }
                    }
                }
            },
            Some(b) => {
                assert(kao_has_img(slots, i + 1)) by {
                    assert(0 <= i < i + 1 && slots[i as int] is Some);
                }
                if !kao_has_img(slots, i) {
                    lemma_kao_no_img(slots, start, i);
                    let q: int = 160 + 4 * (i as int);
                    let bytes = kao_file(v);
                    lemma_kao_toc(slots, start, n, i);
                    assert(bytes.subrange(q, q + 4) =~= kao_write(slots, start, n).0.subrange(4 * (i as int), 4 * (i as int) + 4));
                    crate::bytes::lemma_le32_at(bytes, q, start as u32);
                }
            },
        }
    }
}

proof fn lemma_kao_scan_read(v: Seq<Seq<Option<Seq<u8>>>>, r: nat)
    requires
        kao_roundtrip_ok(v),
        r <= v.len(),
    ensures
        ({
            let slots = kao_slots(v);
            let start: int = 160 + (slots.len() as int) * 4;
            let f: nat = if kao_has_img(slots, 40 * r) { start as nat } else { 0 };
            kao_scan(kao_file(v), 160 + 160 * r, f) == KaoRead::Species(v.skip(r as int))
        }),
    decreases v.len() - r,
{
    let slots = kao_slots(v);
    let n = slots.len();
    let start: int = 160 + (n as int) * 4;
    lemma_flatten_uniform_len(v, v.len());
    assert(v.take(v.len() as int) =~= v);
    let bytes = kao_file(v);
    let (toc, data) = kao_write(slots, start, n);
    lemma_kao_toc(slots, start, n, 0);
    if r == v.len() {
        assert(40 * r == n);
        assert(v.skip(r as int) =~= Seq::<Seq<Option<Seq<u8>>>>::empty());
    } else {
        let f: nat = if kao_has_img(slots, 40 * r) { start as nat } else { 0 };
        lemma_kao_row_read(v, r, 40);
        assert(v[r as int].take(40) =~= v[r as int]);
        lemma_kao_scan_read(v, r + 1);
        assert(40 * r + 40 == 40 * (r + 1));
        assert(160 + 160 * r + 160 == 160 + 160 * (r + 1));
        assert(bytes.len() >= 160 + 160 * (r + 1));
        assert(seq![v[r as int]] + v.skip(r + 1int) =~= v.skip(r as int));
    }
}

/// Reading back what writing a KAO gives returns the same portraits in the same slots, for
/// 40 slots per species, portraits whose container header gives its own length, at least one
/// portrait, and a file that fits in 2^31 - 1 bytes.
pub proof fn lemma_kao_roundtrip(v: Seq<Seq<Option<Seq<u8>>>>)
    requires
        kao_roundtrip_ok(v),
    ensures
        kao_scan(kao_file(v), 160, 0) == KaoRead::Species(v),
{
    let slots = kao_slots(v);
    assert(!kao_has_img(slots, 0));
    lemma_kao_scan_read(v, 0);
    assert(v.skip(0) =~= v);
}


/// Every slot of every species in order: species index, slot index, and what the slot holds.
pub struct KaoIterator {
    pub items: Vec<(u32, u32, Option<Py<KaoImage>>)>,
    pub pos: usize,
}

/// What an iteration item stands for.
pub open spec fn kao_item_view(t: (u32, u32, Option<Py<KaoImage>>)) -> (u32, u32, Option<Seq<u8>>) {
    (t.0, t.1, slot_view(t.2))
}

/// The items of a KAO's slots, species by species.
pub open spec fn kao_items(v: Seq<Seq<Option<Seq<u8>>>>) -> Seq<(u32, u32, Option<Seq<u8>>)> {
    Seq::new(40 * v.len(), |k: int| ((k / 40) as u32, (k % 40) as u32, v[k / 40][k % 40]))
}

impl KaoIterator {
    /// The next slot, if any remain.
    pub fn next(&mut self) -> (r: Option<(u32, u32, Option<Py<KaoImage>>)>)
        ensures
            final(self).items@ == old(self).items@,
            old(self).pos < old(self).items@.len() ==> (r matches Some(t) && kao_item_view(t) == kao_item_view(
                old(self).items@[old(self).pos as int],
            ) && final(self).pos == old(self).pos + 1),
            old(self).pos >= old(self).items@.len() ==> r is None && final(self).pos == old(self).pos,
    {
        if self.pos < self.items.len() {
            let (a, b, c) = &self.items[self.pos];
            let img: Option<Py<KaoImage>> = match c {
                Some(p) => Some(Py(p.0.clone())),
                None => None,
            };
            self.pos = self.pos + 1;
            Some((*a, *b, img))
        } else {
            None
        }
    }
}

impl Kao {
    /// Iterates over all slots of all species (see `kao_items`).
    pub fn iter(&self, py: Python) -> (r: KaoIterator)
        requires
            kao_wf(self.portraits@),
            40 * self.portraits@.len() <= u32::MAX,
        ensures
            r.pos == 0,
            r.items@.len() == 40 * self.portraits@.len(),
            forall|k: int| 0 <= k < r.items@.len() ==> kao_item_view(#[trigger] r.items@[k]) == kao_items(
                kao_view(self.portraits@),
            )[k],
    {
        let ghost goal = kao_items(kao_view(self.portraits@));
        let mut items: Vec<(u32, u32, Option<Py<KaoImage>>)> = Vec::new();
        let n = self.portraits.len();
        let mut s: usize = 0;
        while s < n
            invariant
                n == self.portraits@.len(),
                kao_wf(self.portraits@),
                40 * n <= u32::MAX,
                goal == kao_items(kao_view(self.portraits@)),
                s <= n,
                items@.len() == 40 * s,
                forall|k: int| 0 <= k < items@.len() ==> kao_item_view(#[trigger] items@[k]) == goal[k],
            decreases n - s,
        {
            let species = &self.portraits[s];
            assert(species@.len() == 40);
            let mut i: usize = 0;
            while i < 40
                invariant
                    n == self.portraits@.len(),
                    kao_wf(self.portraits@),
                    40 * n <= u32::MAX,
                    goal == kao_items(kao_view(self.portraits@)),
                    s < n,
                    species == &self.portraits@[s as int],
                    species@.len() == 40,
                    i <= 40,
                    items@.len() == 40 * s + i,
                    forall|k: int| 0 <= k < items@.len() ==> kao_item_view(#[trigger] items@[k]) == goal[k],
                decreases 40 - i,
            {
                let img: Option<Py<KaoImage>> = match &species[i] {
                    Some(p) => Some(Py(p.0.clone())),
                    None => None,
                };
                let ghost k: int = 40 * s + i;
                assert(k / 40 == s && k % 40 == i) by (nonlinear_arith)
                    requires
                        k == 40 * s + i,
                        i < 40,
                ;
                assert(kao_item_view((s as u32, i as u32, img)) == goal[k]);
                items.push((s as u32, i as u32, img));
                i = i + 1;
            }
            s = s + 1;
        }
        KaoIterator { items, pos: 0 }
    }
}

} // verus!
