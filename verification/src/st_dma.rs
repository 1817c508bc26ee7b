//! DMA: which chunks a dungeon tile uses, by terrain and by which neighbors share it.
use crate::bytes::StBytes;
use crate::no_python::Py;
use crate::no_python::Python;
use crate::python::PyResult;
use vstd::prelude::*;

verus! {

/// The terrain of a dungeon tile.
#[derive(PartialEq, Eq, Structural, Clone, Copy, Debug)]
pub enum DmaType {
    Wall,
    Water,
    Floor,
}

/// The kinds of extra chunk mapping.
#[derive(PartialEq, Eq, Structural, Clone, Copy, Debug)]
pub enum DmaExtraType {
    Floor1,
    WallOrVoid,
    Floor2,
}

pub const DMA_NEIGHBOR_SOUTH: u8 = 0x01;

pub const DMA_NEIGHBOR_SOUTH_EAST: u8 = 0x02;

pub const DMA_NEIGHBOR_EAST: u8 = 0x04;

pub const DMA_NEIGHBOR_NORTH_EAST: u8 = 0x08;

pub const DMA_NEIGHBOR_NORTH: u8 = 0x10;

pub const DMA_NEIGHBOR_NORTH_WEST: u8 = 0x20;

pub const DMA_NEIGHBOR_WEST: u8 = 0x40;

pub const DMA_NEIGHBOR_SOUTH_WEST: u8 = 0x80;

/// Where the mappings of a terrain start (in entries of 3 bytes).
pub open spec fn dma_high(t: DmaType) -> int {
    match t {
        DmaType::Wall => 0,
        DmaType::Water => 0x100,
        DmaType::Floor => 0x200,
    }
}

pub open spec fn dma_extra_idx(e: DmaExtraType) -> int {
    match e {
        DmaExtraType::Floor1 => 0,
        DmaExtraType::WallOrVoid => 1,
        DmaExtraType::Floor2 => 2,
    }
}

/// The extra mappings of one kind among the bytes from 0x900 up to `0x900 + k`: every third
/// byte, starting at the kind's index.
pub open spec fn dma_extra(m: Seq<u8>, e: int, k: nat) -> Seq<u8>
    decreases k,
{
    if k == 0 {
        Seq::<u8>::empty()
    } else {
        let i = 0x900 + k - 1;
        dma_extra(m, e, (k - 1) as nat) + (if i % 3 == e {
            seq![m[i]]
        } else {
            Seq::<u8>::empty()
        })
    }
}

fn high_two(t: DmaType) -> (r: usize)
    ensures
        r == dma_high(t),
{
    match t {
        DmaType::Wall => 0,
        DmaType::Water => 0x100,
        DmaType::Floor => 0x200,
    }
}

fn extra_idx(e: DmaExtraType) -> (r: usize)
    ensures
        r == dma_extra_idx(e),
{
    match e {
        DmaExtraType::Floor1 => 0,
        DmaExtraType::WallOrVoid => 1,
        DmaExtraType::Floor2 => 2,
    }
}

/// A DMA file: 3 chunk variations per (terrain, neighbor mask), then extra mappings.
pub struct Dma {
    pub chunk_mappings: Vec<u8>,
}

impl Clone for Dma {
    fn clone(&self) -> (r: Self)
        ensures
            r.chunk_mappings@ == self.chunk_mappings@,
    {
        Dma { chunk_mappings: self.chunk_mappings.clone() }
    }
}

impl Dma {
    pub fn new(data: StBytes) -> (r: PyResult<Self>)
        ensures
            r matches Ok(d) && d.chunk_mappings@ == data@,
    {
        Ok(Dma { chunk_mappings: data.0 })
    }

    /// The 3 chunk variations for the terrain and the mask of neighbors of the same terrain.
    pub fn get(&self, get_type: DmaType, neighbors_same: usize) -> (r: Vec<u8>)
        requires
            (dma_high(get_type) + neighbors_same) * 3 + 3 <= self.chunk_mappings@.len(),
        ensures
            r@ == self.chunk_mappings@.subrange(
                (dma_high(get_type) + neighbors_same) * 3,
                (dma_high(get_type) + neighbors_same) * 3 + 3,
            ),
    {
        let n = self.chunk_mappings.len();
        let idx = high_two(get_type) + neighbors_same;
        crate::bytes::copy_range(self.chunk_mappings.as_slice(), idx * 3, idx * 3 + 3)
    }

    /// All extra mappings of one kind.
    pub fn get_extra(&self, extra_type: DmaExtraType) -> (r: Vec<u8>)
        ensures
            r@ == (if self.chunk_mappings@.len() > 0x900 {
                dma_extra(self.chunk_mappings@, dma_extra_idx(extra_type), (self.chunk_mappings@.len() - 0x900) as nat)
            } else {
                Seq::<u8>::empty()
            }),
    {
        let e = extra_idx(extra_type);
        let m = self.chunk_mappings.as_slice();
        let mut out: Vec<u8> = Vec::new();
        let mut i: usize = 0x900;
        if m.len() <= 0x900 {
            return out;
        }
        while i < m.len()
            invariant
                0x900 <= i <= m@.len(),
                out@ == dma_extra(m@, e as int, (i - 0x900) as nat),
            decreases m@.len() - i,
        {
            if i % 3 == e {
                out.push(m[i]);
            }
            i = i + 1;
        }
        out
    }

    /// Sets one chunk variation.
    pub fn set(&mut self, get_type: DmaType, neighbors_same: usize, variation_index: usize, value: u8)
        requires
            (dma_high(get_type) + neighbors_same) * 3 + variation_index < old(self).chunk_mappings@.len(),
        ensures
            final(self).chunk_mappings@ == old(self).chunk_mappings@.update(
                (dma_high(get_type) + neighbors_same) * 3 + variation_index,
                value,
            ),
    {
        let n = self.chunk_mappings.len();
        let idx = high_two(get_type) + neighbors_same;
        self.chunk_mappings.set(idx * 3 + variation_index, value);
    }

    /// Sets the `index`-th extra mapping of one kind.
    pub fn set_extra(&mut self, extra_type: DmaExtraType, index: usize, value: u8)
        requires
            0x900 + dma_extra_idx(extra_type) + 3 * index < old(self).chunk_mappings@.len(),
        ensures
            final(self).chunk_mappings@ == old(self).chunk_mappings@.update(
                0x900 + dma_extra_idx(extra_type) + 3 * index,
                value,
            ),
    {
        let n = self.chunk_mappings.len();
        let index = (0x300 * 3) + extra_idx(extra_type) + (3 * index);
        self.chunk_mappings.set(index, value);
    }
}

/// Serializer of DMA files.
pub struct DmaWriter;

impl DmaWriter {
    pub fn new() -> (r: Self) {
        DmaWriter
    }

    /// The mappings as they are.
    pub fn write(&self, model: Py<Dma>, py: Python) -> (r: PyResult<StBytes>)
        ensures
            r matches Ok(b) && b@ == model.0.chunk_mappings@,
    {
        Ok(StBytes(model.0.chunk_mappings))
    }
}

proof fn lemma_dma_extra_len(m: Seq<u8>, e: int, k: nat)
    requires
        0 <= e < 3,
    ensures
        dma_extra(m, e, k).len() == (k + 2 - e) / 3,
    decreases k,
{
    if k > 0 {
        lemma_dma_extra_len(m, e, (k - 1) as nat);
        assert((0x900 + k - 1) % 3 == (k - 1) % 3);
    }
}

proof fn lemma_dma_extra_index(m: Seq<u8>, e: int, k: nat, j: int)
    requires
        0 <= e < 3,
        0 <= j,
        e + 3 * j < k,
    ensures
        dma_extra(m, e, k)[j] == m[0x900 + e + 3 * j],
    decreases k,
{
    lemma_dma_extra_len(m, e, (k - 1) as nat);
    if e + 3 * j < k - 1 {
        lemma_dma_extra_len(m, e, (k - 1) as nat);
        lemma_dma_extra_index(m, e, (k - 1) as nat, j);
    } else {
        assert((0x900 + k - 1) % 3 == e);
    }
}

proof fn lemma_dma_extra_other(m: Seq<u8>, e: int, k: nat, p: int, v: u8)
    requires
        0 <= e < 3,
        p % 3 != e,
        0 <= p < m.len(),
        0x900 + k <= m.len(),
    ensures
        dma_extra(m.update(p, v), e, k) == dma_extra(m, e, k),
    decreases k,
{
    if k > 0 {
        lemma_dma_extra_other(m, e, (k - 1) as nat, p, v);
        let i = 0x900 + k - 1;
        if i % 3 == e {
            assert(i != p);
            assert(m.update(p, v)[i] == m[i]);
            assert(seq![m.update(p, v)[i]] =~= seq![m[i]]);
        }
    }
}

/// Setting an extra mapping of one kind and reading that kind back gives the value at its
/// index, and leaves the extra mappings of the other two kinds as they were.
pub proof fn lemma_dma_extra_set_get(m: Seq<u8>, e: DmaExtraType, index: int, value: u8)
    requires
        0 <= index,
        0x900 + dma_extra_idx(e) + 3 * index < m.len(),
    ensures
        ({
            let m2 = m.update(0x900 + dma_extra_idx(e) + 3 * index, value);
            let k = (m.len() - 0x900) as nat;
            &&& dma_extra(m2, dma_extra_idx(e), k).len() == dma_extra(m, dma_extra_idx(e), k).len()
            &&& dma_extra(m2, dma_extra_idx(e), k)[index] == value
            &&& forall|e2: DmaExtraType| dma_extra_idx(e2) != dma_extra_idx(e) ==> #[trigger] dma_extra(m2, dma_extra_idx(e2), k)
                == dma_extra(m, dma_extra_idx(e2), k)
        }),
{
    let x = dma_extra_idx(e);
    let p = 0x900 + x + 3 * index;
    let m2 = m.update(p, value);
    let k = (m.len() - 0x900) as nat;
    lemma_dma_extra_len(m, x, k);
    lemma_dma_extra_len(m2, x, k);
    lemma_dma_extra_index(m2, x, k, index);
    assert forall|e2: DmaExtraType| dma_extra_idx(e2) != dma_extra_idx(e) implies #[trigger] dma_extra(m2, dma_extra_idx(e2), k)
        == dma_extra(m, dma_extra_idx(e2), k) by {
        assert(p % 3 == x);
        lemma_dma_extra_other(m, dma_extra_idx(e2), k, p, value);
    }
}

} // verus!
