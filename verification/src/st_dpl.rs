//! DPL: dungeon palettes, 16 colors each, stored as RGB plus a fixed fourth byte.
use crate::bytes::StBytes;
use crate::bytes::StU8List;
use crate::no_python::Py;
use crate::no_python::Python;
use crate::python::PyResult;
use vstd::prelude::*;

verus! {

pub const DPL_PAL_LEN: usize = 16;

pub const DPL_MAX_PAL: usize = 12;

pub const DPL_PAL_ENTRY_LEN: usize = 4;

pub const DPL_PAL_SIZE: usize = 64;

pub const DPL_FOURTH_COLOR: u8 = 128;

/// Palettes read so far, and the colors of the palette being read, after `k` 4-byte entries.
pub open spec fn dpl_state(data: Seq<u8>, k: nat) -> (Seq<Seq<u8>>, Seq<u8>)
    decreases k,
{
    if k == 0 {
        (Seq::<Seq<u8>>::empty(), Seq::<u8>::empty())
    } else {
        let (p, c) = dpl_state(data, (k - 1) as nat);
        let c2 = c + data.subrange(4 * (k - 1), 4 * (k - 1) + 3);
        if c2.len() == 48 {
            (p.push(c2), Seq::<u8>::empty())
        } else {
            (p, c2)
        }
    }
}

/// The palettes in DPL data: the RGB bytes of the entries, 48 bytes (16 colors) per
/// palette; the last palette may be shorter.
pub open spec fn dpl_palettes(data: Seq<u8>) -> Seq<Seq<u8>> {
    let (p, c) = dpl_state(data, data.len() / 4);
    if c.len() > 0 {
        p.push(c)
    } else {
        p
    }
}

/// The DPL bytes of one palette: after every third byte the fixed fourth byte.
pub open spec fn dpl_expand(c: Seq<u8>) -> Seq<u8>
    decreases c.len(),
{
    if c.len() == 0 {
        Seq::<u8>::empty()
    } else {
        dpl_expand(c.drop_last()) + seq![c.last()] + (if (c.len() - 1) % 3 == 2 {
            seq![DPL_FOURTH_COLOR]
        } else {
            Seq::<u8>::empty()
        })
    }
}

/// The DPL bytes of the first `k` palettes.
pub open spec fn dpl_write(pals: Seq<Seq<u8>>, k: nat) -> Seq<u8>
    decreases k,
{
    if k == 0 {
        Seq::<u8>::empty()
    } else {
        dpl_write(pals, (k - 1) as nat) + dpl_expand(pals[k - 1])
    }
}

/// The views of a list of palettes.
pub open spec fn u8_lists(v: Seq<StU8List>) -> Seq<Seq<u8>> {
    Seq::new(v.len(), |i: int| v[i]@)
}

proof fn lemma_dpl_state_len(data: Seq<u8>, k: nat)
    requires
        4 * k <= data.len(),
    ensures
        dpl_state(data, k).1.len() < 48,
        dpl_state(data, k).1.len() % 3 == 0,
    decreases k,
{
    if k > 0 {
        lemma_dpl_state_len(data, (k - 1) as nat);
    }
}

/// A DPL file: its palettes.
pub struct Dpl {
    pub palettes: Vec<StU8List>,
}

impl Clone for Dpl {
    fn clone(&self) -> (r: Self)
        ensures
            u8_lists(r.palettes@) == u8_lists(self.palettes@),
    {
        let mut out: Vec<StU8List> = Vec::new();
        let mut i: usize = 0;
        while i < self.palettes.len()
            invariant
                i <= self.palettes@.len(),
                out@.len() == i,
                forall|j: int| 0 <= j < i ==> #[trigger] out@[j]@ == self.palettes@[j]@,
            decreases self.palettes@.len() - i,
        {
            out.push(self.palettes[i].clone());
            i = i + 1;
        }
        assert(u8_lists(out@) =~= u8_lists(self.palettes@));
        Dpl { palettes: out }
    }
}

impl Dpl {
    /// Reads DPL data (a whole number of 4-byte entries).
    pub fn new(data: StBytes) -> (r: PyResult<Self>)
        requires
            data@.len() % 4 == 0,
        ensures
            r matches Ok(d) && u8_lists(d.palettes@) == dpl_palettes(data@),
    {
        let d = data.as_slice();
        let n = d.len();
        let mut palettes: Vec<StU8List> = Vec::new();
        let mut current: Vec<u8> = Vec::new();
        let mut k: usize = 0;
        while k < n / 4
            invariant
                n == d@.len(),
                n % 4 == 0,
                k <= n / 4,
                u8_lists(palettes@) == dpl_state(d@, k as nat).0,
                current@ == dpl_state(d@, k as nat).1,
            decreases n / 4 - k,
        {
            let p = 4 * k;
            current.push(d[p]);
            current.push(d[p + 1]);
            current.push(d[p + 2]);
            proof {
                lemma_dpl_state_len(d@, k as nat);
                lemma_dpl_state_len(d@, (k + 1) as nat);
            }
            assert(current@ == dpl_state(d@, k as nat).1 + d@.subrange(4 * k, 4 * k + 3));
            if current.len() == 48 {
                palettes.push(StU8List(current));
                current = Vec::new();
                assert(u8_lists(palettes@) =~= dpl_state(d@, (k + 1) as nat).0);
            }
            k = k + 1;
        }
        if current.len() > 0 {
            palettes.push(StU8List(current));
        }
        proof {
            assert(u8_lists(palettes@) =~= dpl_palettes(d@));
        }
        Ok(Dpl { palettes })
    }
}

/// Serializer of DPL files.
pub struct DplWriter;

impl DplWriter {
    pub fn new() -> (r: Self) {
        DplWriter
    }

    /// The DPL bytes of the model's palettes.
    pub fn write(&self, model: Py<Dpl>, py: Python) -> (r: PyResult<StBytes>)
        ensures
            r matches Ok(b) && b@ == dpl_write(u8_lists(model.0.palettes@), model.0.palettes@.len()),
    {
        let pals = &model.0.palettes;
        let ghost ps = u8_lists(pals@);
        let mut data: Vec<u8> = Vec::new();
        let mut p: usize = 0;
        while p < pals.len()
            invariant
                p <= pals@.len(),
                ps == u8_lists(pals@),
                data@ == dpl_write(ps, p as nat),
            decreases pals@.len() - p,
        {
            let palette = pals[p].0.as_slice();
            let ghost before = data@;
            let mut i: usize = 0;
            while i < palette.len()
                invariant
                    i <= palette@.len(),
                    data@ == before + dpl_expand(palette@.take(i as int)),
                decreases palette@.len() - i,
            {
                proof {
                    assert(palette@.take(i as int + 1).drop_last() == palette@.take(i as int));
                }
                data.push(palette[i]);
                if i % 3 == 2 {
                    data.push(DPL_FOURTH_COLOR);
                }
                i = i + 1;
            }
            proof {
                assert(palette@.take(palette@.len() as int) == palette@);
                assert(ps[p as int] == palette@);
            }
            p = p + 1;
        }
        Ok(StBytes(data))
    }
}

/// Something whose palettes can be replaced.
pub trait DplProvider {
    spec fn palettes_view(&self) -> Seq<Seq<u8>>;

    fn set_palettes(&mut self, value: Vec<StU8List>, py: Python) -> (r: PyResult<()>)
        ensures
            r is Ok,
            final(self).palettes_view() == u8_lists(value@),
    ;
}

impl DplProvider for Py<Dpl> {
    open spec fn palettes_view(&self) -> Seq<Seq<u8>> {
        u8_lists(self.0.palettes@)
    }

    fn set_palettes(&mut self, value: Vec<StU8List>, py: Python) -> (r: PyResult<()>) {
        self.0.palettes = value;
        Ok(())
    }
}

/// A DPL model handed in by a caller.
pub enum InputDpl {
    Rs(Py<Dpl>),
}

impl DplProvider for InputDpl {
    open spec fn palettes_view(&self) -> Seq<Seq<u8>> {
        match self {
            InputDpl::Rs(p) => u8_lists(p.0.palettes@),
        }
    }

    fn set_palettes(&mut self, value: Vec<StU8List>, py: Python) -> (r: PyResult<()>) {
        match self {
            InputDpl::Rs(p) => p.set_palettes(value, py),
        }
    }
}


proof fn lemma_dpl_expand(c: Seq<u8>)
    ensures
        dpl_expand(c).len() == c.len() + c.len() / 3,
        forall|j: int| 0 <= j < c.len() ==> #[trigger] dpl_expand(c)[j + j / 3] == c[j],
        forall|q: int| 0 <= q < c.len() / 3 ==> #[trigger] dpl_expand(c)[4 * q + 3] == DPL_FOURTH_COLOR,
    decreases c.len(),
{
    if c.len() > 0 {
        let c1 = c.drop_last();
        lemma_dpl_expand(c1);
        let e1 = dpl_expand(c1);
        let l = c.len();
        assert forall|j: int| 0 <= j < l implies #[trigger] dpl_expand(c)[j + j / 3] == c[j] by {
            if j < l - 1 {
                assert(dpl_expand(c1)[j + j / 3] == c1[j]);
                assert(j + j / 3 < e1.len()) by (nonlinear_arith)
                    requires
                        j < l - 1,
                        e1.len() == (l - 1) + (l - 1) / 3,
                        0 <= j,
                ;
            }
        }
        assert forall|q: int| 0 <= q < l / 3 implies #[trigger] dpl_expand(c)[4 * q + 3] == DPL_FOURTH_COLOR by {
            if q < (l - 1) / 3 {
                assert(dpl_expand(c1)[4 * q + 3] == DPL_FOURTH_COLOR);
                assert(4 * q + 3 < e1.len());
            } else {
                assert(l % 3 == 0 && q == l / 3 - 1);
                assert(4 * q + 3 == e1.len() + 1);
            }
        }
    }
}

proof fn lemma_dpl_write_prefix(pals: Seq<Seq<u8>>, k: nat, m: nat)
    requires
        k <= m <= pals.len(),
    ensures
        dpl_write(pals, m).subrange(0, dpl_write(pals, k).len() as int) == dpl_write(pals, k),
        dpl_write(pals, k).len() <= dpl_write(pals, m).len(),
    decreases m - k,
{
    if k == m {
        assert(dpl_write(pals, m).subrange(0, dpl_write(pals, k).len() as int) =~= dpl_write(pals, k));
    } else {
        lemma_dpl_write_prefix(pals, k, (m - 1) as nat);
        let w = dpl_write(pals, (m - 1) as nat);
        assert(dpl_write(pals, m).subrange(0, dpl_write(pals, k).len() as int) =~= w.subrange(
            0,
            dpl_write(pals, k).len() as int,
        ));
    }
}

/// The palettes a DPL can hold: 16 colors each, but the last, which has between 1 and 16.
pub open spec fn dpl_pals_ok(pals: Seq<Seq<u8>>) -> bool {
    &&& forall|i: int| 0 <= i < pals.len() - 1 ==> (#[trigger] pals[i]).len() == 48
    &&& pals.len() > 0 ==> 0 < pals.last().len() <= 48 && pals.last().len() % 3 == 0
}

proof fn lemma_dpl_write_len(pals: Seq<Seq<u8>>, k: nat)
    requires
        dpl_pals_ok(pals),
        k < pals.len(),
    ensures
        dpl_write(pals, k).len() == 64 * k,
    decreases k,
{
    if k > 0 {
        lemma_dpl_write_len(pals, (k - 1) as nat);
        lemma_dpl_expand(pals[k - 1]);
    }
}

proof fn lemma_dpl_state_run(pals: Seq<Seq<u8>>, k: nat, r: nat)
    requires
        dpl_pals_ok(pals),
        k < pals.len(),
        r < 16,
        3 * r <= pals[k as int].len(),
    ensures
        dpl_state(dpl_write(pals, pals.len()), 16 * k + r) == (pals.take(k as int), pals[k as int].take(3 * (r as int))),
    decreases k, r,
{
    let n = pals.len();
    let w = dpl_write(pals, n);
    if r == 0 {
        if k == 0 {
            assert(pals.take(0) =~= Seq::<Seq<u8>>::empty());
            assert(pals[0].take(0) =~= Seq::<u8>::empty());
        } else {
            assert(pals[k - 1].len() == 48);
            lemma_dpl_state_run(pals, (k - 1) as nat, 15);
            lemma_dpl_step(pals, (k - 1) as nat, 15);
            assert(16 * (k - 1) + 15 + 1 == 16 * k);
            assert(pals[k - 1].take(48) =~= pals[k - 1]);
            assert(pals.take(k - 1).push(pals[k - 1]) =~= pals.take(k as int));
            assert(pals[k as int].take(0) =~= Seq::<u8>::empty());
        }
    } else {
        lemma_dpl_state_run(pals, k, (r - 1) as nat);
        lemma_dpl_step(pals, k, (r - 1) as nat);
    }
}

/// Entry `16 * k + r` of the written data holds colour `r` of palette `k`.
proof fn lemma_dpl_step(pals: Seq<Seq<u8>>, k: nat, r: nat)
    requires
        dpl_pals_ok(pals),
        k < pals.len(),
        r < 16,
        3 * (r as int) + 3 <= pals[k as int].len(),
    ensures
        dpl_write(pals, pals.len()).subrange(4 * (16 * (k as int) + (r as int)), 4 * (16 * (k as int) + (r as int)) + 3)
            == pals[k as int].subrange(3 * (r as int), 3 * (r as int) + 3),
        4 * (16 * (k as int) + (r as int)) + 4 <= dpl_write(pals, pals.len()).len(),
        pals[k as int].take(3 * (r as int)) + pals[k as int].subrange(3 * (r as int), 3 * (r as int) + 3) == pals[k as int].take(3 * (r as int) + 3),
{
    let n = pals.len();
    let w = dpl_write(pals, n);
    let c = pals[k as int];
    lemma_dpl_write_len(pals, k);
    lemma_dpl_write_prefix(pals, (k + 1) as nat, n);
    lemma_dpl_expand(c);
    let e = dpl_expand(c);
    let wk1 = dpl_write(pals, (k + 1) as nat);
    assert(wk1 == dpl_write(pals, k) + e);
    let base: int = 64 * (k as int);
    let ws = w.subrange(4 * (16 * (k as int) + (r as int)), 4 * (16 * (k as int) + (r as int)) + 3);
    let cs = c.subrange(3 * (r as int), 3 * (r as int) + 3);
    assert(4 * (16 * (k as int) + (r as int)) + 3 <= w.len()) by {
        assert(wk1.len() == base + e.len());
        assert(e.len() >= 4 * (r as int) + 4) by (nonlinear_arith)
            requires
                e.len() == c.len() + c.len() / 3,
                3 * (r as int) + 3 <= c.len(),
        ;
    }
    assert forall|t: int| 0 <= t < 3 implies #[trigger] ws[t] == cs[t] by {
        let j = 3 * (r as int) + t;
        assert(j / 3 == r) by (nonlinear_arith)
            requires
                j == 3 * (r as int) + t,
                0 <= t < 3,
        ;
        assert(e[j + j / 3] == c[j]);
        assert(w[base + j + j / 3] == wk1[base + j + j / 3]);
        assert(ws[t] == w[4 * (16 * (k as int) + (r as int)) + t]);
        assert(4 * (16 * (k as int) + (r as int)) + t == base + j + j / 3);
    }
    assert(w.subrange(4 * (16 * (k as int) + (r as int)), 4 * (16 * (k as int) + (r as int)) + 3) =~= c.subrange(3 * (r as int), 3 * (r as int) + 3));
    assert(c.take(3 * (r as int)) + c.subrange(3 * (r as int), 3 * (r as int) + 3) =~= c.take(3 * (r as int) + 3));
}

/// Reading back what writing palettes gives returns the palettes, for 16 colors per palette
/// (the last may have fewer).
pub proof fn lemma_dpl_roundtrip(pals: Seq<Seq<u8>>)
    requires
        dpl_pals_ok(pals),
    ensures
        dpl_palettes(dpl_write(pals, pals.len())) == pals,
{
    let n = pals.len();
    let w = dpl_write(pals, n);
    if n == 0 {
        assert(w.len() == 0);
        assert(pals =~= Seq::<Seq<u8>>::empty());
    } else {
        let last = pals[n - 1];
        let l = last.len();
        lemma_dpl_write_len(pals, (n - 1) as nat);
        lemma_dpl_expand(last);
        assert(w.len() == 64 * (n - 1) + l + l / 3);
        assert(w.len() / 4 == 16 * (n - 1) + l / 3);
        if l == 48 {
            lemma_dpl_state_run(pals, (n - 1) as nat, 15);
            lemma_dpl_step(pals, (n - 1) as nat, 15);
            assert(w.len() / 4 == 16 * (n - 1) + 15 + 1);
            assert(last.take(48) =~= last);
            assert(pals.take(n - 1).push(last) =~= pals);
        } else {
            lemma_dpl_state_run(pals, (n - 1) as nat, l / 3);
            assert(last.take((3 * (l / 3)) as int) =~= last);
            assert(pals.take(n - 1).push(last) =~= pals);
        }
    }
}

} // verus!
