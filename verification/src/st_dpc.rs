//! DPC: the chunks of a dungeon tileset, each 3x3 tile map entries pointing into the DPCI tiles.
use crate::bytes::le16;
use crate::bytes::u16_le_bytes;
use crate::bytes::StBytes;
use crate::image::tiled::dedup;
use crate::image::tiled::nt_ok;
use crate::image::tiled::nt_run;
use crate::image::tiled::streams;
use crate::image::tiled::t2n_ok;
use crate::image::tiled::write_chunks;
use crate::image::tiled::TiledImage;
use crate::image::window;
use crate::image::IndexedImage;
use crate::image::PixelGenerator;
use crate::image::Raster;
use crate::python::ErrorKind;
use crate::python::PyErr;
use crate::st_dpci::bytes_views;
use crate::st_dpci::concat_all;
use crate::st_dpci::concat_vecs;
use crate::st_dpci::tile_pixels;
use crate::st_dpci::tile_rows;
use crate::st_dpci::vec_views;
use crate::st_dpci::DpciProvider;
use crate::st_dpci::InputDpci;
use crate::image::tilemap_entry::lemma_tilemap_int_roundtrip;
use crate::image::tilemap_entry::tilemap_entry_from_int;
use crate::image::tilemap_entry::tilemap_entry_int;
use crate::image::tilemap_entry::InputTilemapEntry;
use crate::image::tilemap_entry::TilemapEntry;
use crate::no_python::Py;
use crate::no_python::Python;
use crate::python::exceptions::PyValueError;
use crate::python::PyResult;
use vstd::prelude::*;

verus! {

pub const DPC_TILING_DIM: usize = 3;

pub const DPC_TILING_DIM_SQUARED: usize = 9;

/// Chunks a dungeon background or tile map can have at most.
pub const DPC_MAX_CHUNKS: usize = 400;

/// The entries behind a list of handles.
pub open spec fn entry_views(c: Seq<Py<TilemapEntry>>) -> Seq<TilemapEntry> {
    Seq::new(c.len(), |j: int| c[j].0)
}

/// The entries of every chunk.
pub open spec fn chunk_views(cs: Seq<Vec<Py<TilemapEntry>>>) -> Seq<Seq<TilemapEntry>> {
    Seq::new(cs.len(), |i: int| entry_views(cs[i]@))
}

/// The entries that DPC data holds: one per 16-bit little-endian value.
pub open spec fn dpc_entries(data: Seq<u8>) -> Seq<TilemapEntry> {
    Seq::new(data.len() / 2, |k: int| tilemap_entry_from_int(le16(data, 2 * k) as usize))
}

/// Entries grouped into chunks of nine; the last chunk may be shorter.
pub open spec fn group9(es: Seq<TilemapEntry>) -> Seq<Seq<TilemapEntry>> {
    Seq::new(
        ((es.len() + 8) / 9) as nat,
        |c: int| if 9 * c + 9 <= es.len() { es.subrange(9 * c, 9 * c + 9) } else { es.subrange(9 * c, es.len() as int) },
    )
}

/// The chunks' entries one after the other.
pub open spec fn flat_entries(cs: Seq<Seq<TilemapEntry>>) -> Seq<TilemapEntry>
    decreases cs.len(),
{
    if cs.len() == 0 {
        Seq::<TilemapEntry>::empty()
    } else {
        flat_entries(cs.drop_last()) + cs.last()
    }
}

/// The DPC bytes of entries: each packed into 16 bits, little-endian.
pub open spec fn dpc_bytes(es: Seq<TilemapEntry>) -> Seq<u8>
    decreases es.len(),
{
    if es.len() == 0 {
        Seq::<u8>::empty()
    } else {
        dpc_bytes(es.drop_last()) + u16_le_bytes(tilemap_entry_int(es.last()) as u16)
    }
}

proof fn lemma_group9_prefix(es: Seq<TilemapEntry>, c: nat)
    requires
        c <= (es.len() + 8) / 9,
    ensures
        flat_entries(group9(es).take(c as int)) == es.take(if 9 * c <= es.len() { 9 * c as int } else { es.len() as int }),
    decreases c,
{
    let g = group9(es);
    if c == 0 {
        assert(g.take(0) == Seq::<Seq<TilemapEntry>>::empty());
        assert(es.take(0) == Seq::<TilemapEntry>::empty());
    } else {
        lemma_group9_prefix(es, (c - 1) as nat);
        assert(g.take(c as int).drop_last() == g.take(c - 1));
        let end = if 9 * c <= es.len() { 9 * c as int } else { es.len() as int };
        assert(g.take(c as int).last() == es.subrange(9 * (c - 1), end));
        assert(es.take(9 * (c - 1)) + es.subrange(9 * (c - 1), end) == es.take(end));
    }
}

/// Grouping entries into chunks and putting the chunks one after the other gives the entries back.
pub proof fn lemma_group9_flat(es: Seq<TilemapEntry>)
    ensures
        flat_entries(group9(es)) == es,
{
    let n = ((es.len() + 8) / 9) as nat;
    lemma_group9_prefix(es, n);
    assert(group9(es).take(n as int) == group9(es));
    assert(es.take(es.len() as int) == es);
}

/// Packing the entries read from DPC data gives the data back, for data of whole entries.
pub proof fn lemma_dpc_bytes_roundtrip(data: Seq<u8>)
    requires
        data.len() % 2 == 0,
    ensures
        dpc_bytes(dpc_entries(data)) == data,
    decreases data.len(),
{
    if data.len() > 0 {
        let n = data.len() as int;
        let prefix = data.take(n - 2);
        lemma_dpc_bytes_roundtrip(prefix);
        let es = dpc_entries(data);
        assert(es.drop_last() =~= dpc_entries(prefix));
        let a = data[n - 2];
        let b = data[n - 1];
        let v = le16(data, n - 2);
        assert(v == a + b * 256);
        assert(0 <= v < 65536);
        lemma_tilemap_int_roundtrip(v as usize);
        let vu = v as usize;
        assert(vu & 0xFFFF == vu) by (bit_vector)
            requires vu < 65536;
        let x = tilemap_entry_int(es.last()) as u16;
        assert(x == v);
        assert(u16_le_bytes(x) == seq![a, b]);
        assert(data =~= prefix + seq![a, b]);
    }
}

/// Reading DPC data and writing the chunks again gives the data back, for data of whole entries.
pub proof fn lemma_dpc_roundtrip(data: Seq<u8>)
    requires
        data.len() % 2 == 0,
    ensures
        dpc_bytes(flat_entries(group9(dpc_entries(data)))) == data,
{
    lemma_group9_flat(dpc_entries(data));
    lemma_dpc_bytes_roundtrip(data);
}

/// The entry of an empty tile map slot.
pub open spec fn null_entry() -> TilemapEntry {
    TilemapEntry(0, false, false, 0)
}

/// A chunk of nine empty entries.
pub open spec fn null_chunk() -> Seq<TilemapEntry> {
    Seq::new(9, |j: int| null_entry())
}

/// The chunks filled up with empty chunks to 400 chunks.
pub open spec fn padded(cs: Seq<Seq<TilemapEntry>>) -> Seq<Seq<TilemapEntry>> {
    cs + Seq::new((400 - cs.len()) as nat, |i: int| null_chunk())
}

/// The entries of caller-given chunks.
pub open spec fn input_views(v: Seq<Vec<InputTilemapEntry>>) -> Seq<Seq<TilemapEntry>> {
    Seq::new(v.len(), |i: int| Seq::new(v[i]@.len(), |j: int| v[i]@[j].0))
}

/// An entry with its tile index raised by one where `correct`.
pub open spec fn corrected(e: TilemapEntry, correct: bool) -> TilemapEntry {
    if correct {
        TilemapEntry((e.0 + 1) as usize, e.1, e.2, e.3)
    } else {
        e
    }
}

/// The chunks that `import_tile_mappings` stores before filling up: the given chunks, tile
/// indices raised by one where `correct`, behind an empty chunk unless `contains_null`.
pub open spec fn imported_chunks(v: Seq<Seq<TilemapEntry>>, contains_null: bool, correct: bool) -> Seq<Seq<TilemapEntry>> {
    let m = Seq::new(v.len(), |i: int| Seq::new(v[i].len(), |j: int| corrected(v[i][j], correct)));
    if contains_null {
        m
    } else {
        seq![null_chunk()] + m
    }
}

pub proof fn lemma_entry_views_push(c: Seq<Py<TilemapEntry>>, x: Py<TilemapEntry>)
    ensures
        entry_views(c.push(x)) == entry_views(c).push(x.0),
{
    assert(entry_views(c.push(x)) =~= entry_views(c).push(x.0));
}

pub proof fn lemma_chunk_views_push(cs: Seq<Vec<Py<TilemapEntry>>>, x: Vec<Py<TilemapEntry>>)
    ensures
        chunk_views(cs.push(x)) == chunk_views(cs).push(entry_views(x@)),
{
    assert(chunk_views(cs.push(x)) =~= chunk_views(cs).push(entry_views(x@)));
}

/// A chunk of nine empty entries.
pub fn new_null_chunk() -> (r: Vec<Py<TilemapEntry>>)
    ensures
        entry_views(r@) == null_chunk(),
{
    let mut c: Vec<Py<TilemapEntry>> = Vec::new();
    let mut j: usize = 0;
    while j < 9
        invariant
            j <= 9,
            entry_views(c@) == Seq::new(j as nat, |k: int| null_entry()),
        decreases 9 - j,
    {
        let ghost c0 = c@;
        c.push(Py(TilemapEntry(0, false, false, 0)));
        proof {
            lemma_entry_views_push(c0, Py(TilemapEntry(0, false, false, 0)));
            assert(Seq::new(j as nat + 1, |k: int| null_entry()) =~= Seq::new(j as nat, |k: int| null_entry()).push(null_entry()));
        }
        j = j + 1;
    }
    c
}

/// A DPC file: its chunks.
pub struct Dpc {
    pub chunks: Vec<Vec<Py<TilemapEntry>>>,
}

impl Dpc {
    /// Reads the entries and groups them into chunks of nine.
    pub fn new(data: StBytes, py: Python) -> (r: PyResult<Self>)
        ensures
            r matches Ok(d) && chunk_views(d.chunks@) == group9(dpc_entries(data@)),
    {
        let d = data.as_slice();
        let n = d.len();
        let m: usize = n / 2;
        let mut es: Vec<TilemapEntry> = Vec::new();
        let mut k: usize = 0;
        while k < m
            invariant
                n == d@.len(),
                m == n / 2,
                k <= m,
                es@ == dpc_entries(d@).take(k as int),
            decreases m - k,
        {
            let v = crate::bytes::read_u16_le(d, 2 * k);
            es.push(TilemapEntry::from_int(v as usize));
            k = k + 1;
        }
        assert(dpc_entries(d@).take(m as int) == dpc_entries(d@));
        let chunks = group_chunks(es.as_slice());
        Ok(Dpc { chunks })
    }
}

impl Dpc {
    /// Replaces the chunks.
    pub fn set_chunks(&mut self, value: Vec<Vec<InputTilemapEntry>>) -> (r: PyResult<()>)
        ensures
            r is Ok,
            chunk_views(final(self).chunks@) == input_views(value@),
    {
        let mut out: Vec<Vec<Py<TilemapEntry>>> = Vec::new();
        let mut i: usize = 0;
        while i < value.len()
            invariant
                i <= value@.len(),
                chunk_views(out@) == input_views(value@).take(i as int),
            decreases value@.len() - i,
        {
            let src = &value[i];
            let mut c: Vec<Py<TilemapEntry>> = Vec::new();
            let mut j: usize = 0;
            while j < src.len()
                invariant
                    j <= src@.len(),
                    entry_views(c@) == Seq::new(j as nat, |k: int| src@[k].0),
                decreases src@.len() - j,
            {
                let ghost c0 = c@;
                c.push(Py(src[j].0));
                proof {
                    lemma_entry_views_push(c0, Py(src@[j as int].0));
                    assert(Seq::new(j as nat + 1, |k: int| src@[k].0) =~= Seq::new(j as nat, |k: int| src@[k].0).push(src@[j as int].0));
                }
                j = j + 1;
            }
            let ghost o0 = out@;
            out.push(c);
            proof {
                lemma_chunk_views_push(o0, c);
                assert(entry_views(c@) =~= input_views(value@)[i as int]);
                assert(input_views(value@).take(i as int + 1) =~= input_views(value@).take(i as int).push(input_views(value@)[i as int]));
            }
            i = i + 1;
        }
        assert(input_views(value@).take(value@.len() as int) == input_views(value@));
        self.chunks = out;
        Ok(())
    }

    /// Fills the chunks up with empty chunks to 400; fails where there are more than 400.
    fn re_fill_chunks(&mut self, py: Python) -> (r: PyResult<()>)
        ensures
            old(self).chunks@.len() > 400 ==> (r matches Err(e) && e.kind == crate::python::ErrorKind::ValueError
                && final(self).chunks@ == old(self).chunks@),
            old(self).chunks@.len() <= 400 ==> r is Ok && chunk_views(final(self).chunks@) == padded(chunk_views(old(self).chunks@)),
    {
        if self.chunks.len() > DPC_MAX_CHUNKS {
            Err(PyValueError::new_err("A dungeon background or tilemap can not have more than 400 chunks."))
        } else {
            let ghost c0 = chunk_views(self.chunks@);
            let missing: usize = DPC_MAX_CHUNKS - self.chunks.len();
            let mut k: usize = 0;
            while k < missing
                invariant
                    k <= missing,
                    c0.len() + missing == 400,
                    chunk_views(self.chunks@) == c0 + Seq::new(k as nat, |i: int| null_chunk()),
                decreases missing - k,
            {
                let c = new_null_chunk();
                let ghost s0 = self.chunks@;
                self.chunks.push(c);
                proof {
                    lemma_chunk_views_push(s0, c);
                    assert(c0 + Seq::new(k as nat + 1, |i: int| null_chunk()) =~= (c0 + Seq::new(k as nat, |i: int| null_chunk())).push(null_chunk()));
                }
                k = k + 1;
            }
            Ok(())
        }
    }

    /// Replaces the chunks (see `imported_chunks`) and fills them up to 400 chunks; fails,
    /// keeping the new chunks, where there are more than 400.
    pub fn import_tile_mappings(
        &mut self,
        tile_mappings: Vec<Vec<InputTilemapEntry>>,
        contains_null_chunk: bool,
        correct_tile_ids: bool,
        py: Python,
    ) -> (r: PyResult<()>)
        requires
            correct_tile_ids ==> forall|i: int, j: int|
                0 <= i < tile_mappings@.len() && 0 <= j < tile_mappings@[i]@.len() ==> #[trigger] tile_mappings@[i]@[j].0.0 < usize::MAX,
        ensures
            ({
                let full = imported_chunks(input_views(tile_mappings@), contains_null_chunk, correct_tile_ids);
                &&& (full.len() > 400 <==> r is Err)
                &&& (r is Ok ==> chunk_views(final(self).chunks@) == padded(full))
                &&& (r is Err ==> chunk_views(final(self).chunks@) == full)
            }),
    {
        let ghost v = input_views(tile_mappings@);
        let ghost m = Seq::new(v.len(), |i: int| Seq::new(v[i].len(), |j: int| corrected(v[i][j], correct_tile_ids)));
        let mut out: Vec<Vec<Py<TilemapEntry>>> = Vec::new();
        if !contains_null_chunk {
            out.push(new_null_chunk());
        }
        let ghost base = chunk_views(out@);
        assert(base == (if contains_null_chunk { Seq::<Seq<TilemapEntry>>::empty() } else { seq![null_chunk()] }));
        let mut i: usize = 0;
        while i < tile_mappings.len()
            invariant
                i <= tile_mappings@.len(),
                v == input_views(tile_mappings@),
                m == Seq::new(v.len(), |i: int| Seq::new(v[i].len(), |j: int| corrected(v[i][j], correct_tile_ids))),
                correct_tile_ids ==> forall|i: int, j: int|
                    0 <= i < tile_mappings@.len() && 0 <= j < tile_mappings@[i]@.len() ==> #[trigger] tile_mappings@[i]@[j].0.0 < usize::MAX,
                chunk_views(out@) == base + m.take(i as int),
            decreases tile_mappings@.len() - i,
        {
            let src = &tile_mappings[i];
            let mut c: Vec<Py<TilemapEntry>> = Vec::new();
            let mut j: usize = 0;
            while j < src.len()
                invariant
                    j <= src@.len(),
                    i < tile_mappings@.len(),
                    src@ == tile_mappings@[i as int]@,
                    correct_tile_ids ==> forall|j: int| 0 <= j < src@.len() ==> #[trigger] src@[j].0.0 < usize::MAX,
                    entry_views(c@) == Seq::new(j as nat, |k: int| corrected(src@[k].0, correct_tile_ids)),
                decreases src@.len() - j,
            {
                let e = src[j].0;
                let e2 = if correct_tile_ids { TilemapEntry(e.0 + 1, e.1, e.2, e.3) } else { e };
                let ghost c0 = c@;
                c.push(Py(e2));
                proof {
                    lemma_entry_views_push(c0, Py(e2));
                    assert(Seq::new(j as nat + 1, |k: int| corrected(src@[k].0, correct_tile_ids)) =~= Seq::new(j as nat, |k: int| corrected(src@[k].0, correct_tile_ids)).push(e2));
                }
                j = j + 1;
            }
            let ghost o0 = out@;
            out.push(c);
            proof {
                lemma_chunk_views_push(o0, c);
                assert(entry_views(c@) =~= m[i as int]);
                assert(base + m.take(i as int + 1) =~= (base + m.take(i as int)).push(m[i as int]));
            }
            i = i + 1;
        }
        assert(m.take(tile_mappings@.len() as int) == m);
        self.chunks = out;
        self.re_fill_chunks(py)
    }
}

/// The palettes of an imported image: 48 bytes (16 colors) each, at most 12.
pub open spec fn pal_chunks(p: Seq<u8>) -> Seq<Seq<u8>> {
    let n = (p.len() + 47) / 48;
    Seq::new((if n < 12 { n } else { 12 }) as nat, |c: int| window(p, 48 * c, 48))
}

/// Whether some entry uses a palette past the twelfth.
pub open spec fn uses_extra_palette(es: Seq<TilemapEntry>) -> bool {
    exists|j: int| 0 <= j < es.len() && #[trigger] es[j].3 > 11
}

/// The entries of one chunk.
pub fn chunk_entries(c: &[Py<TilemapEntry>]) -> (r: Vec<TilemapEntry>)
    ensures
        r@ == entry_views(c@),
{
    let mut out: Vec<TilemapEntry> = Vec::new();
    let mut j: usize = 0;
    while j < c.len()
        invariant
            j <= c@.len(),
            out@ == entry_views(c@).take(j as int),
        decreases c@.len() - j,
    {
        out.push(c[j].0);
        j = j + 1;
        assert(out@ =~= entry_views(c@).take(j as int));
    }
    assert(entry_views(c@).take(c@.len() as int) == entry_views(c@));
    out
}

/// The entries of all chunks, one after the other.
pub fn flatten_chunks(chunks: &[Vec<Py<TilemapEntry>>]) -> (r: Vec<TilemapEntry>)
    ensures
        r@ == flat_entries(chunk_views(chunks@)),
{
    let ghost cs = chunk_views(chunks@);
    let mut out: Vec<TilemapEntry> = Vec::new();
    let mut i: usize = 0;
    while i < chunks.len()
        invariant
            i <= chunks@.len(),
            cs == chunk_views(chunks@),
            out@ == flat_entries(cs.take(i as int)),
        decreases chunks@.len() - i,
    {
        let part = chunk_entries(chunks[i].as_slice());
        let mut j: usize = 0;
        let ghost before = out@;
        while j < part.len()
            invariant
                j <= part@.len(),
                out@ == before + part@.take(j as int),
            decreases part@.len() - j,
        {
            out.push(part[j]);
            j = j + 1;
            assert(out@ =~= before + part@.take(j as int));
        }
        proof {
            assert(part@.take(part@.len() as int) == part@);
            assert(cs.take(i as int + 1).drop_last() == cs.take(i as int));
        }
        i = i + 1;
    }
    assert(cs.take(chunks@.len() as int) == cs);
    out
}

/// The decimal digit character of `d`.
pub open spec fn digit_char(d: int) -> char {
    (d + 48) as char
}

/// The decimal digits of `n`, without leading zeros.
pub open spec fn decimal_digits(n: nat) -> Seq<char>
    decreases n,
{
    if n < 10 {
        seq![digit_char(n as int)]
    } else {
        decimal_digits(n / 10) + seq![digit_char((n % 10) as int)]
    }
}

fn digit_str(d: u8) -> (r: &'static str)
    requires
        d < 10,
    ensures
        r@ == seq![digit_char(d as int)],
{
    match d {
        0 => {
            proof { reveal_strlit("0"); }
            "0"
        },
        1 => {
            proof { reveal_strlit("1"); }
            "1"
        },
        2 => {
            proof { reveal_strlit("2"); }
            "2"
        },
        3 => {
            proof { reveal_strlit("3"); }
            "3"
        },
        4 => {
            proof { reveal_strlit("4"); }
            "4"
        },
        5 => {
            proof { reveal_strlit("5"); }
            "5"
        },
        6 => {
            proof { reveal_strlit("6"); }
            "6"
        },
        7 => {
            proof { reveal_strlit("7"); }
            "7"
        },
        8 => {
            proof { reveal_strlit("8"); }
            "8"
        },
        _ => {
            proof { reveal_strlit("9"); }
            "9"
        },
    }
}

/// The error for an image that uses palette `pal` past the twelfth: a `ValueError` whose
/// message ends with the palette's number in decimal.
fn palette_error(pal: u8) -> (r: PyErr)
    ensures
        r.kind == ErrorKind::ValueError,
        !r.user_error,
        r.value@ == "The image to import can only use the first 12 palettes. Tried to use palette "@
            + decimal_digits(pal as nat),
{
    let mut msg = String::from_str("The image to import can only use the first 12 palettes. Tried to use palette ");
    let ghost start = msg@;
    if pal >= 100 {
        msg.append(digit_str(pal / 100));
    }
    if pal >= 10 {
        msg.append(digit_str((pal / 10) % 10));
    }
    msg.append(digit_str(pal % 10));
    proof {
        let n = pal as nat;
        if n >= 100 {
            assert(decimal_digits(n / 100) == seq![digit_char((n / 100) as int)]);
            assert((n / 10) / 10 == n / 100);
            assert(decimal_digits(n / 10) == decimal_digits(n / 100) + seq![digit_char(((n / 10) % 10) as int)]);
        } else if n >= 10 {
            assert(decimal_digits(n / 10) == seq![digit_char((n / 10) as int)]);
        }
        assert(msg@ =~= start + decimal_digits(n));
    }
    PyErr { kind: ErrorKind::ValueError, value: msg, user_error: false }
}

impl Dpc {
    /// All chunks side by side, `width_in_mtiles` per row; the image's palette is all
    /// `palettes` one after the other.
    pub fn chunks_to_pil(&self, dpci: InputDpci, palettes: Vec<Vec<u8>>, width_in_mtiles: usize, py: Python) -> (r: PyResult<IndexedImage>)
        requires
            width_in_mtiles > 0,
            width_in_mtiles * 24 <= usize::MAX,
            t2n_ok(
                flat_entries(chunk_views(self.chunks@)),
                tile_pixels(bytes_views(dpci.0.tiles@)),
                8,
                width_in_mtiles * 24,
                tile_rows(self.chunks@.len() as int, width_in_mtiles as int) * 24,
                3,
            ),
        ensures
            r matches Ok(img) && img.0.1 == width_in_mtiles * 24 && img.0.2 == tile_rows(
                self.chunks@.len() as int,
                width_in_mtiles as int,
            ) * 24 && img.1@ == concat_all(vec_views(palettes@)) && img.0.0@ == write_chunks(
                Seq::new((img.0.1 * img.0.2) as nat, |p: int| 0u8),
                flat_entries(chunk_views(self.chunks@)),
                tile_pixels(bytes_views(dpci.0.tiles@)),
                flat_entries(chunk_views(self.chunks@)).len(),
                8,
                img.0.1 as int,
                3,
            ),
    {
        let n = self.chunks.len();
        let width: usize = width_in_mtiles * 24;
        let rows: usize = if n == 0 { 0 } else { (n - 1) / width_in_mtiles + 1 };
        proof {
            let wi = width_in_mtiles as int;
            if n == 0 {
                assert(tile_rows(0, wi) == 0) by (nonlinear_arith)
                    requires wi > 0;
            } else {
                assert(tile_rows(n as int, wi) == (n - 1) / wi + 1) by (nonlinear_arith)
                    requires wi > 0, n >= 1;
            }
        }
        assert(rows * 24 <= usize::MAX) by (nonlinear_arith)
            requires
                width * (rows * 24) <= usize::MAX,
                width >= 1,
                rows >= 0;
        let height: usize = rows * 24;
        let tiles = match dpci.0.get_tiles(py) {
            Ok(t) => t,
            Err(e) => return Err(e),
        };
        let tiledata = PixelGenerator::tiled4bpp(tiles.as_slice());
        let entries = flatten_chunks(self.chunks.as_slice());
        let pal = concat_vecs(palettes.as_slice());
        assert(streams(tiledata@) =~= tile_pixels(bytes_views(dpci.0.tiles@)));
        TiledImage::tiled_to_native(entries.as_slice(), tiledata.as_slice(), pal.as_slice(), 8, width, height, 3)
    }

    /// One chunk as a 24x24 image; see `chunks_to_pil`.
    pub fn single_chunk_to_pil(&self, chunk_idx: usize, dpci: InputDpci, palettes: Vec<Vec<u8>>, py: Python) -> (r: PyResult<IndexedImage>)
        requires
            chunk_idx < self.chunks@.len(),
            t2n_ok(chunk_views(self.chunks@)[chunk_idx as int], tile_pixels(bytes_views(dpci.0.tiles@)), 8, 24, 24, 3),
        ensures
            r matches Ok(img) && img.0.1 == 24 && img.0.2 == 24 && img.1@ == concat_all(vec_views(palettes@))
                && img.0.0@ == write_chunks(
                Seq::new(576, |p: int| 0u8),
                chunk_views(self.chunks@)[chunk_idx as int],
                tile_pixels(bytes_views(dpci.0.tiles@)),
                chunk_views(self.chunks@)[chunk_idx as int].len(),
                8,
                24,
                3,
            ),
    {
        let tiles = match dpci.0.get_tiles(py) {
            Ok(t) => t,
            Err(e) => return Err(e),
        };
        let tiledata = PixelGenerator::tiled4bpp(tiles.as_slice());
        let entries = chunk_entries(self.chunks[chunk_idx].as_slice());
        let pal = concat_vecs(palettes.as_slice());
        assert(streams(tiledata@) =~= tile_pixels(bytes_views(dpci.0.tiles@)));
        TiledImage::tiled_to_native(entries.as_slice(), tiledata.as_slice(), pal.as_slice(), 8, 24, 24, 3)
    }

    /// Cuts an image into tiles and chunks (see `TiledImage::native_to_tiled`), stores the chunks
    /// filled up to 400, and returns the tiles and the first 12 palettes of the image. Fails
    /// where more than 1024 tiles remain, where a tile uses a palette past the twelfth (both
    /// keeping the chunks), or where there are more than 400 chunks.
    pub fn pil_to_chunks(&mut self, img: IndexedImage, force_import: bool, py: Python) -> (r: PyResult<(Vec<StBytes>, Vec<Vec<u8>>)>)
        requires
            nt_ok(img.0.0@.len() as int, img.0.1 as int, img.0.2 as int, 8, 3, 16, 0),
        ensures
            ({
                let (w, h) = (img.0.1 as int, img.0.2 as int);
                let n = ((w * h) / 8 / 8) as nat;
                let st = nt_run(img.0.0@, img.0.0@.len(), n, 0, 16, 8, w, 3);
                let (ft, fs, es) = dedup(st, 8, n);
                &&& (r is Err <==> (ft.len() > 1024 || uses_extra_palette(es) || group9(es).len() > 400))
                &&& (ft.len() > 1024 || uses_extra_palette(es) ==> final(self).chunks@ == old(self).chunks@)
                &&& (ft.len() <= 1024 && !uses_extra_palette(es) && r is Err ==> chunk_views(final(self).chunks@) == group9(es))
                &&& (r matches Ok((tiles, pals)) ==> bytes_views(tiles@) == ft && vec_views(pals@) == pal_chunks(img.1@)
                    && chunk_views(final(self).chunks@) == padded(group9(es)))
            }),
    {
        let w = img.0.1;
        let h = img.0.2;
        let ghost pixels = img.0.0@;
        let ghost palette = img.1@;
        let (tiles, pal, tilemap) = match TiledImage::native_to_tiled(img, 16, 8, w, h, 3, 0) {
            Ok(t) => t,
            Err(e) => return Err(e),
        };
        let ghost n = ((w * h) / 8 / 8) as nat;
        let ghost es = dedup(nt_run(pixels, pixels.len(), n, 0, 16, 8, w as int, 3), 8, n).2;
        let ghost ft = dedup(nt_run(pixels, pixels.len(), n, 0, 16, 8, w as int, 3), 8, n).0;
        assert(tilemap@ == es && ft.len() <= 1024);
        let mut j: usize = 0;
        while j < tilemap.len()
            invariant
                j <= tilemap@.len(),
                tilemap@ == es,
                w == img.0.1,
                h == img.0.2,
                pixels == img.0.0@,
                n == ((w * h) / 8 / 8) as nat,
                es == dedup(nt_run(pixels, pixels.len(), n, 0, 16, 8, w as int, 3), 8, n).2,
                ft == dedup(nt_run(pixels, pixels.len(), n, 0, 16, 8, w as int, 3), 8, n).0,
                ft.len() <= 1024,
                self.chunks@ == old(self).chunks@,
                forall|k: int| 0 <= k < j ==> #[trigger] tilemap@[k].3 <= 11,
            decreases tilemap@.len() - j,
        {
            if tilemap[j].3 > 11 {
                proof {
                    assert(es[j as int].3 > 11);
                    assert(uses_extra_palette(es));
                }
                return Err(palette_error(tilemap[j].3));
            }
            j = j + 1;
        }
        self.chunks = group_chunks(tilemap.as_slice());
        match self.re_fill_chunks(py) {
            Ok(()) => {},
            Err(e) => return Err(e),
        }
        let mut out_tiles: Vec<StBytes> = Vec::new();
        let mut i: usize = 0;
        while i < tiles.len()
            invariant
                i <= tiles@.len(),
                out_tiles@.len() == i,
                forall|k: int| 0 <= k < i ==> #[trigger] out_tiles@[k]@ == tiles@[k]@,
            decreases tiles@.len() - i,
        {
            out_tiles.push(StBytes(tiles[i].clone()));
            i = i + 1;
        }
        assert(bytes_views(out_tiles@) =~= Seq::new(tiles@.len(), |k: int| tiles@[k]@));
        let mut pals: Vec<Vec<u8>> = Vec::new();
        let pn = pal.len();
        let mut c: usize = 0;
        while c < 12 && 48 * c < pn
            invariant
                pn == pal@.len(),
                c <= 12,
                48 * c <= pn + 47,
                vec_views(pals@) == pal_chunks(pal@).take(c as int),
                c < pal_chunks(pal@).len() ==> 48 * c < pn,
                c <= pal_chunks(pal@).len(),
            decreases 12 - c,
        {
            let start: usize = 48 * c;
            let end: usize = if pn - start >= 48 { start + 48 } else { pn };
            let part = crate::bytes::copy_range(pal.as_slice(), start, end);
            let ghost p0 = pals@;
            pals.push(part);
            proof {
                assert(part@ == window(pal@, 48 * c, 48));
                assert(vec_views(pals@) =~= vec_views(p0).push(part@));
                assert(pal_chunks(pal@).take(c as int + 1) =~= pal_chunks(pal@).take(c as int).push(window(pal@, 48 * c, 48)));
            }
            c = c + 1;
        }
        assert(pal_chunks(pal@).take(c as int) == pal_chunks(pal@));
        Ok((out_tiles, pals))
    }
}

/// Entries grouped into chunks of nine; the last chunk may be shorter.
pub fn group_chunks(es: &[TilemapEntry]) -> (r: Vec<Vec<Py<TilemapEntry>>>)
    ensures
        chunk_views(r@) == group9(es@),
{
    let m = es.len();
    let mut chunks: Vec<Vec<Py<TilemapEntry>>> = Vec::new();
    let mut current: Vec<Py<TilemapEntry>> = Vec::new();
    let mut k: usize = 0;
    while k < m
        invariant
            m == es@.len(),
            k <= m,
            chunks@.len() == k / 9,
            forall|c: int| 0 <= c < k / 9 ==> #[trigger] chunk_views(chunks@)[c] == es@.subrange(9 * c, 9 * c + 9),
            entry_views(current@) == es@.subrange(9 * (k / 9), k as int),
        decreases m - k,
    {
        let e = es[k];
        let ghost cur0 = current@;
        current.push(Py(e));
        proof {
            assert(entry_views(current@) =~= entry_views(cur0).push(e));
            assert(entry_views(current@) =~= es@.subrange(9 * (k / 9), k + 1));
        }
        k = k + 1;
        if k % 9 == 0 {
            let ghost ch0 = chunks@;
            chunks.push(current);
            current = Vec::new();
            proof {
                assert forall|c: int| 0 <= c < k / 9 implies #[trigger] chunk_views(chunks@)[c] == es@.subrange(9 * c, 9 * c + 9) by {
                    assert(chunks@[c] == (if c < ch0.len() { ch0[c] } else { chunks@.last() }));
                    if c < (k - 1) / 9 {
                        assert(chunk_views(ch0)[c] == es@.subrange(9 * c, 9 * c + 9));
                    }
                }
                assert(entry_views(current@) =~= es@.subrange(9 * (k / 9), k as int));
            }
        }
    }
    let ghost ch1 = chunks@;
    let ghost cur1 = current@;
    if current.len() > 0 {
        chunks.push(current);
    }
    proof {
        assert forall|c: int| 0 <= c < chunks@.len() implies #[trigger] chunk_views(chunks@)[c] == group9(es@)[c] by {
            if c < m / 9 {
                assert(chunks@[c] == ch1[c]);
                assert(chunk_views(ch1)[c] == es@.subrange(9 * c, 9 * c + 9));
            } else {
                assert(chunks@[c]@ == cur1);
            }
        }
        assert(chunks@.len() == group9(es@).len());
        assert(chunk_views(chunks@) =~= group9(es@));
    }
    chunks
}

/// Writes DPC models.
pub struct DpcWriter;

impl DpcWriter {
    pub fn new() -> (r: Self) {
        DpcWriter
    }

    /// Every entry of every chunk, packed into 16 bits, little-endian.
    pub fn write(&self, model: Py<Dpc>, py: Python) -> (r: PyResult<StBytes>)
        ensures
            r matches Ok(b) && b@ == dpc_bytes(flat_entries(chunk_views(model.0.chunks@))),
    {
        let chunks = &model.0.chunks;
        let ghost cs = chunk_views(chunks@);
        let mut out: Vec<u8> = Vec::new();
        let mut i: usize = 0;
        while i < chunks.len()
            invariant
                i <= chunks@.len(),
                cs == chunk_views(chunks@),
                out@ == dpc_bytes(flat_entries(cs.take(i as int))),
            decreases chunks@.len() - i,
        {
            let chunk = &chunks[i];
            let ghost before = flat_entries(cs.take(i as int));
            assert(cs.take(i as int + 1).drop_last() == cs.take(i as int));
            assert(flat_entries(cs.take(i as int + 1)) == before + cs[i as int]);
            let mut j: usize = 0;
            while j < chunk.len()
                invariant
                    j <= chunk@.len(),
                    cs[i as int] == entry_views(chunk@),
                    out@ == dpc_bytes(before + entry_views(chunk@).take(j as int)),
                decreases chunk@.len() - j,
            {
                let v = chunk[j].0.to_int();
                proof {
                    let es = before + entry_views(chunk@).take(j as int);
                    let es2 = before + entry_views(chunk@).take(j as int + 1);
                    assert(es2.drop_last() == es);
                    assert(es2.last() == chunk@[j as int].0);
                }
                crate::bytes::push_u16_le(&mut out, v as u16);
                j = j + 1;
            }
            assert(entry_views(chunk@).take(chunk@.len() as int) == entry_views(chunk@));
            i = i + 1;
        }
        assert(cs.take(chunks@.len() as int) == cs);
        Ok(StBytes(out))
    }
}

/// Something that holds DPC chunks.
pub trait DpcProvider {
    spec fn chunks_view(&self) -> Seq<Seq<TilemapEntry>>;

    fn do_chunks_to_pil(&self, dpci: InputDpci, palettes: Vec<Vec<u8>>, width_in_mtiles: usize, py: Python) -> (r: PyResult<IndexedImage>)
        requires
            width_in_mtiles > 0,
            width_in_mtiles * 24 <= usize::MAX,
            t2n_ok(
                flat_entries(self.chunks_view()),
                tile_pixels(bytes_views(dpci.0.tiles@)),
                8,
                width_in_mtiles * 24,
                tile_rows(self.chunks_view().len() as int, width_in_mtiles as int) * 24,
                3,
            ),
        ensures
            r matches Ok(img) && img.0.1 == width_in_mtiles * 24 && img.0.2 == tile_rows(
                self.chunks_view().len() as int,
                width_in_mtiles as int,
            ) * 24 && img.1@ == concat_all(vec_views(palettes@)) && img.0.0@ == write_chunks(
                Seq::new((img.0.1 * img.0.2) as nat, |p: int| 0u8),
                flat_entries(self.chunks_view()),
                tile_pixels(bytes_views(dpci.0.tiles@)),
                flat_entries(self.chunks_view()).len(),
                8,
                img.0.1 as int,
                3,
            ),
    ;

    fn do_import_tile_mappings(
        &mut self,
        tile_mappings: Vec<Vec<InputTilemapEntry>>,
        contains_null_chunk: bool,
        correct_tile_ids: bool,
        py: Python,
    ) -> (r: PyResult<()>)
        requires
            correct_tile_ids ==> forall|i: int, j: int|
                0 <= i < tile_mappings@.len() && 0 <= j < tile_mappings@[i]@.len() ==> #[trigger] tile_mappings@[i]@[j].0.0 < usize::MAX,
        ensures
            ({
                let full = imported_chunks(input_views(tile_mappings@), contains_null_chunk, correct_tile_ids);
                &&& (full.len() > 400 <==> r is Err)
                &&& (r is Ok ==> final(self).chunks_view() == padded(full))
                &&& (r is Err ==> final(self).chunks_view() == full)
            }),
    ;
}

impl DpcProvider for Dpc {
    open spec fn chunks_view(&self) -> Seq<Seq<TilemapEntry>> {
        chunk_views(self.chunks@)
    }

    fn do_chunks_to_pil(&self, dpci: InputDpci, palettes: Vec<Vec<u8>>, width_in_mtiles: usize, py: Python) -> (r: PyResult<IndexedImage>) {
        self.chunks_to_pil(dpci, palettes, width_in_mtiles, py)
    }

    fn do_import_tile_mappings(
        &mut self,
        tile_mappings: Vec<Vec<InputTilemapEntry>>,
        contains_null_chunk: bool,
        correct_tile_ids: bool,
        py: Python,
    ) -> (r: PyResult<()>) {
        self.import_tile_mappings(tile_mappings, contains_null_chunk, correct_tile_ids, py)
    }
}

/// A DPC model handed in by a caller.
pub struct InputDpc(pub Dpc);

impl InputDpc {
    /// The model inside.
    pub fn into_dpc(self) -> (r: Dpc)
        ensures
            r == self.0,
    {
        self.0
    }
}

} // verus!
