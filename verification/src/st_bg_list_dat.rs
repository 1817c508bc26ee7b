//! bg_list.dat: for every level the names of its BPL, BPC, BMA and up to eight BPA files,
//! each an ASCII name in an 8-byte field.
use crate::bytes::StBytes;
use crate::dse::filename::ascii_chars;
use crate::dse::filename::string_from_ascii;
use crate::dse::filename::lemma_until_nul_push;
use crate::dse::filename::until_nul;
use crate::no_python::Py;
use crate::no_python::Python;
use crate::python::exceptions::PyValueError;
use crate::python::ErrorKind;
use crate::python::PyErr;
use crate::python::PyResult;
use vstd::prelude::*;

verus! {

/// Bytes of one level's entry: eleven 8-byte names.
pub const BG_LIST_ENTRY_LEN: usize = 88;

/// The name stored in the 8-byte field at `pos`: its bytes up to the first NUL.
pub open spec fn field_bytes(data: Seq<u8>, pos: int) -> Seq<u8> {
    until_nul(data.subrange(pos, pos + 8))
}

/// Whether all bytes are ASCII.
pub open spec fn ascii_bytes(s: Seq<u8>) -> bool {
    forall|i: int| 0 <= i < s.len() ==> #[trigger] s[i] < 128
}

/// A name that may be missing: missing where its bytes are empty.
pub open spec fn opt_name(s: Seq<u8>) -> Option<Seq<char>> {
    if s.len() == 0 {
        None
    } else {
        Some(ascii_chars(s))
    }
}

/// The characters of a name that may be missing.
pub open spec fn opt_view(o: Option<String>) -> Option<Seq<char>> {
    match o {
        Some(s) => Some(s@),
        None => None,
    }
}

/// Whether every name field of bg_list.dat data holds only ASCII bytes.
pub open spec fn bg_list_ok(data: Seq<u8>) -> bool {
    forall|c: int, f: int|
        0 <= c < data.len() / 88 && 0 <= f < 11 ==> #[trigger] ascii_bytes(field_bytes(data, 88 * c + 8 * f))
}

/// Whether the level entry `e` holds the names of the 88 bytes at `pos`.
pub open spec fn entry_read(e: BgListEntry, data: Seq<u8>, pos: int) -> bool {
    &&& e.bpl_name@ == ascii_chars(field_bytes(data, pos))
    &&& e.bpc_name@ == ascii_chars(field_bytes(data, pos + 8))
    &&& e.bma_name@ == ascii_chars(field_bytes(data, pos + 16))
    &&& forall|k: int| 0 <= k < 8 ==> #[trigger] opt_view(e.bpa_names@[k]) == opt_name(field_bytes(data, pos + 24 + 8 * k))
}

/// The names of a level entry in the order they are stored ("" for a missing BPA).
pub open spec fn entry_names(e: BgListEntry) -> Seq<Seq<char>> {
    seq![e.bpl_name@, e.bpc_name@, e.bma_name@] + Seq::new(
        8,
        |k: int|
            match e.bpa_names@[k] {
                Some(n) => n@,
                None => Seq::<char>::empty(),
            },
    )
}

/// Whether a name can be stored: ASCII and at most 8 characters.
pub open spec fn name_fits(s: Seq<char>) -> bool {
    vstd::utf8::is_ascii_chars(s) && s.len() <= 8
}

/// The 8-byte field of a name that fits.
pub open spec fn name_field(s: Seq<char>) -> Seq<u8> {
    Seq::new(8, |i: int| if i < s.len() { s[i] as u8 } else { 0u8 })
}

/// The fields of the first `k` names.
pub open spec fn names_bytes(ns: Seq<Seq<char>>, k: nat) -> Seq<u8>
    decreases k,
{
    if k == 0 {
        Seq::<u8>::empty()
    } else {
        names_bytes(ns, (k - 1) as nat) + name_field(ns[k - 1])
    }
}

/// The bytes of the first `k` level entries.
pub open spec fn levels_bytes(levels: Seq<Py<BgListEntry>>, k: nat) -> Seq<u8>
    decreases k,
{
    if k == 0 {
        Seq::<u8>::empty()
    } else {
        levels_bytes(levels, (k - 1) as nat) + names_bytes(entry_names(levels[k - 1].0), 11)
    }
}

/// How many of the first `k` levels satisfy `p`.
pub open spec fn count_levels(levels: Seq<Py<BgListEntry>>, p: spec_fn(BgListEntry) -> bool, k: nat) -> nat
    decreases k,
{
    if k == 0 {
        0
    } else {
        count_levels(levels, p, (k - 1) as nat) + if p(levels[k - 1].0) { 1nat } else { 0nat }
    }
}

/// How many of the first `k` BPA names of `e` equal `name`.
pub open spec fn count_bpa(e: BgListEntry, name: Seq<char>, k: nat) -> nat
    decreases k,
{
    if k == 0 {
        0
    } else {
        count_bpa(e, name, (k - 1) as nat) + if e.bpa_names@[k - 1] matches Some(n) && n@ == name { 1nat } else { 0nat }
    }
}

/// How many BPA names of the first `k` levels equal `name`.
pub open spec fn count_bpas(levels: Seq<Py<BgListEntry>>, name: Seq<char>, k: nat) -> nat
    decreases k,
{
    if k == 0 {
        0
    } else {
        count_bpas(levels, name, (k - 1) as nat) + count_bpa(levels[k - 1].0, name, 8)
    }
}

/// Whether two strings hold the same characters.
pub fn str_eq(a: &str, b: &str) -> (r: bool)
    ensures
        r == (a@ == b@),
{
    let n = a.unicode_len();
    if n != b.unicode_len() {
        return false;
    }
    let mut i: usize = 0;
    while i < n
        invariant
            i <= n,
            n == a@.len(),
            n == b@.len(),
            forall|j: int| 0 <= j < i ==> a@[j] == b@[j],
        decreases n - i,
    {
        if a.get_char(i) != b.get_char(i) {
            return false;
        }
        i = i + 1;
    }
    assert(a@ =~= b@);
    true
}

/// Reads the name in the 8-byte field at `pos`: `None` where it is empty, an error where it
/// holds a byte that is not ASCII.
fn read_fixed_name(data: &[u8], pos: usize) -> (r: PyResult<Option<String>>)
    requires
        pos + 8 <= data@.len(),
    ensures
        ascii_bytes(field_bytes(data@, pos as int)) ==> (r matches Ok(o) && opt_view(o) == opt_name(field_bytes(data@, pos as int))),
        !ascii_bytes(field_bytes(data@, pos as int)) ==> (r matches Err(e) && e.kind == ErrorKind::ValueError),
{
    let ghost s = data@.subrange(pos as int, pos + 8);
    let n = data.len();
    let mut raw: Vec<u8> = Vec::new();
    let mut k: usize = 0;
    let mut done = false;
    let mut ascii = true;
    while k < 8 && !done
        invariant
            n == data@.len(),
            pos + 8 <= n,
            s == data@.subrange(pos as int, pos + 8),
            k <= 8,
            forall|j: int| 0 <= j < k ==> s[j] != 0,
            !done ==> raw@ == s.take(k as int),
            done ==> raw@ == until_nul(s),
            !done ==> until_nul(s.take(k as int)) == s.take(k as int),
            ascii == ascii_bytes(raw@),
        decreases 8 - k, if done { 0int } else { 1int },
    {
        let b = data[pos + k];
        proof {
            crate::dse::filename::lemma_until_nul_push(s, k as int);
        }
        if b == 0 {
            done = true;
        } else {
            proof {
                assert(s.take(k as int + 1) == s.take(k as int).push(b));
            }
            let ghost r0 = raw@;
            raw.push(b);
            if b >= 128 {
                ascii = false;
            }
            proof {
                assert(raw@ == r0.push(b));
                if ascii {
                    assert(ascii_bytes(raw@));
                } else if b < 128 {
                    let j = choose|j: int| 0 <= j < r0.len() && !(r0[j] < 128);
                    assert(raw@[j] == r0[j]);
                } else {
                    assert(raw@[r0.len() as int] == b);
                }
            }
            k = k + 1;
        }
    }
    proof {
        if !done {
            assert(s.take(8) == s);
        }
    }
    if !ascii {
        return Err(PyValueError::new_err("Failed to decode/encode string for PMD2: invalid sequence"));
    }
    if raw.len() == 0 {
        return Ok(None);
    }
    Ok(Some(string_from_ascii(raw)))
}

/// One level's entry: the names of its files.
pub struct BgListEntry {
    pub bpl_name: String,
    pub bpc_name: String,
    pub bma_name: String,
    pub bpa_names: [Option<String>; 8],
}

impl BgListEntry {
    pub fn new(bpl_name: String, bpc_name: String, bma_name: String, bpa_names: [Option<String>; 8]) -> (r: Self)
        ensures
            r == (BgListEntry { bpl_name, bpc_name, bma_name, bpa_names }),
    {
        BgListEntry { bpl_name, bpc_name, bma_name, bpa_names }
    }
}

/// Reads a name whose field may be empty: the empty string then.
fn read_fixed_string(data: &[u8], pos: usize) -> (r: PyResult<String>)
    requires
        pos + 8 <= data@.len(),
    ensures
        ascii_bytes(field_bytes(data@, pos as int)) ==> (r matches Ok(st) && st@ == ascii_chars(field_bytes(data@, pos as int))),
        !ascii_bytes(field_bytes(data@, pos as int)) ==> (r matches Err(e) && e.kind == ErrorKind::ValueError),
{
    match read_fixed_name(data, pos) {
        Ok(Some(st)) => Ok(st),
        Ok(None) => {
            assert(ascii_chars(field_bytes(data@, pos as int)) =~= Seq::<char>::empty());
            Ok(String::new())
        },
        Err(e) => Err(e),
    }
}

/// Whether the eleven names of the entry at `pos` hold only ASCII bytes.
pub open spec fn entry_ok(data: Seq<u8>, pos: int) -> bool {
    forall|f: int| 0 <= f < 11 ==> #[trigger] ascii_bytes(field_bytes(data, pos + 8 * f))
}

/// Reads the level entry in the 88 bytes at `pos`.
fn read_entry(data: &[u8], pos: usize) -> (r: PyResult<BgListEntry>)
    requires
        pos + 88 <= data@.len(),
    ensures
        entry_ok(data@, pos as int) ==> (r matches Ok(e) && entry_read(e, data@, pos as int)),
        !entry_ok(data@, pos as int) ==> (r matches Err(e) && e.kind == ErrorKind::ValueError),
{
    let dl = data.len();
    let ghost d = data@;
    let ghost p = pos as int;
    assert(p + 8 * 0 == p && p + 8 * 1 == p + 8 && p + 8 * 2 == p + 16);
    let bpl = match read_fixed_string(data, pos) {
        Ok(v) => v,
        Err(e) => return Err(e),
    };
    let bpc = match read_fixed_string(data, pos + 8) {
        Ok(v) => v,
        Err(e) => return Err(e),
    };
    let bma = match read_fixed_string(data, pos + 16) {
        Ok(v) => v,
        Err(e) => return Err(e),
    };
    let mut names: Vec<Option<String>> = Vec::new();
    let mut k: usize = 0;
    while k < 8
        invariant
            k <= 8,
            dl == data@.len(),
            pos + 88 <= data@.len(),
            d == data@,
            p == pos,
            names@.len() == k,
            forall|j: int| 0 <= j < k ==> #[trigger] ascii_bytes(field_bytes(d, p + 24 + 8 * j)),
            forall|j: int| 0 <= j < k ==> #[trigger] opt_view(names@[j]) == opt_name(field_bytes(d, p + 24 + 8 * j)),
        decreases 8 - k,
    {
        match read_fixed_name(data, pos + 24 + 8 * k) {
            Ok(o) => {
                names.push(o);
            },
            Err(e) => {
                proof {
                    assert(p + 8 * (3 + k) == p + 24 + 8 * k);
                    assert(!ascii_bytes(field_bytes(d, p + 8 * (3 + k))));
                }
                return Err(e);
            },
        }
        k = k + 1;
    }
    let n7 = names.pop().unwrap();
    let n6 = names.pop().unwrap();
    let n5 = names.pop().unwrap();
    let n4 = names.pop().unwrap();
    let n3 = names.pop().unwrap();
    let n2 = names.pop().unwrap();
    let n1 = names.pop().unwrap();
    let n0 = names.pop().unwrap();
    let bpa_names = [n0, n1, n2, n3, n4, n5, n6, n7];
    let e = BgListEntry::new(bpl, bpc, bma, bpa_names);
    proof {
        assert forall|f: int| 0 <= f < 11 implies #[trigger] ascii_bytes(field_bytes(d, p + 8 * f)) by {
            if f >= 3 {
                assert(p + 8 * f == p + 24 + 8 * (f - 3));
            }
        }
        assert forall|j: int| 0 <= j < 8 implies #[trigger] opt_view(e.bpa_names@[j]) == opt_name(field_bytes(d, p + 24 + 8 * j)) by {
        }
    }
    Ok(e)
}

/// The level list.
pub struct BgList {
    pub level: Vec<Py<BgListEntry>>,
}

impl BgList {
    /// Reads the entries, 88 bytes each; fails where a name holds a byte that is not ASCII.
    pub fn new(data: Vec<u8>, py: Python) -> (r: PyResult<Self>)
        requires
            data@.len() % 88 == 0,
        ensures
            bg_list_ok(data@) <==> r is Ok,
            r matches Err(e) ==> e.kind == ErrorKind::ValueError,
            r matches Ok(l) ==> l.level@.len() == data@.len() / 88 && forall|c: int|
                0 <= c < l.level@.len() ==> #[trigger] entry_read(l.level@[c].0, data@, 88 * c),
    {
        let n = data.len();
        let count: usize = n / 88;
        let mut level: Vec<Py<BgListEntry>> = Vec::new();
        let mut c: usize = 0;
        while c < count
            invariant
                n == data@.len(),
                n % 88 == 0,
                count == n / 88,
                c <= count,
                level@.len() == c,
                forall|j: int| 0 <= j < c ==> #[trigger] entry_read(level@[j].0, data@, 88 * j),
                forall|j: int, f: int| 0 <= j < c && 0 <= f < 11 ==> #[trigger] ascii_bytes(field_bytes(data@, 88 * j + 8 * f)),
            decreases count - c,
        {
            let pos: usize = 88 * c;
            match read_entry(data.as_slice(), pos) {
                Ok(e) => {
                    level.push(Py(e));
                    proof {
                        assert forall|j: int, f: int| 0 <= j < c + 1 && 0 <= f < 11 implies #[trigger] ascii_bytes(field_bytes(data@, 88 * j + 8 * f)) by {
                            if j == c {
                                assert(ascii_bytes(field_bytes(data@, pos + 8 * f)));
                            }
                        }
                    }
                },
                Err(e) => {
                    proof {
                        let f = choose|f: int| 0 <= f < 11 && !#[trigger] ascii_bytes(field_bytes(data@, pos + 8 * f));
                        assert(!ascii_bytes(field_bytes(data@, 88 * c + 8 * f)));
                    }
                    return Err(e);
                },
            }
            c = c + 1;
        }
        Ok(BgList { level })
    }

    /// How many levels use this BMA.
    pub fn find_bma(&self, name: &str, py: Python) -> (r: usize)
        ensures
            r == count_levels(self.level@, |e: BgListEntry| e.bma_name@ == name@, self.level@.len()),
    {
        let mut count: usize = 0;
        let mut i: usize = 0;
        while i < self.level.len()
            invariant
                i <= self.level@.len(),
                count == count_levels(self.level@, |e: BgListEntry| e.bma_name@ == name@, i as nat),
                count <= i,
            decreases self.level@.len() - i,
        {
            if str_eq(self.level[i].0.bma_name.as_str(), name) {
                count = count + 1;
            }
            i = i + 1;
        }
        count
    }

    /// How many levels use this BPL.
    pub fn find_bpl(&self, name: &str, py: Python) -> (r: usize)
        ensures
            r == count_levels(self.level@, |e: BgListEntry| e.bpl_name@ == name@, self.level@.len()),
    {
        let mut count: usize = 0;
        let mut i: usize = 0;
        while i < self.level.len()
            invariant
                i <= self.level@.len(),
                count == count_levels(self.level@, |e: BgListEntry| e.bpl_name@ == name@, i as nat),
                count <= i,
            decreases self.level@.len() - i,
        {
            if str_eq(self.level[i].0.bpl_name.as_str(), name) {
                count = count + 1;
            }
            i = i + 1;
        }
        count
    }

    /// How many levels use this BPC.
    pub fn find_bpc(&self, name: &str, py: Python) -> (r: usize)
        ensures
            r == count_levels(self.level@, |e: BgListEntry| e.bpc_name@ == name@, self.level@.len()),
    {
        let mut count: usize = 0;
        let mut i: usize = 0;
        while i < self.level.len()
            invariant
                i <= self.level@.len(),
                count == count_levels(self.level@, |e: BgListEntry| e.bpc_name@ == name@, i as nat),
                count <= i,
            decreases self.level@.len() - i,
        {
            if str_eq(self.level[i].0.bpc_name.as_str(), name) {
                count = count + 1;
            }
            i = i + 1;
        }
        count
    }

    /// How many BPA slots of all levels name this BPA.
    pub fn find_bpa(&self, name: &str, py: Python) -> (r: usize)
        requires
            self.level@.len() * 8 <= usize::MAX,
        ensures
            r == count_bpas(self.level@, name@, self.level@.len()),
    {
        let mut count: usize = 0;
        let mut i: usize = 0;
        while i < self.level.len()
            invariant
                i <= self.level@.len(),
                self.level@.len() * 8 <= usize::MAX,
                count == count_bpas(self.level@, name@, i as nat),
                count <= 8 * i,
            decreases self.level@.len() - i,
        {
            let e = &self.level[i].0;
            let mut k: usize = 0;
            let mut inner: usize = 0;
            while k < 8
                invariant
                    k <= 8,
                    inner == count_bpa(*e, name@, k as nat),
                    inner <= k,
                decreases 8 - k,
            {
                match &e.bpa_names[k] {
                    Some(n) => {
                        if str_eq(n.as_str(), name) {
                            inner = inner + 1;
                        }
                    },
                    None => {},
                }
                k = k + 1;
            }
            count = count + inner;
            i = i + 1;
        }
        count
    }

    /// Adds a level.
    pub fn add_level(&mut self, level: Py<BgListEntry>)
        ensures
            final(self).level@ == old(self).level@.push(level),
    {
        self.level.push(level);
    }

    /// Replaces a level.
    pub fn set_level(&mut self, level_id: usize, level: Py<BgListEntry>)
        requires
            level_id < old(self).level@.len(),
        ensures
            final(self).level@ == old(self).level@.update(level_id as int, level),
    {
        self.level.set(level_id, level);
    }

    /// Replaces one BPA name of a level.
    pub fn set_level_bpa(&mut self, level_id: usize, bpa_id: usize, bpa_name: Option<&str>, py: Python)
        requires
            level_id < old(self).level@.len(),
            bpa_id < 8,
        ensures
            final(self).level@.len() == old(self).level@.len(),
            forall|j: int| 0 <= j < old(self).level@.len() && j != level_id ==> #[trigger] final(self).level@[j] == old(self).level@[j],
            ({
                let (a, b) = (final(self).level@[level_id as int].0, old(self).level@[level_id as int].0);
                &&& a.bpl_name == b.bpl_name
                &&& a.bpc_name == b.bpc_name
                &&& a.bma_name == b.bma_name
                &&& forall|k: int| 0 <= k < 8 && k != bpa_id ==> #[trigger] a.bpa_names@[k] == b.bpa_names@[k]
                &&& opt_view(a.bpa_names@[bpa_id as int]) == (match bpa_name {
                    Some(n) => Some(n@),
                    None => None,
                })
            }),
    {
        let value: Option<String> = match bpa_name {
            Some(n) => Some(n.to_owned()),
            None => None,
        };
        let mut entry = self.level.remove(level_id);
        entry.0.bpa_names[bpa_id] = value;
        self.level.insert(level_id, entry);
    }
}

/// Appends the 8-byte field of `name`; fails where it is not ASCII or longer than 8 bytes.
fn put_fixed_name(out: &mut Vec<u8>, name: &str) -> (r: PyResult<()>)
    ensures
        name_fits(name@) <==> r is Ok,
        r matches Err(e) ==> e.kind == ErrorKind::ValueError,
        r is Ok ==> final(out)@ == old(out)@ + name_field(name@),
{
    if !name.is_ascii() {
        return Err(PyValueError::new_err("Failed to decode/encode string for PMD2: unrepresentable character"));
    }
    let bytes = name.as_bytes();
    proof {
        vstd::string::is_ascii_spec_bytes(name);
    }
    assert(bytes@ == Seq::new(name@.len(), |i: int| name@[i] as u8));
    if bytes.len() > 8 {
        let mut msg = String::from_str("The string '");
        msg.append(name);
        msg.append("' does not fit into 8 bytes.");
        return Err(PyErr { kind: ErrorKind::ValueError, value: msg, user_error: false });
    }
    let ghost o0 = out@;
    let mut i: usize = 0;
    while i < 8
        invariant
            i <= 8,
            bytes@.len() <= 8,
            bytes@ == Seq::new(name@.len(), |j: int| name@[j] as u8),
            out@ == o0 + name_field(name@).take(i as int),
        decreases 8 - i,
    {
        let b: u8 = if i < bytes.len() { bytes[i] } else { 0 };
        out.push(b);
        i = i + 1;
        assert(out@ =~= o0 + name_field(name@).take(i as int));
    }
    assert(name_field(name@).take(8) == name_field(name@));
    Ok(())
}

/// Writes level lists.
pub struct BgListWriter;

impl BgListWriter {
    pub fn new() -> (r: Self) {
        BgListWriter
    }

    /// Every level's eleven names, 8 bytes each (an empty field for a missing BPA); fails where
    /// a name is not ASCII or longer than 8 bytes.
    pub fn write(&self, model: Py<BgList>, py: Python) -> (r: PyResult<StBytes>)
        ensures
            (forall|c: int, f: int|
                0 <= c < model.0.level@.len() && 0 <= f < 11 ==> #[trigger] name_fits(entry_names(model.0.level@[c].0)[f]))
                <==> r is Ok,
            r matches Err(e) ==> e.kind == ErrorKind::ValueError,
            r matches Ok(b) ==> b@ == levels_bytes(model.0.level@, model.0.level@.len()),
    {
        let levels = &model.0.level;
        let mut out: Vec<u8> = Vec::new();
        let mut c: usize = 0;
        while c < levels.len()
            invariant
                c <= levels@.len(),
                levels@ == model.0.level@,
                out@ == levels_bytes(levels@, c as nat),
                forall|j: int, f: int| 0 <= j < c && 0 <= f < 11 ==> #[trigger] name_fits(entry_names(levels@[j].0)[f]),
            decreases levels@.len() - c,
        {
            let e = &levels[c].0;
            let ghost ns = entry_names(*e);
            let ghost before = out@;
            let mut f: usize = 0;
            while f < 11
                invariant
                    f <= 11,
                    levels@ == model.0.level@,
                    c < levels@.len(),
                    *e == levels@[c as int].0,
                    ns == entry_names(*e),
                    out@ == before + names_bytes(ns, f as nat),
                    forall|g: int| 0 <= g < f ==> #[trigger] name_fits(ns[g]),
                decreases 11 - f,
            {
                let name: &str = if f == 0 {
                    e.bpl_name.as_str()
                } else if f == 1 {
                    e.bpc_name.as_str()
                } else if f == 2 {
                    e.bma_name.as_str()
                } else {
                    match &e.bpa_names[f - 3] {
                        Some(n) => n.as_str(),
                        None => "",
                    }
                };
                proof {
                    if f >= 3 && e.bpa_names@[f - 3] is None {
                        reveal_strlit("");
                    }
                    assert(name@ == ns[f as int]);
                }
                match put_fixed_name(&mut out, name) {
                    Ok(()) => {},
                    Err(err) => {
                        proof {
                            assert(!name_fits(entry_names(levels@[c as int].0)[f as int]));
                        }
                        return Err(err);
                    },
                }
                f = f + 1;
            }
            proof {
                assert(levels@[c as int].0 == *e);
            }
            c = c + 1;
        }
        Ok(StBytes(out))
    }
}


proof fn lemma_until_nul_all(t: Seq<u8>)
    requires
        forall|j: int| 0 <= j < t.len() ==> t[j] != 0,
    ensures
        until_nul(t) == t,
    decreases t.len(),
{
    if t.len() > 0 {
        lemma_until_nul_all(t.drop_first());
        assert(seq![t[0]] + t.drop_first() =~= t);
    }
}

/// Whether a name reads back as itself: it can be stored and holds no NUL.
pub open spec fn name_roundtrips(s: Seq<char>) -> bool {
    name_fits(s) && forall|i: int| 0 <= i < s.len() ==> #[trigger] s[i] != '\0'
}

proof fn lemma_name_field_read(s: Seq<char>)
    requires
        name_roundtrips(s),
    ensures
        ascii_bytes(until_nul(name_field(s))),
        ascii_chars(until_nul(name_field(s))) == s,
{
    let f = name_field(s);
    let b = Seq::new(s.len(), |i: int| s[i] as u8);
    assert forall|i: int| 0 <= i < s.len() implies #[trigger] b[i] != 0 && b[i] < 128 && (b[i] as char) == s[i] by {
        let c = s[i];
        assert('\0' <= c <= '\u{7f}');
        assert(c != '\0');
    }
    if s.len() < 8 {
        assert(f.take(s.len() as int) =~= b);
        assert forall|j: int| 0 <= j < s.len() implies f[j] != 0 by {
            assert(f[j] == b[j]);
        }
        lemma_until_nul_push(f, s.len() as int);
    } else {
        assert(f =~= b);
        lemma_until_nul_all(f);
    }
    assert(until_nul(name_field(s)) =~= b);
    assert(ascii_chars(b) =~= s);
}

proof fn lemma_names_bytes(ns: Seq<Seq<char>>, n: nat)
    requires
        n <= ns.len(),
    ensures
        names_bytes(ns, n).len() == 8 * n,
        forall|f: int| 0 <= f < n ==> #[trigger] names_bytes(ns, n).subrange(8 * f, 8 * f + 8) == name_field(ns[f]),
    decreases n,
{
    if n > 0 {
        lemma_names_bytes(ns, (n - 1) as nat);
        let b = names_bytes(ns, n);
        let p = names_bytes(ns, (n - 1) as nat);
        assert forall|f: int| 0 <= f < n implies #[trigger] b.subrange(8 * f, 8 * f + 8) == name_field(ns[f]) by {
            if f < n - 1 {
                assert(b.subrange(8 * f, 8 * f + 8) =~= p.subrange(8 * f, 8 * f + 8));
            } else {
                assert(b.subrange(8 * f, 8 * f + 8) =~= name_field(ns[f]));
            }
        }
    }
}

proof fn lemma_levels_bytes(levels: Seq<Py<BgListEntry>>, n: nat)
    requires
        n <= levels.len(),
    ensures
        levels_bytes(levels, n).len() == 88 * n,
        forall|c: int| 0 <= c < n ==> #[trigger] levels_bytes(levels, n).subrange(88 * c, 88 * c + 88) == names_bytes(
            entry_names(levels[c].0),
            11,
        ),
    decreases n,
{
    if n > 0 {
        lemma_levels_bytes(levels, (n - 1) as nat);
        lemma_names_bytes(entry_names(levels[n - 1].0), 11);
        let b = levels_bytes(levels, n);
        let p = levels_bytes(levels, (n - 1) as nat);
        assert forall|c: int| 0 <= c < n implies #[trigger] b.subrange(88 * c, 88 * c + 88) == names_bytes(
            entry_names(levels[c].0),
            11,
        ) by {
            if c < n - 1 {
                assert(b.subrange(88 * c, 88 * c + 88) =~= p.subrange(88 * c, 88 * c + 88));
            } else {
                assert(b.subrange(88 * c, 88 * c + 88) =~= names_bytes(entry_names(levels[c].0), 11));
            }
        }
    }
}

/// Whether a level entry reads back as itself: every name can be stored and holds no NUL, and
/// no BPA name is empty (an empty field reads as no BPA).
pub open spec fn level_roundtrips(e: BgListEntry) -> bool {
    &&& forall|f: int| 0 <= f < 11 ==> name_roundtrips(#[trigger] entry_names(e)[f])
    &&& forall|k: int| 0 <= k < 8 ==> ((#[trigger] e.bpa_names@[k]) matches Some(n) ==> n@.len() > 0)
}

/// Reading back what writing the levels gives returns their names: the data is readable and
/// each entry holds the names of its level.
pub proof fn lemma_bg_list_roundtrip(levels: Seq<Py<BgListEntry>>)
    requires
        forall|c: int| 0 <= c < levels.len() ==> level_roundtrips(#[trigger] levels[c].0),
    ensures
        ({
            let d = levels_bytes(levels, levels.len());
            &&& d.len() == 88 * levels.len()
            &&& bg_list_ok(d)
            &&& forall|c: int| 0 <= c < levels.len() ==> {
                &&& ascii_chars(field_bytes(d, 88 * c)) == (#[trigger] levels[c]).0.bpl_name@
                &&& ascii_chars(field_bytes(d, 88 * c + 8)) == levels[c].0.bpc_name@
                &&& ascii_chars(field_bytes(d, 88 * c + 16)) == levels[c].0.bma_name@
                &&& forall|k: int| 0 <= k < 8 ==> opt_name(field_bytes(d, 88 * c + 24 + 8 * k)) == opt_view(
                    #[trigger] levels[c].0.bpa_names@[k],
                )
            }
        }),
{
    let n = levels.len();
    let d = levels_bytes(levels, n);
    lemma_levels_bytes(levels, n);
    assert forall|c: int, f: int| 0 <= c < n && 0 <= f < 11 implies ascii_bytes(#[trigger] field_bytes(d, 88 * c + 8 * f))
        && ascii_chars(field_bytes(d, 88 * c + 8 * f)) == entry_names(levels[c].0)[f] by {
        let ns = entry_names(levels[c].0);
        lemma_names_bytes(ns, 11);
        assert(d.subrange(88 * c + 8 * f, 88 * c + 8 * f + 8) =~= names_bytes(ns, 11).subrange(8 * f, 8 * f + 8)) by {
            assert(d.subrange(88 * c, 88 * c + 88) == names_bytes(ns, 11));
        }
        assert(level_roundtrips(levels[c].0));
        assert(name_roundtrips(ns[f]));
        lemma_name_field_read(ns[f]);
    }
    assert(d.len() / 88 == n);
    assert forall|c: int| 0 <= c < n implies {
        &&& ascii_chars(field_bytes(d, 88 * c)) == (#[trigger] levels[c]).0.bpl_name@
        &&& ascii_chars(field_bytes(d, 88 * c + 8)) == levels[c].0.bpc_name@
        &&& ascii_chars(field_bytes(d, 88 * c + 16)) == levels[c].0.bma_name@
        &&& forall|k: int| 0 <= k < 8 ==> opt_name(field_bytes(d, 88 * c + 24 + 8 * k)) == opt_view(
            #[trigger] levels[c].0.bpa_names@[k],
        )
    } by {
        let e = levels[c].0;
        let ns = entry_names(e);
        assert(field_bytes(d, 88 * c + 8 * 0) == field_bytes(d, 88 * c));
        assert(field_bytes(d, 88 * c + 8 * 1) == field_bytes(d, 88 * c + 8));
        assert(field_bytes(d, 88 * c + 8 * 2) == field_bytes(d, 88 * c + 16));
        assert(ns[0] == e.bpl_name@ && ns[1] == e.bpc_name@ && ns[2] == e.bma_name@);
        assert forall|k: int| 0 <= k < 8 implies opt_name(field_bytes(d, 88 * c + 24 + 8 * k)) == opt_view(
            #[trigger] e.bpa_names@[k],
        ) by {
            let fb = field_bytes(d, 88 * c + 8 * (3 + k));
            assert(88 * c + 24 + 8 * k == 88 * c + 8 * (3 + k));
            assert(ascii_chars(fb) == ns[3 + k]);
            assert(level_roundtrips(e));
            match e.bpa_names@[k] {
                Some(nm) => {
                    assert(ns[3 + k] == nm@);
                    assert(fb.len() == nm@.len());
                },
                None => {
                    assert(ns[3 + k] == Seq::<char>::empty());
                    assert(fb.len() == 0);
                },
            }
        }
    }
}

} // verus!
