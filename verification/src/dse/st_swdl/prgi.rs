//! The program chunk of a SWDL file: instruments made of LFOs and key splits.
use crate::bytes::le16;
use crate::bytes::le32;
use crate::bytes::u16_le_bytes;
use crate::bytes::u32_le_bytes;
use crate::bytes::StBytes;
use crate::dse::st_smdl::eoc::magic_at;
use crate::dse::st_swdl::wavi::items_len;
use crate::dse::st_swdl::wavi::opt_bytes_views;
use crate::dse::st_swdl::wavi::table_chunk;
use crate::dse::st_swdl::wavi::table_chunk_bytes;
use crate::python::exceptions::PyAssertionError;
use crate::python::ErrorKind;
use crate::python::PyResult;
use vstd::prelude::*;

verus! {

/// "prgi"
pub open spec fn prgi_magic() -> Seq<u8> {
    seq![112u8, 114u8, 103u8, 105u8]
}

/// An LFO of a program (16 bytes).
#[derive(Clone, Copy, Debug, PartialEq, Eq, Structural)]
pub struct SwdlLfoEntry {
    pub unk34: u8,
    pub unk52: u8,
    pub dest: u8,
    pub wshape: u8,
    pub rate: u16,
    pub unk29: u16,
    pub depth: u16,
    pub delay: u16,
    pub unk32: u16,
    pub unk33: u16,
}

pub open spec fn lfo_at(s: Seq<u8>, p: int) -> SwdlLfoEntry {
    SwdlLfoEntry {
        unk34: s[p],
        unk52: s[p + 1],
        dest: s[p + 2],
        wshape: s[p + 3],
        rate: le16(s, p + 4) as u16,
        unk29: le16(s, p + 6) as u16,
        depth: le16(s, p + 8) as u16,
        delay: le16(s, p + 10) as u16,
        unk32: le16(s, p + 12) as u16,
        unk33: le16(s, p + 14) as u16,
    }
}

pub open spec fn lfo_bytes(l: SwdlLfoEntry) -> Seq<u8> {
    seq![l.unk34, l.unk52, l.dest, l.wshape] + u16_le_bytes(l.rate) + u16_le_bytes(l.unk29) + u16_le_bytes(l.depth)
        + u16_le_bytes(l.delay) + u16_le_bytes(l.unk32) + u16_le_bytes(l.unk33)
}

impl SwdlLfoEntry {
    /// Reads the LFO at `pos`; fails where fewer than 16 bytes remain.
    pub fn from_bytes(source: &[u8], pos: usize) -> (r: PyResult<Self>)
        requires
            pos <= source@.len(),
        ensures
            source@.len() - pos < 16 ==> (r matches Err(e) && e.kind == ErrorKind::AssertionError),
            source@.len() - pos >= 16 ==> r == Ok::<SwdlLfoEntry, crate::python::PyErr>(lfo_at(source@, pos as int)),
    {
        if source.len() - pos < 16 {
            return Err(PyAssertionError::new_err("SWDL file too short (LFO EOF)."));
        }
        let s = source;
        let p = pos;
        Ok(SwdlLfoEntry {
            unk34: s[p],
            unk52: s[p + 1],
            dest: s[p + 2],
            wshape: s[p + 3],
            rate: crate::bytes::read_u16_le(s, p + 4),
            unk29: crate::bytes::read_u16_le(s, p + 6),
            depth: crate::bytes::read_u16_le(s, p + 8),
            delay: crate::bytes::read_u16_le(s, p + 10),
            unk32: crate::bytes::read_u16_le(s, p + 12),
            unk33: crate::bytes::read_u16_le(s, p + 14),
        })
    }

    /// The 16 bytes of this LFO.
    pub fn to_bytes(&self) -> (r: StBytes)
        ensures
            r@ == lfo_bytes(*self),
    {
        let mut b: Vec<u8> = Vec::new();
        b.push(self.unk34);
        b.push(self.unk52);
        b.push(self.dest);
        b.push(self.wshape);
        crate::bytes::push_u16_le(&mut b, self.rate);
        crate::bytes::push_u16_le(&mut b, self.unk29);
        crate::bytes::push_u16_le(&mut b, self.depth);
        crate::bytes::push_u16_le(&mut b, self.delay);
        crate::bytes::push_u16_le(&mut b, self.unk32);
        crate::bytes::push_u16_le(&mut b, self.unk33);
        proof {
            assert(b@ =~= lfo_bytes(*self));
        }
        StBytes(b)
    }
}

/// A key split of a program (48 bytes): which sample plays for which keys and levels.
#[derive(Clone, Copy, Debug, PartialEq, Eq, Structural)]
pub struct SwdlSplitEntry {
    pub id: u8,
    pub unk11: u8,
    pub unk25: u8,
    pub lowkey: i8,
    pub hikey: i8,
    pub lolevel: i8,
    pub hilevel: i8,
    pub unk16: i32,
    pub unk17: i16,
    pub sample_id: u16,
    pub ftune: i8,
    pub ctune: i8,
    pub rootkey: i8,
    pub ktps: i8,
    pub sample_volume: i8,
    pub sample_pan: i8,
    pub keygroup_id: i8,
    pub unk22: u8,
    pub unk23: u16,
    pub unk24: u16,
    pub envelope: u8,
    pub envelope_multiplier: u8,
    pub unk37: u8,
    pub unk38: u8,
    pub unk39: u16,
    pub unk40: u16,
    pub attack_volume: i8,
    pub attack: i8,
    pub decay: i8,
    pub sustain: i8,
    pub hold: i8,
    pub decay2: i8,
    pub release: i8,
    pub unk53: i8,
}

/// Whether the split at `p` is complete and stores its key and level range twice alike.
pub open spec fn split_ok(s: Seq<u8>, p: int) -> bool {
    &&& s.len() - p >= 48
    &&& s[p + 6] == s[p + 4]
    &&& s[p + 7] == s[p + 5]
    &&& s[p + 10] == s[p + 8]
    &&& s[p + 11] == s[p + 9]
}

pub open spec fn split_at(s: Seq<u8>, p: int) -> SwdlSplitEntry {
    SwdlSplitEntry {
        id: s[p + 1],
        unk11: s[p + 2],
        unk25: s[p + 3],
        lowkey: s[p + 4] as i8,
        hikey: s[p + 5] as i8,
        lolevel: s[p + 8] as i8,
        hilevel: s[p + 9] as i8,
        unk16: le32(s, p + 12) as i32,
        unk17: le16(s, p + 16) as i16,
        sample_id: le16(s, p + 18) as u16,
        ftune: s[p + 20] as i8,
        ctune: s[p + 21] as i8,
        rootkey: s[p + 22] as i8,
        ktps: s[p + 23] as i8,
        sample_volume: s[p + 24] as i8,
        sample_pan: s[p + 25] as i8,
        keygroup_id: s[p + 26] as i8,
        unk22: s[p + 27],
        unk23: le16(s, p + 28) as u16,
        unk24: le16(s, p + 30) as u16,
        envelope: s[p + 32],
        envelope_multiplier: s[p + 33],
        unk37: s[p + 34],
        unk38: s[p + 35],
        unk39: le16(s, p + 36) as u16,
        unk40: le16(s, p + 38) as u16,
        attack_volume: s[p + 40] as i8,
        attack: s[p + 41] as i8,
        decay: s[p + 42] as i8,
        sustain: s[p + 43] as i8,
        hold: s[p + 44] as i8,
        decay2: s[p + 45] as i8,
        release: s[p + 46] as i8,
        unk53: s[p + 47] as i8,
    }
}

pub open spec fn split_bytes(e: SwdlSplitEntry) -> Seq<u8> {
    seq![
        0u8, e.id, e.unk11, e.unk25, e.lowkey as u8, e.hikey as u8, e.lowkey as u8, e.hikey as u8,
        e.lolevel as u8, e.hilevel as u8, e.lolevel as u8, e.hilevel as u8,
    ] + u32_le_bytes(e.unk16 as u32) + u16_le_bytes(e.unk17 as u16) + u16_le_bytes(e.sample_id) + seq![
        e.ftune as u8, e.ctune as u8, e.rootkey as u8, e.ktps as u8, e.sample_volume as u8, e.sample_pan as u8,
        e.keygroup_id as u8, e.unk22,
    ] + u16_le_bytes(e.unk23) + u16_le_bytes(e.unk24) + seq![e.envelope, e.envelope_multiplier, e.unk37, e.unk38]
        + u16_le_bytes(e.unk39) + u16_le_bytes(e.unk40) + seq![
        e.attack_volume as u8, e.attack as u8, e.decay as u8, e.sustain as u8, e.hold as u8, e.decay2 as u8,
        e.release as u8, e.unk53 as u8,
    ]
}

impl SwdlSplitEntry {
    /// Reads the split at `pos`; fails where fewer than 48 bytes remain or a stored range
    /// differs from its copy.
    pub fn from_bytes(source: &[u8], pos: usize) -> (r: PyResult<Self>)
        requires
            pos <= source@.len(),
        ensures
            !split_ok(source@, pos as int) ==> (r matches Err(e) && e.kind == ErrorKind::AssertionError),
            split_ok(source@, pos as int) ==> r == Ok::<SwdlSplitEntry, crate::python::PyErr>(split_at(source@, pos as int)),
    {
        if source.len() - pos < 48 {
            return Err(PyAssertionError::new_err("SWDL file too short (Split EOF)."));
        }
        let s = source;
        let p = pos;
        if s[p + 6] != s[p + 4] {
            return Err(PyAssertionError::new_err("SWDL file: Invalid lowkey duplicate (Split EOF)."));
        }
        if s[p + 7] != s[p + 5] {
            return Err(PyAssertionError::new_err("SWDL file: Invalid hikey duplicate (Split EOF)."));
        }
        if s[p + 10] != s[p + 8] {
            return Err(PyAssertionError::new_err("SWDL file: Invalid lolevel duplicate (Split EOF)."));
        }
        if s[p + 11] != s[p + 9] {
            return Err(PyAssertionError::new_err("SWDL file: Invalid hilevel duplicate (Split EOF)."));
        }
        Ok(SwdlSplitEntry {
            id: s[p + 1],
            unk11: s[p + 2],
            unk25: s[p + 3],
            lowkey: s[p + 4] as i8,
            hikey: s[p + 5] as i8,
            lolevel: s[p + 8] as i8,
            hilevel: s[p + 9] as i8,
            unk16: crate::bytes::read_u32_le(s, p + 12) as i32,
            unk17: crate::bytes::read_u16_le(s, p + 16) as i16,
            sample_id: crate::bytes::read_u16_le(s, p + 18),
            ftune: s[p + 20] as i8,
            ctune: s[p + 21] as i8,
            rootkey: s[p + 22] as i8,
            ktps: s[p + 23] as i8,
            sample_volume: s[p + 24] as i8,
            sample_pan: s[p + 25] as i8,
            keygroup_id: s[p + 26] as i8,
            unk22: s[p + 27],
            unk23: crate::bytes::read_u16_le(s, p + 28),
            unk24: crate::bytes::read_u16_le(s, p + 30),
            envelope: s[p + 32],
            envelope_multiplier: s[p + 33],
            unk37: s[p + 34],
            unk38: s[p + 35],
            unk39: crate::bytes::read_u16_le(s, p + 36),
            unk40: crate::bytes::read_u16_le(s, p + 38),
            attack_volume: s[p + 40] as i8,
            attack: s[p + 41] as i8,
            decay: s[p + 42] as i8,
            sustain: s[p + 43] as i8,
            hold: s[p + 44] as i8,
            decay2: s[p + 45] as i8,
            release: s[p + 46] as i8,
            unk53: s[p + 47] as i8,
        })
    }

    /// The 48 bytes of this split.
    pub fn to_bytes(&self) -> (r: StBytes)
        ensures
            r@ == split_bytes(*self),
    {
        let mut b: Vec<u8> = Vec::new();
        b.push(0);
        b.push(self.id);
        b.push(self.unk11);
        b.push(self.unk25);
        b.push(self.lowkey as u8);
        b.push(self.hikey as u8);
        b.push(self.lowkey as u8);
        b.push(self.hikey as u8);
        b.push(self.lolevel as u8);
        b.push(self.hilevel as u8);
        b.push(self.lolevel as u8);
        b.push(self.hilevel as u8);
        crate::bytes::push_u32_le(&mut b, self.unk16 as u32);
        crate::bytes::push_u16_le(&mut b, self.unk17 as u16);
        crate::bytes::push_u16_le(&mut b, self.sample_id);
        b.push(self.ftune as u8);
        b.push(self.ctune as u8);
        b.push(self.rootkey as u8);
        b.push(self.ktps as u8);
        b.push(self.sample_volume as u8);
        b.push(self.sample_pan as u8);
        b.push(self.keygroup_id as u8);
        b.push(self.unk22);
        crate::bytes::push_u16_le(&mut b, self.unk23);
        crate::bytes::push_u16_le(&mut b, self.unk24);
        b.push(self.envelope);
        b.push(self.envelope_multiplier);
        b.push(self.unk37);
        b.push(self.unk38);
        crate::bytes::push_u16_le(&mut b, self.unk39);
        crate::bytes::push_u16_le(&mut b, self.unk40);
        b.push(self.attack_volume as u8);
        b.push(self.attack as u8);
        b.push(self.decay as u8);
        b.push(self.sustain as u8);
        b.push(self.hold as u8);
        b.push(self.decay2 as u8);
        b.push(self.release as u8);
        b.push(self.unk53 as u8);
        proof {
            assert(b@ =~= split_bytes(*self));
        }
        StBytes(b)
    }
}


/// A program: header values, LFOs and splits.
pub struct SwdlProgram {
    pub id: u16,
    pub prg_volume: i8,
    pub prg_pan: i8,
    pub unk3: u8,
    pub that_f_byte: u8,
    pub unk4: u16,
    pub unk5: u8,
    pub unk7: u8,
    pub unk8: u8,
    pub unk9: u8,
    pub lfos: Vec<SwdlLfoEntry>,
    pub splits: Vec<SwdlSplitEntry>,
    pub delimiter: u8,
}

/// What a program holds, as plain values.
pub struct ProgramModel {
    pub id: u16,
    pub prg_volume: i8,
    pub prg_pan: i8,
    pub unk3: u8,
    pub that_f_byte: u8,
    pub unk4: u16,
    pub unk5: u8,
    pub unk7: u8,
    pub unk8: u8,
    pub unk9: u8,
    pub lfos: Seq<SwdlLfoEntry>,
    pub splits: Seq<SwdlSplitEntry>,
    pub delimiter: u8,
}

pub open spec fn program_view(p: SwdlProgram) -> ProgramModel {
    ProgramModel {
        id: p.id,
        prg_volume: p.prg_volume,
        prg_pan: p.prg_pan,
        unk3: p.unk3,
        that_f_byte: p.that_f_byte,
        unk4: p.unk4,
        unk5: p.unk5,
        unk7: p.unk7,
        unk8: p.unk8,
        unk9: p.unk9,
        lfos: p.lfos@,
        splits: p.splits@,
        delimiter: p.delimiter,
    }
}

/// What reading a program gives.
pub enum ProgRead {
    /// Reading fails (a short header, LFO or split, or a range that differs from its copy).
    Fail,
    /// The data ends inside the 16 bytes after the LFOs (reading panics).
    Cut,
    Read(ProgramModel),
}

/// Where the splits of the program at `p` start.
pub open spec fn splits_start(s: Seq<u8>, p: int) -> int {
    p + 16 + 16 * s[p + 11] + 16
}

/// Reading the program at `p`: a 16-byte header, its LFOs, 16 delimiter bytes, its splits.
pub open spec fn program_read(s: Seq<u8>, p: int) -> ProgRead {
    if s.len() - p < 16 {
        ProgRead::Fail
    } else if s.len() - p - 16 < 16 * s[p + 11] {
        ProgRead::Fail
    } else if s.len() - (p + 16 + 16 * s[p + 11]) < 16 {
        ProgRead::Cut
    } else if exists|k: int| 0 <= k < le16(s, p + 2) && !#[trigger] split_ok(s, splits_start(s, p) + 48 * k) {
        ProgRead::Fail
    } else {
        ProgRead::Read(ProgramModel {
            id: le16(s, p) as u16,
            prg_volume: s[p + 4] as i8,
            prg_pan: s[p + 5] as i8,
            unk3: s[p + 6],
            that_f_byte: s[p + 7],
            unk4: le16(s, p + 8) as u16,
            unk5: s[p + 10],
            unk7: s[p + 13],
            unk8: s[p + 14],
            unk9: s[p + 15],
            lfos: Seq::new(s[p + 11] as nat, |k: int| lfo_at(s, p + 16 + 16 * k)),
            splits: Seq::new(le16(s, p + 2) as nat, |k: int| split_at(s, splits_start(s, p) + 48 * k)),
            delimiter: s[p + 12],
        })
    }
}

pub open spec fn lfos_bytes(l: Seq<SwdlLfoEntry>, k: nat) -> Seq<u8>
    decreases k,
{
    if k == 0 {
        Seq::empty()
    } else {
        lfos_bytes(l, (k - 1) as nat) + lfo_bytes(l[k - 1])
    }
}

pub open spec fn splits_bytes(l: Seq<SwdlSplitEntry>, k: nat) -> Seq<u8>
    decreases k,
{
    if k == 0 {
        Seq::empty()
    } else {
        splits_bytes(l, (k - 1) as nat) + split_bytes(l[k - 1])
    }
}

/// The bytes of a program; the counts are stored in 16 and 8 bits.
pub open spec fn program_bytes(m: ProgramModel) -> Seq<u8> {
    u16_le_bytes(m.id) + u16_le_bytes((m.splits.len() % 0x10000) as u16) + seq![
        m.prg_volume as u8, m.prg_pan as u8, m.unk3, m.that_f_byte,
    ] + u16_le_bytes(m.unk4) + seq![m.unk5, (m.lfos.len() % 0x100) as u8, m.delimiter, m.unk7, m.unk8, m.unk9]
        + lfos_bytes(m.lfos, m.lfos.len()) + Seq::new(16, |i: int| m.delimiter) + splits_bytes(m.splits, m.splits.len())
}

impl SwdlProgram {
    /// Reads the program at `pos` (see `program_read`).
    pub fn from_bytes(source: &[u8], pos: usize) -> (r: PyResult<Self>)
        requires
            pos <= source@.len(),
            !(program_read(source@, pos as int) is Cut),
        ensures
            program_read(source@, pos as int) is Fail ==> (r matches Err(e) && e.kind == ErrorKind::AssertionError),
            program_read(source@, pos as int) matches ProgRead::Read(m) ==> (r matches Ok(p) && program_view(p) == m),
    {
        let n = source.len();
        if n - pos < 16 {
            return Err(PyAssertionError::new_err("SWDL file too short (PRG EOF)."));
        }
        let s = source;
        let p = pos;
        let number_splits = crate::bytes::read_u16_le(s, p + 2) as usize;
        let number_lfos = s[p + 11] as usize;
        let ghost gl = Seq::new(s@[p + 11] as nat, |k: int| lfo_at(s@, p + 16 + 16 * k));
        let mut lfos: Vec<SwdlLfoEntry> = Vec::new();
        let mut k: usize = 0;
        while k < number_lfos
            invariant
                p == pos,
                s@ == source@,
                n == s@.len(),
                p + 16 <= n,
                number_lfos == s@[p + 11],
                gl == Seq::new(s@[p + 11] as nat, |k: int| lfo_at(s@, p + 16 + 16 * k)),
                k <= number_lfos,
                lfos@ == gl.take(k as int),
                16 * k <= n - p - 16,
            decreases number_lfos - k,
        {
            let l = match SwdlLfoEntry::from_bytes(s, p + 16 + 16 * k) {
                Ok(l) => l,
                Err(e) => {
                    assert(n - p - 16 < 16 * number_lfos) by (nonlinear_arith)
                        requires
                            n - (p + 16 + 16 * k) < 16,
                            k < number_lfos,
                    ;
                    return Err(e);
                },
            };
            proof {
                assert(gl.take(k + 1) =~= gl.take(k as int).push(l));
            }
            lfos.push(l);
            k = k + 1;
        }
        assert(lfos@ =~= gl);
        let q = p + 16 + 16 * number_lfos;
        assert(n - q >= 16);
        let start = q + 16;
        let ghost gs = Seq::new(le16(s@, p + 2) as nat, |k: int| split_at(s@, splits_start(s@, p as int) + 48 * k));
        let mut splits: Vec<SwdlSplitEntry> = Vec::new();
        let mut j: usize = 0;
        while j < number_splits
            invariant
                p == pos,
                s@ == source@,
                n == s@.len(),
                start == splits_start(s@, p as int),
                start <= n,
                number_splits == le16(s@, p + 2),
                gs == Seq::new(le16(s@, p + 2) as nat, |k: int| split_at(s@, splits_start(s@, p as int) + 48 * k)),
                j <= number_splits,
                splits@ == gs.take(j as int),
                forall|k: int| 0 <= k < j ==> #[trigger] split_ok(s@, splits_start(s@, p as int) + 48 * k),
                48 * j <= n - start || j == number_splits,
            decreases number_splits - j,
        {
            if n - start < 48 * j {
                assert(!split_ok(s@, splits_start(s@, p as int) + 48 * (j as int)));
                return Err(PyAssertionError::new_err("SWDL file too short (Split EOF)."));
            }
            let e = match SwdlSplitEntry::from_bytes(s, start + 48 * j) {
                Ok(e) => e,
                Err(er) => {
                    assert(!split_ok(s@, splits_start(s@, p as int) + 48 * (j as int)));
                    return Err(er);
                },
            };
            proof {
                assert(gs.take(j + 1) =~= gs.take(j as int).push(e));
            }
            splits.push(e);
            j = j + 1;
        }
        assert(splits@ =~= gs);
        Ok(SwdlProgram {
            id: crate::bytes::read_u16_le(s, p),
            prg_volume: s[p + 4] as i8,
            prg_pan: s[p + 5] as i8,
            unk3: s[p + 6],
            that_f_byte: s[p + 7],
            unk4: crate::bytes::read_u16_le(s, p + 8),
            unk5: s[p + 10],
            unk7: s[p + 13],
            unk8: s[p + 14],
            unk9: s[p + 15],
            lfos,
            splits,
            delimiter: s[p + 12],
        })
    }

    /// The bytes of this program (see `program_bytes`).
    pub fn to_bytes(&self) -> (r: StBytes)
        ensures
            r@ == program_bytes(program_view(*self)),
    {
        let mut b: Vec<u8> = Vec::new();
        crate::bytes::push_u16_le(&mut b, self.id);
        crate::bytes::push_u16_le(&mut b, (self.splits.len() % 0x10000) as u16);
        b.push(self.prg_volume as u8);
        b.push(self.prg_pan as u8);
        b.push(self.unk3);
        b.push(self.that_f_byte);
        crate::bytes::push_u16_le(&mut b, self.unk4);
        b.push(self.unk5);
        b.push((self.lfos.len() % 0x100) as u8);
        b.push(self.delimiter);
        b.push(self.unk7);
        b.push(self.unk8);
        b.push(self.unk9);
        let ghost head = b@;
        let mut k: usize = 0;
        while k < self.lfos.len()
            invariant
                k <= self.lfos@.len(),
                b@ == head + lfos_bytes(self.lfos@, k as nat),
            decreases self.lfos@.len() - k,
        {
            let x = self.lfos[k].to_bytes();
            crate::bytes::push_all(&mut b, x.as_slice());
            k = k + 1;
            assert(b@ =~= head + lfos_bytes(self.lfos@, k as nat));
        }
        let d = crate::bytes::filled(self.delimiter, 16);
        crate::bytes::push_all(&mut b, d.as_slice());
        let ghost mid = b@;
        let mut j: usize = 0;
        while j < self.splits.len()
            invariant
                j <= self.splits@.len(),
                b@ == mid + splits_bytes(self.splits@, j as nat),
            decreases self.splits@.len() - j,
        {
            let x = self.splits[j].to_bytes();
            crate::bytes::push_all(&mut b, x.as_slice());
            j = j + 1;
            assert(b@ =~= mid + splits_bytes(self.splits@, j as nat));
        }
        proof {
            assert(b@ =~= program_bytes(program_view(*self)));
        }
        StBytes(b)
    }
}


/// What one slot of the program table designates.
pub enum PrgiSlot {
    Fail,
    Cut,
    Empty,
    Item(ProgramModel),
}

/// Slot `i` of the program table whose table of contents starts at `base`, in chunk data of
/// `lcd` bytes.
pub open spec fn prgi_slot(s: Seq<u8>, base: int, lcd: nat, i: int) -> PrgiSlot {
    let pnt = le16(s, base + 2 * i);
    if pnt >= lcd {
        PrgiSlot::Fail
    } else if pnt == 0 {
        PrgiSlot::Empty
    } else if s.len() - base < pnt {
        PrgiSlot::Cut
    } else {
        match program_read(s, base + pnt) {
            ProgRead::Fail => PrgiSlot::Fail,
            ProgRead::Cut => PrgiSlot::Cut,
            ProgRead::Read(m) => PrgiSlot::Item(m),
        }
    }
}

/// What reading a program table gives.
pub enum PrgiRead {
    Fail,
    Cut,
    Read(Seq<Option<ProgramModel>>),
}

/// Reading the first `k` slots, in order.
pub open spec fn prgi_run(s: Seq<u8>, base: int, lcd: nat, k: nat) -> PrgiRead
    decreases k,
{
    if k == 0 {
        PrgiRead::Read(Seq::empty())
    } else {
        match prgi_run(s, base, lcd, (k - 1) as nat) {
            PrgiRead::Read(v) => match prgi_slot(s, base, lcd, k - 1) {
                PrgiSlot::Fail => PrgiRead::Fail,
                PrgiSlot::Cut => PrgiRead::Cut,
                PrgiSlot::Empty => PrgiRead::Read(v.push(None)),
                PrgiSlot::Item(m) => PrgiRead::Read(v.push(Some(m))),
            },
            other => other,
        }
    }
}

/// Reading the program chunk at `pos` with `slots` table entries.
pub open spec fn prgi_read(s: Seq<u8>, pos: int, slots: nat) -> PrgiRead {
    if s.len() - pos < 16 + 2 * slots || s.subrange(pos, pos + 4) != prgi_magic() {
        PrgiRead::Fail
    } else {
        match prgi_run(s, pos + 16, le32(s, pos + 12) as nat, slots) {
            PrgiRead::Read(v) => if s.len() - pos - 16 < le32(s, pos + 12) {
                PrgiRead::Cut
            } else {
                PrgiRead::Read(v)
            },
            other => other,
        }
    }
}

/// The program chunk.
pub struct SwdlPrgi {
    pub program_table: Vec<Option<SwdlProgram>>,
}

pub open spec fn prgi_view(t: Seq<Option<SwdlProgram>>) -> Seq<Option<ProgramModel>> {
    Seq::new(t.len(), |i: int| match t[i] {
        Some(p) => Some(program_view(p)),
        None => None,
    })
}

/// The bytes of each program of a table.
pub open spec fn prgi_items(t: Seq<Option<ProgramModel>>) -> Seq<Option<Seq<u8>>> {
    Seq::new(t.len(), |i: int| match t[i] {
        Some(m) => Some(program_bytes(m)),
        None => None,
    })
}

/// The bytes of a program chunk.
pub open spec fn prgi_bytes(t: Seq<Option<ProgramModel>>) -> Seq<u8> {
    table_chunk_bytes(prgi_magic(), prgi_items(t))
}

proof fn lemma_prgi_run_stuck(s: Seq<u8>, base: int, lcd: nat, k: nat, m: nat)
    requires
        k <= m,
        !(prgi_run(s, base, lcd, k) is Read),
    ensures
        prgi_run(s, base, lcd, m) == prgi_run(s, base, lcd, k),
    decreases m - k,
{
    if m > k {
        lemma_prgi_run_stuck(s, base, lcd, k, (m - 1) as nat);
    }
}

impl SwdlPrgi {
    /// Reads the chunk at `pos` with `number_slots` table entries (see `prgi_read`); returns it
    /// and the position after its data.
    pub fn from_bytes(source: &[u8], pos: usize, number_slots: u16) -> (r: PyResult<(Self, usize)>)
        requires
            pos <= source@.len(),
            !(prgi_read(source@, pos as int, number_slots as nat) is Cut),
        ensures
            prgi_read(source@, pos as int, number_slots as nat) is Fail ==> (r matches Err(e) && e.kind
                == ErrorKind::AssertionError),
            prgi_read(source@, pos as int, number_slots as nat) matches PrgiRead::Read(v) ==> (r matches Ok((pr, end))
                && prgi_view(pr.program_table@) == v && end == pos + 16 + le32(source@, pos + 12)),
    {
        let n = source.len();
        let slots = number_slots as usize;
        if n - pos < 16 + 2 * slots {
            return Err(PyAssertionError::new_err("SWDL file too short (Prgi EOF)."));
        }
        if !magic_at(source, pos, 112, 114, 103, 105) {
            return Err(PyAssertionError::new_err("Invalid PRGI/Prgi header."));
        }
        let lcd = crate::bytes::read_u32_le(source, pos + 12);
        let base = pos + 16;
        let ghost goal = prgi_read(source@, pos as int, number_slots as nat);
        let mut table: Vec<Option<SwdlProgram>> = Vec::new();
        let mut i: usize = 0;
        assert(prgi_view(table@) =~= Seq::<Option<ProgramModel>>::empty());
        while i < slots
            invariant
                n == source@.len(),
                base == pos + 16,
                n - pos >= 16 + 2 * slots,
                slots == number_slots,
                lcd == le32(source@, pos + 12),
                source@.subrange(pos as int, pos + 4) == prgi_magic(),
                goal == prgi_read(source@, pos as int, number_slots as nat),
                !(goal is Cut),
                i <= slots,
                prgi_run(source@, pos + 16, lcd as nat, i as nat) == PrgiRead::Read(prgi_view(table@)),
            decreases slots - i,
        {
            let pnt = crate::bytes::read_u16_le(source, base + 2 * i);
            let ghost before = prgi_view(table@);
            if pnt as u32 >= lcd {
                proof {
                    assert(prgi_run(source@, pos + 16, lcd as nat, (i + 1) as nat) is Fail);
                    lemma_prgi_run_stuck(source@, pos + 16, lcd as nat, (i + 1) as nat, slots as nat);
                }
                return Err(PyAssertionError::new_err("SWDL Prgi length invalid; tried to read past EOF."));
            }
            let item: Option<SwdlProgram> = if pnt > 0 {
                if n - base < pnt as usize {
                    proof {
                        assert(prgi_run(source@, pos + 16, lcd as nat, (i + 1) as nat) is Cut);
                        lemma_prgi_run_stuck(source@, pos + 16, lcd as nat, (i + 1) as nat, slots as nat);
                    }
                    return Err(PyAssertionError::new_err("SWDL file too short (Prgi EOF)."));
                }
                proof {
                    if program_read(source@, base + pnt) is Cut {
                        assert(prgi_run(source@, pos + 16, lcd as nat, (i + 1) as nat) is Cut);
                        lemma_prgi_run_stuck(source@, pos + 16, lcd as nat, (i + 1) as nat, slots as nat);
                    }
                }
                match SwdlProgram::from_bytes(source, base + pnt as usize) {
                    Ok(p) => Some(p),
                    Err(e) => {
                        proof {
                            assert(prgi_run(source@, pos + 16, lcd as nat, (i + 1) as nat) is Fail);
                            lemma_prgi_run_stuck(source@, pos + 16, lcd as nat, (i + 1) as nat, slots as nat);
                        }
                        return Err(e);
                    },
                }
            } else {
                None
            };
            table.push(item);
            proof {
                assert(prgi_view(table@) =~= before.push(match item {
                    Some(p) => Some(program_view(p)),
                    None => None,
                }));
            }
            i = i + 1;
        }
        if n - base < lcd as usize {
            return Err(PyAssertionError::new_err("SWDL file too short (Prgi EOF)."));
        }
        Ok((SwdlPrgi { program_table: table }, base + lcd as usize))
    }

    /// The bytes of this chunk (see `prgi_bytes`).
    pub fn to_bytes(&self) -> (r: StBytes)
        requires
            2 * self.program_table@.len() + 16 + items_len(prgi_items(prgi_view(self.program_table@)),
                self.program_table@.len()) <= usize::MAX,
        ensures
            r@ == prgi_bytes(prgi_view(self.program_table@)),
    {
        let t = &self.program_table;
        let ghost target = prgi_items(prgi_view(t@));
        let mut items: Vec<Option<StBytes>> = Vec::new();
        let mut i: usize = 0;
        while i < t.len()
            invariant
                i <= t@.len(),
                target == prgi_items(prgi_view(t@)),
                opt_bytes_views(items@) == target.take(i as int),
                items@.len() == i,
            decreases t@.len() - i,
        {
            let it: Option<StBytes> = match &t[i] {
                Some(p) => Some(p.to_bytes()),
                None => None,
            };
            let ghost old_items = items@;
            assert(it matches Some(b) ==> target[i as int] == Some(b@));
            assert(it is None ==> target[i as int] is None);
            items.push(it);
            proof {
                assert forall|j: int| 0 <= j < i + 1 implies #[trigger] opt_bytes_views(items@)[j] == target.take(i + 1)[j] by {
                    if j < i {
                        assert(items@[j] == old_items[j]);
                        assert(opt_bytes_views(old_items)[j] == target.take(i as int)[j]);
                    }
                }
                assert(opt_bytes_views(items@) =~= target.take(i + 1));
            }
            i = i + 1;
        }
        proof {
            assert(opt_bytes_views(items@) =~= target);
        }
        let d = table_chunk(&[112u8, 114, 103, 105], &items);
        proof {
            assert(seq![112u8, 114, 103, 105] =~= prgi_magic());
        }
        StBytes(d)
    }
}


/// Reading back the bytes of an LFO gives the LFO.
pub proof fn lemma_lfo_roundtrip(l: SwdlLfoEntry)
    ensures
        lfo_at(lfo_bytes(l), 0) == l,
{
    let b = lfo_bytes(l);
    assert(b.subrange(4, 6) =~= u16_le_bytes(l.rate));
    assert(b.subrange(6, 8) =~= u16_le_bytes(l.unk29));
    assert(b.subrange(8, 10) =~= u16_le_bytes(l.depth));
    assert(b.subrange(10, 12) =~= u16_le_bytes(l.delay));
    assert(b.subrange(12, 14) =~= u16_le_bytes(l.unk32));
    assert(b.subrange(14, 16) =~= u16_le_bytes(l.unk33));
    crate::bytes::lemma_le16_at(b, 4, l.rate);
    crate::bytes::lemma_le16_at(b, 6, l.unk29);
    crate::bytes::lemma_le16_at(b, 8, l.depth);
    crate::bytes::lemma_le16_at(b, 10, l.delay);
    crate::bytes::lemma_le16_at(b, 12, l.unk32);
    crate::bytes::lemma_le16_at(b, 14, l.unk33);
}

/// The bytes of a split are a readable split, and reading them back gives the split.
pub proof fn lemma_split_roundtrip(e: SwdlSplitEntry)
    ensures
        split_ok(split_bytes(e), 0),
        split_at(split_bytes(e), 0) == e,
{
    let b = split_bytes(e);
    assert(b.len() == 48);
    assert(b.subrange(12, 16) =~= u32_le_bytes(e.unk16 as u32));
    assert(b.subrange(16, 18) =~= u16_le_bytes(e.unk17 as u16));
    assert(b.subrange(18, 20) =~= u16_le_bytes(e.sample_id));
    assert(b.subrange(28, 30) =~= u16_le_bytes(e.unk23));
    assert(b.subrange(30, 32) =~= u16_le_bytes(e.unk24));
    assert(b.subrange(36, 38) =~= u16_le_bytes(e.unk39));
    assert(b.subrange(38, 40) =~= u16_le_bytes(e.unk40));
    crate::bytes::lemma_le32_at(b, 12, e.unk16 as u32);
    crate::bytes::lemma_le16_at(b, 16, e.unk17 as u16);
    crate::bytes::lemma_le16_at(b, 18, e.sample_id);
    crate::bytes::lemma_le16_at(b, 28, e.unk23);
    crate::bytes::lemma_le16_at(b, 30, e.unk24);
    crate::bytes::lemma_le16_at(b, 36, e.unk39);
    crate::bytes::lemma_le16_at(b, 38, e.unk40);
    let (a, c) = (e.unk16, e.unk17);
    assert((a as u32) as i32 == a) by (bit_vector);
    assert((c as u16) as i16 == c) by (bit_vector);
    crate::bytes::lemma_i8_roundtrip(e.lowkey);
    crate::bytes::lemma_i8_roundtrip(e.hikey);
    crate::bytes::lemma_i8_roundtrip(e.lolevel);
    crate::bytes::lemma_i8_roundtrip(e.hilevel);
    crate::bytes::lemma_i8_roundtrip(e.ftune);
    crate::bytes::lemma_i8_roundtrip(e.ctune);
    crate::bytes::lemma_i8_roundtrip(e.rootkey);
    crate::bytes::lemma_i8_roundtrip(e.ktps);
    crate::bytes::lemma_i8_roundtrip(e.sample_volume);
    crate::bytes::lemma_i8_roundtrip(e.sample_pan);
    crate::bytes::lemma_i8_roundtrip(e.keygroup_id);
    crate::bytes::lemma_i8_roundtrip(e.attack_volume);
    crate::bytes::lemma_i8_roundtrip(e.attack);
    crate::bytes::lemma_i8_roundtrip(e.decay);
    crate::bytes::lemma_i8_roundtrip(e.sustain);
    crate::bytes::lemma_i8_roundtrip(e.hold);
    crate::bytes::lemma_i8_roundtrip(e.decay2);
    crate::bytes::lemma_i8_roundtrip(e.release);
    crate::bytes::lemma_i8_roundtrip(e.unk53);
}


proof fn lemma_lfo_at_sub(s: Seq<u8>, p: int, x: SwdlLfoEntry)
    requires
        0 <= p,
        p + 16 <= s.len(),
        s.subrange(p, p + 16) == lfo_bytes(x),
    ensures
        lfo_at(s, p) == x,
{
    let b = lfo_bytes(x);
    lemma_lfo_roundtrip(x);
    assert forall|i: int| 0 <= i < 16 implies s[p + i] == #[trigger] b[i] by {
        assert(s.subrange(p, p + 16)[i] == s[p + i]);
    }
    assert(lfo_at(s, p) == lfo_at(b, 0));
}

proof fn lemma_split_at_sub(s: Seq<u8>, p: int, x: SwdlSplitEntry)
    requires
        0 <= p,
        p + 48 <= s.len(),
        s.subrange(p, p + 48) == split_bytes(x),
    ensures
        split_ok(s, p),
        split_at(s, p) == x,
{
    let b = split_bytes(x);
    lemma_split_roundtrip(x);
    assert forall|i: int| 0 <= i < 48 implies s[p + i] == #[trigger] b[i] by {
        assert(s.subrange(p, p + 48)[i] == s[p + i]);
    }
    assert(split_at(s, p) == split_at(b, 0));
}

proof fn lemma_lfos_bytes(l: Seq<SwdlLfoEntry>, n: nat)
    requires
        n <= l.len(),
    ensures
        lfos_bytes(l, n).len() == 16 * n,
        forall|i: int| 0 <= i < n ==> #[trigger] lfos_bytes(l, n).subrange(16 * i, 16 * i + 16) == lfo_bytes(l[i]),
    decreases n,
{
    if n > 0 {
        lemma_lfos_bytes(l, (n - 1) as nat);
        let b = lfos_bytes(l, n);
        let p = lfos_bytes(l, (n - 1) as nat);
        assert forall|i: int| 0 <= i < n implies #[trigger] b.subrange(16 * i, 16 * i + 16) == lfo_bytes(l[i]) by {
            if i < n - 1 {
                assert(b.subrange(16 * i, 16 * i + 16) =~= p.subrange(16 * i, 16 * i + 16));
            } else {
                assert(b.subrange(16 * i, 16 * i + 16) =~= lfo_bytes(l[i]));
            }
        }
    }
}

proof fn lemma_splits_bytes(l: Seq<SwdlSplitEntry>, n: nat)
    requires
        n <= l.len(),
    ensures
        splits_bytes(l, n).len() == 48 * n,
        forall|i: int| 0 <= i < n ==> #[trigger] splits_bytes(l, n).subrange(48 * i, 48 * i + 48) == split_bytes(l[i]),
    decreases n,
{
    if n > 0 {
        lemma_splits_bytes(l, (n - 1) as nat);
        let b = splits_bytes(l, n);
        let p = splits_bytes(l, (n - 1) as nat);
        assert forall|i: int| 0 <= i < n implies #[trigger] b.subrange(48 * i, 48 * i + 48) == split_bytes(l[i]) by {
            if i < n - 1 {
                assert(b.subrange(48 * i, 48 * i + 48) =~= p.subrange(48 * i, 48 * i + 48));
            } else {
                assert(b.subrange(48 * i, 48 * i + 48) =~= split_bytes(l[i]));
            }
        }
    }
}

/// The first 16 bytes of a program's bytes.
spec fn program_head(m: ProgramModel) -> Seq<u8> {
    u16_le_bytes(m.id) + u16_le_bytes((m.splits.len() % 0x10000) as u16) + seq![
        m.prg_volume as u8, m.prg_pan as u8, m.unk3, m.that_f_byte,
    ] + u16_le_bytes(m.unk4) + seq![m.unk5, (m.lfos.len() % 0x100) as u8, m.delimiter, m.unk7, m.unk8, m.unk9]
}

proof fn lemma_program_layout(m: ProgramModel)
    requires
        m.lfos.len() < 0x100,
        m.splits.len() < 0x10000,
    ensures
        program_bytes(m).len() == 32 + 16 * (m.lfos.len() as int) + 48 * m.splits.len(),
        program_bytes(m).subrange(0, 16) == program_head(m),
        program_bytes(m).subrange(16, 16 + 16 * (m.lfos.len() as int)) == lfos_bytes(m.lfos, m.lfos.len()),
        program_bytes(m).subrange(32 + 16 * (m.lfos.len() as int), program_bytes(m).len() as int)
            == splits_bytes(m.splits, m.splits.len()),
{
    let s = program_bytes(m);
    let nl: int = m.lfos.len() as int;
    let ns: int = m.splits.len() as int;
    let lb = lfos_bytes(m.lfos, nl as nat);
    let sb = splits_bytes(m.splits, ns as nat);
    lemma_lfos_bytes(m.lfos, nl as nat);
    lemma_splits_bytes(m.splits, ns as nat);
    let head = program_head(m);
    assert(head.len() == 16);
    let dl = Seq::new(16, |i: int| m.delimiter);
    assert(s =~= head + lb + dl + sb);
    assert(s.subrange(0, 16) =~= head);
    assert(s.subrange(16, 16 + 16 * nl) =~= lb);
    assert(s.subrange(32 + 16 * nl, s.len() as int) =~= sb);
}

proof fn lemma_program_header(m: ProgramModel)
    requires
        m.lfos.len() < 0x100,
        m.splits.len() < 0x10000,
    ensures
        program_bytes(m)[11] == m.lfos.len(),
        le16(program_bytes(m), 0) == m.id,
        le16(program_bytes(m), 2) == m.splits.len(),
        le16(program_bytes(m), 8) == m.unk4,
        program_bytes(m)[4] as i8 == m.prg_volume,
        program_bytes(m)[5] as i8 == m.prg_pan,
        program_bytes(m)[6] == m.unk3,
        program_bytes(m)[7] == m.that_f_byte,
        program_bytes(m)[10] == m.unk5,
        program_bytes(m)[12] == m.delimiter,
        program_bytes(m)[13] == m.unk7,
        program_bytes(m)[14] == m.unk8,
        program_bytes(m)[15] == m.unk9,
{
    let s = program_bytes(m);
    let head = program_head(m);
    lemma_program_layout(m);
    assert forall|i: int| 0 <= i < 16 implies s[i] == #[trigger] head[i] by {
        assert(s.subrange(0, 16)[i] == s[i]);
    }
    let ns: int = m.splits.len() as int;
    assert(s.subrange(0, 2) =~= u16_le_bytes(m.id));
    assert(s.subrange(2, 4) =~= u16_le_bytes(ns as u16));
    assert(s.subrange(8, 10) =~= u16_le_bytes(m.unk4));
    crate::bytes::lemma_le16_at(s, 0, m.id);
    crate::bytes::lemma_le16_at(s, 2, ns as u16);
    crate::bytes::lemma_le16_at(s, 8, m.unk4);
    crate::bytes::lemma_i8_roundtrip(m.prg_volume);
    crate::bytes::lemma_i8_roundtrip(m.prg_pan);
}

proof fn lemma_program_entries(m: ProgramModel)
    requires
        m.lfos.len() < 0x100,
        m.splits.len() < 0x10000,
    ensures
        forall|k: int| 0 <= k < m.splits.len() ==> #[trigger] split_ok(program_bytes(m), 32 + 16 * (m.lfos.len() as int) + 48 * k)
            && split_at(program_bytes(m), 32 + 16 * (m.lfos.len() as int) + 48 * k) == m.splits[k],
        forall|k: int| 0 <= k < m.lfos.len() ==> #[trigger] lfo_at(program_bytes(m), 16 + 16 * k) == m.lfos[k],
{
    let s = program_bytes(m);
    let nl: int = m.lfos.len() as int;
    let ns: int = m.splits.len() as int;
    let lb = lfos_bytes(m.lfos, nl as nat);
    let sb = splits_bytes(m.splits, ns as nat);
    lemma_lfos_bytes(m.lfos, nl as nat);
    lemma_splits_bytes(m.splits, ns as nat);
    lemma_program_layout(m);
    let ss = 32 + 16 * nl;
    assert forall|k: int| 0 <= k < ns implies #[trigger] split_ok(s, ss + 48 * k) && split_at(s, ss + 48 * k)
        == m.splits[k] by {
        assert(s.subrange(ss + 48 * k, ss + 48 * k + 48) =~= s.subrange(ss, s.len() as int).subrange(48 * k, 48 * k + 48));
        lemma_split_at_sub(s, ss + 48 * k, m.splits[k]);
    }
    assert forall|k: int| 0 <= k < nl implies #[trigger] lfo_at(s, 16 + 16 * k) == m.lfos[k] by {
        assert(s.subrange(16 + 16 * k, 16 + 16 * k + 16) =~= s.subrange(16, 16 + 16 * nl).subrange(16 * k, 16 * k + 16));
        lemma_lfo_at_sub(s, 16 + 16 * k, m.lfos[k]);
    }
}

proof fn lemma_program_read_of(s: Seq<u8>, m: ProgramModel)
    requires
        s.len() == 32 + 16 * (m.lfos.len() as int) + 48 * (m.splits.len() as int),
        s[11] == m.lfos.len(),
        le16(s, 0) == m.id,
        le16(s, 2) == m.splits.len(),
        le16(s, 8) == m.unk4,
        s[4] as i8 == m.prg_volume,
        s[5] as i8 == m.prg_pan,
        s[6] == m.unk3,
        s[7] == m.that_f_byte,
        s[10] == m.unk5,
        s[12] == m.delimiter,
        s[13] == m.unk7,
        s[14] == m.unk8,
        s[15] == m.unk9,
        forall|k: int| 0 <= k < m.splits.len() ==> #[trigger] split_ok(s, 32 + 16 * (m.lfos.len() as int) + 48 * k)
            && split_at(s, 32 + 16 * (m.lfos.len() as int) + 48 * k) == m.splits[k],
        forall|k: int| 0 <= k < m.lfos.len() ==> #[trigger] lfo_at(s, 16 + 16 * k) == m.lfos[k],
    ensures
        program_read(s, 0) == ProgRead::Read(m),
{
    let nl: int = m.lfos.len() as int;
    assert(splits_start(s, 0) == 32 + 16 * nl);
    assert forall|k: int| 0 <= k < le16(s, 2) implies #[trigger] split_ok(s, splits_start(s, 0) + 48 * k) by {
        assert(split_ok(s, 32 + 16 * nl + 48 * k));
    }
    let lf = Seq::new(s[11] as nat, |k: int| lfo_at(s, 0 + 16 + 16 * k));
    let sp = Seq::new(le16(s, 2) as nat, |k: int| split_at(s, splits_start(s, 0) + 48 * k));
    assert(lf =~= m.lfos);
    assert forall|k: int| 0 <= k < m.splits.len() implies sp[k] == m.splits[k] by {
        assert(split_ok(s, 32 + 16 * nl + 48 * k));
    }
    assert(sp =~= m.splits);
}

/// Reading back the bytes of a program gives the program, where it has fewer than 256 LFOs
/// and 65536 splits (the counts are stored in 8 and 16 bits).
pub proof fn lemma_program_roundtrip(m: ProgramModel)
    requires
        m.lfos.len() < 0x100,
        m.splits.len() < 0x10000,
    ensures
        program_read(program_bytes(m), 0) == ProgRead::Read(m),
{
    lemma_program_layout(m);
    lemma_program_header(m);
    lemma_program_entries(m);
    lemma_program_read_of(program_bytes(m), m);
}

} // verus!
