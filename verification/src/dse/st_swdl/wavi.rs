//! The sample information chunk of a SWDL file.
use crate::bytes::le16;
use crate::bytes::le32;
use crate::bytes::u16_le_bytes;
use crate::bytes::u32_le_bytes;
use crate::bytes::StBytes;
use crate::dse::st_smdl::eoc::magic_at;
use crate::dse::st_swdl::kgrp::chunk_head;
use crate::dse::st_swdl::pcmd::SwdlPcmd;
use crate::python::exceptions::PyAssertionError;
use crate::python::ErrorKind;
use crate::python::PyResult;
use vstd::prelude::*;

verus! {

/// "wavi"
pub open spec fn wavi_magic() -> Seq<u8> {
    seq![119u8, 97u8, 118u8, 105u8]
}

/// The formats of sample data.
#[derive(Clone, Copy, PartialEq, Eq, Structural, Debug)]
pub enum SampleFormatConsts {
    Pcm8bit,
    Pcm16bit,
    Adpcm4bit,
    Psg,
}

/// The stored value of a sample format.
pub open spec fn sample_format_value(f: SampleFormatConsts) -> u16 {
    match f {
        SampleFormatConsts::Pcm8bit => 0x0000,
        SampleFormatConsts::Pcm16bit => 0x0100,
        SampleFormatConsts::Adpcm4bit => 0x0200,
        SampleFormatConsts::Psg => 0x0300,
    }
}

/// The sample format a stored value stands for, if any.
pub open spec fn sample_format_of(v: u16) -> Option<SampleFormatConsts> {
    if v == 0x0000 {
        Some(SampleFormatConsts::Pcm8bit)
    } else if v == 0x0100 {
        Some(SampleFormatConsts::Pcm16bit)
    } else if v == 0x0200 {
        Some(SampleFormatConsts::Adpcm4bit)
    } else if v == 0x0300 {
        Some(SampleFormatConsts::Psg)
    } else {
        None
    }
}

impl SampleFormatConsts {
    /// The format stored as `v`, if any.
    pub fn from_u16(v: u16) -> (r: Option<Self>)
        ensures
            r == sample_format_of(v),
    {
        if v == 0x0000 {
            Some(SampleFormatConsts::Pcm8bit)
        } else if v == 0x0100 {
            Some(SampleFormatConsts::Pcm16bit)
        } else if v == 0x0200 {
            Some(SampleFormatConsts::Adpcm4bit)
        } else if v == 0x0300 {
            Some(SampleFormatConsts::Psg)
        } else {
            None
        }
    }

    /// The stored value of this format.
    pub fn to_u16(&self) -> (r: u16)
        ensures
            r == sample_format_value(*self),
    {
        match self {
            SampleFormatConsts::Pcm8bit => 0x0000,
            SampleFormatConsts::Pcm16bit => 0x0100,
            SampleFormatConsts::Adpcm4bit => 0x0200,
            SampleFormatConsts::Psg => 0x0300,
        }
    }
}

/// Where a sample's data lies in the sample data chunk.
#[derive(Clone, Copy, Debug, PartialEq, Eq, Structural)]
pub struct SwdlPcmdReference {
    pub offset: u32,
    pub length: u32,
}

impl SwdlPcmdReference {
    pub fn new(offset: u32, length: u32) -> (r: Self)
        ensures
            r == (SwdlPcmdReference { offset, length }),
    {
        SwdlPcmdReference { offset, length }
    }

    /// The sample's bytes in `pcmd`.
    pub fn get_sample<'a>(&self, pcmd: &'a SwdlPcmd) -> (r: &'a [u8])
        requires
            self.offset + self.length <= pcmd.chunk_data@.len(),
            self.offset + self.length <= u32::MAX,
        ensures
            r@ == pcmd.chunk_data@.subrange(self.offset as int, self.offset + self.length),
    {
        vstd::slice::slice_subrange(pcmd.chunk_data.as_slice(), self.offset as usize, (self.offset + self.length) as usize)
    }
}

/// One entry of the sample information table (64 bytes).
#[derive(Clone, Copy, Debug, PartialEq, Eq, Structural)]
pub struct SwdlSampleInfoTblEntry {
    pub id: u16,
    pub ftune: i8,
    pub ctune: i8,
    pub rootkey: i8,
    pub ktps: i8,
    pub volume: i8,
    pub pan: i8,
    pub unk5: u8,
    pub unk58: u8,
    pub sample_format: Option<SampleFormatConsts>,
    pub unk9: u8,
    pub loops: bool,
    pub unk10: u16,
    pub unk11: u16,
    pub unk12: u16,
    pub unk13: u32,
    pub sample_rate: u32,
    pub sample: Option<SwdlPcmdReference>,
    pub loop_begin_pos: u32,
    pub loop_length: u32,
    pub envelope: u8,
    pub envelope_multiplier: u8,
    pub unk19: u8,
    pub unk20: u8,
    pub unk21: u16,
    pub unk22: u16,
    pub attack_volume: i8,
    pub attack: i8,
    pub decay: i8,
    pub sustain: i8,
    pub hold: i8,
    pub decay2: i8,
    pub release: i8,
    pub unk57: i8,
    pub sample_pos: u32,
}

/// The entry stored at `p` (its sample reference is set later).
pub open spec fn sample_info_at(s: Seq<u8>, p: int) -> SwdlSampleInfoTblEntry {
    SwdlSampleInfoTblEntry {
        id: le16(s, p + 2) as u16,
        ftune: s[p + 4] as i8,
        ctune: s[p + 5] as i8,
        rootkey: s[p + 6] as i8,
        ktps: s[p + 7] as i8,
        volume: s[p + 8] as i8,
        pan: s[p + 9] as i8,
        unk5: s[p + 10],
        unk58: s[p + 11],
        sample_format: sample_format_of(le16(s, p + 18) as u16),
        unk9: s[p + 20],
        loops: s[p + 21] > 0,
        unk10: le16(s, p + 22) as u16,
        unk11: le16(s, p + 24) as u16,
        unk12: le16(s, p + 26) as u16,
        unk13: le32(s, p + 28) as u32,
        sample_rate: le32(s, p + 32) as u32,
        sample: None,
        sample_pos: le32(s, p + 36) as u32,
        loop_begin_pos: le32(s, p + 40) as u32,
        loop_length: le32(s, p + 44) as u32,
        envelope: s[p + 48],
        envelope_multiplier: s[p + 49],
        unk19: s[p + 50],
        unk20: s[p + 51],
        unk21: le16(s, p + 52) as u16,
        unk22: le16(s, p + 54) as u16,
        attack_volume: s[p + 56] as i8,
        attack: s[p + 57] as i8,
        decay: s[p + 58] as i8,
        sustain: s[p + 59] as i8,
        hold: s[p + 60] as i8,
        decay2: s[p + 61] as i8,
        release: s[p + 62] as i8,
        unk57: s[p + 63] as i8,
    }
}

/// The 64 bytes of an entry; an unknown sample format is written as 0.
pub open spec fn sample_info_bytes(e: SwdlSampleInfoTblEntry) -> Seq<u8> {
    seq![0x01u8, 0xAA] + u16_le_bytes(e.id) + seq![
        e.ftune as u8, e.ctune as u8, e.rootkey as u8, e.ktps as u8, e.volume as u8, e.pan as u8, e.unk5, e.unk58,
        0x00, 0x00, 0xAA, 0xAA, 0x15, 0x04,
    ] + u16_le_bytes(
        match e.sample_format {
            Some(f) => sample_format_value(f),
            None => 0,
        },
    ) + seq![e.unk9, if e.loops { 1u8 } else { 0u8 }] + u16_le_bytes(e.unk10) + u16_le_bytes(e.unk11)
        + u16_le_bytes(e.unk12) + u32_le_bytes(e.unk13) + u32_le_bytes(e.sample_rate) + u32_le_bytes(e.sample_pos)
        + u32_le_bytes(e.loop_begin_pos) + u32_le_bytes(e.loop_length) + seq![
        e.envelope, e.envelope_multiplier, e.unk19, e.unk20,
    ] + u16_le_bytes(e.unk21) + u16_le_bytes(e.unk22) + seq![
        e.attack_volume as u8, e.attack as u8, e.decay as u8, e.sustain as u8, e.hold as u8, e.decay2 as u8,
        e.release as u8, e.unk57 as u8,
    ]
}

impl SwdlSampleInfoTblEntry {
    /// Where the entry's sample data was stored when it was read.
    pub fn get_initial_sample_pos(&self) -> (r: u32)
        ensures
            r == self.sample_pos,
    {
        self.sample_pos
    }

    /// The length of the sample data in bytes: four per loop position.
    pub fn get_sample_length(&self) -> (r: u32)
        requires
            (self.loop_begin_pos + self.loop_length) * 4 <= u32::MAX,
        ensures
            r == (self.loop_begin_pos + self.loop_length) * 4,
    {
        (self.loop_begin_pos + self.loop_length) * 4
    }

    /// Reads the entry at `pos`; fails where fewer than 64 bytes remain.
    pub fn from_bytes(source: &[u8], pos: usize) -> (r: PyResult<Self>)
        requires
            pos <= source@.len(),
        ensures
            source@.len() - pos < 64 ==> (r matches Err(e) && e.kind == ErrorKind::AssertionError),
            source@.len() - pos >= 64 ==> r == Ok::<SwdlSampleInfoTblEntry, crate::python::PyErr>(
                sample_info_at(source@, pos as int),
            ),
    {
        if source.len() - pos < 64 {
            return Err(PyAssertionError::new_err("SWDL file too short (Sample Table EOF)."));
        }
        let s = source;
        let p = pos;
        Ok(SwdlSampleInfoTblEntry {
            id: crate::bytes::read_u16_le(s, p + 2),
            ftune: s[p + 4] as i8,
            ctune: s[p + 5] as i8,
            rootkey: s[p + 6] as i8,
            ktps: s[p + 7] as i8,
            volume: s[p + 8] as i8,
            pan: s[p + 9] as i8,
            unk5: s[p + 10],
            unk58: s[p + 11],
            sample_format: SampleFormatConsts::from_u16(crate::bytes::read_u16_le(s, p + 18)),
            unk9: s[p + 20],
            loops: s[p + 21] > 0,
            unk10: crate::bytes::read_u16_le(s, p + 22),
            unk11: crate::bytes::read_u16_le(s, p + 24),
            unk12: crate::bytes::read_u16_le(s, p + 26),
            unk13: crate::bytes::read_u32_le(s, p + 28),
            sample_rate: crate::bytes::read_u32_le(s, p + 32),
            sample: None,
            sample_pos: crate::bytes::read_u32_le(s, p + 36),
            loop_begin_pos: crate::bytes::read_u32_le(s, p + 40),
            loop_length: crate::bytes::read_u32_le(s, p + 44),
            envelope: s[p + 48],
            envelope_multiplier: s[p + 49],
            unk19: s[p + 50],
            unk20: s[p + 51],
            unk21: crate::bytes::read_u16_le(s, p + 52),
            unk22: crate::bytes::read_u16_le(s, p + 54),
            attack_volume: s[p + 56] as i8,
            attack: s[p + 57] as i8,
            decay: s[p + 58] as i8,
            sustain: s[p + 59] as i8,
            hold: s[p + 60] as i8,
            decay2: s[p + 61] as i8,
            release: s[p + 62] as i8,
            unk57: s[p + 63] as i8,
        })
    }

    /// The 64 bytes of this entry (see `sample_info_bytes`).
    pub fn to_bytes(&self) -> (r: StBytes)
        ensures
            r@ == sample_info_bytes(*self),
    {
        let mut b: Vec<u8> = Vec::new();
        b.push(0x01);
        b.push(0xAA);
        crate::bytes::push_u16_le(&mut b, self.id);
        b.push(self.ftune as u8);
        b.push(self.ctune as u8);
        b.push(self.rootkey as u8);
        b.push(self.ktps as u8);
        b.push(self.volume as u8);
        b.push(self.pan as u8);
        b.push(self.unk5);
        b.push(self.unk58);
        crate::bytes::push_all(&mut b, &[0x00u8, 0x00, 0xAA, 0xAA, 0x15, 0x04]);
        let f: u16 = match self.sample_format {
            Some(f) => f.to_u16(),
            None => 0,
        };
        crate::bytes::push_u16_le(&mut b, f);
        b.push(self.unk9);
        b.push(if self.loops { 1u8 } else { 0u8 });
        crate::bytes::push_u16_le(&mut b, self.unk10);
        crate::bytes::push_u16_le(&mut b, self.unk11);
        crate::bytes::push_u16_le(&mut b, self.unk12);
        crate::bytes::push_u32_le(&mut b, self.unk13);
        crate::bytes::push_u32_le(&mut b, self.sample_rate);
        crate::bytes::push_u32_le(&mut b, self.sample_pos);
        crate::bytes::push_u32_le(&mut b, self.loop_begin_pos);
        crate::bytes::push_u32_le(&mut b, self.loop_length);
        b.push(self.envelope);
        b.push(self.envelope_multiplier);
        b.push(self.unk19);
        b.push(self.unk20);
        crate::bytes::push_u16_le(&mut b, self.unk21);
        crate::bytes::push_u16_le(&mut b, self.unk22);
        b.push(self.attack_volume as u8);
        b.push(self.attack as u8);
        b.push(self.decay as u8);
        b.push(self.sustain as u8);
        b.push(self.hold as u8);
        b.push(self.decay2 as u8);
        b.push(self.release as u8);
        b.push(self.unk57 as u8);
        proof {
            assert(b@ =~= sample_info_bytes(*self));
        }
        StBytes(b)
    }
}


/// The 0xAA bytes after a table of contents of `n` 16-bit entries, up to a multiple of 16.
pub open spec fn toc_pad(n: nat) -> Seq<u8> {
    if (2 * n) % 16 != 0 {
        Seq::new((16 - (2 * n) % 16) as nat, |i: int| 0xAAu8)
    } else {
        Seq::empty()
    }
}

/// The table of contents and the content after the first `k` items of a table: each item
/// present is appended to the content and its offset (from the start of the table of
/// contents, in 16 bits) goes into the table; an absent one has offset 0.
pub open spec fn toc_run(items: Seq<Option<Seq<u8>>>, k: nat) -> (Seq<u8>, Seq<u8>)
    decreases k,
{
    if k == 0 {
        (Seq::empty(), toc_pad(items.len()))
    } else {
        let (t, c) = toc_run(items, (k - 1) as nat);
        match items[k - 1] {
            Some(b) => (t + u16_le_bytes(((2 * items.len() + c.len()) % 0x10000) as u16), c + b),
            None => (t + seq![0u8, 0u8], c),
        }
    }
}

/// The bytes of a table chunk: the magic, the data length, the table of contents and the
/// content.
pub open spec fn table_chunk_bytes(magic: Seq<u8>, items: Seq<Option<Seq<u8>>>) -> Seq<u8> {
    let (t, c) = toc_run(items, items.len());
    magic + chunk_head(((2 * items.len() + c.len()) % 0x1_0000_0000) as u32) + t + c
}

/// The total length of the items present among the first `k`.
pub open spec fn items_len(items: Seq<Option<Seq<u8>>>, k: nat) -> nat
    decreases k,
{
    if k == 0 {
        0
    } else {
        items_len(items, (k - 1) as nat) + match items[k - 1] {
            Some(b) => b.len(),
            None => 0,
        }
    }
}

/// The views of optional byte buffers.
pub open spec fn opt_bytes_views(v: Seq<Option<StBytes>>) -> Seq<Option<Seq<u8>>> {
    Seq::new(v.len(), |i: int| match v[i] {
        Some(b) => Some(b@),
        None => None,
    })
}

proof fn lemma_toc_run_len(items: Seq<Option<Seq<u8>>>, k: nat)
    requires
        k <= items.len(),
    ensures
        toc_run(items, k).0.len() == 2 * k,
        toc_run(items, k).1.len() == toc_pad(items.len()).len() + items_len(items, k),
    decreases k,
{
    if k > 0 {
        lemma_toc_run_len(items, (k - 1) as nat);
    }
}

/// Writes a table chunk (see `table_chunk_bytes`).
pub fn table_chunk(magic: &[u8], items: &Vec<Option<StBytes>>) -> (r: Vec<u8>)
    requires
        2 * items@.len() + 16 + items_len(opt_bytes_views(items@), items@.len() as nat) <= usize::MAX,
    ensures
        r@ == table_chunk_bytes(magic@, opt_bytes_views(items@)),
{
    let ghost its = opt_bytes_views(items@);
    let n = items.len();
    let toc_len: usize = 2 * n;
    let mut toc: Vec<u8> = Vec::new();
    let mut content: Vec<u8> = Vec::new();
    if toc_len % 16 != 0 {
        content = crate::bytes::filled(0xAA, 16 - toc_len % 16);
    }
    assert(content@ =~= toc_pad(n as nat));
    let mut k: usize = 0;
    while k < n
        invariant
            n == items@.len(),
            toc_len == 2 * n,
            its == opt_bytes_views(items@),
            k <= n,
            2 * n + 16 + items_len(its, n as nat) <= usize::MAX,
            toc@ == toc_run(its, k as nat).0,
            content@ == toc_run(its, k as nat).1,
        decreases n - k,
    {
        proof {
            lemma_toc_run_len(its, k as nat);
            lemma_toc_run_len(its, (k + 1) as nat);
            lemma_items_len_mono(its, (k + 1) as nat, n as nat);
        }
        match &items[k] {
            Some(b) => {
                let off: usize = toc_len + content.len();
                crate::bytes::push_u16_le(&mut toc, (off % 0x10000) as u16);
                crate::bytes::push_all(&mut content, b.as_slice());
            },
            None => {
                toc.push(0);
                toc.push(0);
            },
        }
        k = k + 1;
        proof {
            assert(toc@ =~= toc_run(its, k as nat).0);
            assert(content@ =~= toc_run(its, k as nat).1);
        }
    }
    proof {
        lemma_toc_run_len(its, n as nat);
    }
    let total: usize = toc_len + content.len();
    let mut data: Vec<u8> = Vec::new();
    crate::bytes::push_all(&mut data, magic);
    crate::bytes::push_all(&mut data, &[0u8, 0, 0x15, 0x04, 0x10, 0, 0, 0]);
    crate::bytes::push_u32_le(&mut data, (total as u64 % 0x1_0000_0000u64) as u32);
    crate::bytes::push_all(&mut data, toc.as_slice());
    crate::bytes::push_all(&mut data, content.as_slice());
    proof {
        assert(data@ =~= table_chunk_bytes(magic@, its));
    }
    data
}

proof fn lemma_items_len_mono(items: Seq<Option<Seq<u8>>>, k: nat, m: nat)
    requires
        k <= m,
    ensures
        items_len(items, k) <= items_len(items, m),
    decreases m - k,
{
    if m > k {
        lemma_items_len_mono(items, k, (m - 1) as nat);
    }
}


/// What one slot of a table of contents designates.
pub enum TableSlot<T> {
    /// The offset is outside the chunk data, or the item there is cut short.
    Bad,
    Empty,
    Item(T),
}

/// Slot `i` of the sample information table whose table of contents starts at `base`, in
/// chunk data of `lcd` bytes.
pub open spec fn wavi_slot(s: Seq<u8>, base: int, lcd: nat, i: int) -> TableSlot<SwdlSampleInfoTblEntry> {
    let pnt = le16(s, base + 2 * i);
    if pnt >= lcd {
        TableSlot::Bad
    } else if pnt == 0 {
        TableSlot::Empty
    } else if s.len() - base < pnt || s.len() - base - pnt < 64 {
        TableSlot::Bad
    } else {
        TableSlot::Item(sample_info_at(s, base + pnt))
    }
}

/// Whether the chunk header at `pos` is complete and right for `slots` table entries.
pub open spec fn wavi_head_ok(s: Seq<u8>, pos: int, slots: nat) -> bool {
    s.len() - pos >= 16 + 2 * slots && s.subrange(pos, pos + 4) == wavi_magic()
}

/// Whether every slot of the table at `pos` can be read.
pub open spec fn wavi_table_ok(s: Seq<u8>, pos: int, slots: nat) -> bool {
    forall|i: int| 0 <= i < slots ==> !(#[trigger] wavi_slot(s, pos + 16, le32(s, pos + 12) as nat, i) is Bad)
}

/// The entries of the table at `pos`.
pub open spec fn wavi_entries(s: Seq<u8>, pos: int, slots: nat) -> Seq<Option<SwdlSampleInfoTblEntry>> {
    Seq::new(slots, |i: int| match wavi_slot(s, pos + 16, le32(s, pos + 12) as nat, i) {
        TableSlot::Item(e) => Some(e),
        _ => None,
    })
}

/// The bytes of a sample information chunk.
pub open spec fn wavi_bytes(t: Seq<Option<SwdlSampleInfoTblEntry>>) -> Seq<u8> {
    table_chunk_bytes(wavi_magic(), Seq::new(t.len(), |i: int| match t[i] {
        Some(e) => Some(sample_info_bytes(e)),
        None => None,
    }))
}

/// The sample information chunk; `initial_length` is the chunk length it was read with.
pub struct SwdlWavi {
    pub sample_info_table: Vec<Option<SwdlSampleInfoTblEntry>>,
    pub initial_length: usize,
}

proof fn lemma_items_len_fixed(items: Seq<Option<Seq<u8>>>, k: nat, w: nat)
    requires
        k <= items.len(),
        forall|i: int| 0 <= i < items.len() ==> ((#[trigger] items[i]) matches Some(b) ==> b.len() == w),
    ensures
        items_len(items, k) <= w * k,
    decreases k,
{
    if k > 0 {
        lemma_items_len_fixed(items, (k - 1) as nat, w);
        assert(w * k == w * (k - 1) + w) by (nonlinear_arith);
    }
}

impl SwdlWavi {
    pub fn new(sample_info_table: Vec<Option<SwdlSampleInfoTblEntry>>) -> (r: Self)
        ensures
            r.sample_info_table@ == sample_info_table@,
            r.initial_length == 0,
    {
        SwdlWavi { sample_info_table, initial_length: 0 }
    }

    /// The chunk length (with its header) this chunk was read with.
    pub fn get_initial_length(&self) -> (r: usize)
        ensures
            r == self.initial_length,
    {
        self.initial_length
    }

    /// Reads the chunk at `pos` with `number_slots` table entries; returns it and the position
    /// after its data. Fails where the header is short or wrong or a slot cannot be read.
    pub fn from_bytes(source: &[u8], pos: usize, number_slots: u16) -> (r: PyResult<(Self, usize)>)
        requires
            pos <= source@.len(),
            wavi_head_ok(source@, pos as int, number_slots as nat) && wavi_table_ok(source@, pos as int, number_slots as nat)
                ==> pos + 16 + le32(source@, pos + 12) <= source@.len() && le32(source@, pos + 12) + 16 <= u32::MAX,
        ensures
            ({
                let s = source@;
                let ok = wavi_head_ok(s, pos as int, number_slots as nat) && wavi_table_ok(s, pos as int, number_slots as nat);
                &&& !ok ==> (r matches Err(e) && e.kind == ErrorKind::AssertionError)
                &&& ok ==> (r matches Ok((w, end)) && w.sample_info_table@ == wavi_entries(s, pos as int, number_slots as nat)
                    && w.initial_length == le32(s, pos + 12) + 16 && end == pos + 16 + le32(s, pos + 12))
            }),
    {
        let n = source.len();
        let slots = number_slots as usize;
        if n - pos < 16 + 2 * slots {
            return Err(PyAssertionError::new_err("SWDL file too short (Wavi EOF)."));
        }
        if !magic_at(source, pos, 119, 97, 118, 105) {
            return Err(PyAssertionError::new_err("Invalid SWDL/Wavi header."));
        }
        let lcd = crate::bytes::read_u32_le(source, pos + 12);
        let base = pos + 16;
        let ghost goal = wavi_entries(source@, pos as int, number_slots as nat);
        let mut table: Vec<Option<SwdlSampleInfoTblEntry>> = Vec::new();
        let mut i: usize = 0;
        while i < slots
            invariant
                n == source@.len(),
                base == pos + 16,
                n - pos >= 16 + 2 * slots,
                slots == number_slots,
                lcd == le32(source@, pos + 12),
                goal == wavi_entries(source@, pos as int, number_slots as nat),
                i <= slots,
                table@ == goal.take(i as int),
                forall|j: int| 0 <= j < i ==> !(#[trigger] wavi_slot(source@, pos + 16, lcd as nat, j) is Bad),
            decreases slots - i,
        {
            let pnt = crate::bytes::read_u16_le(source, base + 2 * i);
            if pnt as u32 >= lcd {
                assert(wavi_slot(source@, pos + 16, lcd as nat, i as int) is Bad);
                return Err(PyAssertionError::new_err("SWDL Wavi length invalid; tried to read past EOF."));
            }
            let item: Option<SwdlSampleInfoTblEntry> = if pnt > 0 {
                if n - base < pnt as usize || n - base - (pnt as usize) < 64 {
                    assert(wavi_slot(source@, pos + 16, lcd as nat, i as int) is Bad);
                    return Err(PyAssertionError::new_err("SWDL file too short (Wavi EOF)."));
                }
                let e = SwdlSampleInfoTblEntry::from_bytes(source, base + pnt as usize)?;
                Some(e)
            } else {
                None
            };
            proof {
                assert(goal.take(i + 1) =~= goal.take(i as int).push(item));
            }
            table.push(item);
            i = i + 1;
        }
        assert(goal.take(slots as int) =~= goal);
        Ok((SwdlWavi { sample_info_table: table, initial_length: (lcd + 16) as usize }, base + lcd as usize))
    }

    /// The bytes of this chunk (see `wavi_bytes`).
    pub fn to_bytes(&self) -> (r: StBytes)
        requires
            66 * self.sample_info_table@.len() + 16 <= usize::MAX,
        ensures
            r@ == wavi_bytes(self.sample_info_table@),
    {
        let t = &self.sample_info_table;
        let ghost target = Seq::new(t@.len(), |i: int| match t@[i] {
            Some(e) => Some(sample_info_bytes(e)),
            None => None,
        });
        let mut items: Vec<Option<StBytes>> = Vec::new();
        let mut i: usize = 0;
        while i < t.len()
            invariant
                i <= t@.len(),
                target.len() == t@.len(),
                target == Seq::new(t@.len(), |i: int| match t@[i] {
                    Some(e) => Some(sample_info_bytes(e)),
                    None => None,
                }),
                opt_bytes_views(items@) == target.take(i as int),
                items@.len() == i,
            decreases t@.len() - i,
        {
            let it: Option<StBytes> = match &t[i] {
                Some(e) => Some(e.to_bytes()),
                None => None,
            };
            let ghost old_items = items@;
            assert(it matches Some(b) ==> target[i as int] == Some(b@));
            assert(it is None ==> target[i as int] is None);
            items.push(it);
            proof {
                assert forall|j: int| 0 <= j < i + 1 implies #[trigger] opt_bytes_views(items@)[j] == target.take(i + 1)[j] by {
                    if j < i {
                        assert(items@[j] == old_items[j]);
                        assert(opt_bytes_views(old_items)[j] == target.take(i as int)[j]);
                    }
                }
                assert(opt_bytes_views(items@) =~= target.take(i + 1));
            }
            i = i + 1;
        }
        proof {
            assert(opt_bytes_views(items@) =~= target);
            assert forall|j: int| 0 <= j < target.len() implies ((#[trigger] target[j]) matches Some(b) ==> b.len() == 64) by {}
            lemma_items_len_fixed(target, target.len(), 64);
        }
        let d = table_chunk(&[119u8, 97, 118, 105], &items);
        proof {
            assert(seq![119u8, 97, 118, 105] =~= wavi_magic());
        }
        StBytes(d)
    }
}


/// Reading back the bytes of a sample information entry gives the entry, where its format is
/// a known one and its sample reference is not set (neither is stored).
pub proof fn lemma_sample_info_roundtrip(e: SwdlSampleInfoTblEntry)
    requires
        e.sample is None,
        e.sample_format is Some,
    ensures
        sample_info_at(sample_info_bytes(e), 0) == e,
{
    let b = sample_info_bytes(e);
    let f = sample_format_value(e.sample_format->0);
    assert(b.len() == 64);
    assert(b.subrange(2, 4) =~= u16_le_bytes(e.id));
    assert(b.subrange(18, 20) =~= u16_le_bytes(f));
    assert(b.subrange(22, 24) =~= u16_le_bytes(e.unk10));
    assert(b.subrange(24, 26) =~= u16_le_bytes(e.unk11));
    assert(b.subrange(26, 28) =~= u16_le_bytes(e.unk12));
    assert(b.subrange(28, 32) =~= u32_le_bytes(e.unk13));
    assert(b.subrange(32, 36) =~= u32_le_bytes(e.sample_rate));
    assert(b.subrange(36, 40) =~= u32_le_bytes(e.sample_pos));
    assert(b.subrange(40, 44) =~= u32_le_bytes(e.loop_begin_pos));
    assert(b.subrange(44, 48) =~= u32_le_bytes(e.loop_length));
    assert(b.subrange(52, 54) =~= u16_le_bytes(e.unk21));
    assert(b.subrange(54, 56) =~= u16_le_bytes(e.unk22));
    crate::bytes::lemma_le16_at(b, 2, e.id);
    crate::bytes::lemma_le16_at(b, 18, f);
    crate::bytes::lemma_le16_at(b, 22, e.unk10);
    crate::bytes::lemma_le16_at(b, 24, e.unk11);
    crate::bytes::lemma_le16_at(b, 26, e.unk12);
    crate::bytes::lemma_le32_at(b, 28, e.unk13);
    crate::bytes::lemma_le32_at(b, 32, e.sample_rate);
    crate::bytes::lemma_le32_at(b, 36, e.sample_pos);
    crate::bytes::lemma_le32_at(b, 40, e.loop_begin_pos);
    crate::bytes::lemma_le32_at(b, 44, e.loop_length);
    crate::bytes::lemma_le16_at(b, 52, e.unk21);
    crate::bytes::lemma_le16_at(b, 54, e.unk22);
    crate::bytes::lemma_i8_roundtrip(e.ftune);
    crate::bytes::lemma_i8_roundtrip(e.ctune);
    crate::bytes::lemma_i8_roundtrip(e.rootkey);
    crate::bytes::lemma_i8_roundtrip(e.ktps);
    crate::bytes::lemma_i8_roundtrip(e.volume);
    crate::bytes::lemma_i8_roundtrip(e.pan);
    crate::bytes::lemma_i8_roundtrip(e.attack_volume);
    crate::bytes::lemma_i8_roundtrip(e.attack);
    crate::bytes::lemma_i8_roundtrip(e.decay);
    crate::bytes::lemma_i8_roundtrip(e.sustain);
    crate::bytes::lemma_i8_roundtrip(e.hold);
    crate::bytes::lemma_i8_roundtrip(e.decay2);
    crate::bytes::lemma_i8_roundtrip(e.release);
    crate::bytes::lemma_i8_roundtrip(e.unk57);
}

} // verus!
