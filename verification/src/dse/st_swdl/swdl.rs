//! A whole SWDL file: header, sample information, programs, key groups and sample data.
use crate::bytes::le16;
use crate::bytes::le32;
use crate::bytes::u16_le_bytes;
use crate::bytes::u32_le_bytes;
use crate::bytes::StBytes;
use crate::dse::date::dse_date_at;
use crate::dse::date::dse_date_bytes;
use crate::dse::date::DseDate;
use crate::dse::filename::ascii_chars;
use crate::dse::filename::ascii_only;
use crate::dse::filename::dse_filename_field;
use crate::dse::filename::until_nul;
use crate::dse::filename::DseFilename;
use crate::dse::st_smdl::eoc::magic_at;
use crate::dse::st_swdl::kgrp::keygroups_at;
use crate::dse::st_swdl::kgrp::kgrp_bytes;
use crate::dse::st_swdl::kgrp::kgrp_magic;
use crate::dse::st_swdl::kgrp::SwdlKeygroup;
use crate::dse::st_swdl::kgrp::SwdlKgrp;
use crate::dse::st_swdl::pcmd::pcmd_bytes;
use crate::dse::st_swdl::pcmd::pcmd_magic;
use crate::dse::st_swdl::pcmd::SwdlPcmd;
use crate::dse::st_swdl::prgi::prgi_bytes;
use crate::dse::st_swdl::prgi::prgi_items;
use crate::dse::st_swdl::prgi::prgi_magic;
use crate::dse::st_swdl::prgi::prgi_read;
use crate::dse::st_swdl::prgi::prgi_view;
use crate::dse::st_swdl::prgi::PrgiRead;
use crate::dse::st_swdl::prgi::ProgramModel;
use crate::dse::st_swdl::prgi::SwdlPrgi;
use crate::dse::st_swdl::wavi::items_len;
use crate::dse::st_swdl::wavi::wavi_bytes;
use crate::dse::st_swdl::wavi::wavi_entries;
use crate::dse::st_swdl::wavi::wavi_head_ok;
use crate::dse::st_swdl::wavi::wavi_table_ok;
use crate::dse::st_swdl::wavi::SwdlPcmdReference;
use crate::dse::st_swdl::wavi::SwdlSampleInfoTblEntry;
use crate::dse::st_swdl::wavi::SwdlWavi;
use crate::python::exceptions::PyAssertionError;
use crate::python::ErrorKind;
use crate::python::PyResult;
use vstd::prelude::*;

verus! {

/// "swdl"
pub open spec fn swdl_magic() -> Seq<u8> {
    seq![115u8, 119u8, 100u8, 108u8]
}

/// The length of the sample data: either stored here, or a reference to external data.
#[derive(Clone, Copy, Debug, PartialEq, Eq, Structural)]
pub struct SwdlPcmdLen {
    pub reference: u32,
    pub external: bool,
}

/// The value stored as `d`: a high half of 0xAAAA marks an external reference.
pub open spec fn pcmd_len_of(d: u32) -> SwdlPcmdLen {
    if d / 0x10000 == 0xAAAA {
        SwdlPcmdLen { reference: d & 0x10, external: true }
    } else {
        SwdlPcmdLen { reference: d, external: false }
    }
}

pub open spec fn pcmd_len_bytes(p: SwdlPcmdLen) -> Seq<u8> {
    if p.external {
        u32_le_bytes(((p.reference & 0x10) + 0xAAAA_0000) as u32)
    } else {
        u32_le_bytes(p.reference)
    }
}

impl SwdlPcmdLen {
    pub fn new(reference: u32, external: bool) -> (r: Self)
        ensures
            r == (SwdlPcmdLen { reference, external }),
    {
        SwdlPcmdLen { reference, external }
    }

    /// Reads the value at `pos`; fails where fewer than 4 bytes remain.
    pub fn from_bytes(source: &[u8], pos: usize) -> (r: PyResult<Self>)
        requires
            pos <= source@.len(),
        ensures
            source@.len() - pos < 4 ==> (r matches Err(e) && e.kind == ErrorKind::AssertionError),
            source@.len() - pos >= 4 ==> r == Ok::<SwdlPcmdLen, crate::python::PyErr>(
                pcmd_len_of(le32(source@, pos as int) as u32),
            ),
    {
        if source.len() - pos < 4 {
            return Err(PyAssertionError::new_err("SWDL file too short (SwdlPcmdLen EOF)."));
        }
        let d = crate::bytes::read_u32_le(source, pos);
        if d / 0x10000 == 0xAAAA {
            Ok(SwdlPcmdLen { reference: d & 0x10, external: true })
        } else {
            Ok(SwdlPcmdLen { reference: d, external: false })
        }
    }

    /// The 4 bytes of this value.
    pub fn to_bytes(&self) -> (r: StBytes)
        ensures
            r@ == pcmd_len_bytes(*self),
    {
        let mut b: Vec<u8> = Vec::new();
        if self.external {
            let rf: u32 = self.reference;
            let x: u32 = rf & 0x10;
            assert(x <= 0x10) by (bit_vector)
                requires
                    x == rf & 0x10,
            ;
            crate::bytes::push_u32_le(&mut b, x + 0xAAAA_0000);
        } else {
            crate::bytes::push_u32_le(&mut b, self.reference);
        }
        StBytes(b)
    }
}

/// The header of a SWDL file (80 bytes); the last three fields are what it was read with.
pub struct SwdlHeader {
    pub version: u16,
    pub unk1: u8,
    pub unk2: u8,
    pub modified_date: DseDate,
    pub file_name: DseFilename,
    pub unk13: u32,
    pub pcmdlen: SwdlPcmdLen,
    pub unk17: u16,
    pub number_wavi_slots: u16,
    pub number_prgi_slots: u16,
    pub len_wavi: u32,
}

/// The name stored in `s` from `p` to `p + len`.
pub open spec fn name_at(s: Seq<u8>, p: int, len: int) -> Seq<char> {
    ascii_chars(ascii_only(until_nul(s.subrange(p, p + len))))
}

/// Whether `h` is the header stored at the start of `s`.
pub open spec fn header_is(h: SwdlHeader, s: Seq<u8>) -> bool {
    &&& h.version == le16(s, 12)
    &&& h.unk1 == s[14]
    &&& h.unk2 == s[15]
    &&& h.modified_date == dse_date_at(s, 24)
    &&& h.file_name.0@ == name_at(s, 32, 16)
    &&& h.unk13 == le32(s, 60)
    &&& h.pcmdlen == pcmd_len_of(le32(s, 64) as u32)
    &&& h.number_wavi_slots == le16(s, 70)
    &&& h.number_prgi_slots == le16(s, 72)
    &&& h.unk17 == le16(s, 74)
    &&& h.len_wavi == le32(s, 76)
}

/// The header bytes with the given lengths and counts.
pub open spec fn header_bytes(h: SwdlHeader, data_len: u32, pcmdlen: SwdlPcmdLen, wavisitlen: u16, prgi_slots: u16, wavi_len: u32) -> Seq<u8> {
    swdl_magic() + u32_le_bytes(0) + u32_le_bytes(data_len) + u16_le_bytes(h.version) + seq![h.unk1, h.unk2]
        + Seq::new(8, |i: int| 0u8) + dse_date_bytes(h.modified_date) + dse_filename_field(h.file_name.0@)
        + seq![0x00u8, 0xaa, 0xaa, 0xaa] + Seq::new(8, |i: int| 0u8) + u32_le_bytes(h.unk13) + pcmd_len_bytes(pcmdlen)
        + seq![0u8, 0u8] + u16_le_bytes(wavisitlen) + u16_le_bytes(prgi_slots) + u16_le_bytes(h.unk17) + u32_le_bytes(wavi_len)
}

impl SwdlHeader {
    /// A header with the given values (and no counts read).
    pub fn new(
        version: u16,
        unk1: u8,
        unk2: u8,
        modified_date: DseDate,
        file_name: DseFilename,
        unk13: u32,
        pcmdlen: SwdlPcmdLen,
        unk17: u16,
    ) -> (r: Self)
        ensures
            r.version == version && r.unk1 == unk1 && r.unk2 == unk2 && r.modified_date == modified_date,
            r.file_name.0@ == file_name.0@ && r.unk13 == unk13 && r.pcmdlen == pcmdlen && r.unk17 == unk17,
            r.number_wavi_slots == 0 && r.number_prgi_slots == 0 && r.len_wavi == 0,
    {
        SwdlHeader {
            version,
            unk1,
            unk2,
            modified_date,
            file_name,
            unk13,
            pcmdlen,
            unk17,
            number_wavi_slots: 0,
            number_prgi_slots: 0,
            len_wavi: 0,
        }
    }

    /// Reads the header at the start of `source`; fails where it is shorter than 80 bytes or
    /// the magic is wrong.
    pub fn from_bytes(source: &[u8]) -> (r: PyResult<Self>)
        ensures
            (source@.len() < 80 || source@.subrange(0, 4) != swdl_magic()) ==> (r matches Err(e) && e.kind
                == ErrorKind::AssertionError),
            !(source@.len() < 80 || source@.subrange(0, 4) != swdl_magic()) ==> (r matches Ok(h) && header_is(h, source@)),
    {
        if source.len() < 80 {
            return Err(PyAssertionError::new_err("SWDL file too short (Header EOF)."));
        }
        if !magic_at(source, 0, 115, 119, 100, 108) {
            return Err(PyAssertionError::new_err("Invalid SWDL/Header header."));
        }
        let pcmdlen = SwdlPcmdLen::from_bytes(source, 64)?;
        Ok(SwdlHeader {
            version: crate::bytes::read_u16_le(source, 12),
            unk1: source[14],
            unk2: source[15],
            modified_date: DseDate::from_bytes(source, 24),
            file_name: DseFilename::from_bytes_fixed(source, 32, 16),
            unk13: crate::bytes::read_u32_le(source, 60),
            pcmdlen,
            unk17: crate::bytes::read_u16_le(source, 74),
            number_wavi_slots: crate::bytes::read_u16_le(source, 70),
            number_prgi_slots: crate::bytes::read_u16_le(source, 72),
            len_wavi: crate::bytes::read_u32_le(source, 76),
        })
    }

    /// The 80 header bytes with the given lengths and counts.
    pub fn to_bytes(&self, data_len: u32, pcmdlen: SwdlPcmdLen, wavisitlen: u16, prgi_slots: u16, wavi_len: u32) -> (r: StBytes)
        requires
            vstd::utf8::is_ascii_chars(self.file_name.0@),
        ensures
            r@ == header_bytes(*self, data_len, pcmdlen, wavisitlen, prgi_slots, wavi_len),
    {
        let mut b: Vec<u8> = Vec::new();
        crate::bytes::push_all(&mut b, &[115u8, 119, 100, 108]);
        crate::bytes::push_u32_le(&mut b, 0);
        crate::bytes::push_u32_le(&mut b, data_len);
        crate::bytes::push_u16_le(&mut b, self.version);
        b.push(self.unk1);
        b.push(self.unk2);
        let z = crate::bytes::filled(0, 8);
        crate::bytes::push_all(&mut b, z.as_slice());
        let date = self.modified_date.to_bytes();
        crate::bytes::push_all(&mut b, date.as_slice());
        let name = self.file_name.to_bytes();
        crate::bytes::push_all(&mut b, name.as_slice());
        crate::bytes::push_all(&mut b, &[0x00u8, 0xaa, 0xaa, 0xaa]);
        crate::bytes::push_all(&mut b, z.as_slice());
        crate::bytes::push_u32_le(&mut b, self.unk13);
        let pl = pcmdlen.to_bytes();
        crate::bytes::push_all(&mut b, pl.as_slice());
        b.push(0);
        b.push(0);
        crate::bytes::push_u16_le(&mut b, wavisitlen);
        crate::bytes::push_u16_le(&mut b, prgi_slots);
        crate::bytes::push_u16_le(&mut b, self.unk17);
        crate::bytes::push_u32_le(&mut b, wavi_len);
        proof {
            assert(b@ =~= header_bytes(*self, data_len, pcmdlen, wavisitlen, prgi_slots, wavi_len));
        }
        StBytes(b)
    }
}


/// A SWDL file.
pub struct Swdl {
    pub header: SwdlHeader,
    pub wavi: SwdlWavi,
    pub pcmd: Option<SwdlPcmd>,
    pub prgi: Option<SwdlPrgi>,
    pub kgrp: Option<SwdlKgrp>,
}

/// Whether no key group chunk can be read at `p`.
pub open spec fn kgrp_fails(s: Seq<u8>, p: int) -> bool {
    s.len() - p < 16 || s.subrange(p, p + 4) != kgrp_magic() || s.len() - p - 16 < le32(s, p + 12)
}

/// Whether no sample data chunk can be read at `p`.
pub open spec fn pcmd_fails(s: Seq<u8>, p: int) -> bool {
    s.len() - p < 16 || s.subrange(p, p + 4) != pcmd_magic() || s.len() - p - 16 < le32(s, p + 12)
}

/// Checking the first `k` sample entries against sample data of length `plen` (if present):
/// computing a sample's length or end may overflow 32 bits (which panics), and a sample must
/// end within the sample data.
pub enum SampleCheck {
    Fail,
    Cut,
    Pass,
}

pub open spec fn sample_check(es: Seq<Option<SwdlSampleInfoTblEntry>>, plen: Option<nat>, k: nat) -> SampleCheck
    decreases k,
{
    if k == 0 {
        SampleCheck::Pass
    } else {
        match sample_check(es, plen, (k - 1) as nat) {
            SampleCheck::Pass => match es[k - 1] {
                None => SampleCheck::Pass,
                Some(e) => if e.loop_begin_pos + e.loop_length > u32::MAX || (e.loop_begin_pos + e.loop_length) * 4 > u32::MAX {
                    SampleCheck::Cut
                } else {
                    match plen {
                        None => SampleCheck::Pass,
                        Some(l) => if e.sample_pos + (e.loop_begin_pos + e.loop_length) * 4 > u32::MAX {
                            SampleCheck::Cut
                        } else if e.sample_pos + (e.loop_begin_pos + e.loop_length) * 4 > l {
                            SampleCheck::Fail
                        } else {
                            SampleCheck::Pass
                        },
                    }
                },
            },
            other => other,
        }
    }
}

/// The entries with their sample references set: each sample lies at its stored position with
/// four bytes per loop position.
pub open spec fn with_refs(es: Seq<Option<SwdlSampleInfoTblEntry>>) -> Seq<Option<SwdlSampleInfoTblEntry>> {
    Seq::new(es.len(), |i: int| match es[i] {
        Some(e) => Some(SwdlSampleInfoTblEntry {
            sample: Some(SwdlPcmdReference {
                offset: e.sample_pos,
                length: ((e.loop_begin_pos + e.loop_length) * 4) as u32,
            }),
            ..e
        }),
        None => None,
    })
}

/// What reading a SWDL file gives: the programs, key groups and sample data, if present.
pub enum SwdlRead {
    Fail,
    Cut,
    Read(Option<Seq<Option<ProgramModel>>>, Option<Seq<SwdlKeygroup>>, Option<Seq<u8>>),
}

/// Reading what follows the sample information (at `p1`): programs and key groups where the
/// program magic follows, then the sample data where the header says it is stored here.
pub open spec fn swdl_rest(s: Seq<u8>, p1: int) -> SwdlRead {
    let pl = pcmd_len_of(le32(s, 64) as u32);
    let nps = le16(s, 72) as nat;
    let (st, p3, prgi, kgrp) = if s.subrange(p1, p1 + 4) == prgi_magic() {
        match prgi_read(s, p1, nps) {
            PrgiRead::Fail => (0u8, 0int, None, None),
            PrgiRead::Cut => (1u8, 0int, None, None),
            PrgiRead::Read(v) => {
                let p2 = p1 + 16 + le32(s, p1 + 12);
                if kgrp_fails(s, p2) {
                    (0u8, 0int, None, None)
                } else {
                    (2u8, p2 + 16 + 8 * (le32(s, p2 + 12) / 8), Some(v), Some(keygroups_at(s, p2 + 16, le32(s, p2 + 12) as nat)))
                }
            },
        }
    } else {
        (2u8, p1, None, None)
    };
    if st == 0 {
        SwdlRead::Fail
    } else if st == 1 {
        SwdlRead::Cut
    } else if !pl.external && pl.reference > 0 {
        if pcmd_fails(s, p3) {
            SwdlRead::Fail
        } else {
            SwdlRead::Read(prgi, kgrp, Some(s.subrange(p3 + 16, p3 + 16 + le32(s, p3 + 12))))
        }
    } else {
        SwdlRead::Read(prgi, kgrp, None)
    }
}

/// Reading a SWDL file: the header, the sample information (whose length must match the
/// header), the rest (see `swdl_rest`), then the check of every sample against the sample data.
pub open spec fn swdl_read(s: Seq<u8>) -> SwdlRead {
    let nws = le16(s, 70) as nat;
    let lcd = le32(s, 92);
    if s.len() < 80 || s.subrange(0, 4) != swdl_magic() {
        SwdlRead::Fail
    } else if le32(s, 76) + 16 > u32::MAX {
        SwdlRead::Cut
    } else if !(wavi_head_ok(s, 80, nws) && wavi_table_ok(s, 80, nws)) {
        SwdlRead::Fail
    } else if !(96 + lcd <= s.len() && lcd + 16 <= u32::MAX) {
        SwdlRead::Cut
    } else if le32(s, 76) != lcd {
        SwdlRead::Fail
    } else if s.len() - (96 + lcd) < 4 {
        SwdlRead::Cut
    } else {
        match swdl_rest(s, 96 + lcd) {
            SwdlRead::Read(prgi, kgrp, pcmd) => match sample_check(
                wavi_entries(s, 80, nws),
                match pcmd {
                    Some(d) => Some(d.len()),
                    None => None,
                },
                nws,
            ) {
                SampleCheck::Fail => SwdlRead::Fail,
                SampleCheck::Cut => SwdlRead::Cut,
                SampleCheck::Pass => SwdlRead::Read(prgi, kgrp, pcmd),
            },
            other => other,
        }
    }
}

pub open spec fn opt_prgi_view(p: Option<SwdlPrgi>) -> Option<Seq<Option<ProgramModel>>> {
    match p {
        Some(x) => Some(prgi_view(x.program_table@)),
        None => None,
    }
}

pub open spec fn opt_kgrp_view(k: Option<SwdlKgrp>) -> Option<Seq<SwdlKeygroup>> {
    match k {
        Some(x) => Some(x.keygroups@),
        None => None,
    }
}

pub open spec fn opt_pcmd_view(p: Option<SwdlPcmd>) -> Option<Seq<u8>> {
    match p {
        Some(x) => Some(x.chunk_data@),
        None => None,
    }
}

proof fn lemma_sample_check_stuck(es: Seq<Option<SwdlSampleInfoTblEntry>>, plen: Option<nat>, k: nat, m: nat)
    requires
        k <= m,
        !(sample_check(es, plen, k) is Pass),
    ensures
        sample_check(es, plen, m) == sample_check(es, plen, k),
    decreases m - k,
{
    if m > k {
        lemma_sample_check_stuck(es, plen, k, (m - 1) as nat);
    }
}

impl Swdl {
    /// The name stored in the header of SWDL data, without reading the rest.
    pub fn name_for(raw: &[u8]) -> (r: DseFilename)
        requires
            raw@.len() >= 0x30,
        ensures
            r.0@ == name_at(raw@, 0x20, 16),
    {
        DseFilename::from_bytes_fixed(raw, 0x20, 16)
    }

    /// Reads a SWDL file (see `swdl_read`).
    #[verifier::rlimit(60)]
    pub fn from_bytes(source: &[u8]) -> (r: PyResult<Self>)
        requires
            !(swdl_read(source@) is Cut),
        ensures
            swdl_read(source@) is Fail ==> (r matches Err(e) && e.kind == ErrorKind::AssertionError),
            swdl_read(source@) matches SwdlRead::Read(prgi, kgrp, pcmd) ==> (r matches Ok(w) && {
                &&& header_is(w.header, source@)
                &&& w.wavi.sample_info_table@ == with_refs(wavi_entries(source@, 80, le16(source@, 70) as nat))
                &&& w.wavi.initial_length == le32(source@, 92) + 16
                &&& opt_prgi_view(w.prgi) == prgi
                &&& opt_kgrp_view(w.kgrp) == kgrp
                &&& opt_pcmd_view(w.pcmd) == pcmd
            }),
    {
        let ghost s = source@;
        let n = source.len();
        let header = SwdlHeader::from_bytes(source)?;
        if header.len_wavi > 0xFFFF_FFFF - 16 {
            return Err(PyAssertionError::new_err("SWDL file: invalid sample information length."));
        }
        let len_wavi: u32 = header.len_wavi + 16;
        let (wavi, p1) = SwdlWavi::from_bytes(source, 80, header.number_wavi_slots)?;
        if len_wavi as usize != wavi.initial_length {
            return Err(PyAssertionError::new_err("Swdl read error (inconsistent Wavi length)"));
        }
        if n - p1 < 4 {
            return Err(PyAssertionError::new_err("SWDL file too short."));
        }
        let ghost lcd = le32(s, 92);
        assert(p1 == 96 + lcd);
        let mut p3 = p1;
        let mut prgi: Option<SwdlPrgi> = None;
        let mut kgrp: Option<SwdlKgrp> = None;
        if magic_at(source, p1, 112, 114, 103, 105) {
            let (pr, p2) = SwdlPrgi::from_bytes(source, p1, header.number_prgi_slots)?;
            let (kg, p) = SwdlKgrp::from_bytes(source, p2)?;
            prgi = Some(pr);
            kgrp = Some(kg);
            p3 = p;
        }
        let mut pcmd: Option<SwdlPcmd> = None;
        if !header.pcmdlen.external && header.pcmdlen.reference > 0 {
            let (pc, _end) = SwdlPcmd::from_bytes(source, p3)?;
            pcmd = Some(pc);
        }
        let ghost rest = swdl_rest(s, 96 + lcd);
        assert(rest matches SwdlRead::Read(a, b, c) && a == opt_prgi_view(prgi) && b == opt_kgrp_view(kgrp)
            && c == opt_pcmd_view(pcmd));
        let plen: Option<usize> = match &pcmd {
            Some(pc) => Some(pc.chunk_data.len()),
            None => None,
        };
        let ghost gplen: Option<nat> = match opt_pcmd_view(pcmd) {
            Some(d) => Some(d.len()),
            None => None,
        };
        let ghost es = wavi.sample_info_table@;
        let mut table: Vec<Option<SwdlSampleInfoTblEntry>> = Vec::new();
        let mut i: usize = 0;
        let nt = wavi.sample_info_table.len();
        while i < nt
            invariant
                nt == es.len(),
                es == wavi.sample_info_table@,
                s == source@,
                es == wavi_entries(s, 80, le16(s, 70) as nat),
                gplen == (match plen {
                    Some(x) => Some(x as nat),
                    None => None::<nat>,
                }),
                gplen == (match opt_pcmd_view(pcmd) {
                    Some(d) => Some(d.len()),
                    None => None::<nat>,
                }),
                swdl_read(s) == (match sample_check(es, gplen, es.len()) {
                    SampleCheck::Fail => SwdlRead::Fail,
                    SampleCheck::Cut => SwdlRead::Cut,
                    SampleCheck::Pass => SwdlRead::Read(opt_prgi_view(prgi), opt_kgrp_view(kgrp), opt_pcmd_view(pcmd)),
                }),
                !(swdl_read(s) is Cut),
                i <= nt,
                sample_check(es, gplen, i as nat) is Pass,
                table@ == with_refs(es).take(i as int),
            decreases nt - i,
        {
            let item = wavi.sample_info_table[i];
            let new_item: Option<SwdlSampleInfoTblEntry> = match item {
                None => None,
                Some(e) => {
                    if e.loop_begin_pos > 0xFFFF_FFFF - e.loop_length || (e.loop_begin_pos + e.loop_length) > 0x3FFF_FFFF {
                        proof {
                            assert(sample_check(es, gplen, (i + 1) as nat) is Cut);
                            lemma_sample_check_stuck(es, gplen, (i + 1) as nat, nt as nat);
                        }
                        return Err(PyAssertionError::new_err("Swdl read: Invalid sample data"));
                    }
                    let sl: u32 = e.get_sample_length();
                    match plen {
                        Some(l) => {
                            if e.sample_pos > 0xFFFF_FFFF - sl {
                                proof {
                                    assert(sample_check(es, gplen, (i + 1) as nat) is Cut);
                                    lemma_sample_check_stuck(es, gplen, (i + 1) as nat, nt as nat);
                                }
                                return Err(PyAssertionError::new_err("Swdl read: Invalid sample data"));
                            }
                            if (e.sample_pos + sl) as usize > l {
                                proof {
                                    assert(sample_check(es, gplen, (i + 1) as nat) is Fail);
                                    lemma_sample_check_stuck(es, gplen, (i + 1) as nat, nt as nat);
                                }
                                return Err(PyAssertionError::new_err("Swdl read: Invalid sample data"));
                            }
                        },
                        None => {},
                    }
                    Some(SwdlSampleInfoTblEntry { sample: Some(SwdlPcmdReference::new(e.sample_pos, sl)), ..e })
                },
            };
            proof {
                assert(with_refs(es).take(i + 1) =~= with_refs(es).take(i as int).push(new_item));
            }
            table.push(new_item);
            i = i + 1;
        }
        proof {
            assert(with_refs(es).take(nt as int) =~= with_refs(es));
        }
        let wavi2 = SwdlWavi { sample_info_table: table, initial_length: wavi.initial_length };
        Ok(Swdl { header, wavi: wavi2, pcmd, prgi, kgrp })
    }
}


/// The 16 bytes that end a SWDL file.
pub open spec fn eod_bytes() -> Seq<u8> {
    seq![101u8, 111, 100, 32, 0, 0, 0x15, 0x04, 0x10, 0, 0, 0, 0, 0, 0, 0]
}

/// Everything after the header: sample information, programs and key groups (where present),
/// sample data (where present), and the end marker.
pub open spec fn swdl_data(w: Swdl) -> Seq<u8> {
    wavi_bytes(w.wavi.sample_info_table@) + (match w.prgi {
        Some(p) => prgi_bytes(prgi_view(p.program_table@)),
        None => Seq::empty(),
    }) + (match w.kgrp {
        Some(k) => kgrp_bytes(k.keygroups@),
        None => Seq::empty(),
    }) + (match w.pcmd {
        Some(p) => pcmd_bytes(p.chunk_data@),
        None => Seq::empty(),
    }) + eod_bytes()
}

/// The bytes of a SWDL file: the header with the lengths and counts of what follows, then
/// the data. Without sample data the header keeps its external reference.
pub open spec fn swdl_bytes(w: Swdl) -> Seq<u8> {
    let data = swdl_data(w);
    let pl = match w.pcmd {
        Some(p) => SwdlPcmdLen { reference: p.chunk_data@.len() as u32, external: false },
        None => SwdlPcmdLen { reference: w.header.pcmdlen.reference, external: true },
    };
    let ps = match w.prgi {
        Some(p) => (p.program_table@.len() % 0x10000) as u16,
        None => w.header.number_prgi_slots,
    };
    let wl = wavi_bytes(w.wavi.sample_info_table@).len() - 16;
    header_bytes(w.header, ((80 + data.len()) % 0x1_0000_0000) as u32, pl,
        (w.wavi.sample_info_table@.len() % 0x10000) as u16, ps, (wl % 0x1_0000_0000) as u32) + data
}

impl Swdl {
    /// The bytes of this file (see `swdl_bytes`).
    pub fn to_bytes(&self) -> (r: StBytes)
        requires
            vstd::utf8::is_ascii_chars(self.header.file_name.0@),
            66 * self.wavi.sample_info_table@.len() + 16 <= usize::MAX,
            self.prgi matches Some(p) ==> 2 * p.program_table@.len() + 16 + items_len(prgi_items(prgi_view(p.program_table@)),
                p.program_table@.len()) <= usize::MAX,
            self.kgrp matches Some(k) ==> 8 * k.keygroups@.len() <= u32::MAX,
            self.pcmd matches Some(p) ==> p.chunk_data@.len() <= u32::MAX,
            swdl_data(*self).len() + 80 <= usize::MAX,
        ensures
            r@ == swdl_bytes(*self),
    {
        let wavi = self.wavi.to_bytes();
        let mut data: Vec<u8> = Vec::new();
        crate::bytes::push_all(&mut data, wavi.as_slice());
        match &self.prgi {
            Some(p) => {
                let b = p.to_bytes();
                crate::bytes::push_all(&mut data, b.as_slice());
            },
            None => {},
        }
        match &self.kgrp {
            Some(k) => {
                let b = k.to_bytes();
                crate::bytes::push_all(&mut data, b.as_slice());
            },
            None => {},
        }
        let pl = match &self.pcmd {
            Some(p) => {
                let b = p.to_bytes();
                crate::bytes::push_all(&mut data, b.as_slice());
                SwdlPcmdLen::new(p.chunk_data.len() as u32, false)
            },
            None => SwdlPcmdLen::new(self.header.pcmdlen.reference, true),
        };
        crate::bytes::push_all(&mut data, &[101u8, 111, 100, 32, 0, 0, 0x15, 0x04, 0x10, 0, 0, 0, 0, 0, 0, 0]);
        assert(data@ =~= swdl_data(*self));
        let ps: u16 = match &self.prgi {
            Some(p) => (p.program_table.len() % 0x10000) as u16,
            None => self.header.number_prgi_slots,
        };
        assert(wavi@.len() >= 16);
        let wl: usize = wavi.len() - 16;
        let total: usize = 80 + data.len();
        let head = self.header.to_bytes(
            (total as u64 % 0x1_0000_0000u64) as u32,
            pl,
            (self.wavi.sample_info_table.len() % 0x10000) as u16,
            ps,
            (wl as u64 % 0x1_0000_0000u64) as u32,
        );
        let mut out: Vec<u8> = Vec::new();
        crate::bytes::push_all(&mut out, head.as_slice());
        crate::bytes::push_all(&mut out, data.as_slice());
        proof {
            assert(out@ =~= swdl_bytes(*self));
        }
        StBytes(out)
    }
}


/// Reading back the stored form of a sample data length gives it back: a length stored here
/// that does not look like an external marker, or an external reference of 0 or 0x10 (only
/// that bit of it is kept).
pub proof fn lemma_pcmd_len_roundtrip(p: SwdlPcmdLen)
    requires
        !p.external ==> p.reference / 0x10000 != 0xAAAA,
        p.external ==> (p.reference == 0 || p.reference == 0x10),
    ensures
        pcmd_len_of(le32(pcmd_len_bytes(p), 0) as u32) == p,
{
    let rf = p.reference;
    if p.external {
        let x: u32 = ((rf & 0x10) + 0xAAAA_0000) as u32;
        assert(rf & 0x10 == rf) by (bit_vector)
            requires
                rf == 0 || rf == 0x10,
        ;
        assert(x / 0x10000 == 0xAAAA && x & 0x10 == rf) by (bit_vector)
            requires
                x == ((rf & 0x10) + 0xAAAA_0000) as u32,
                rf == 0 || rf == 0x10,
        ;
        crate::bytes::lemma_u32_le_roundtrip(x);
    } else {
        crate::bytes::lemma_u32_le_roundtrip(rf);
    }
}

} // verus!
