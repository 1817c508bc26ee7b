use skytemple_rust::bytes::StBytes;
use skytemple_rust::dse::date::DseDate;
use skytemple_rust::dse::filename::DseFilename;
use skytemple_rust::dse::st_swdl::kgrp::SwdlKeygroup;
use skytemple_rust::dse::st_swdl::kgrp::SwdlKgrp;
use skytemple_rust::dse::st_swdl::pcmd::SwdlPcmd;
use skytemple_rust::dse::st_swdl::prgi::SwdlLfoEntry;
use skytemple_rust::dse::st_swdl::prgi::SwdlPrgi;
use skytemple_rust::dse::st_swdl::prgi::SwdlProgram;
use skytemple_rust::dse::st_swdl::prgi::SwdlSplitEntry;
use skytemple_rust::dse::st_swdl::swdl::Swdl;
use skytemple_rust::dse::st_swdl::swdl::SwdlHeader;
use skytemple_rust::dse::st_swdl::swdl::SwdlPcmdLen;
use skytemple_rust::dse::st_swdl::wavi::SampleFormatConsts;
use skytemple_rust::dse::st_swdl::wavi::SwdlPcmdReference;
use skytemple_rust::dse::st_swdl::wavi::SwdlSampleInfoTblEntry;
use skytemple_rust::dse::st_swdl::wavi::SwdlWavi;

fn entry() -> SwdlSampleInfoTblEntry {
    SwdlSampleInfoTblEntry {
        id: 7,
        ftune: -3,
        ctune: 1,
        rootkey: 60,
        ktps: 0,
        volume: 127,
        pan: 64,
        unk5: 0,
        unk58: 2,
        sample_format: Some(SampleFormatConsts::Pcm16bit),
        unk9: 1,
        loops: true,
        unk10: 10,
        unk11: 11,
        unk12: 12,
        unk13: 13,
        sample_rate: 22050,
        sample: None,
        loop_begin_pos: 2,
        loop_length: 6,
        envelope: 1,
        envelope_multiplier: 2,
        unk19: 3,
        unk20: 4,
        unk21: 5,
        unk22: 6,
        attack_volume: 7,
        attack: 8,
        decay: 9,
        sustain: 10,
        hold: 11,
        decay2: 12,
        release: -1,
        unk57: -2,
        sample_pos: 0,
    }
}

fn split() -> SwdlSplitEntry {
    SwdlSplitEntry {
        id: 0,
        unk11: 1,
        unk25: 2,
        lowkey: 0,
        hikey: 127,
        lolevel: 0,
        hilevel: 127,
        unk16: -5,
        unk17: -6,
        sample_id: 7,
        ftune: 0,
        ctune: 0,
        rootkey: 60,
        ktps: 0,
        sample_volume: 100,
        sample_pan: 64,
        keygroup_id: 1,
        unk22: 0,
        unk23: 0,
        unk24: 0,
        envelope: 1,
        envelope_multiplier: 1,
        unk37: 0,
        unk38: 0,
        unk39: 0,
        unk40: 0,
        attack_volume: 0,
        attack: 0,
        decay: 0,
        sustain: 0,
        hold: 0,
        decay2: 0,
        release: 0,
        unk53: 0,
    }
}

fn lfo() -> SwdlLfoEntry {
    SwdlLfoEntry {
        unk34: 0,
        unk52: 0,
        dest: 1,
        wshape: 2,
        rate: 300,
        unk29: 0,
        depth: 40,
        delay: 5,
        unk32: 0,
        unk33: 0,
    }
}

fn sample_swdl() -> Swdl {
    let header = SwdlHeader::new(
        0x415,
        1,
        2,
        DseDate::new(2008, 1, 2, 3, 4, 5, 0),
        DseFilename("bank.swd".to_string()),
        0,
        SwdlPcmdLen::new(0, false),
        0,
    );
    let program = SwdlProgram {
        id: 3,
        prg_volume: 127,
        prg_pan: 64,
        unk3: 0,
        that_f_byte: 0x0F,
        unk4: 0x200,
        unk5: 0,
        unk7: 0,
        unk8: 0,
        unk9: 0,
        lfos: vec![lfo()],
        splits: vec![split()],
        delimiter: 0,
    };
    Swdl {
        header,
        wavi: SwdlWavi::new(vec![None, Some(entry())]),
        pcmd: Some(SwdlPcmd {
            chunk_data: StBytes((0..32u8).collect()),
        }),
        prgi: Some(SwdlPrgi {
            program_table: vec![Some(program), None],
        }),
        kgrp: Some(SwdlKgrp {
            keygroups: vec![
                SwdlKeygroup { id: 0, poly: -1, priority: 8, vclow: 0, vchigh: 15, unk50: 0, unk51: 0 },
                SwdlKeygroup { id: 1, poly: 2, priority: 8, vclow: 0, vchigh: 15, unk50: 0, unk51: 0 },
            ],
        }),
    }
}

#[test]
fn swdl_write_then_read() {
    let bytes = sample_swdl().to_bytes();
    assert_eq!(&bytes.0[0..4], b"swdl");
    assert_eq!(bytes.0.len() as u32, u32::from_le_bytes([bytes.0[8], bytes.0[9], bytes.0[10], bytes.0[11]]));
    assert_eq!(&bytes.0[bytes.0.len() - 16..bytes.0.len() - 12], b"eod ");
    let back = Swdl::from_bytes(&bytes.0).unwrap();
    assert_eq!(back.header.version, 0x415);
    assert_eq!(back.header.file_name.0, "bank.swd");
    assert!(back.header.modified_date == DseDate::new(2008, 1, 2, 3, 4, 5, 0));
    assert_eq!(back.wavi.sample_info_table.len(), 2);
    assert!(back.wavi.sample_info_table[0].is_none());
    let mut expected = entry();
    expected.sample = Some(SwdlPcmdReference::new(0, 32));
    assert!(back.wavi.sample_info_table[1] == Some(expected));
    let prgi = back.prgi.unwrap();
    assert_eq!(prgi.program_table.len(), 2);
    let p = prgi.program_table[0].as_ref().unwrap();
    assert_eq!(p.id, 3);
    assert_eq!(p.that_f_byte, 0x0F);
    assert!(p.lfos[0] == lfo());
    assert!(p.splits[0] == split());
    assert!(prgi.program_table[1].is_none());
    let kgrp = back.kgrp.unwrap();
    assert_eq!(kgrp.keygroups.len(), 2);
    assert_eq!(kgrp.keygroups[0].poly, -1);
    assert_eq!(back.pcmd.unwrap().chunk_data.0, (0..32u8).collect::<Vec<u8>>());
    assert_eq!(Swdl::name_for(&bytes.0).0, "bank.swd");
}

#[test]
fn swdl_sample_outside_data_fails() {
    let mut s = sample_swdl();
    s.pcmd = Some(SwdlPcmd { chunk_data: StBytes(vec![0; 16]) });
    let bytes = s.to_bytes();
    assert!(Swdl::from_bytes(&bytes.0).is_err());
}

#[test]
fn swdl_wrong_magic_fails() {
    let mut bytes = sample_swdl().to_bytes().0;
    bytes[0] = b'x';
    assert!(Swdl::from_bytes(&bytes).is_err());
    assert!(Swdl::from_bytes(&[0u8; 20]).is_err());
}

#[test]
fn split_with_differing_copy_fails() {
    let mut b = split().to_bytes().0;
    b[6] = 5;
    assert!(SwdlSplitEntry::from_bytes(&b, 0).is_err());
    let ok = split().to_bytes().0;
    assert!(SwdlSplitEntry::from_bytes(&ok, 0).unwrap() == split());
}

#[test]
fn pcmd_len_external_marker() {
    let ext = SwdlPcmdLen::new(0x1234, true).to_bytes();
    assert_eq!(ext.0, vec![0x10, 0x00, 0xAA, 0xAA]);
    let back = SwdlPcmdLen::from_bytes(&ext.0, 0).unwrap();
    assert!(back == SwdlPcmdLen::new(0x10, true));
}
