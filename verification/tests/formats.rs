use skytemple_rust::bytes::StBytes;
use skytemple_rust::dse::date::DseDate;
use skytemple_rust::dse::filename::DseFilename;
use skytemple_rust::encoding::pmd2_encoder::Pmd2Encoder;
use skytemple_rust::image::tilemap_entry::TilemapEntry;
use skytemple_rust::st_bma::Bma;
use skytemple_rust::st_dma::Dma;
use skytemple_rust::st_dma::DmaType;

fn small_bma() -> Bma {
    let data = vec![
        2, 2, 3, 3, 2, 1, // camera 2x2, tiling 3x3, chunks 2x1
        1, 0, 0, 0, 1, 0, // one layer, no data layer, one collision layer
        0xC0, 5, 0x10, 0x00, // layer 0: one pair of values, 5 and 1
        0x80, 0x00, 0x81, // collision: 1, 0, 1, 1 before XOR with the row above
    ];
    Bma::new(StBytes(data)).unwrap()
}

#[test]
fn bma_reads_header_layers_and_collision() {
    let bma = small_bma();
    assert_eq!(bma.map_width_camera, 2);
    assert_eq!(bma.map_height_camera, 2);
    assert_eq!(bma.tiling_width, 3);
    assert_eq!(bma.map_width_chunks, 2);
    assert_eq!(bma.map_height_chunks, 1);
    assert_eq!(bma.number_of_layers, 1);
    assert_eq!(bma.layer0, vec![5, 1]);
    assert!(bma.layer1.is_none());
    assert!(bma.unknown_data_block.is_none());
    assert_eq!(bma.collision, Some(vec![true, false, false, true]));
    assert!(bma.collision2.is_none());
}

#[test]
fn bma_truncated_layer_fails() {
    let data = vec![2, 2, 3, 3, 2, 1, 1, 0, 0, 0, 0, 0, 0xC0, 5];
    assert!(Bma::new(StBytes(data)).is_err());
}

#[test]
fn bma_resize_keeps_positions() {
    let mut bma = small_bma();
    bma.resize(3, 2, 1, 2);
    assert_eq!(bma.layer0, vec![5, 1, 0, 0, 0, 0]);
    assert_eq!(bma.collision, Some(vec![true, false]));
    assert_eq!(bma.map_width_chunks, 3);
    assert_eq!(bma.map_height_chunks, 2);
    assert_eq!(bma.map_width_camera, 1);
}

#[test]
fn bma_place_and_layers() {
    let mut bma = small_bma();
    bma.place_chunk(0, 1, 0, 9);
    assert_eq!(bma.layer0, vec![5, 9]);
    bma.add_upper_layer();
    assert_eq!(bma.number_of_layers, 2);
    assert_eq!(bma.layer1, Some(vec![0, 0]));
    bma.place_chunk(1, 0, 0, 4);
    assert_eq!(bma.layer1, Some(vec![4, 0]));
    bma.place_collision(0, 1, 1, false);
    assert_eq!(bma.collision, Some(vec![true, false, false, false]));
    let copy = bma.deepcopy();
    bma.remove_upper_layer();
    assert_eq!(bma.number_of_layers, 1);
    assert!(bma.layer1.is_none());
    assert_eq!(copy.layer1, Some(vec![4, 0]));
}

#[test]
fn dse_date_roundtrip() {
    let d = DseDate::new(2024, 5, 17, 13, 45, 30, 99);
    let b = d.to_bytes();
    assert_eq!(b.0, vec![0xE8, 0x07, 5, 17, 13, 45, 30, 99]);
    let back = DseDate::from_bytes(&b.0, 0);
    assert!(back == d);
}

#[test]
fn dse_filename_stops_at_nul() {
    let f = DseFilename::from_bytes_fixed(b"abc\0xyz", 0, 7);
    assert_eq!(f.0, "abc");
}

#[test]
fn tilemap_entry_packing() {
    let e = TilemapEntry::new(0x155, true, false, 3, false);
    assert_eq!(e.to_int(), 0x155 | 0x400 | 0x3000);
    let back = TilemapEntry::from_int(0x3555);
    assert_eq!(back.0, 0x155);
    assert!(back.1);
    assert!(!back.2);
    assert_eq!(back.3, 3);
    assert_eq!(back.to_int(), 0x3555);
}

#[test]
fn pmd2_encodes_ascii_latin1_and_signs() {
    let mut enc = Pmd2Encoder::new();
    let input: Vec<char> = "Aé♂€".chars().collect();
    let (bytes, n, err) = enc.raw_feed(&input);
    assert_eq!(bytes, vec![0x41, 0xE9, 0xBD, 0x80]);
    assert_eq!(n, 9);
    assert!(err.is_none());
}

#[test]
fn pmd2_reports_unencodable() {
    let mut enc = Pmd2Encoder::new();
    let input: Vec<char> = "ab\u{1F600}c".chars().collect();
    let (bytes, n, err) = enc.raw_feed(&input);
    assert_eq!(bytes, vec![0x61, 0x62]);
    assert_eq!(n, 2);
    let err = err.unwrap();
    assert_eq!(err.upto, 6);
    assert_eq!(err.cause, "unrepresentable character (\u{1F600})");
}

#[test]
fn dma_set_then_get() {
    let mut dma = Dma::new(StBytes(vec![0u8; 0x900 + 30])).unwrap();
    dma.set(DmaType::Floor, 5, 1, 42);
    let v = dma.get(DmaType::Floor, 5);
    assert_eq!(v.len(), 3);
    assert_eq!(v[1], 42);
    assert_eq!(v[0], 0);
}

use skytemple_rust::no_python::Py;
use skytemple_rust::no_python::Python;
use skytemple_rust::st_dpl::Dpl;
use skytemple_rust::st_dpl::DplWriter;
use skytemple_rust::st_kao::Kao;
use skytemple_rust::st_kao::KaoImage;
use skytemple_rust::st_kao::KaoWriter;

#[test]
fn dpl_read_write_roundtrip() {
    let mut data = Vec::new();
    for i in 0..20u8 {
        data.push(i);
        data.push(i.wrapping_mul(3));
        data.push(255 - i);
        data.push(128);
    }
    let dpl = Dpl::new(StBytes(data.clone())).unwrap();
    assert_eq!(dpl.palettes.len(), 2);
    assert_eq!(dpl.palettes[0].0.len(), 48);
    assert_eq!(dpl.palettes[1].0.len(), 12);
    assert_eq!(&dpl.palettes[0].0[0..3], &[0, 0, 255]);
    let out = DplWriter::new().write(Py(dpl), Python).unwrap();
    assert_eq!(out.0, data);
}

fn test_portrait() -> KaoImage {
    let cimg = vec![65u8, 84, 52, 80, 78, 10, 0, 1, 2, 3];
    let pal: Vec<u8> = (0..48u8).collect();
    KaoImage::create_from_raw(&cimg, &pal).unwrap()
}

#[test]
fn kao_write_then_read() {
    let mut kao = Kao::create_new(2);
    kao.set(1, 3, Py(test_portrait())).unwrap();
    assert_eq!(kao.n_entries(), 2);
    let bytes = KaoWriter::new().write(Py(kao), Python).unwrap();
    let back = Kao::new(&bytes.0, Python).unwrap();
    assert_eq!(back.n_entries(), 2);
    assert!(back.get(0, 0, Python).unwrap().is_none());
    let img = back.get(1, 3, Python).unwrap().unwrap();
    assert_eq!(img.0.compressed_img_data.0, vec![65u8, 84, 52, 80, 78, 10, 0, 1, 2, 3]);
    assert_eq!(img.0.pal_data.0, (0..48u8).collect::<Vec<u8>>());
}

#[test]
fn kao_get_out_of_range() {
    let kao = Kao::create_new(1);
    assert!(kao.get(1, 0, Python).is_err());
    assert!(kao.get(0, 40, Python).is_err());
}

#[test]
fn kao_portrait_not_a_container() {
    let mut raw = vec![0u8; 60];
    raw[48] = b'X';
    assert!(KaoImage::new(&raw).is_err());
}

use skytemple_rust::dse::st_smdl::event::SmdlEvent;
use skytemple_rust::dse::st_smdl::event::SmdlPause;
use skytemple_rust::dse::st_smdl::trk::SmdlTrack;

#[test]
fn smdl_track_timed_events() {
    let mut t = SmdlTrack::new(1, 2);
    t.events.push(SmdlEvent::Pause { value: SmdlPause::HalfNote });
    t.events.push(SmdlEvent::Pause { value: SmdlPause::QuarterNote });
    let mut it = t.iter_events_timed();
    assert_eq!(it.next(), Some((96, 0)));
    assert_eq!(it.next(), Some((144, 1)));
    assert_eq!(it.next(), None);
}

#[test]
fn kao_iterates_all_slots() {
    let mut kao = Kao::create_new(2);
    kao.set(1, 3, Py(test_portrait())).unwrap();
    let mut it = kao.iter(Python);
    let mut count = 0;
    let mut found = None;
    while let Some((s, i, img)) = it.next() {
        if img.is_some() {
            found = Some((s, i));
        }
        count += 1;
    }
    assert_eq!(count, 80);
    assert_eq!(found, Some((1, 3)));
}

use skytemple_rust::st_bpa::Bpa;
use skytemple_rust::st_bpl::Bpl;

#[test]
fn readable_checks() {
    assert!(!Bpl::readable(&[0u8; 3]));
    assert!(Bpl::readable(&[0u8; 4]));
    assert!(Bpa::readable(&[0u8; 4]));
    // one tile, one frame: 4 bytes of frame info and 32 bytes of tile data are needed
    let mut bpa = vec![1u8, 0, 1, 0, 0, 0, 0, 0];
    assert!(!Bpa::readable(&bpa));
    bpa.extend(vec![0u8; 32]);
    assert!(Bpa::readable(&bpa));
}

use skytemple_rust::bytes::StU8List;
use skytemple_rust::st_bg_list_dat::BgList;
use skytemple_rust::st_bg_list_dat::BgListEntry;
use skytemple_rust::st_bg_list_dat::BgListWriter;
use skytemple_rust::st_bpa::BpaFrameInfo;
use skytemple_rust::st_bpa::BpaWriter;
use skytemple_rust::st_bpl::BplAnimationSpec;
use skytemple_rust::st_bpl::BplWriter;

#[test]
fn bpa_write_then_read() {
    let tiles: Vec<StBytes> = (0..6u8).map(|t| StBytes(vec![t; 32])).collect();
    let bpa = Bpa {
        number_of_tiles: 2,
        number_of_frames: 3,
        tiles,
        frame_info: vec![
            Py(BpaFrameInfo::new(10, 0)),
            Py(BpaFrameInfo::new(20, 1)),
            Py(BpaFrameInfo::new(30, 2)),
        ],
    };
    let bytes = BpaWriter::new().write(Py(bpa), Python).unwrap();
    assert_eq!(bytes.0.len(), 4 + 12 + 6 * 32);
    let back = Bpa::new(bytes, Python).unwrap();
    assert_eq!(back.number_of_tiles, 2);
    assert_eq!(back.number_of_frames, 3);
    assert_eq!(back.frame_info[1].0.duration_per_frame, 20);
    assert_eq!(back.frame_info[2].0.unk2, 2);
    assert_eq!(back.tiles[4].0, vec![4u8; 32]);
}

#[test]
fn bpl_write_then_read() {
    let mut pal = vec![0u8, 0, 0];
    pal.extend((0..45u8).map(|x| x * 2));
    let bpl = Bpl {
        number_palettes: 1,
        has_palette_animation: true,
        palettes: vec![StU8List(pal.clone())],
        animation_specs: vec![Py(BplAnimationSpec::new(5, 1))],
        animation_palette: vec![StU8List(vec![7u8; 45])],
    };
    let bytes = BplWriter::new().write(Py(bpl), Python).unwrap();
    let back = Bpl::new(bytes, Python).unwrap();
    assert_eq!(back.number_palettes, 1);
    assert!(back.has_palette_animation);
    assert_eq!(back.palettes[0].0, pal);
    assert_eq!(back.palettes.len(), 16);
    assert_eq!(back.animation_specs[0].0.duration_per_frame, 5);
    assert_eq!(back.animation_palette[0].0, vec![7u8; 45]);
}

#[test]
fn bg_list_write_then_read() {
    let mut bpas: [Option<String>; 8] = Default::default();
    bpas[2] = Some("ANIM01".to_string());
    let entry = BgListEntry::new("PAL".to_string(), "TILES".to_string(), "MAP".to_string(), bpas);
    let list = BgList { level: vec![Py(entry)] };
    let bytes = BgListWriter::new().write(Py(list), Python).unwrap();
    assert_eq!(bytes.0.len(), 88);
    let back = BgList::new(bytes.0, Python).unwrap();
    let e = &back.level[0].0;
    assert_eq!(e.bpl_name, "PAL");
    assert_eq!(e.bpc_name, "TILES");
    assert_eq!(e.bma_name, "MAP");
    assert_eq!(e.bpa_names[2], Some("ANIM01".to_string()));
    assert!(e.bpa_names[0].is_none());
}

use skytemple_rust::st_bgp::Bgp;
use skytemple_rust::st_bgp::BgpWriter;

#[test]
fn bgp_write_then_read() {
    let pal: Vec<u8> = (0..48u8).collect();
    let bgp = Bgp {
        palettes: vec![pal.clone(), vec![9u8; 48]],
        tilemap: vec![
            Py(TilemapEntry::new(3, true, false, 1, false)),
            Py(TilemapEntry::new(1023, false, true, 15, false)),
        ],
        tiles: vec![StBytes(vec![1u8; 32]), StBytes(vec![2u8; 32])],
        unknown1: 5,
        unknown2: 6,
    };
    let bytes = BgpWriter::new().write(Py(bgp), Python).unwrap();
    assert_eq!(bytes.0.len(), 32 + 128 + 4 + 64);
    let back = Bgp::new(bytes, Python).unwrap();
    assert_eq!(back.palettes[0], pal);
    assert_eq!(back.palettes[1], vec![9u8; 48]);
    assert_eq!(back.tilemap[0].0.to_int(), TilemapEntry::new(3, true, false, 1, false).to_int());
    assert_eq!(back.tilemap[1].0 .0, 1023);
    assert_eq!(back.tiles[1].0, vec![2u8; 32]);
    assert_eq!(back.unknown1, 5);
    assert_eq!(back.unknown2, 6);
}

use skytemple_rust::st_dpla::Dpla;

#[test]
fn dpla_serialize_then_read() {
    let dpla = Dpla {
        colors: vec![vec![1, 2, 3, 4, 5, 6], vec![], vec![9, 9, 9]],
        durations_per_frame_for_colors: vec![10, 0, 3],
    };
    let (content, ptrs, off) = dpla.sir0_serialize_parts().unwrap();
    assert_eq!(ptrs.len(), 3);
    let back = Dpla::new(content, off.unwrap()).unwrap();
    assert_eq!(back.colors, vec![vec![1, 2, 3, 4, 5, 6], vec![], vec![9, 9, 9]]);
    assert_eq!(back.durations_per_frame_for_colors, vec![10, 0, 3]);
}

use skytemple_rust::bytes::StBytesMut;
use skytemple_rust::image::IndexedImage;
use skytemple_rust::image::Raster;
use skytemple_rust::st_dpc::Dpc;

#[test]
fn dpc_import_with_palette_past_twelfth_names_it() {
    let mut dpc = Dpc::new(StBytes(vec![]), Python).unwrap();
    let img = IndexedImage(Raster(StBytesMut(vec![13 * 16; 24 * 24]), 24, 24), StBytes(vec![0; 768]));
    match dpc.pil_to_chunks(img, false, Python) {
        Ok(_) => panic!("palette 13 must be refused"),
        Err(e) => {
            assert!(e.kind == skytemple_rust::python::ErrorKind::ValueError);
            assert_eq!(
                e.value,
                "The image to import can only use the first 12 palettes. Tried to use palette 13"
            );
        },
    }
}

use skytemple_rust::st_dma::DmaExtraType;

#[test]
fn dma_set_extra_then_get_extra() {
    let mut dma = Dma::new(StBytes(vec![0u8; 0x900 + 30])).unwrap();
    dma.set_extra(DmaExtraType::WallOrVoid, 4, 77);
    let v = dma.get_extra(DmaExtraType::WallOrVoid);
    assert_eq!(v.len(), 10);
    assert_eq!(v[4], 77);
    assert_eq!(dma.get_extra(DmaExtraType::Floor1), vec![0u8; 10]);
    assert_eq!(dma.get_extra(DmaExtraType::Floor2), vec![0u8; 10]);
}
