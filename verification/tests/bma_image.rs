use skytemple_rust::bytes::StBytes;
use skytemple_rust::bytes::StU8List;
use skytemple_rust::image::tilemap_entry::TilemapEntry;
use skytemple_rust::no_python::Py;
use skytemple_rust::no_python::Python;
use skytemple_rust::st_bma::Bma;
use skytemple_rust::st_bpa::Bpa;
use skytemple_rust::st_bpa::InputBpa;
use skytemple_rust::st_bpc::Bpc;
use skytemple_rust::st_bpc::BpcLayer;
use skytemple_rust::st_bpl::Bpl;
use skytemple_rust::st_bpl::BplAnimationSpec;

fn map(layer0: Vec<u16>) -> Bma {
    Bma {
        map_width_camera: 6,
        map_height_camera: 3,
        tiling_width: 3,
        tiling_height: 3,
        map_width_chunks: 2,
        map_height_chunks: 1,
        number_of_layers: 1,
        unk6: 0,
        number_of_collision_layers: 0,
        layer0,
        layer1: None,
        unknown_data_block: None,
        collision: None,
        collision2: None,
    }
}

fn bpc(second_chunk_tile: usize, bpas: [u16; 4]) -> Bpc {
    let mut tilemap = vec![];
    for _ in 0..9 {
        tilemap.push(Py(TilemapEntry(0, false, false, 0)));
    }
    for _ in 0..9 {
        tilemap.push(Py(TilemapEntry(second_chunk_tile, false, false, 0)));
    }
    Bpc {
        tiling_width: 3,
        tiling_height: 3,
        number_of_layers: 1,
        layers: vec![Py(BpcLayer {
            number_tiles: 1,
            bpas,
            chunk_tilemap_len: 2,
            tiles: vec![StBytes(vec![0; 32]), StBytes(vec![0x21; 32])],
            tilemap,
        })],
    }
}

fn bpl(animated: bool) -> Bpl {
    Bpl {
        number_palettes: 1,
        has_palette_animation: animated,
        palettes: vec![StU8List(vec![9u8; 48])],
        animation_specs: if animated { vec![Py(BplAnimationSpec::new(5, 2))] } else { vec![] },
        animation_palette: if animated { vec![StU8List(vec![7u8; 45]), StU8List(vec![8u8; 45])] } else { vec![] },
    }
}

#[test]
fn bma_to_pil_places_chunks() {
    let frames = map(vec![1, 0]).to_pil(&bpc(1, [0; 4]), &bpl(false), vec![], true, true, true, false, Python).unwrap();
    assert_eq!(frames.len(), 1);
    let img = &frames[0];
    assert_eq!(img.0 .1, 48);
    assert_eq!(img.0 .2, 24);
    assert_eq!(img.1 .0, vec![9u8; 48]);
    for y in 0..24 {
        for x in 0..48 {
            let expected = if x >= 24 { 0 } else if x % 2 == 0 { 1 } else { 2 };
            assert_eq!(img.0 .0 .0[y * 48 + x], expected, "pixel {} {}", x, y);
        }
    }
}

#[test]
fn bma_to_pil_animates_bpa_tiles() {
    let bpa = Bpa {
        number_of_tiles: 1,
        number_of_frames: 2,
        tiles: vec![StBytes(vec![0x33; 32]), StBytes(vec![0x44; 32])],
        frame_info: vec![],
    };
    let slots = vec![Some(InputBpa(bpa)), None, None, None, None, None, None, None];
    let frames = map(vec![1, 1]).to_pil(&bpc(2, [1, 0, 0, 0]), &bpl(false), slots, true, true, true, false, Python).unwrap();
    assert_eq!(frames.len(), 2);
    assert_eq!(frames[0].0 .0 .0[0], 3);
    assert_eq!(frames[1].0 .0 .0[0], 4);
    assert_eq!(frames[1].0 .0 .0[47], 4);
}

#[test]
fn bma_to_pil_mismatched_bpa_fails() {
    let slots = vec![None, None, None, None, None, None, None, None];
    assert!(map(vec![1, 1]).to_pil(&bpc(2, [1, 0, 0, 0]), &bpl(false), slots, true, true, true, false, Python).is_err());
}

#[test]
fn bma_to_pil_palette_animation() {
    let frames = map(vec![1, 0]).to_pil(&bpc(1, [0; 4]), &bpl(true), vec![], true, true, true, false, Python).unwrap();
    assert_eq!(frames.len(), 2);
    assert_eq!(frames[0].0 .0 .0[0], 1);
    assert_eq!(&frames[0].1 .0[0..3], &[0, 0, 0]);
    assert_eq!(frames[0].1 .0[3], 7);
    assert_eq!(frames[1].1 .0[3], 8);
    let single = map(vec![1, 0]).to_pil(&bpc(1, [0; 4]), &bpl(true), vec![], true, true, true, true, Python).unwrap();
    assert_eq!(single.len(), 1);
    assert_eq!(single[0].1 .0, vec![9u8; 48]);
}

use skytemple_rust::bytes::StBytesMut;
use skytemple_rust::image::IndexedImage;
use skytemple_rust::image::Raster;

fn one_chunk_map() -> Bma {
    let mut m = map(vec![0]);
    m.map_width_chunks = 1;
    m
}

#[test]
fn bma_from_pil_then_to_pil() {
    let mut m = one_chunk_map();
    let mut b = bpc(1, [0; 4]);
    let mut p = bpl(false);
    let mut pixels = vec![1u8; 24 * 24];
    pixels[0] = 2;
    let img = IndexedImage(Raster(StBytesMut(pixels.clone()), 24, 24), StBytes(vec![5u8; 768]));
    m.from_pil(&mut b, &mut p, Some(img), None, true, 16, Python).unwrap();
    assert_eq!(m.layer0, vec![1]);
    assert_eq!(b.layers[0].0.tiles.len(), 3);
    assert_eq!(b.layers[0].0.tilemap.len(), 18);
    assert_eq!(p.palettes.len(), 16);
    assert_eq!(p.palettes[0].0, vec![5u8; 48]);
    let frames = m.to_pil(&b, &p, vec![], true, true, false, false, Python).unwrap();
    assert_eq!(frames.len(), 1);
    assert_eq!(frames[0].0 .0 .0, pixels);
}

#[test]
fn bma_from_pil_wrong_size_fails() {
    let mut m = one_chunk_map();
    let mut b = bpc(1, [0; 4]);
    let mut p = bpl(false);
    let img = IndexedImage(Raster(StBytesMut(vec![0u8; 16 * 24]), 16, 24), StBytes(vec![0u8; 768]));
    let e = m.from_pil(&mut b, &mut p, Some(img), None, true, 16, Python).unwrap_err();
    assert_eq!(e.value, "Can not import map background: Width of both images must match the current map width: 24px");
    assert_eq!(m.layer0, vec![0]);
}

fn two_frame_bpa() -> Vec<Option<InputBpa>> {
    let bpa = Bpa {
        number_of_tiles: 1,
        number_of_frames: 2,
        tiles: vec![StBytes(vec![0x33; 32]), StBytes(vec![0x44; 32])],
        frame_info: vec![],
    };
    vec![Some(InputBpa(bpa)), None, None, None, None, None, None, None]
}

#[test]
fn bpc_chunks_animated_frames() {
    let b = bpc(2, [1, 0, 0, 0]);
    let frames = b.chunks_animated_to_pil(0, vec![StBytes(vec![1u8; 48])], two_frame_bpa(), 1, Python).unwrap();
    assert_eq!(frames.len(), 2);
    assert_eq!(frames[0].0 .1, 24);
    assert_eq!(frames[0].0 .2, 48);
    assert_eq!(frames[0].0 .0 .0[24 * 24], 3);
    assert_eq!(frames[1].0 .0 .0[24 * 24], 4);
    assert_eq!(frames[1].0 .0 .0[0], 0);
}

#[test]
fn bpc_single_chunk_animated_frames() {
    let b = bpc(2, [1, 0, 0, 0]);
    let still = b.single_chunk_animated_to_pil(0, 0, vec![StBytes(vec![1u8; 48])], two_frame_bpa(), Python).unwrap();
    assert_eq!(still.len(), 1);
    let frames = b.single_chunk_animated_to_pil(0, 1, vec![StBytes(vec![1u8; 48])], two_frame_bpa(), Python).unwrap();
    assert_eq!(frames.len(), 2);
    assert_eq!(frames[0].0 .0 .0[0], 3);
    assert_eq!(frames[1].0 .0 .0[5], 4);
}

#[test]
fn bma_to_pil_single_layer_draws_lower() {
    let img = map(vec![1, 0]).to_pil_single_layer(&bpc(1, [0; 4]), vec![StBytes(vec![2u8; 48])], vec![], 0, Python).unwrap();
    assert_eq!(img.0 .1, 48);
    assert_eq!(img.1 .0, vec![2u8; 48]);
    assert_eq!(img.0 .0 .0[0], 1);
    assert_eq!(img.0 .0 .0[30], 0);
}
