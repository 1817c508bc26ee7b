use skytemple_rust::compression::bma_collision_rle::BmaCollisionRleCompressor;
use skytemple_rust::compression::bma_collision_rle::BmaCollisionRleDecompressor;
use skytemple_rust::compression::bma_layer_nrl::BmaLayerNrlDecompressor;
use skytemple_rust::compression::bma_layer_nrl::Pair24;
use skytemple_rust::compression::bma_layer_nrl::TwoU16;
use skytemple_rust::compression::bpc_image::BpcImageCompressor;
use skytemple_rust::compression::bpc_image::BpcImageDecompressor;
use skytemple_rust::compression::custom_999::Custom999Compressor;
use skytemple_rust::compression::custom_999::Custom999Decompressor;
use skytemple_rust::compression::px::PxCompLevel;
use skytemple_rust::compression::px::PxCompressor;
use skytemple_rust::compression::px::PxDecompressor;
use skytemple_rust::python::ErrorKind;
use skytemple_rust::romfs::crc16;

#[test]
fn crc16_check_value() {
    assert_eq!(crc16(b"123456789"), 0x4B37);
    assert_eq!(crc16(b""), 0xFFFF);
}

#[test]
fn rle_compress_runs() {
    let data = [1u8, 1, 1, 0, 0, 1];
    let c = BmaCollisionRleCompressor::run(&data).unwrap();
    assert_eq!(c, vec![0x82, 0x01, 0x80]);
}

#[test]
fn rle_roundtrip() {
    let mut data = vec![0u8; 300];
    for i in 0..300 {
        if i % 7 < 3 || i > 200 {
            data[i] = 1;
        }
    }
    let c = BmaCollisionRleCompressor::run(&data).unwrap();
    let d = BmaCollisionRleDecompressor::run(&c, data.len()).unwrap();
    assert_eq!(d, data);
}

#[test]
fn rle_decompress_too_short() {
    let r = BmaCollisionRleDecompressor::run(&[0x81], 5);
    assert!(r.is_err());
}

#[test]
fn pair24_two_u16_roundtrip() {
    let p = Pair24::new([0x12, 0x34, 0x56]);
    let t: TwoU16 = p.into();
    assert_eq!(*t.raw(), [0x12, 0x04, 0x63, 0x05]);
    let back: Pair24 = t.into();
    assert_eq!(*back.raw(), [0x12, 0x34, 0x56]);
}

#[test]
fn bma_layer_nrl_commands() {
    // two null values, then one value written twice, then one value copied
    let data = [0x01, 0x81, 0x05, 0x00, 0x00, 0xC0, 0x07, 0x10, 0x00];
    let out = BmaLayerNrlDecompressor::run(&data, 20).unwrap();
    assert_eq!(
        out,
        vec![0, 0, 0, 0, 0, 0, 0, 0, 5, 0, 0, 0, 5, 0, 0, 0, 7, 0, 1, 0]
    );
    assert!(BmaLayerNrlDecompressor::run(&[0x81, 0x05], 8).is_err());
}

#[test]
fn bpc_image_roundtrip() {
    let mut data = vec![0u8; 64];
    for i in 0..64 {
        data[i] = ((i / 8) as u8) * 3;
    }
    let c = BpcImageCompressor::run(&data).unwrap();
    let d = BpcImageDecompressor::run(&c, data.len()).unwrap();
    assert_eq!(d, data);
}

#[test]
fn bpc_image_odd_length_fails() {
    assert!(BpcImageCompressor::run(&[1, 2, 3]).is_err());
    assert!(BpcImageDecompressor::run(&[0, 0], 3).is_err());
}

#[test]
fn custom999_roundtrip() {
    let data = vec![0x12u8, 0x34, 0x44, 0x21, 0xF0, 0x0F];
    let c = Custom999Compressor::run(&data);
    let d = Custom999Decompressor::run(&c.0, data.len());
    assert_eq!(d.0, data);
}

#[test]
fn px_roundtrip_each_level() {
    let mut data = Vec::new();
    for i in 0..200u32 {
        data.push(((i * 7) % 5) as u8);
        if i % 3 == 0 {
            data.push(0x11);
        }
    }
    for level in [
        PxCompLevel::Level0,
        PxCompLevel::Level1,
        PxCompLevel::Level2,
        PxCompLevel::Level3,
    ] {
        let (c, flags) = PxCompressor::run(&data, level, true).unwrap();
        let d = PxDecompressor::run(&c.0, &flags, data.len() as u16).unwrap();
        assert_eq!(d.0, data);
    }
}

#[test]
fn px_level0_stores_as_is() {
    let data = [1u8, 2, 3, 4, 5, 6, 7, 8, 9];
    let (c, _flags) = PxCompressor::run(&data, PxCompLevel::Level0, false).unwrap();
    assert_eq!(c.0, vec![0xFF, 1, 2, 3, 4, 5, 6, 7, 8, 0x80, 9]);
}

#[test]
fn px_copy_before_start_fails() {
    // a command byte with bit 7 clear is a copy; there is nothing to copy from yet
    let flags = [0u8, 1, 2, 3, 4, 5, 6, 7, 8];
    let r = PxDecompressor::run(&[0x00, 0xF0, 0xFF], &flags, 10);
    match r {
        Err(e) => assert!(e.kind == ErrorKind::ValueError),
        Ok(_) => panic!("expected an error"),
    }
}

use skytemple_rust::st_at_common::CommonAt;
use skytemple_rust::st_at_common::CommonAtType;

#[test]
fn common_at_compress_checked_refuses_atupx_when_allowed() {
    let data = vec![1u8, 2, 3, 4, 5, 6, 7, 8];
    assert!(CommonAt::compress_checked(&data, &[CommonAtType::ATUPX], true).is_none());
    let plain = CommonAt::compress_checked(&data, &[CommonAtType::AT4PN], true).unwrap().unwrap();
    let direct = CommonAt::compress(&data, &[CommonAtType::AT4PN], true).unwrap();
    assert_eq!(plain.0, direct.0);
}

#[test]
fn bma_collision_rle_roundtrip_reads_all_compressed_bytes() {
    let data: Vec<u8> = vec![0, 0, 0, 1, 1, 0, 1, 1, 1, 1, 0, 0];
    let c = BmaCollisionRleCompressor::run(&data).unwrap();
    assert!(c.len() <= data.len());
    let (back, used) = BmaCollisionRleDecompressor::run_counted(&c, data.len()).unwrap();
    assert_eq!(back, data);
    assert_eq!(used, c.len());
}
