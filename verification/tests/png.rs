use geodesic_wallpaper::animation::{deflate_store, encode_png, png_crc};
use geodesic_wallpaper::png::{adler32, crc32_table, crc_feed};
use geodesic_wallpaper::timelapse::{png_rgba_bytes, zlib_store};

#[test]
fn crc32_of_check_string() {
    let table = crc32_table();
    let crc = crc_feed(&table, 0xffff_ffff, b"123456789") ^ 0xffff_ffff;
    assert_eq!(crc, 0xCBF4_3926);
}

#[test]
fn png_crc_of_iend_chunk() {
    assert_eq!(png_crc(b"IEND", &[]), 0xAE42_6082);
}

#[test]
fn adler32_known_value() {
    assert_eq!(adler32(b"Wikipedia"), 0x11E6_0398);
    assert_eq!(adler32(&[]), 1);
}

#[test]
fn stored_deflate_frames_data() {
    let out = deflate_store(b"abc");
    assert_eq!(&out[..2], &[0x78, 0x01]);
    assert_eq!(&out[2..7], &[1, 3, 0, 0xfc, 0xff]);
    assert_eq!(&out[7..10], b"abc");
    assert_eq!(&out[10..], &adler32(b"abc").to_be_bytes());
    assert_eq!(zlib_store(b"abc"), out);
}

#[test]
fn stored_deflate_splits_large_input() {
    let data = vec![7u8; 70_000];
    let out = deflate_store(&data);
    assert_eq!(out.len(), 2 + 5 + 65_535 + 5 + (70_000 - 65_535) + 4);
    assert_eq!(out[2], 0);
    assert_eq!(out[2 + 5 + 65_535], 1);
}

#[test]
fn encode_png_layout() {
    let png = encode_png(1, 1, &[1, 2, 3, 4]);
    assert_eq!(&png[..8], &[0x89, b'P', b'N', b'G', 0x0d, 0x0a, 0x1a, 0x0a]);
    assert_eq!(&png[8..16], &[0, 0, 0, 13, b'I', b'H', b'D', b'R']);
    assert_eq!(&png[png.len() - 12..], &[0, 0, 0, 0, b'I', b'E', b'N', b'D', 0xAE, 0x42, 0x60, 0x82]);
    assert_eq!(png_rgba_bytes(&[1, 2, 3, 4], 1, 1), png);
}
