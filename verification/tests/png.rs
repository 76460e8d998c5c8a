use geodesic_wallpaper::png::{deflate_store, encode_png_rgba};

#[test]
fn deflate_store_empty_input() {
    assert_eq!(deflate_store(&[]), vec![0x78, 0x01, 1, 0, 0, 0xFF, 0xFF, 0, 0, 0, 1]);
}

#[test]
fn deflate_store_adler_checksum() {
    let out = deflate_store(b"Wikipedia");
    assert_eq!(&out[out.len() - 4..], &[0x11, 0xE6, 0x03, 0x98]);
    assert_eq!(&out[2..7], &[1, 9, 0, 0xF6, 0xFF]);
    assert_eq!(&out[7..16], b"Wikipedia");
}

#[test]
fn deflate_store_splits_long_input() {
    let data = vec![7u8; 70000];
    let out = deflate_store(&data);
    assert_eq!(&out[2..7], &[0, 0xFF, 0xFF, 0, 0]);
    let second = 7 + 65535;
    assert_eq!(&out[second..second + 5], &[1, 0x71, 0x11, 0x8E, 0xEE]);
    assert_eq!(out.len(), 2 + 5 + 65535 + 5 + 4465 + 4);
}

#[test]
fn png_iend_chunk_crc() {
    let rgba = [0u8, 0, 0, 255];
    let out = encode_png_rgba(1, 1, &rgba);
    assert_eq!(&out[out.len() - 12..], &[0, 0, 0, 0, 73, 69, 78, 68, 0xAE, 0x42, 0x60, 0x82]);
}
