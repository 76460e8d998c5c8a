use geodesic_wallpaper::export::{EncodedImage, ExportError, ExportFormat, ImageExporter};

fn sample_pixels(w: u32, h: u32) -> Vec<[u8; 3]> {
    (0..w * h)
        .map(|i| [(i % 256) as u8, ((i / 256) % 256) as u8, 128])
        .collect()
}

fn encode(pixels: &[[u8; 3]], w: u32, h: u32, format: ExportFormat) -> EncodedImage {
    ImageExporter::export(pixels, w, h, format).unwrap()
}

#[test]
fn test_ppm_creates_file() {
    let pixels = sample_pixels(4, 4);
    let out = encode(&pixels, 4, 4, ExportFormat::Ppm);
    assert!(!out.bytes.is_empty());
    assert!(out.bytes_written > 0);
}

#[test]
fn test_ppm_header() {
    let pixels = sample_pixels(2, 2);
    let out = encode(&pixels, 2, 2, ExportFormat::Ppm);
    assert!(out.bytes.starts_with(b"P6 2 2 255\n"));
}

#[test]
fn test_ppm_pixel_data_length() {
    let w = 3u32;
    let h = 3u32;
    let pixels = sample_pixels(w, h);
    let out = encode(&pixels, w, h, ExportFormat::Ppm);
    let header = b"P6 3 3 255\n";
    assert_eq!(out.bytes.len(), header.len() + (w * h * 3) as usize);
}

#[test]
fn test_bmp_creates_file() {
    let pixels = sample_pixels(4, 4);
    let out = encode(&pixels, 4, 4, ExportFormat::Bmp);
    assert!(!out.bytes.is_empty());
}

#[test]
fn test_bmp_magic() {
    let pixels = sample_pixels(4, 4);
    let content = encode(&pixels, 4, 4, ExportFormat::Bmp).bytes;
    assert_eq!(&content[..2], b"BM");
}

#[test]
fn test_bmp_file_size_field() {
    let pixels = sample_pixels(4, 4);
    let content = encode(&pixels, 4, 4, ExportFormat::Bmp).bytes;
    let size_field = u32::from_le_bytes([content[2], content[3], content[4], content[5]]);
    assert_eq!(size_field as usize, content.len());
}

#[test]
fn test_bmp_bits_per_pixel() {
    let pixels = sample_pixels(4, 4);
    let content = encode(&pixels, 4, 4, ExportFormat::Bmp).bytes;
    let bpp = u16::from_le_bytes([content[28], content[29]]);
    assert_eq!(bpp, 24);
}

#[test]
fn test_png_creates_file() {
    let pixels = sample_pixels(4, 4);
    let out = encode(&pixels, 4, 4, ExportFormat::Png);
    assert!(!out.bytes.is_empty());
}

#[test]
fn test_png_signature() {
    let pixels = sample_pixels(4, 4);
    let content = encode(&pixels, 4, 4, ExportFormat::Png).bytes;
    assert_eq!(&content[..8], &[137, 80, 78, 71, 13, 10, 26, 10]);
}

#[test]
fn test_svg_creates_file() {
    let pixels = sample_pixels(4, 4);
    let out = encode(&pixels, 4, 4, ExportFormat::Svg);
    assert!(!out.bytes.is_empty());
}

#[test]
fn test_svg_tag() {
    let pixels = sample_pixels(4, 4);
    let content = String::from_utf8(encode(&pixels, 4, 4, ExportFormat::Svg).bytes).unwrap();
    assert!(content.contains("<svg"));
    assert!(content.contains("</svg>"));
}

#[test]
fn test_svg_has_rects() {
    let pixels = sample_pixels(4, 4);
    let content = String::from_utf8(encode(&pixels, 4, 4, ExportFormat::Svg).bytes).unwrap();
    assert!(content.contains("<rect"));
}

#[test]
fn test_invalid_dimensions() {
    let err = ImageExporter::export(&[], 0, 10, ExportFormat::Ppm).unwrap_err();
    assert!(matches!(err, ExportError::InvalidDimensions));
}

#[test]
fn test_error_display() {
    let e = ExportError::InvalidDimensions;
    assert!(!e.message().is_empty());
}

#[test]
fn test_bmp_width_field() {
    let pixels = sample_pixels(5, 3);
    let content = encode(&pixels, 5, 3, ExportFormat::Bmp).bytes;
    let w = i32::from_le_bytes([content[18], content[19], content[20], content[21]]);
    assert_eq!(w, 5);
}

#[test]
fn test_bmp_height_field() {
    let pixels = sample_pixels(5, 3);
    let content = encode(&pixels, 5, 3, ExportFormat::Bmp).bytes;
    let h = i32::from_le_bytes([content[22], content[23], content[24], content[25]]);
    assert_eq!(h, 3);
}

#[test]
fn test_ppm_one_pixel() {
    let pixels = vec![[255u8, 128u8, 0u8]];
    let out = encode(&pixels, 1, 1, ExportFormat::Ppm);
    assert!(out.bytes_written > 0);
}

#[test]
fn test_bmp_one_pixel() {
    let pixels = vec![[255u8, 128u8, 0u8]];
    let content = encode(&pixels, 1, 1, ExportFormat::Bmp).bytes;
    assert_eq!(&content[..2], b"BM");
}

// ── Exact encodings ──────────────────────────────────────────────────────────

#[test]
fn ppm_exact_bytes() {
    let pixels = vec![[255u8, 128u8, 0u8], [1, 2, 3]];
    let out = encode(&pixels, 2, 1, ExportFormat::Ppm);
    let mut expected = b"P6 2 1 255\n".to_vec();
    expected.extend_from_slice(&[255, 128, 0, 1, 2, 3]);
    assert_eq!(out.bytes, expected);
    assert_eq!(out.bytes_written, expected.len() as u64);
}

#[test]
fn ppm_writes_every_pixel_given() {
    // The pixel data is written as given, whatever the dimensions say.
    let pixels = sample_pixels(3, 1);
    let out = encode(&pixels, 1, 1, ExportFormat::Ppm);
    assert_eq!(out.bytes.len(), b"P6 1 1 255\n".len() + 9);
}

#[test]
fn bmp_rows_bottom_up_bgr_padded() {
    // 1x2 image: top pixel red, bottom pixel blue; rows padded to 4 bytes.
    let pixels = vec![[255u8, 0, 0], [0, 0, 255]];
    let content = encode(&pixels, 1, 2, ExportFormat::Bmp).bytes;
    assert_eq!(content.len(), 54 + 8);
    assert_eq!(u32::from_le_bytes([content[10], content[11], content[12], content[13]]), 54);
    assert_eq!(u32::from_le_bytes([content[34], content[35], content[36], content[37]]), 8);
    assert_eq!(&content[54..], &[255, 0, 0, 0, 0, 0, 255, 0]);
}

#[test]
fn png_exact_bytes_one_pixel() {
    let pixels = vec![[255u8, 128u8, 0u8]];
    let out = encode(&pixels, 1, 1, ExportFormat::Png);
    let expected: Vec<u8> = vec![
        137, 80, 78, 71, 13, 10, 26, 10, 0, 0, 0, 13, 73, 72, 68, 82, 0, 0, 0, 1, 0, 0, 0, 1, 8,
        6, 0, 0, 0, 31, 21, 196, 137, 0, 0, 0, 16, 73, 68, 65, 84, 120, 1, 1, 5, 0, 250, 255, 0,
        255, 128, 0, 255, 6, 128, 2, 127, 71, 95, 6, 174, 0, 0, 0, 0, 73, 69, 78, 68, 174, 66, 96,
        130,
    ];
    assert_eq!(out.bytes, expected);
    // The reported size is an estimate: 8 + 25 + 4 + 100 + 12.
    assert_eq!(out.bytes_written, 149);
}

#[test]
fn png_decodes_to_the_same_pixels() {
    let pixels = sample_pixels(7, 5);
    let out = encode(&pixels, 7, 5, ExportFormat::Png);
    let img = image::load_from_memory(&out.bytes).unwrap().to_rgba8();
    assert_eq!(img.width(), 7);
    assert_eq!(img.height(), 5);
    for y in 0..5u32 {
        for x in 0..7u32 {
            let p = pixels[(y * 7 + x) as usize];
            assert_eq!(img.get_pixel(x, y).0, [p[0], p[1], p[2], 255]);
        }
    }
}

#[test]
fn svg_exact_text_one_pixel() {
    let pixels = vec![[255u8, 128u8, 10u8]];
    let out = encode(&pixels, 1, 1, ExportFormat::Svg);
    let text = String::from_utf8(out.bytes.clone()).unwrap();
    let expected = "<?xml version=\"1.0\" encoding=\"UTF-8\"?>\n\
<svg xmlns=\"http://www.w3.org/2000/svg\" width=\"1\" height=\"1\" viewBox=\"0 0 1 1\">\n  \
<rect x=\"0\" y=\"0\" width=\"1\" height=\"1\" fill=\"#FF800A\"/>\n</svg>\n";
    assert_eq!(text, expected);
    assert_eq!(out.bytes_written, expected.len() as u64);
}

#[test]
fn svg_large_image_uses_eight_unit_tiles() {
    let pixels = sample_pixels(65, 2);
    let text = String::from_utf8(encode(&pixels, 65, 2, ExportFormat::Svg).bytes).unwrap();
    assert!(text.contains("width=\"520\" height=\"16\" viewBox=\"0 0 520 16\""));
    assert_eq!(text.matches("<rect").count(), 130);
    assert!(text.contains("<rect x=\"512\" y=\"8\" width=\"8\" height=\"8\""));
}

#[test]
fn svg_skips_missing_pixels() {
    let pixels = sample_pixels(2, 1);
    let text = String::from_utf8(encode(&pixels, 2, 2, ExportFormat::Svg).bytes).unwrap();
    assert_eq!(text.matches("<rect").count(), 2);
}

#[test]
fn export_error_messages() {
    assert_eq!(
        ExportError::InvalidDimensions.message(),
        "invalid image dimensions (zero width or height)"
    );
    assert_eq!(ExportError::Io("disk full".to_string()).message(), "IO error: disk full");
    assert_eq!(
        ExportError::UnsupportedFormat("tiff".to_string()).message(),
        "unsupported format: tiff"
    );
}

#[test]
fn zero_height_is_invalid_for_every_format() {
    for f in [ExportFormat::Png, ExportFormat::Ppm, ExportFormat::Bmp, ExportFormat::Svg] {
        assert!(matches!(
            ImageExporter::export(&[], 3, 0, f),
            Err(ExportError::InvalidDimensions)
        ));
    }
}

#[test]
fn fits_checks_the_pixel_data() {
    let px = sample_pixels(4, 3);
    assert!(ImageExporter::fits(&px, 4, 3, ExportFormat::Bmp));
    assert!(ImageExporter::fits(&px, 4, 3, ExportFormat::Png));
    assert!(ImageExporter::fits(&px, 4, 3, ExportFormat::Ppm));
    assert!(ImageExporter::fits(&px, 4, 3, ExportFormat::Svg));
    // Fewer pixels than the rows read.
    assert!(!ImageExporter::fits(&px[..5], 4, 3, ExportFormat::Bmp));
    assert!(!ImageExporter::fits(&px[..5], 4, 3, ExportFormat::Png));
    // A zero dimension is always accepted: the export fails cleanly instead.
    assert!(ImageExporter::fits(&[], 0, 3, ExportFormat::Bmp));
    // Header fields that would overflow.
    assert!(!ImageExporter::fits(&px, u32::MAX, 2, ExportFormat::Svg));
}
