//! Image export formats: PNG, binary PPM, 24-bit BMP and SVG.
//!
//! The encoders produce the exact bytes of the file; writing them to disk and
//! timing the export is left to the caller.
use vstd::prelude::*;
use vstd::string::*;
use crate::binary::{le16, le32, push_le16, push_le32};
use crate::png::{encode_png_rgba, png_file, png_fits};
use crate::text::{ascii, decimal, hex2, push_ascii, push_decimal_bytes, push_hex2_bytes};

verus! {

/// Supported export formats.
#[derive(Debug, Clone, Copy, PartialEq, Eq, Structural)]
pub enum ExportFormat {
    /// PNG (lossless, stored deflate blocks).
    Png,
    /// Portable Pixmap (P6 binary).
    Ppm,
    /// 24-bit BMP with BITMAPFILEHEADER + BITMAPINFOHEADER.
    Bmp,
    /// SVG with one `<rect>` per sampled pixel.
    Svg,
}

/// Errors from export operations.
#[derive(Debug, Clone)]
pub enum ExportError {
    /// Writing the file failed; holds the system's message.
    Io(String),
    /// Zero width or height.
    InvalidDimensions,
    /// A format name that is not one of the supported formats.
    UnsupportedFormat(String),
}

impl ExportError {
    /// The text shown for this error.
    pub open spec fn message_spec(&self) -> Seq<char> {
        match self {
            ExportError::Io(e) => "IO error: "@ + e@,
            ExportError::InvalidDimensions => "invalid image dimensions (zero width or height)"@,
            ExportError::UnsupportedFormat(s) => "unsupported format: "@ + s@,
        }
    }

    /// A human-readable description of the error.
    pub fn message(&self) -> (m: String)
        ensures
            m@ == self.message_spec(),
    {
        match self {
            ExportError::Io(e) => {
                let mut m = String::from_str("IO error: ");
                m.append(e.as_str());
                m
            },
            ExportError::InvalidDimensions => String::from_str(
                "invalid image dimensions (zero width or height)",
            ),
            ExportError::UnsupportedFormat(s) => {
                let mut m = String::from_str("unsupported format: ");
                m.append(s.as_str());
                m
            },
        }
    }
}

/// Statistics from a completed export.
#[derive(Debug, Clone)]
pub struct ExportStats {
    pub bytes_written: u64,
    pub format: ExportFormat,
    pub width: u32,
    pub height: u32,
    pub elapsed_ms: u64,
}

/// The bytes of an exported file and the byte count reported for it.
#[derive(Debug, Clone)]
pub struct EncodedImage {
    pub bytes: Vec<u8>,
    pub bytes_written: u64,
}

/// Exports wallpaper images in multiple formats.
pub struct ImageExporter;

// ── Pixel byte layouts ───────────────────────────────────────────────────────

/// The pixels' bytes in R, G, B order.
pub open spec fn rgb_bytes(px: Seq<[u8; 3]>) -> Seq<u8>
    decreases px.len(),
{
    if px.len() == 0 {
        Seq::empty()
    } else {
        rgb_bytes(px.drop_last()) + seq![px.last()@[0], px.last()@[1], px.last()@[2]]
    }
}

/// The pixels' bytes in R, G, B, A order with full opacity.
pub open spec fn rgba_bytes(px: Seq<[u8; 3]>) -> Seq<u8>
    decreases px.len(),
{
    if px.len() == 0 {
        Seq::empty()
    } else {
        rgba_bytes(px.drop_last()) + seq![px.last()@[0], px.last()@[1], px.last()@[2], 255u8]
    }
}

proof fn lemma_rgba_len(px: Seq<[u8; 3]>)
    ensures
        rgba_bytes(px).len() == 4 * px.len(),
    decreases px.len(),
{
    if px.len() > 0 {
        lemma_rgba_len(px.drop_last());
    }
}

// ── PPM ──────────────────────────────────────────────────────────────────────

/// The PPM header `P6 {width} {height} 255\n`.
pub open spec fn ppm_header(width: u32, height: u32) -> Seq<u8> {
    ascii("P6 "@) + ascii(decimal(width as nat)) + ascii(" "@) + ascii(decimal(height as nat))
        + ascii(" 255\n"@)
}

/// A binary PPM file: the header followed by every pixel's RGB bytes.
pub open spec fn ppm_file(px: Seq<[u8; 3]>, width: u32, height: u32) -> Seq<u8> {
    ppm_header(width, height) + rgb_bytes(px)
}

fn write_ppm(pixels: &[[u8; 3]], width: u32, height: u32) -> (out: Vec<u8>)
    ensures
        out@ == ppm_file(pixels@, width, height),
{
    let mut out: Vec<u8> = Vec::new();
    proof {
        reveal_strlit("P6 ");
        reveal_strlit(" ");
        reveal_strlit(" 255\n");
    }
    push_ascii(&mut out, "P6 ");
    push_decimal_bytes(&mut out, width as u64);
    push_ascii(&mut out, " ");
    push_decimal_bytes(&mut out, height as u64);
    push_ascii(&mut out, " 255\n");
    let ghost head = out@;
    let mut i: usize = 0;
    while i < pixels.len()
        invariant
            head == ppm_header(width, height),
            i <= pixels@.len(),
            out@ == head + rgb_bytes(pixels@.subrange(0, i as int)),
        decreases pixels@.len() - i,
    {
        let p = pixels[i];
        out.push(p[0]);
        out.push(p[1]);
        out.push(p[2]);
        proof {
            assert(pixels@.subrange(0, i as int + 1).drop_last() =~= pixels@.subrange(0, i as int));
            assert(out@ =~= head + rgb_bytes(pixels@.subrange(0, i as int + 1)));
        }
        i = i + 1;
    }
    proof {
        assert(pixels@.subrange(0, pixels@.len() as int) =~= pixels@);
    }
    out
}

// ── BMP ──────────────────────────────────────────────────────────────────────

/// Bytes per BMP row: three per pixel, padded to a multiple of four.
pub open spec fn bmp_stride(width: u32) -> nat {
    ((width * 3 + 3) / 4 * 4) as nat
}

/// What the BMP writer needs: every row's pixels exist and the file size fits its `u32` field.
pub open spec fn bmp_fits(px_len: nat, width: u32, height: u32) -> bool {
    &&& px_len >= width * height
    &&& width * 3 + 3 <= u32::MAX
    &&& 54 + bmp_stride(width) * height <= u32::MAX
}

/// BITMAPFILEHEADER and BITMAPINFOHEADER of a bottom-up 24-bit image.
/// The width and height fields hold the dimensions as signed 32-bit values,
/// whose little-endian bytes are those of the unsigned values.
pub open spec fn bmp_header(width: u32, height: u32) -> Seq<u8> {
    let size = (bmp_stride(width) * height) as u32;
    seq![66u8, 77u8] + le32((54 + size) as u32) + le16(0) + le16(0) + le32(54) + le32(40) + le32(
        width,
    ) + le32(height) + le16(1) + le16(24) + le32(0) + le32(size) + le32(2835) + le32(2835) + le32(
        0,
    ) + le32(0)
}

/// The B, G, R bytes of pixels `base .. base + n`.
pub open spec fn bgr_run(px: Seq<[u8; 3]>, base: int, n: nat) -> Seq<u8>
    decreases n,
{
    if n == 0 {
        Seq::empty()
    } else {
        bgr_run(px, base, (n - 1) as nat) + seq![
            px[base + n - 1]@[2],
            px[base + n - 1]@[1],
            px[base + n - 1]@[0],
        ]
    }
}

/// Image row `r` in BMP layout: BGR pixels, then zero padding.
pub open spec fn bmp_row(px: Seq<[u8; 3]>, width: u32, r: nat) -> Seq<u8> {
    bgr_run(px, (r * width) as int, width as nat) + Seq::new(
        (bmp_stride(width) - width * 3) as nat,
        |i: int| 0u8,
    )
}

/// Rows `k - 1` down to `0`: BMP stores the bottom row first.
pub open spec fn bmp_rows(px: Seq<[u8; 3]>, width: u32, k: nat) -> Seq<u8>
    decreases k,
{
    if k == 0 {
        Seq::empty()
    } else {
        bmp_row(px, width, (k - 1) as nat) + bmp_rows(px, width, (k - 1) as nat)
    }
}

/// A 24-bit BMP file.
pub open spec fn bmp_file(px: Seq<[u8; 3]>, width: u32, height: u32) -> Seq<u8> {
    bmp_header(width, height) + bmp_rows(px, width, height as nat)
}

fn write_bmp(pixels: &[[u8; 3]], width: u32, height: u32) -> (out: Vec<u8>)
    requires
        bmp_fits(pixels@.len(), width, height),
    ensures
        out@ == bmp_file(pixels@, width, height),
{
    let w3: u32 = width * 3;
    let stride: u32 = (w3 + 3) / 4 * 4;
    proof {
        assert(stride * height <= bmp_stride(width) * height);
    }
    let size: u32 = stride * height;
    let file_size: u32 = 54 + size;
    let mut out: Vec<u8> = Vec::new();
    out.push(66u8);
    out.push(77u8);
    push_le32(&mut out, file_size);
    push_le16(&mut out, 0);
    push_le16(&mut out, 0);
    push_le32(&mut out, 54);
    push_le32(&mut out, 40);
    push_le32(&mut out, width);
    push_le32(&mut out, height);
    push_le16(&mut out, 1);
    push_le16(&mut out, 24);
    push_le32(&mut out, 0);
    push_le32(&mut out, size);
    push_le32(&mut out, 2835);
    push_le32(&mut out, 2835);
    push_le32(&mut out, 0);
    push_le32(&mut out, 0);
    let ghost head = out@;
    proof {
        assert(head =~= bmp_header(width, height));
    }
    let pad: u32 = stride - w3;
    let n_px = pixels.len();
    let mut k: u32 = height;
    while k > 0
        invariant
            n_px == pixels@.len(),
            bmp_fits(pixels@.len(), width, height),
            w3 == width * 3,
            stride == bmp_stride(width),
            pad == stride - w3,
            k <= height,
            out@ + bmp_rows(pixels@, width, k as nat) == head + bmp_rows(
                pixels@,
                width,
                height as nat,
            ),
        decreases k,
    {
        let row: u32 = k - 1;
        let ghost before = out@;
        proof {
            assert(row * width + width <= width * height) by (nonlinear_arith)
                requires
                    row < height,
            ;
        }
        let base: usize = row as usize * width as usize;
        let mut col: u32 = 0;
        while col < width
            invariant
                n_px == pixels@.len(),
                row * width + width <= width * height,
                bmp_fits(pixels@.len(), width, height),
                row < height,
                base == row * width,
                col <= width,
                out@ == before + bgr_run(pixels@, base as int, col as nat),
            decreases width - col,
        {
            let p = pixels[base + col as usize];
            out.push(p[2]);
            out.push(p[1]);
            out.push(p[0]);
            proof {
                assert(out@ =~= before + bgr_run(pixels@, base as int, col as nat + 1));
            }
            col = col + 1;
        }
        let ghost mid = out@;
        let mut j: u32 = 0;
        while j < pad
            invariant
                j <= pad,
                out@ == mid + Seq::new(j as nat, |i: int| 0u8),
            decreases pad - j,
        {
            out.push(0u8);
            proof {
                assert(Seq::new(j as nat + 1, |i: int| 0u8) =~= Seq::new(j as nat, |i: int| 0u8).push(
                    0u8,
                ));
            }
            j = j + 1;
        }
        proof {
            assert(out@ =~= before + bmp_row(pixels@, width, row as nat));
            assert(bmp_rows(pixels@, width, k as nat) == bmp_row(pixels@, width, row as nat)
                + bmp_rows(pixels@, width, row as nat));
            assert(out@ + bmp_rows(pixels@, width, row as nat) =~= before + bmp_rows(
                pixels@,
                width,
                k as nat,
            ));
        }
        k = row;
    }
    proof {
        assert(out@ + Seq::<u8>::empty() =~= out@);
    }
    out
}

proof fn lemma_rgb_len(px: Seq<[u8; 3]>)
    ensures
        rgb_bytes(px).len() == 3 * px.len(),
    decreases px.len(),
{
    if px.len() > 0 {
        lemma_rgb_len(px.drop_last());
    }
}

/// A PPM file is its header followed by three bytes for every pixel given.
pub proof fn law_ppm_length(px: Seq<[u8; 3]>, width: u32, height: u32)
    ensures
        ppm_file(px, width, height).len() == ppm_header(width, height).len() + 3 * px.len(),
{
    lemma_rgb_len(px);
}

proof fn lemma_bgr_len(px: Seq<[u8; 3]>, base: int, n: nat)
    ensures
        bgr_run(px, base, n).len() == 3 * n,
    decreases n,
{
    if n > 0 {
        lemma_bgr_len(px, base, (n - 1) as nat);
    }
}

proof fn lemma_bmp_rows_len(px: Seq<[u8; 3]>, width: u32, k: nat)
    requires
        width * 3 + 3 <= u32::MAX,
    ensures
        bmp_rows(px, width, k).len() == k * bmp_stride(width),
    decreases k,
{
    if k > 0 {
        lemma_bmp_rows_len(px, width, (k - 1) as nat);
        let r = (k - 1) as nat;
        lemma_bgr_len(px, (r * width) as int, width as nat);
        let w3: int = width * 3;
        let st: int = (w3 + 3) / 4 * 4;
        assert(st >= w3) by (nonlinear_arith)
            requires
                w3 >= 0,
                st == (w3 + 3) / 4 * 4,
        ;
        assert(bmp_stride(width) == st);
        assert(bmp_row(px, width, r).len() == bmp_stride(width));
        assert(k * bmp_stride(width) == r * bmp_stride(width) + bmp_stride(width)) by (
        nonlinear_arith)
            requires
                r == k - 1,
        ;
        assert(bmp_rows(px, width, k) == bmp_row(px, width, r) + bmp_rows(px, width, r));
    } else {
        assert(k * bmp_stride(width) == 0) by (nonlinear_arith)
            requires
                k == 0,
        ;
    }
}

/// A BMP file is 54 header bytes plus one padded row per image row, and its
/// size field (bytes 2 to 5) holds the file's length.
pub proof fn law_bmp_size_field(px: Seq<[u8; 3]>, width: u32, height: u32)
    requires
        bmp_fits(px.len(), width, height),
    ensures
        bmp_file(px, width, height).len() == 54 + bmp_stride(width) * height,
        bmp_file(px, width, height).subrange(2, 6) == le32(bmp_file(px, width, height).len() as u32),
{
    lemma_bmp_rows_len(px, width, height as nat);
    let f = bmp_file(px, width, height);
    let st = bmp_stride(width);
    assert(height * st == st * height) by (nonlinear_arith);
    assert(bmp_header(width, height).len() == 54);
    assert(f.len() == 54 + st * height);
    let size = (st * height) as u32;
    assert(size == st * height);
    assert(f.subrange(2, 6) =~= bmp_header(width, height).subrange(2, 6));
    assert(bmp_header(width, height).subrange(2, 6) =~= le32((54 + size) as u32));
}

// ── SVG ──────────────────────────────────────────────────────────────────────

/// Scale of one sampled pixel in SVG units: 8 for images larger than 64 in
/// either direction, else 1.
pub open spec fn svg_tile(width: u32, height: u32) -> nat {
    if width > 64 || height > 64 {
        8
    } else {
        1
    }
}

/// Sampling step: one cell per `dim / 256` pixels, at least 1.
pub open spec fn svg_step(dim: u32) -> nat {
    if dim / 256 > 1 {
        (dim / 256) as nat
    } else {
        1
    }
}

/// What the SVG writer needs: scaled sizes and pixel indices fit a `u32`.
pub open spec fn svg_fits(width: u32, height: u32) -> bool {
    &&& width * svg_tile(width, height) <= u32::MAX
    &&& height * svg_tile(width, height) <= u32::MAX
    &&& width * height <= u32::MAX
}

/// The XML declaration and the opening `<svg>` tag.
pub open spec fn svg_header(sw: nat, sh: nat) -> Seq<u8> {
    ascii("<?xml version=\"1.0\" encoding=\"UTF-8\"?>\n<svg xmlns=\"http://www.w3.org/2000/svg\" width=\""@)
        + ascii(decimal(sw)) + ascii("\" height=\""@) + ascii(decimal(sh)) + ascii(
        "\" viewBox=\"0 0 "@,
    ) + ascii(decimal(sw)) + ascii(" "@) + ascii(decimal(sh)) + ascii("\">\n"@)
}

/// One `<rect>` element filled with the pixel's colour as `#RRGGBB`.
pub open spec fn svg_rect(x: nat, y: nat, w: nat, h: nat, p: [u8; 3]) -> Seq<u8> {
    ascii("  <rect x=\""@) + ascii(decimal(x)) + ascii("\" y=\""@) + ascii(decimal(y)) + ascii(
        "\" width=\""@,
    ) + ascii(decimal(w)) + ascii("\" height=\""@) + ascii(decimal(h)) + ascii("\" fill=\"#"@)
        + ascii(hex2(p@[0])) + ascii(hex2(p@[1])) + ascii(hex2(p@[2])) + ascii("\"/>\n"@)
}

pub open spec fn min_nat(a: nat, b: nat) -> nat {
    if a <= b {
        a
    } else {
        b
    }
}

/// The rectangle for the sample at pixel `(x, y)`, clipped to the picture;
/// nothing where the pixel lies beyond the slice.
pub open spec fn svg_cell(px: Seq<[u8; 3]>, width: u32, height: u32, x: nat, y: nat) -> Seq<u8> {
    let t = svg_tile(width, height);
    let idx = y * width + x;
    if idx < px.len() {
        svg_rect(
            x * t,
            y * t,
            min_nat(svg_step(width) * t, (width * t - x * t) as nat),
            min_nat(svg_step(height) * t, (height * t - y * t) as nat),
            px[idx],
        )
    } else {
        Seq::empty()
    }
}

/// How far `x` lies below `end`, or zero.
pub open spec fn gap(end: nat, x: nat) -> nat {
    if x <= end {
        (end - x) as nat
    } else {
        0
    }
}

/// The cells of row `y` from column `x` on, every `svg_step(width)` pixels.
pub open spec fn svg_row(px: Seq<[u8; 3]>, width: u32, height: u32, y: nat, x: nat) -> Seq<u8>
    decreases gap(width as nat, x),
{
    if x >= width {
        Seq::empty()
    } else {
        svg_cell(px, width, height, x, y) + svg_row(px, width, height, y, x + svg_step(width))
    }
}

/// The sampled rows from `y` on, every `svg_step(height)` pixels.
pub open spec fn svg_rows(px: Seq<[u8; 3]>, width: u32, height: u32, y: nat) -> Seq<u8>
    decreases gap(height as nat, y),
{
    if y >= height {
        Seq::empty()
    } else {
        svg_row(px, width, height, y, 0) + svg_rows(px, width, height, y + svg_step(height))
    }
}

/// The SVG document.
pub open spec fn svg_file(px: Seq<[u8; 3]>, width: u32, height: u32) -> Seq<u8> {
    let t = svg_tile(width, height);
    svg_header((width * t) as nat, (height * t) as nat) + svg_rows(px, width, height, 0) + ascii("</svg>\n"@)
}

fn push_svg_rect(out: &mut Vec<u8>, x: u32, y: u32, w: u32, h: u32, p: [u8; 3])
    ensures
        final(out)@ == old(out)@ + svg_rect(x as nat, y as nat, w as nat, h as nat, p),
{
    proof {
        reveal_strlit("  <rect x=\"");
        reveal_strlit("\" y=\"");
        reveal_strlit("\" width=\"");
        reveal_strlit("\" height=\"");
        reveal_strlit("\" fill=\"#");
        reveal_strlit("\"/>\n");
    }
    push_ascii(out, "  <rect x=\"");
    push_decimal_bytes(out, x as u64);
    push_ascii(out, "\" y=\"");
    push_decimal_bytes(out, y as u64);
    push_ascii(out, "\" width=\"");
    push_decimal_bytes(out, w as u64);
    push_ascii(out, "\" height=\"");
    push_decimal_bytes(out, h as u64);
    push_ascii(out, "\" fill=\"#");
    push_hex2_bytes(out, p[0]);
    push_hex2_bytes(out, p[1]);
    push_hex2_bytes(out, p[2]);
    push_ascii(out, "\"/>\n");
}

fn push_svg_header(out: &mut Vec<u8>, sw: u32, sh: u32)
    ensures
        final(out)@ == old(out)@ + svg_header(sw as nat, sh as nat),
{
    proof {
        reveal_strlit("<?xml version=\"1.0\" encoding=\"UTF-8\"?>\n<svg xmlns=\"http://www.w3.org/2000/svg\" width=\"");
        reveal_strlit("\" height=\"");
        reveal_strlit("\" viewBox=\"0 0 ");
        reveal_strlit(" ");
        reveal_strlit("\">\n");
    }
    push_ascii(out, "<?xml version=\"1.0\" encoding=\"UTF-8\"?>\n<svg xmlns=\"http://www.w3.org/2000/svg\" width=\"");
    push_decimal_bytes(out, sw as u64);
    push_ascii(out, "\" height=\"");
    push_decimal_bytes(out, sh as u64);
    push_ascii(out, "\" viewBox=\"0 0 ");
    push_decimal_bytes(out, sw as u64);
    push_ascii(out, " ");
    push_decimal_bytes(out, sh as u64);
    push_ascii(out, "\">\n");
}

fn write_svg(pixels: &[[u8; 3]], width: u32, height: u32) -> (out: Vec<u8>)
    requires
        svg_fits(width, height),
    ensures
        out@ == svg_file(pixels@, width, height),
{
    let tile: u32 = if width > 64 || height > 64 {
        8
    } else {
        1
    };
    let svg_w: u32 = width * tile;
    let svg_h: u32 = height * tile;
    let mut out: Vec<u8> = Vec::new();
    push_svg_header(&mut out, svg_w, svg_h);
    let ghost head = out@;
    let step_x: u32 = if width / 256 > 1 {
        width / 256
    } else {
        1
    };
    let step_y: u32 = if height / 256 > 1 {
        height / 256
    } else {
        1
    };
    let n_px = pixels.len();
    let mut y: u32 = 0;
    while y < height
        invariant
            svg_fits(width, height),
            n_px == pixels@.len(),
            tile == svg_tile(width, height),
            svg_w == width * tile,
            svg_h == height * tile,
            step_x == svg_step(width),
            step_y == svg_step(height),
            out@ + svg_rows(pixels@, width, height, y as nat) == head + svg_rows(
                pixels@,
                width,
                height,
                0,
            ),
        decreases height - y,
    {
        let ghost row_start = out@;
        let mut x: u32 = 0;
        while x < width
            invariant
                svg_fits(width, height),
                n_px == pixels@.len(),
                y < height,
                tile == svg_tile(width, height),
                svg_w == width * tile,
                svg_h == height * tile,
                step_x == svg_step(width),
                step_y == svg_step(height),
                out@ + svg_row(pixels@, width, height, y as nat, x as nat) == row_start + svg_row(
                    pixels@,
                    width,
                    height,
                    y as nat,
                    0,
                ),
            decreases width - x,
        {
            let ghost before = out@;
            proof {
                assert(y * width + x < width * height) by (nonlinear_arith)
                    requires
                        y < height,
                        x < width,
                ;
                assert(x * tile <= width * tile) by (nonlinear_arith)
                    requires
                        x < width,
                ;
                assert(y * tile <= height * tile) by (nonlinear_arith)
                    requires
                        y < height,
                ;
                assert(step_x * tile <= u32::MAX) by (nonlinear_arith)
                    requires
                        step_x <= width || step_x == 1,
                        width * tile <= u32::MAX,
                        tile <= 8,
                ;
                assert(step_y * tile <= u32::MAX) by (nonlinear_arith)
                    requires
                        step_y <= height || step_y == 1,
                        height * tile <= u32::MAX,
                        tile <= 8,
                ;
            }
            let idx: usize = (y * width + x) as usize;
            if idx < pixels.len() {
                let p = pixels[idx];
                let rx: u32 = x * tile;
                let ry: u32 = y * tile;
                let cw: u32 = step_x * tile;
                let ch: u32 = step_y * tile;
                let rw: u32 = if cw <= svg_w - rx {
                    cw
                } else {
                    svg_w - rx
                };
                let rh: u32 = if ch <= svg_h - ry {
                    ch
                } else {
                    svg_h - ry
                };
                push_svg_rect(&mut out, rx, ry, rw, rh, p);
            }
            proof {
                assert(out@ == before + svg_cell(pixels@, width, height, x as nat, y as nat));
                assert(svg_row(pixels@, width, height, y as nat, x as nat) == svg_cell(
                    pixels@,
                    width,
                    height,
                    x as nat,
                    y as nat,
                ) + svg_row(pixels@, width, height, y as nat, (x + step_x) as nat));
                assert(out@ + svg_row(pixels@, width, height, y as nat, (x + step_x) as nat) =~= before
                    + svg_row(pixels@, width, height, y as nat, x as nat));
            }
            if width - x <= step_x {
                proof {
                    assert(svg_row(pixels@, width, height, y as nat, (x + step_x) as nat) =~= Seq::<
                        u8,
                    >::empty());
                    assert(out@ + Seq::<u8>::empty() =~= out@);
                }
                x = width;
            } else {
                x = x + step_x;
            }
        }
        proof {
            assert(svg_rows(pixels@, width, height, y as nat) == svg_row(
                pixels@,
                width,
                height,
                y as nat,
                0,
            ) + svg_rows(pixels@, width, height, (y + step_y) as nat));
            assert(out@ + svg_rows(pixels@, width, height, (y + step_y) as nat) =~= row_start + svg_rows(
                pixels@,
                width,
                height,
                y as nat,
            ));
        }
        if height - y <= step_y {
            proof {
                assert(svg_rows(pixels@, width, height, (y + step_y) as nat) =~= Seq::<u8>::empty());
            }
            y = height;
        } else {
            y = y + step_y;
        }
    }
    proof {
        reveal_strlit("</svg>\n");
        assert(out@ + Seq::<u8>::empty() =~= out@);
    }
    push_ascii(&mut out, "</svg>\n");
    out
}

// ── PNG ──────────────────────────────────────────────────────────────────────

/// The byte count reported for a PNG export: signature, IHDR, the RGBA data
/// plus a fixed allowance for the IDAT framing, and IEND.  It is an estimate,
/// not the length of the file.
pub open spec fn png_reported_size(pixel_count: nat) -> nat {
    8 + 25 + 4 * pixel_count + 100 + 12
}

fn write_png(pixels: &[[u8; 3]], width: u32, height: u32) -> (out: Vec<u8>)
    requires
        png_fits(width, height, 4 * pixels@.len()),
    ensures
        out@ == png_file(width, height, rgba_bytes(pixels@)),
{
    let mut rgba: Vec<u8> = Vec::new();
    let mut i: usize = 0;
    while i < pixels.len()
        invariant
            i <= pixels@.len(),
            rgba@ == rgba_bytes(pixels@.subrange(0, i as int)),
        decreases pixels@.len() - i,
    {
        let p = pixels[i];
        rgba.push(p[0]);
        rgba.push(p[1]);
        rgba.push(p[2]);
        rgba.push(255u8);
        proof {
            assert(pixels@.subrange(0, i as int + 1).drop_last() =~= pixels@.subrange(0, i as int));
            assert(rgba@ =~= rgba_bytes(pixels@.subrange(0, i as int + 1)));
        }
        i = i + 1;
    }
    proof {
        assert(pixels@.subrange(0, pixels@.len() as int) =~= pixels@);
        lemma_rgba_len(pixels@);
    }
    encode_png_rgba(width, height, rgba.as_slice())
}

// ── Export ───────────────────────────────────────────────────────────────────

/// The file an export in `format` produces.
pub open spec fn encoded_file(px: Seq<[u8; 3]>, width: u32, height: u32, format: ExportFormat) -> Seq<
    u8,
> {
    match format {
        ExportFormat::Png => png_file(width, height, rgba_bytes(px)),
        ExportFormat::Ppm => ppm_file(px, width, height),
        ExportFormat::Bmp => bmp_file(px, width, height),
        ExportFormat::Svg => svg_file(px, width, height),
    }
}

/// The byte count an export reports: the file length, except for PNG.
pub open spec fn reported_size(px: Seq<[u8; 3]>, width: u32, height: u32, format: ExportFormat) -> nat {
    match format {
        ExportFormat::Png => png_reported_size(px.len()),
        _ => encoded_file(px, width, height, format).len(),
    }
}

/// What each encoder needs of its input, beyond non-zero dimensions: the
/// pixel data fits in memory, and the format's own limits.
pub open spec fn export_fits(px: Seq<[u8; 3]>, width: u32, height: u32, format: ExportFormat) -> bool {
    width == 0 || height == 0 || (4 * px.len() + 145 <= usize::MAX && match format {
        ExportFormat::Png => png_fits(width, height, 4 * px.len()),
        ExportFormat::Ppm => true,
        ExportFormat::Bmp => bmp_fits(px.len(), width, height),
        ExportFormat::Svg => svg_fits(width, height),
    })
}

impl ImageExporter {
    /// Whether `export` may be called on these pixels: the encoder's byte
    /// counts and header fields must fit their types, and every row it reads
    /// must exist.
    pub fn fits(pixels: &[[u8; 3]], width: u32, height: u32, format: ExportFormat) -> (ok: bool)
        ensures
            ok == export_fits(pixels@, width, height, format),
    {
        if width == 0 || height == 0 {
            return true;
        }
        let len = pixels.len() as u128;
        let w = width as u128;
        let h = height as u128;
        let umax = usize::MAX as u128;
        let u32max = u32::MAX as u128;
        if 4 * len + 145 > umax {
            return false;
        }
        proof {
            assert(w * h <= 0xffff_ffff * 0xffff_ffff) by (nonlinear_arith)
                requires
                    w <= 0xffff_ffff,
                    h <= 0xffff_ffff,
            ;
        }
        match format {
            ExportFormat::Ppm => true,
            ExportFormat::Png => {
                let row = w * 4;
                proof {
                    assert(row * h <= 0x4_0000_0000 * 0xffff_ffff) by (nonlinear_arith)
                        requires
                            row <= 0x4_0000_0000,
                            h <= 0xffff_ffff,
                    ;
                    assert((row + 1) * h <= 0x4_0000_0001 * 0xffff_ffff) by (nonlinear_arith)
                        requires
                            row <= 0x4_0000_0000,
                            h <= 0xffff_ffff,
                    ;
                }
                row <= u32max && 4 * len >= row * h && (row + 1) * h <= umax
            },
            ExportFormat::Bmp => {
                let stride = (w * 3 + 3) / 4 * 4;
                proof {
                    assert(stride * h <= 0x4_0000_0000 * 0xffff_ffff) by (nonlinear_arith)
                        requires
                            stride <= 0x4_0000_0000,
                            h <= 0xffff_ffff,
                    ;
                }
                len >= w * h && w * 3 + 3 <= u32max && 54 + stride * h <= u32max
            },
            ExportFormat::Svg => {
                let tile: u128 = if width > 64 || height > 64 { 8 } else { 1 };
                w * tile <= u32max && h * tile <= u32max && w * h <= u32max
            },
        }
    }
}

impl ImageExporter {
    /// Encodes `pixels` (row-major RGB triplets) as a `format` file.
    ///
    /// Fails with `InvalidDimensions` exactly when a dimension is zero.
    pub fn export(pixels: &[[u8; 3]], width: u32, height: u32, format: ExportFormat) -> (r: Result<
        EncodedImage,
        ExportError,
    >)
        requires
            export_fits(pixels@, width, height, format),
        ensures
            (width == 0 || height == 0) ==> r matches Err(ExportError::InvalidDimensions),
            !(width == 0 || height == 0) ==> (r matches Ok(e) && e.bytes@ == encoded_file(
                pixels@,
                width,
                height,
                format,
            ) && e.bytes_written == reported_size(pixels@, width, height, format)),
    {
        if width == 0 || height == 0 {
            return Err(ExportError::InvalidDimensions);
        }
        let n_px = pixels.len();
        match format {
            ExportFormat::Png => {
                let bytes = write_png(pixels, width, height);
                let reported: u64 = (8 + 25 + 4 * n_px + 100 + 12) as u64;
                Ok(EncodedImage { bytes, bytes_written: reported })
            },
            ExportFormat::Ppm => {
                let bytes = write_ppm(pixels, width, height);
                let n = bytes.len() as u64;
                Ok(EncodedImage { bytes, bytes_written: n })
            },
            ExportFormat::Bmp => {
                let bytes = write_bmp(pixels, width, height);
                let n = bytes.len() as u64;
                Ok(EncodedImage { bytes, bytes_written: n })
            },
            ExportFormat::Svg => {
                let bytes = write_svg(pixels, width, height);
                let n = bytes.len() as u64;
                Ok(EncodedImage { bytes, bytes_written: n })
            },
        }
    }
}

} // verus!
