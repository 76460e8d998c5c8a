//! RGB pixel grids and rectangle painting.
use vstd::prelude::*;

verus! {

/// An RGB pixel grid: `rows[y][x]`.
pub type Pixels = Vec<Vec<[u8; 3]>>;

/// Pixel grid `g` has `h` rows of `w` pixels.
pub open spec fn pix_dims(g: Seq<Vec<[u8; 3]>>, w: int, h: int) -> bool {
    &&& g.len() == h
    &&& forall|y: int| 0 <= y < h ==> #[trigger] g[y]@.len() == w
}

/// `(px, py)` lies in the `w`×`h` rectangle whose top-left corner is `(x0, y0)`.
pub open spec fn in_rect(px: int, py: int, x0: int, y0: int, w: int, h: int) -> bool {
    x0 <= px < x0 + w && y0 <= py < y0 + h
}

/// Paint the `w`×`h` rectangle at `(x0, y0)` with `color`, clipped to the image.
pub fn fill_rect(pixels: &mut Pixels, img_w: u32, img_h: u32, x0: u64, y0: u64, w: u64, h: u64, color: [u8; 3])
    requires
        pix_dims(old(pixels)@, img_w as int, img_h as int),
        x0 + w <= u64::MAX,
        y0 + h <= u64::MAX,
    ensures
        pix_dims(final(pixels)@, img_w as int, img_h as int),
        forall|px: int, py: int|
            0 <= px < img_w && 0 <= py < img_h ==> #[trigger] final(pixels)@[py]@[px] == if in_rect(
                px,
                py,
                x0 as int,
                y0 as int,
                w as int,
                h as int,
            ) {
                color
            } else {
                old(pixels)@[py]@[px]
            },
{
    let ghost p0 = pixels@;
    let mut dy: u64 = 0;
    while dy < h
        invariant
            dy <= h,
            x0 + w <= u64::MAX,
            y0 + h <= u64::MAX,
            pix_dims(pixels@, img_w as int, img_h as int),
            forall|px: int, py: int|
                0 <= px < img_w && 0 <= py < img_h ==> #[trigger] pixels@[py]@[px] == if in_rect(
                    px,
                    py,
                    x0 as int,
                    y0 as int,
                    w as int,
                    dy as int,
                ) {
                    color
                } else {
                    p0[py]@[px]
                },
        decreases h - dy,
    {
        let py = y0 + dy;
        let mut dx: u64 = 0;
        while dx < w
            invariant
                dx <= w,
                dy < h,
                py == y0 + dy,
                x0 + w <= u64::MAX,
                y0 + h <= u64::MAX,
                pix_dims(pixels@, img_w as int, img_h as int),
                forall|px: int, qy: int|
                    0 <= px < img_w && 0 <= qy < img_h ==> #[trigger] pixels@[qy]@[px] == if in_rect(
                        px,
                        qy,
                        x0 as int,
                        y0 as int,
                        w as int,
                        dy as int,
                    ) || (qy == py && x0 <= px < x0 + dx) {
                        color
                    } else {
                        p0[qy]@[px]
                    },
            decreases w - dx,
        {
            let px = x0 + dx;
            if py < img_h as u64 && px < img_w as u64 {
                let ghost before = pixels@;
                pixels[py as usize][px as usize] = color;
                proof {
                    assert forall|y: int| 0 <= y < img_h implies #[trigger] pixels@[y]@.len() == img_w by {
                        if y != py {
                            assert(pixels@[y] == before[y]);
                        }
                    }
                    assert forall|qx: int, qy: int|
                        0 <= qx < img_w && 0 <= qy < img_h implies #[trigger] pixels@[qy]@[qx] == if in_rect(
                            qx,
                            qy,
                            x0 as int,
                            y0 as int,
                            w as int,
                            dy as int,
                        ) || (qy == py && x0 <= qx < x0 + dx + 1) {
                            color
                        } else {
                            p0[qy]@[qx]
                        } by {
                        if qy != py {
                            assert(pixels@[qy] == before[qy]);
                        }
                    }
                }
            }
            dx = dx + 1;
        }
        dy = dy + 1;
    }
}

/// `new` is `old` with the given rectangle painted `c` when `b` holds.
#[verifier::opaque]
pub open spec fn painted_rect(
    old: Seq<Vec<[u8; 3]>>,
    new: Seq<Vec<[u8; 3]>>,
    img_w: int,
    img_h: int,
    b: bool,
    x0: int,
    y0: int,
    w: int,
    h: int,
    c: [u8; 3],
) -> bool {
    &&& pix_dims(new, img_w, img_h)
    &&& forall|px: int, py: int|
        0 <= px < img_w && 0 <= py < img_h ==> #[trigger] new[py]@[px] == if b && in_rect(px, py, x0, y0, w, h) {
            c
        } else {
            old[py]@[px]
        }
}

/// Paints the rectangle when `b` holds.
pub fn fill_rect_if(
    pixels: &mut Pixels,
    img_w: u32,
    img_h: u32,
    b: bool,
    x0: u64,
    y0: u64,
    w: u64,
    h: u64,
    color: [u8; 3],
)
    requires
        pix_dims(old(pixels)@, img_w as int, img_h as int),
        x0 + w <= u64::MAX,
        y0 + h <= u64::MAX,
    ensures
        pix_dims(final(pixels)@, img_w as int, img_h as int),
        painted_rect(old(pixels)@, final(pixels)@, img_w as int, img_h as int, b, x0 as int, y0 as int, w as int, h as int, color),
{
    if b {
        fill_rect(pixels, img_w, img_h, x0, y0, w, h, color);
    }
    proof {
        reveal(painted_rect);
    }
}

} // verus!
