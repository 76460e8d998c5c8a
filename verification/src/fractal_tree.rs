//! Integer line drawing for fractal-tree rendering (Bresenham's algorithm
//! for all octants).
use vstd::prelude::*;

verus! {

pub open spec fn abs_int(v: int) -> int {
    if v < 0 {
        -v
    } else {
        v
    }
}

/// One step of the line walk from state `(x, y, err)`: the doubled error
/// decides whether `x`, `y` or both advance.
pub open spec fn line_step(s: (int, int, int), dx: int, dy: int, sx: int, sy: int) -> (int, int, int) {
    let e2 = 2 * s.2;
    let (x, e1) = if e2 >= dy {
        (s.0 + sx, s.2 + dy)
    } else {
        (s.0, s.2)
    };
    if e2 <= dx {
        (x, s.1 + sy, e1 + dx)
    } else {
        (x, s.1, e1)
    }
}

/// The walk's state `(x, y, err)` after `k` steps from `(x0, y0)` toward `(x1, y1)`.
pub open spec fn line_state(x0: int, y0: int, x1: int, y1: int, k: nat) -> (int, int, int)
    decreases k,
{
    let dx = abs_int(x1 - x0);
    let dy = -abs_int(y1 - y0);
    if k == 0 {
        (x0, y0, dx + dy)
    } else {
        line_step(
            line_state(x0, y0, x1, y1, (k - 1) as nat),
            dx,
            dy,
            if x0 < x1 {
                1
            } else {
                -1
            },
            if y0 < y1 {
                1
            } else {
                -1
            },
        )
    }
}

/// The `k`-th point of the line.
pub open spec fn line_point(x0: int, y0: int, x1: int, y1: int, k: nat) -> (int, int) {
    (line_state(x0, y0, x1, y1, k).0, line_state(x0, y0, x1, y1, k).1)
}

/// `px` (RGB, row-major, `width` pixels per row) with pixel `(x, y)` set to
/// `color` when it lies inside `width` x `height`.
pub open spec fn plot(px: Seq<u8>, x: int, y: int, color: [u8; 3], width: u32, height: u32) -> Seq<u8> {
    if 0 <= x < width && 0 <= y < height {
        let i = (y * width + x) * 3;
        px.update(i, color@[0]).update(i + 1, color@[1]).update(i + 2, color@[2])
    } else {
        px
    }
}

/// `px` with the first `k` points of the line plotted.
pub open spec fn plot_line(
    px: Seq<u8>,
    x0: int,
    y0: int,
    x1: int,
    y1: int,
    color: [u8; 3],
    width: u32,
    height: u32,
    k: nat,
) -> Seq<u8>
    decreases k,
{
    if k == 0 {
        px
    } else {
        let p = line_point(x0, y0, x1, y1, (k - 1) as nat);
        plot(plot_line(px, x0, y0, x1, y1, color, width, height, (k - 1) as nat), p.0, p.1, color, width, height)
    }
}

/// From a state that is not the end point, a step advances `x` or `y` or both,
/// and neither passes the end point.
proof fn lemma_step_progress(a: int, b: int, xs: int, ys: int, e: int)
    by (nonlinear_arith)
    requires
        0 <= xs <= a,
        0 <= ys <= b,
        e == a * (1 + ys) - b * (1 + xs),
        !(xs == a && ys == b),
    ensures
        2 * e >= -b ==> xs < a,
        2 * e <= a ==> ys < b,
        2 * e >= -b || 2 * e <= a,
{
}

/// Draws the line from `(x0, y0)` to `(x1, y1)` into `pixels` (RGB, row-major,
/// `width` x `height`), skipping points outside the image.
pub fn bresenham(
    x0: i32,
    y0: i32,
    x1: i32,
    y1: i32,
    color: [u8; 3],
    width: u32,
    height: u32,
    pixels: &mut Vec<u8>,
)
    requires
        3 * abs_int(x1 - x0) <= i32::MAX,
        3 * abs_int(y1 - y0) <= i32::MAX,
        width * height * 3 <= u32::MAX,
        old(pixels)@.len() >= width * height * 3,
    ensures
        final(pixels)@.len() == old(pixels)@.len(),
        exists|n: nat|
            line_point(x0 as int, y0 as int, x1 as int, y1 as int, n) == (x1 as int, y1 as int)
                && (forall|j: nat| j < n ==> #[trigger] line_point(x0 as int, y0 as int, x1 as int, y1 as int, j)
                != (x1 as int, y1 as int)) && final(pixels)@ == plot_line(
                old(pixels)@,
                x0 as int,
                y0 as int,
                x1 as int,
                y1 as int,
                color,
                width,
                height,
                n + 1,
            ),
{
    let ddx: i32 = x1 - x0;
    let ddy: i32 = y1 - y0;
    let dx: i32 = if ddx < 0 {
        -ddx
    } else {
        ddx
    };
    let dy: i32 = if ddy < 0 {
        ddy
    } else {
        -ddy
    };
    let sx: i32 = if x0 < x1 {
        1
    } else {
        -1
    };
    let sy: i32 = if y0 < y1 {
        1
    } else {
        -1
    };
    let mut err: i32 = dx + dy;
    let mut x: i32 = x0;
    let mut y: i32 = y0;
    let ghost a: int = dx as int;
    let ghost b: int = -dy;
    let ghost mut xs: int = 0;
    let ghost mut ys: int = 0;
    let ghost mut k: nat = 0;
    let ghost start = pixels@;
    proof {
        assert(a * (1 + 0) - b * (1 + 0) == a - b) by (nonlinear_arith);
        if height > 0 {
            assert(width <= u32::MAX / 3) by (nonlinear_arith)
                requires
                    width * height * 3 <= u32::MAX,
                    height > 0,
            ;
        }
        if width > 0 {
            assert(height <= u32::MAX / 3) by (nonlinear_arith)
                requires
                    width * height * 3 <= u32::MAX,
                    width > 0,
            ;
        }
    }
    loop
        invariant_except_break
            a == abs_int(x1 - x0),
            b == abs_int(y1 - y0),
            dx == a,
            dy == -b,
            3 * a <= i32::MAX,
            3 * b <= i32::MAX,
            sx == (if x0 < x1 {
                1int
            } else {
                -1int
            }),
            sy == (if y0 < y1 {
                1int
            } else {
                -1int
            }),
            0 <= xs <= a,
            0 <= ys <= b,
            sx == 1 ==> x == x0 + xs,
            sx == -1 ==> x == x0 - xs,
            sy == 1 ==> y == y0 + ys,
            sy == -1 ==> y == y0 - ys,
            err == a * (1 + ys) - b * (1 + xs),
            -3 * b <= 2 * err <= 3 * a,
            (x as int, y as int, err as int) == line_state(x0 as int, y0 as int, x1 as int, y1 as int, k),
            forall|j: nat| j < k ==> #[trigger] line_point(x0 as int, y0 as int, x1 as int, y1 as int, j) != (
                x1 as int,
                y1 as int,
            ),
            width * height * 3 <= u32::MAX,
            height > 0 ==> width <= u32::MAX / 3,
            width > 0 ==> height <= u32::MAX / 3,
            start.len() >= width * height * 3,
            pixels@ == plot_line(start, x0 as int, y0 as int, x1 as int, y1 as int, color, width, height, k),
        ensures
            pixels@.len() == start.len(),
            line_point(x0 as int, y0 as int, x1 as int, y1 as int, k) == (x1 as int, y1 as int),
            forall|j: nat| j < k ==> #[trigger] line_point(x0 as int, y0 as int, x1 as int, y1 as int, j) != (
                x1 as int,
                y1 as int,
            ),
            pixels@ == plot_line(start, x0 as int, y0 as int, x1 as int, y1 as int, color, width, height, k + 1),
        decreases (a - xs) + (b - ys),
    {
        proof {
            assert(plot_line(start, x0 as int, y0 as int, x1 as int, y1 as int, color, width, height, k).len()
                == start.len()) by {
                lemma_plot_line_len(start, x0 as int, y0 as int, x1 as int, y1 as int, color, width, height, k);
            }
        }
        if x >= 0 && x < width as i32 && y >= 0 && y < height as i32 {
            proof {
                assert((y * width + x) * 3 + 2 < width * height * 3) by (nonlinear_arith)
                    requires
                        0 <= x < width,
                        0 <= y < height,
                ;
            }
            let idx: usize = ((y as u32 * width + x as u32) * 3) as usize;
            pixels.set(idx, color[0]);
            pixels.set(idx + 1, color[1]);
            pixels.set(idx + 2, color[2]);
        }
        proof {
            assert(pixels@ =~= plot_line(
                start,
                x0 as int,
                y0 as int,
                x1 as int,
                y1 as int,
                color,
                width,
                height,
                k + 1,
            ));
        }
        if x == x1 && y == y1 {
            break ;
        }
        proof {
            if sx == 1 {
                assert(x1 == x0 + a);
            } else {
                assert(x1 == x0 - a);
            }
            if sy == 1 {
                assert(y1 == y0 + b);
            } else {
                assert(y1 == y0 - b);
            }
            assert(!(xs == a && ys == b));
            lemma_step_progress(a, b, xs, ys, err as int);
        }
        let e2: i32 = 2 * err;
        if e2 >= dy {
            err = err + dy;
            x = x + sx;
            proof {
                xs = xs + 1;
                assert(a * (1 + ys) - b * (1 + xs) == a * (1 + ys) - b * (1 + (xs - 1)) - b) by (nonlinear_arith);
            }
        }
        if e2 <= dx {
            err = err + dx;
            y = y + sy;
            proof {
                ys = ys + 1;
                assert(a * (1 + ys) - b * (1 + xs) == a * (1 + (ys - 1)) - b * (1 + xs) + a) by (nonlinear_arith);
            }
        }
        proof {
            k = k + 1;
        }
    }
    proof {
        lemma_plot_line_len(start, x0 as int, y0 as int, x1 as int, y1 as int, color, width, height, k + 1);
    }
}

proof fn lemma_plot_line_len(
    px: Seq<u8>,
    x0: int,
    y0: int,
    x1: int,
    y1: int,
    color: [u8; 3],
    width: u32,
    height: u32,
    k: nat,
)
    requires
        px.len() >= width * height * 3,
    ensures
        plot_line(px, x0, y0, x1, y1, color, width, height, k).len() == px.len(),
    decreases k,
{
    if k > 0 {
        lemma_plot_line_len(px, x0, y0, x1, y1, color, width, height, (k - 1) as nat);
        let p = line_point(x0, y0, x1, y1, (k - 1) as nat);
        if 0 <= p.0 < width && 0 <= p.1 < height {
            assert((p.1 * width + p.0) * 3 + 2 < width * height * 3) by (nonlinear_arith)
                requires
                    0 <= p.0 < width,
                    0 <= p.1 < height,
            ;
        }
    }
}

/// `(x, y)` lies within distance `r` of `(cx, cy)`.
pub open spec fn in_disc(x: int, y: int, cx: int, cy: int, r: int) -> bool {
    &&& -r <= x - cx <= r
    &&& -r <= y - cy <= r
    &&& (x - cx) * (x - cx) + (y - cy) * (y - cy) <= r * r
}

/// Pixel `(x, y)` of a disc being filled row by row has been reached once its
/// row offset is below `dy`, or equal to it with a column offset below `dx`.
pub open spec fn disc_done(x: int, y: int, cx: int, cy: int, dx: int, dy: int) -> bool {
    y - cy < dy || (y - cy == dy && x - cx < dx)
}

/// What a disc fill leaves in byte `c` of pixel `(x, y)`.
pub open spec fn disc_byte(old: Seq<u8>, width: u32, x: int, y: int, c: int, cx: int, cy: int, r: int, color: [u8; 3], dx: int, dy: int) -> u8 {
    if in_disc(x, y, cx, cy, r) && disc_done(x, y, cx, cy, dx, dy) {
        color@[c]
    } else {
        old[(y * width + x) * 3 + c]
    }
}

proof fn lemma_pixel_index(width: u32, height: u32, x: int, y: int, c: int, x2: int, y2: int, c2: int)
    requires
        0 <= x < width,
        0 <= y < height,
        0 <= c < 3,
        0 <= x2 < width,
        0 <= y2 < height,
        0 <= c2 < 3,
        (y * width + x) * 3 + c == (y2 * width + x2) * 3 + c2,
    ensures
        x == x2,
        y == y2,
        c == c2,
{
    let k = y * width + x;
    let k2 = y2 * width + x2;
    assert(k == k2 && c == c2);
    assert(y == y2) by (nonlinear_arith)
        requires
            y * width + x == y2 * width + x2,
            0 <= x < width,
            0 <= x2 < width,
    ;
}

proof fn lemma_pixel_in_range(width: u32, height: u32, x: int, y: int, c: int)
    requires
        0 <= x < width,
        0 <= y < height,
        0 <= c < 3,
    ensures
        0 <= (y * width + x) * 3 + c < width * height * 3,
{
    assert(0 <= (y * width + x) * 3 + c < width * height * 3) by (nonlinear_arith)
        requires
            0 <= x < width,
            0 <= y < height,
            0 <= c < 3,
    ;
}

/// Fills the disc of radius `r` around `(cx, cy)` with `color` in `image`
/// (RGB, row-major, `width` x `height`), skipping points outside the image.
/// A negative radius fills nothing.
pub fn fill_disc(image: &mut Vec<u8>, width: u32, height: u32, cx: i32, cy: i32, r: i32, color: [u8; 3])
    requires
        r > i32::MIN,
        r >= 0 ==> 2 * r * r <= i32::MAX,
        r >= 0 ==> i32::MIN <= cx - r && cx + r <= i32::MAX,
        r >= 0 ==> i32::MIN <= cy - r && cy + r <= i32::MAX,
        width * height * 3 <= u32::MAX,
        old(image)@.len() >= width * height * 3,
    ensures
        final(image)@.len() == old(image)@.len(),
        forall|p: int| width * height * 3 <= p < old(image)@.len() ==> #[trigger] final(image)@[p] == old(image)@[p],
        forall|x: int, y: int, c: int|
            0 <= x < width && 0 <= y < height && 0 <= c < 3 ==> #[trigger] final(image)@[(y * width + x) * 3 + c]
                == if in_disc(x, y, cx as int, cy as int, r as int) {
                color@[c]
            } else {
                old(image)@[(y * width + x) * 3 + c]
            },
{
    let ghost start = image@;
    if r < 0 {
        return;
    }
    proof {
        assert(r * r * 2 <= i32::MAX && r <= 46341) by (nonlinear_arith)
            requires
                2 * r * r <= i32::MAX,
                r >= 0,
        ;
        if height > 0 {
            assert(width <= u32::MAX / 3) by (nonlinear_arith)
                requires
                    width * height * 3 <= u32::MAX,
                    height > 0,
            ;
        }
        if width > 0 {
            assert(height <= u32::MAX / 3) by (nonlinear_arith)
                requires
                    width * height * 3 <= u32::MAX,
                    width > 0,
            ;
        }
    }
    let mut dy: i32 = -r;
    while dy <= r
        invariant
            0 <= r <= 46341,
            r * r * 2 <= i32::MAX,
            height > 0 ==> width <= u32::MAX / 3,
            width > 0 ==> height <= u32::MAX / 3,
            i32::MIN <= cx - r && cx + r <= i32::MAX,
            i32::MIN <= cy - r && cy + r <= i32::MAX,
            width * height * 3 <= u32::MAX,
            start.len() >= width * height * 3,
            -r <= dy <= r + 1,
            image@.len() == start.len(),
            forall|p: int| width * height * 3 <= p < start.len() ==> #[trigger] image@[p] == start[p],
            forall|x: int, y: int, c: int|
                0 <= x < width && 0 <= y < height && 0 <= c < 3 ==> #[trigger] image@[(y * width + x) * 3 + c]
                    == disc_byte(start, width, x, y, c, cx as int, cy as int, r as int, color, -r as int, dy as int),
        decreases r + 1 - dy,
    {
        let mut dx: i32 = -r;
        while dx <= r
            invariant
                0 <= r <= 46341,
                r * r * 2 <= i32::MAX,
                height > 0 ==> width <= u32::MAX / 3,
                width > 0 ==> height <= u32::MAX / 3,
                i32::MIN <= cx - r && cx + r <= i32::MAX,
                i32::MIN <= cy - r && cy + r <= i32::MAX,
                width * height * 3 <= u32::MAX,
                start.len() >= width * height * 3,
                -r <= dy <= r,
                -r <= dx <= r + 1,
                image@.len() == start.len(),
                forall|p: int| width * height * 3 <= p < start.len() ==> #[trigger] image@[p] == start[p],
                forall|x: int, y: int, c: int|
                    0 <= x < width && 0 <= y < height && 0 <= c < 3 ==> #[trigger] image@[(y * width + x) * 3 + c]
                        == disc_byte(start, width, x, y, c, cx as int, cy as int, r as int, color, dx as int, dy as int),
            decreases r + 1 - dx,
        {
            proof {
                assert(dx * dx <= r * r) by (nonlinear_arith)
                    requires
                        -r <= dx <= r,
                ;
                assert(dy * dy <= r * r) by (nonlinear_arith)
                    requires
                        -r <= dy <= r,
                ;
                assert(0 <= dx * dx) by (nonlinear_arith);
                assert(0 <= dy * dy) by (nonlinear_arith);
                assert(dx * dx + dy * dy <= i32::MAX);
                assert(r * r <= i32::MAX);
            }
            let px: i32 = cx + dx;
            let py: i32 = cy + dy;
            let inside = dx * dx + dy * dy <= r * r;
            if inside && px >= 0 && px < width as i32 && py >= 0 && py < height as i32 {
                proof {
                    lemma_pixel_in_range(width, height, px as int, py as int, 2);
                }
                let idx: usize = ((py as u32 * width + px as u32) * 3) as usize;
                image.set(idx, color[0]);
                image.set(idx + 1, color[1]);
                image.set(idx + 2, color[2]);
            }
            proof {
                assert forall|x: int, y: int, c: int|
                    0 <= x < width && 0 <= y < height && 0 <= c < 3 implies #[trigger] image@[(y * width
                        + x) * 3 + c] == disc_byte(
                        start,
                        width,
                        x,
                        y,
                        c,
                        cx as int,
                        cy as int,
                        r as int,
                        color,
                        dx + 1,
                        dy as int,
                    ) by {
                    lemma_pixel_in_range(width, height, x, y, c);
                    if inside && px >= 0 && px < width && py >= 0 && py < height {
                        if (y * width + x) * 3 + c == (py * width + px) * 3 + 0
                            || (y * width + x) * 3 + c == (py * width + px) * 3 + 1
                            || (y * width + x) * 3 + c == (py * width + px) * 3 + 2 {
                            let c2 = (y * width + x) * 3 + c - (py * width + px) * 3;
                            lemma_pixel_index(width, height, x, y, c, px as int, py as int, c2);
                        }
                    }
                }
            }
            dx = dx + 1;
        }
        proof {
            assert forall|x: int, y: int, c: int|
                0 <= x < width && 0 <= y < height && 0 <= c < 3 implies #[trigger] image@[(y * width + x) * 3
                    + c] == disc_byte(start, width, x, y, c, cx as int, cy as int, r as int, color, -r as int, dy + 1) by {
                assert(image@[(y * width + x) * 3 + c] == disc_byte(
                    start,
                    width,
                    x,
                    y,
                    c,
                    cx as int,
                    cy as int,
                    r as int,
                    color,
                    dx as int,
                    dy as int,
                ));
            }
        }
        dy = dy + 1;
    }
    proof {
        assert forall|x: int, y: int, c: int|
            0 <= x < width && 0 <= y < height && 0 <= c < 3 implies #[trigger] image@[(y * width + x) * 3 + c]
                == if in_disc(x, y, cx as int, cy as int, r as int) {
                color@[c]
            } else {
                start[(y * width + x) * 3 + c]
            } by {
            assert(image@[(y * width + x) * 3 + c] == disc_byte(
                start,
                width,
                x,
                y,
                c,
                cx as int,
                cy as int,
                r as int,
                color,
                -r as int,
                dy as int,
            ));
        }
    }
}

/// The line starts at its first end point, and each point is an
/// 8-neighbour of the one before it (or the same point), never moving away
/// from the second end point's side in either coordinate.
pub proof fn law_line_steps_are_unit(x0: int, y0: int, x1: int, y1: int, k: nat)
    ensures
        line_point(x0, y0, x1, y1, 0) == (x0, y0),
        abs_int(line_point(x0, y0, x1, y1, k + 1).0 - line_point(x0, y0, x1, y1, k).0) <= 1,
        abs_int(line_point(x0, y0, x1, y1, k + 1).1 - line_point(x0, y0, x1, y1, k).1) <= 1,
        x0 < x1 ==> line_point(x0, y0, x1, y1, k + 1).0 >= line_point(x0, y0, x1, y1, k).0,
        x0 >= x1 ==> line_point(x0, y0, x1, y1, k + 1).0 <= line_point(x0, y0, x1, y1, k).0,
        y0 < y1 ==> line_point(x0, y0, x1, y1, k + 1).1 >= line_point(x0, y0, x1, y1, k).1,
        y0 >= y1 ==> line_point(x0, y0, x1, y1, k + 1).1 <= line_point(x0, y0, x1, y1, k).1,
{
    assert(line_state(x0, y0, x1, y1, k + 1) == line_step(
        line_state(x0, y0, x1, y1, k),
        abs_int(x1 - x0),
        -abs_int(y1 - y0),
        if x0 < x1 { 1 } else { -1 },
        if y0 < y1 { 1 } else { -1 },
    ));
}

} // verus!
