//! Renders mazes to ASCII text and to RGB pixel grids.
use vstd::prelude::*;
use super::maze::{Maze, Pos, E, N, S, W};
use super::grid::new_grid;
use crate::text::push_char;
use crate::raster::{Pixels, pix_dims, in_rect, painted_rect, fill_rect_if};

verus! {

/// Renders mazes to pixel buffers or ASCII strings.
#[derive(Debug, Default)]
pub struct MazeRenderer;

/// The positions of an optional path.
pub open spec fn path_cells(path: Option<&[Pos]>) -> Seq<Pos> {
    match path {
        Some(p) => p@,
        None => Seq::empty(),
    }
}

/// `"+---"` repeated `n` times.
pub open spec fn ascii_top(n: nat) -> Seq<char>
    decreases n,
{
    if n == 0 {
        Seq::empty()
    } else {
        ascii_top((n - 1) as nat) + seq!['+', '-', '-', '-']
    }
}

/// The first `n` cells of row `y`: a path mark or blanks, then the east wall or a gap.
pub open spec fn ascii_cells(m: Maze, on: Seq<Pos>, y: u32, n: nat) -> Seq<char>
    decreases n,
{
    if n == 0 {
        Seq::empty()
    } else {
        let x = (n - 1) as u32;
        let sym = if on.contains((x, y)) { seq![' ', '*', ' '] } else { seq![' ', ' ', ' '] };
        let edge = if m.wall(x as int, y as int, E as int) { '|' } else { ' ' };
        ascii_cells(m, on, y, (n - 1) as nat) + sym.push(edge)
    }
}

/// The first `n` separators under row `y`: a corner, then the south wall or a gap.
pub open spec fn ascii_seps(m: Maze, y: u32, n: nat) -> Seq<char>
    decreases n,
{
    if n == 0 {
        Seq::empty()
    } else {
        let x = (n - 1) as u32;
        let bottom = if m.wall(x as int, y as int, S as int) {
            seq!['-', '-', '-']
        } else {
            seq![' ', ' ', ' ']
        };
        ascii_seps(m, y, (n - 1) as nat) + seq!['+'] + bottom
    }
}

/// The first `k` rows, each introduced by a line break: the cell line, a line break, and the separator line.
pub open spec fn ascii_rows(m: Maze, on: Seq<Pos>, k: nat) -> Seq<char>
    decreases k,
{
    if k == 0 {
        Seq::empty()
    } else {
        let y = (k - 1) as u32;
        ascii_rows(m, on, (k - 1) as nat) + seq!['\n', '|'] + ascii_cells(m, on, y, m.width as nat) + seq!['\n']
            + ascii_seps(m, y, m.width as nat) + seq!['+']
    }
}

/// The whole ASCII drawing of `m` with the cells of `on` marked.
pub open spec fn ascii_maze(m: Maze, on: Seq<Pos>) -> Seq<char> {
    ascii_top(m.width as nat) + seq!['+'] + ascii_rows(m, on, m.height as nat)
}

/// A table marking the in-grid cells that occur in `path`.
fn path_marks(width: u32, height: u32, path: Option<&[Pos]>) -> (g: Vec<Vec<bool>>)
    ensures
        g@.len() == height,
        forall|y: int| 0 <= y < height ==> #[trigger] g@[y]@.len() == width,
        forall|x: int, y: int|
            0 <= x < width && 0 <= y < height ==> (#[trigger] g@[y]@[x] <==> path_cells(path).contains(
                (x as u32, y as u32),
            )),
{
    let mut g: Vec<Vec<bool>> = new_grid(width, height, false);
    match path {
        None => {
            proof {
                assert forall|x: int, y: int|
                    0 <= x < width && 0 <= y < height implies (#[trigger] g@[y]@[x] <==> path_cells(path).contains(
                        (x as u32, y as u32),
                    )) by {
                    assert(!Seq::<Pos>::empty().contains((x as u32, y as u32)));
                }
            }
        },
        Some(p) => {
            let mut i: usize = 0;
            while i < p.len()
                invariant
                    path == Some(p),
                    i <= p@.len(),
                    g@.len() == height,
                    forall|y: int| 0 <= y < height ==> #[trigger] g@[y]@.len() == width,
                    forall|x: int, y: int|
                        0 <= x < width && 0 <= y < height ==> (#[trigger] g@[y]@[x] <==> p@.subrange(
                            0,
                            i as int,
                        ).contains((x as u32, y as u32))),
                decreases p@.len() - i,
            {
                let c = p[i];
                let ghost g0 = g@;
                if c.0 < width && c.1 < height {
                    g[c.1 as usize][c.0 as usize] = true;
                }
                proof {
                    let s0 = p@.subrange(0, i as int);
                    let s1 = p@.subrange(0, i as int + 1);
                    assert(s1 =~= s0.push(c));
                    assert forall|y: int| 0 <= y < height implies #[trigger] g@[y]@.len() == width by {
                        if c.0 < width && c.1 < height && y != c.1 {
                            assert(g@[y] == g0[y]);
                        }
                    }
                    assert forall|x: int, y: int|
                        0 <= x < width && 0 <= y < height implies (#[trigger] g@[y]@[x] <==> s1.contains(
                            (x as u32, y as u32),
                        )) by {
                        if c.0 < width && c.1 < height && y != c.1 {
                            assert(g@[y] == g0[y]);
                        }
                        if s1.contains((x as u32, y as u32)) {
                            let j = choose|j: int| 0 <= j < s1.len() && s1[j] == (x as u32, y as u32);
                            if j < s0.len() {
                                assert(s0[j] == s1[j]);
                            }
                        }
                        if s0.contains((x as u32, y as u32)) {
                            let j = choose|j: int| 0 <= j < s0.len() && s0[j] == (x as u32, y as u32);
                            assert(s1[j] == s0[j]);
                        }
                        if (x as u32, y as u32) == c {
                            assert(s1[i as int] == c);
                        }
                    }
                }
                i = i + 1;
            }
            proof {
                assert(p@.subrange(0, p@.len() as int) =~= p@);
            }
        },
    }
    g
}

impl MazeRenderer {
    /// Render the maze to an ASCII string.
    pub fn render_ascii(maze: &Maze, path: Option<&[Pos]>) -> (s: String)
        requires
            maze.wf(),
        ensures
            s@ == ascii_maze(*maze, path_cells(path)),
    {
        let on = path_marks(maze.width, maze.height, path);
        let mut s = String::new();
        let mut x: u32 = 0;
        while x < maze.width
            invariant
                x <= maze.width,
                s@ == ascii_top(x as nat),
            decreases maze.width - x,
        {
            push_char(&mut s, '+');
            push_char(&mut s, '-');
            push_char(&mut s, '-');
            push_char(&mut s, '-');
            x = x + 1;
        }
        push_char(&mut s, '+');
        let mut y: u32 = 0;
        while y < maze.height
            invariant
                maze.wf(),
                y <= maze.height,
                on@.len() == maze.height,
                forall|yy: int| 0 <= yy < maze.height ==> #[trigger] on@[yy]@.len() == maze.width,
                forall|xx: int, yy: int|
                    0 <= xx < maze.width && 0 <= yy < maze.height ==> (#[trigger] on@[yy]@[xx] <==> path_cells(
                        path,
                    ).contains((xx as u32, yy as u32))),
                s@ == ascii_top(maze.width as nat) + seq!['+'] + ascii_rows(*maze, path_cells(path), y as nat),
            decreases maze.height - y,
        {
            let ghost before = s@;
            push_char(&mut s, '\n');
            push_char(&mut s, '|');
            let mut x: u32 = 0;
            while x < maze.width
                invariant
                    maze.wf(),
                    y < maze.height,
                    x <= maze.width,
                    on@.len() == maze.height,
                    forall|yy: int| 0 <= yy < maze.height ==> #[trigger] on@[yy]@.len() == maze.width,
                    forall|xx: int, yy: int|
                        0 <= xx < maze.width && 0 <= yy < maze.height ==> (#[trigger] on@[yy]@[xx] <==> path_cells(
                            path,
                        ).contains((xx as u32, yy as u32))),
                    s@ == before + seq!['\n', '|'] + ascii_cells(*maze, path_cells(path), y, x as nat),
                decreases maze.width - x,
            {
                if on[y as usize][x as usize] {
                    push_char(&mut s, ' ');
                    push_char(&mut s, '*');
                    push_char(&mut s, ' ');
                } else {
                    push_char(&mut s, ' ');
                    push_char(&mut s, ' ');
                    push_char(&mut s, ' ');
                }
                if maze.has_wall(x, y, E) {
                    push_char(&mut s, '|');
                } else {
                    push_char(&mut s, ' ');
                }
                proof {
                    assert(on@[y as int]@[x as int] <==> path_cells(path).contains((x, y)));
                }
                x = x + 1;
            }
            let ghost mid = s@;
            push_char(&mut s, '\n');
            let mut x: u32 = 0;
            while x < maze.width
                invariant
                    maze.wf(),
                    y < maze.height,
                    x <= maze.width,
                    s@ == mid + seq!['\n'] + ascii_seps(*maze, y, x as nat),
                decreases maze.width - x,
            {
                push_char(&mut s, '+');
                if maze.has_wall(x, y, S) {
                    push_char(&mut s, '-');
                    push_char(&mut s, '-');
                    push_char(&mut s, '-');
                } else {
                    push_char(&mut s, ' ');
                    push_char(&mut s, ' ');
                    push_char(&mut s, ' ');
                }
                x = x + 1;
            }
            push_char(&mut s, '+');
            y = y + 1;
        }
        s
    }
}

/// Pixels per cell along one axis: the image size divided by the number of cells, at least one.
pub open spec fn cell_px(img: u32, cells: u32) -> int {
    if img / cells >= 1 {
        (img / cells) as int
    } else {
        1
    }
}

/// Wall thickness for cells `cw` pixels wide: a sixth of the width, at least one.
pub open spec fn wall_px(cw: int) -> int {
    if cw / 6 >= 1 {
        cw / 6
    } else {
        1
    }
}

/// Index of the last occurrence of `c` in `s`, or -1.
pub open spec fn last_index(s: Seq<Pos>, c: Pos) -> int
    decreases s.len(),
{
    if s.len() == 0 {
        -1
    } else if s.last() == c {
        s.len() - 1
    } else {
        last_index(s.drop_last(), c)
    }
}

proof fn lemma_last_index(s: Seq<Pos>, c: Pos)
    ensures
        -1 <= last_index(s, c) < s.len(),
        last_index(s, c) >= 0 ==> s[last_index(s, c)] == c,
    decreases s.len(),
{
    if s.len() > 0 && s.last() != c {
        lemma_last_index(s.drop_last(), c);
    }
}

/// Fill colour of cell `(x, y)`: the colour for its last position on the path, or white.
pub open spec fn cell_fill(path: Seq<Pos>, colors: Seq<[u8; 3]>, x: int, y: int) -> [u8; 3] {
    let i = last_index(path, (x as u32, y as u32));
    if i >= 0 {
        colors[i]
    } else {
        [255u8, 255u8, 255u8]
    }
}

/// What drawing cell `(x, y)` leaves on pixel `(px, py)`: black where one of its drawn walls
/// covers it, its fill colour elsewhere in the cell, and nothing outside.
pub open spec fn cell_paint(
    m: Maze,
    path: Seq<Pos>,
    colors: Seq<[u8; 3]>,
    cw: int,
    ch: int,
    x: int,
    y: int,
    px: int,
    py: int,
) -> Option<[u8; 3]> {
    let wt = wall_px(cw);
    let x0 = x * cw;
    let y0 = y * ch;
    if (m.wall(x, y, E as int) && x + 1 == m.width && in_rect(px, py, x0 + cw - wt, y0, wt, ch)) || (m.wall(
        x,
        y,
        S as int,
    ) && y + 1 == m.height && in_rect(px, py, x0, y0 + ch - wt, cw, wt)) || (m.wall(x, y, W as int)
        && in_rect(px, py, x0, y0, wt, ch)) || (m.wall(x, y, N as int) && in_rect(px, py, x0, y0, cw, wt)) {
        Some([0u8, 0u8, 0u8])
    } else if in_rect(px, py, x0, y0, cw, ch) {
        Some(cell_fill(path, colors, x, y))
    } else {
        None
    }
}

/// Pixel `(px, py)` after drawing every cell of the rows above `y` and the first `x`
/// cells of row `y`, in that order, onto a white image.
pub open spec fn painted(
    m: Maze,
    path: Seq<Pos>,
    colors: Seq<[u8; 3]>,
    cw: int,
    ch: int,
    y: int,
    x: int,
    px: int,
    py: int,
) -> [u8; 3]
    decreases y, x,
{
    if x > 0 && y >= 0 {
        match cell_paint(m, path, colors, cw, ch, x - 1, y, px, py) {
            Some(c) => c,
            None => painted(m, path, colors, cw, ch, y, x - 1, px, py),
        }
    } else if y > 0 {
        painted(m, path, colors, cw, ch, y - 1, m.width as int, px, py)
    } else {
        [255u8, 255u8, 255u8]
    }
}

/// Drawing the bottom wall of a bottom-row cell stays inside the image's first rows.
pub open spec fn render_ok(m: Maze, img_width: u32, img_height: u32) -> bool {
    &&& m.width > 0
    &&& m.height > 0
    &&& (exists|x: int| 0 <= x < m.width && #[trigger] m.wall(x, m.height - 1, S as int)) ==> wall_px(
        cell_px(img_width, m.width),
    ) <= m.height * cell_px(img_height, m.height)
}

/// For each in-grid cell, the index of its last occurrence in `path`.
fn last_indices(width: u32, height: u32, path: Option<&[Pos]>) -> (g: Vec<Vec<Option<usize>>>)
    ensures
        g@.len() == height,
        forall|y: int| 0 <= y < height ==> #[trigger] g@[y]@.len() == width,
        forall|x: int, y: int|
            0 <= x < width && 0 <= y < height ==> #[trigger] g@[y]@[x] == if last_index(
                path_cells(path),
                (x as u32, y as u32),
            ) >= 0 {
                Some(#[verifier::truncate] (last_index(path_cells(path), (x as u32, y as u32)) as usize))
            } else {
                None
            },
{
    let mut g: Vec<Vec<Option<usize>>> = new_grid(width, height, None);
    let p: &[Pos] = match path {
        Some(p) => p,
        None => &[],
    };
    proof {
        assert(p@ == path_cells(path));
    }
    let mut i: usize = 0;
    while i < p.len()
        invariant
            p@ == path_cells(path),
            i <= p@.len(),
            g@.len() == height,
            forall|y: int| 0 <= y < height ==> #[trigger] g@[y]@.len() == width,
            forall|x: int, y: int|
                0 <= x < width && 0 <= y < height ==> #[trigger] g@[y]@[x] == if last_index(
                    p@.subrange(0, i as int),
                    (x as u32, y as u32),
                ) >= 0 {
                    Some(#[verifier::truncate] (last_index(p@.subrange(0, i as int), (x as u32, y as u32)) as usize))
                } else {
                    None
                },
        decreases p@.len() - i,
    {
        let c = p[i];
        let ghost g0 = g@;
        if c.0 < width && c.1 < height {
            g[c.1 as usize][c.0 as usize] = Some(i);
        }
        proof {
            let s0 = p@.subrange(0, i as int);
            let s1 = p@.subrange(0, i as int + 1);
            assert(s1.drop_last() =~= s0);
            assert(s1.last() == c);
            assert forall|y: int| 0 <= y < height implies #[trigger] g@[y]@.len() == width by {
                if c.0 < width && c.1 < height && y != c.1 {
                    assert(g@[y] == g0[y]);
                }
            }
            assert forall|x: int, y: int|
                0 <= x < width && 0 <= y < height implies #[trigger] g@[y]@[x] == if last_index(
                    s1,
                    (x as u32, y as u32),
                ) >= 0 {
                    Some(#[verifier::truncate] (last_index(s1, (x as u32, y as u32)) as usize))
                } else {
                    None
                } by {
                if c.0 < width && c.1 < height && y != c.1 {
                    assert(g@[y] == g0[y]);
                }
            }
        }
        i = i + 1;
    }
    proof {
        assert(p@.subrange(0, p@.len() as int) =~= p@);
    }
    g
}

/// The five drawing steps of one cell together leave exactly what `cell_paint` says.
proof fn lemma_draw_cell(
    p0: Seq<Vec<[u8; 3]>>,
    p1: Seq<Vec<[u8; 3]>>,
    p2: Seq<Vec<[u8; 3]>>,
    p3: Seq<Vec<[u8; 3]>>,
    p4: Seq<Vec<[u8; 3]>>,
    p5: Seq<Vec<[u8; 3]>>,
    m: Maze,
    path: Seq<Pos>,
    colors: Seq<[u8; 3]>,
    cw: int,
    ch: int,
    x: int,
    y: int,
    img_w: int,
    img_h: int,
    fill: [u8; 3],
    x0: int,
    y0: int,
    wt: int,
    bn: bool,
    bw: bool,
    bs: bool,
    be: bool,
    sy: int,
    ex: int,
)
    requires
        fill == cell_fill(path, colors, x, y),
        x0 == x * cw,
        y0 == y * ch,
        wt == wall_px(cw),
        bn == m.wall(x, y, N as int),
        bw == m.wall(x, y, W as int),
        bs == (m.wall(x, y, S as int) && y + 1 == m.height),
        be == (m.wall(x, y, E as int) && x + 1 == m.width),
        bs ==> sy == y0 + ch - wt,
        ex == x0 + cw - wt,
        painted_rect(p0, p1, img_w, img_h, true, x0, y0, cw, ch, fill),
        painted_rect(p1, p2, img_w, img_h, bn, x0, y0, cw, wt, [0u8, 0u8, 0u8]),
        painted_rect(p2, p3, img_w, img_h, bw, x0, y0, wt, ch, [0u8, 0u8, 0u8]),
        painted_rect(p3, p4, img_w, img_h, bs, x0, sy, cw, wt, [0u8, 0u8, 0u8]),
        painted_rect(p4, p5, img_w, img_h, be, ex, y0, wt, ch, [0u8, 0u8, 0u8]),
    ensures
        pix_dims(p5, img_w, img_h),
        forall|px: int, py: int|
            0 <= px < img_w && 0 <= py < img_h ==> #[trigger] p5[py]@[px] == match cell_paint(
                m,
                path,
                colors,
                cw,
                ch,
                x,
                y,
                px,
                py,
            ) {
                Some(c) => c,
                None => p0[py]@[px],
            },
{
    reveal(painted_rect);
    assert forall|px: int, py: int| 0 <= px < img_w && 0 <= py < img_h implies #[trigger] p5[py]@[px] == match cell_paint(
        m,
        path,
        colors,
        cw,
        ch,
        x,
        y,
        px,
        py,
    ) {
        Some(c) => c,
        None => p0[py]@[px],
    } by {
        reveal(painted_rect);
        assert(p1[py]@[px] == if in_rect(px, py, x * cw, y * ch, cw, ch) {
            cell_fill(path, colors, x, y)
        } else {
            p0[py]@[px]
        });
        assert(p2[py]@[px] == if m.wall(x, y, N as int) && in_rect(px, py, x * cw, y * ch, cw, wall_px(cw)) {
            [0u8, 0u8, 0u8]
        } else {
            p1[py]@[px]
        });
        assert(p3[py]@[px] == if m.wall(x, y, W as int) && in_rect(px, py, x * cw, y * ch, wall_px(cw), ch) {
            [0u8, 0u8, 0u8]
        } else {
            p2[py]@[px]
        });
        assert(p4[py]@[px] == if m.wall(x, y, S as int) && y + 1 == m.height && in_rect(
            px,
            py,
            x * cw,
            y * ch + ch - wall_px(cw),
            cw,
            wall_px(cw),
        ) {
            [0u8, 0u8, 0u8]
        } else {
            p3[py]@[px]
        });
    }
}

impl MazeRenderer {
    /// Render to an RGB pixel grid of `img_height` rows of `img_width` pixels.
    ///
    /// Each maze cell occupies `cell_px(img_width, width)` × `cell_px(img_height, height)`
    /// pixels. Walls are black, cells on `path` take the colour `path_colors[i]` for
    /// their last position `i` on the path, other cells are white, and the rest of
    /// the image is white. Cells are drawn in row-major order, each over what came before.
    #[verifier::spinoff_prover]
    #[verifier::rlimit(60)]
    pub fn render_maze(
        maze: &Maze,
        path: Option<&[Pos]>,
        path_colors: &[[u8; 3]],
        img_width: u32,
        img_height: u32,
    ) -> (pixels: Pixels)
        requires
            maze.wf(),
            render_ok(*maze, img_width, img_height),
            path_colors@.len() >= path_cells(path).len(),
        ensures
            pix_dims(pixels@, img_width as int, img_height as int),
            forall|px: int, py: int|
                0 <= px < img_width && 0 <= py < img_height ==> #[trigger] pixels@[py]@[px] == painted(
                    *maze,
                    path_cells(path),
                    path_colors@,
                    cell_px(img_width, maze.width),
                    cell_px(img_height, maze.height),
                    maze.height as int,
                    0,
                    px,
                    py,
                ),
    {
        let cell_w: u32 = if img_width / maze.width >= 1 { img_width / maze.width } else { 1 };
        let cell_h: u32 = if img_height / maze.height >= 1 { img_height / maze.height } else { 1 };
        let wall_thickness: u32 = if cell_w / 6 >= 1 { cell_w / 6 } else { 1 };
        let ghost cw = cell_w as int;
        let ghost ch = cell_h as int;
        let ghost pc = path_cells(path);
        let last = last_indices(maze.width, maze.height, path);

        let mut pixels: Pixels = new_grid(img_width, img_height, [255u8, 255u8, 255u8]);

        let mut y: u32 = 0;
        while y < maze.height
            invariant
                maze.wf(),
                render_ok(*maze, img_width, img_height),
                path_colors@.len() >= pc.len(),
                pc == path_cells(path),
                cw == cell_w,
                ch == cell_h,
                cell_w as int == cell_px(img_width, maze.width),
                cell_h as int == cell_px(img_height, maze.height),
                wall_thickness as int == wall_px(cw),
                y <= maze.height,
                last@.len() == maze.height,
                forall|yy: int| 0 <= yy < maze.height ==> #[trigger] last@[yy]@.len() == maze.width,
                forall|xx: int, yy: int|
                    0 <= xx < maze.width && 0 <= yy < maze.height ==> #[trigger] last@[yy]@[xx] == if last_index(
                        pc,
                        (xx as u32, yy as u32),
                    ) >= 0 {
                        Some(#[verifier::truncate] (last_index(pc, (xx as u32, yy as u32)) as usize))
                    } else {
                        None
                    },
                pix_dims(pixels@, img_width as int, img_height as int),
                forall|px: int, py: int|
                    0 <= px < img_width && 0 <= py < img_height ==> #[trigger] pixels@[py]@[px] == painted(
                        *maze,
                        pc,
                        path_colors@,
                        cw,
                        ch,
                        y as int,
                        0,
                        px,
                        py,
                    ),
            decreases maze.height - y,
        {
            let mut x: u32 = 0;
            while x < maze.width
                invariant
                    maze.wf(),
                    render_ok(*maze, img_width, img_height),
                    path_colors@.len() >= pc.len(),
                    pc == path_cells(path),
                    cw == cell_w,
                    ch == cell_h,
                    cell_w as int == cell_px(img_width, maze.width),
                    cell_h as int == cell_px(img_height, maze.height),
                    wall_thickness as int == wall_px(cw),
                    y < maze.height,
                    x <= maze.width,
                    last@.len() == maze.height,
                    forall|yy: int| 0 <= yy < maze.height ==> #[trigger] last@[yy]@.len() == maze.width,
                    forall|xx: int, yy: int|
                        0 <= xx < maze.width && 0 <= yy < maze.height ==> #[trigger] last@[yy]@[xx] == if last_index(
                            pc,
                            (xx as u32, yy as u32),
                        ) >= 0 {
                            Some(#[verifier::truncate] (last_index(pc, (xx as u32, yy as u32)) as usize))
                        } else {
                            None
                        },
                    pix_dims(pixels@, img_width as int, img_height as int),
                    forall|px: int, py: int|
                        0 <= px < img_width && 0 <= py < img_height ==> #[trigger] pixels@[py]@[px] == painted(
                            *maze,
                            pc,
                            path_colors@,
                            cw,
                            ch,
                            y as int,
                            x as int,
                            px,
                            py,
                        ),
                decreases maze.width - x,
            {
                proof {
                    assert(x as u64 * cell_w as u64 <= u32::MAX as u64 * u32::MAX as u64) by (nonlinear_arith)
                        requires
                            x <= u32::MAX,
                            cell_w <= u32::MAX,
                    ;
                    assert(y as u64 * cell_h as u64 <= u32::MAX as u64 * u32::MAX as u64) by (nonlinear_arith)
                        requires
                            y <= u32::MAX,
                            cell_h <= u32::MAX,
                    ;
                }
                let px0: u64 = x as u64 * cell_w as u64;
                let py0: u64 = y as u64 * cell_h as u64;
                proof {
                    assert(px0 == x * cw) by (nonlinear_arith)
                        requires
                            px0 == x as u64 * cell_w as u64,
                            cw == cell_w,
                    ;
                    assert(py0 == y * ch) by (nonlinear_arith)
                        requires
                            py0 == y as u64 * cell_h as u64,
                            ch == cell_h,
                    ;
                }
                proof {
                    lemma_last_index(pc, (x, y));
                }
                let color: [u8; 3] = match last[y as usize][x as usize] {
                    Some(i) => path_colors[i],
                    None => [255u8, 255u8, 255u8],
                };
                let ghost q0 = pixels@;
                fill_rect_if(&mut pixels, img_width, img_height, true, px0, py0, cell_w as u64, cell_h as u64, color);
                let ghost q1 = pixels@;
                let cell = &maze.cells[y as usize][x as usize];
                let north = cell.walls[N];
                fill_rect_if(&mut pixels, img_width, img_height, north, px0, py0, cell_w as u64, wall_thickness as u64, [0u8, 0u8, 0u8]);
                let ghost q2 = pixels@;
                let west = cell.walls[W];
                fill_rect_if(&mut pixels, img_width, img_height, west, px0, py0, wall_thickness as u64, cell_h as u64, [0u8, 0u8, 0u8]);
                let ghost q3 = pixels@;
                let south = cell.walls[S] && y + 1 == maze.height;
                let east = cell.walls[E] && x + 1 == maze.width;
                proof {
                    if south {
                        assert(maze.wall(x as int, maze.height - 1, S as int));
                        assert((maze.height - 1) * ch + ch == maze.height * ch) by (nonlinear_arith);
                    }
                }
                let sy: u64 = if south { py0 + cell_h as u64 - wall_thickness as u64 } else { py0 };
                fill_rect_if(&mut pixels, img_width, img_height, south, px0, sy, cell_w as u64, wall_thickness as u64, [0u8, 0u8, 0u8]);
                let ghost q4 = pixels@;
                let ex: u64 = px0 + cell_w as u64 - wall_thickness as u64;
                fill_rect_if(&mut pixels, img_width, img_height, east, ex, py0, wall_thickness as u64, cell_h as u64, [0u8, 0u8, 0u8]);
                proof {
                    assert(color == cell_fill(pc, path_colors@, x as int, y as int));
                    assert(ex as int == x * cw + cw - wall_px(cw));
                    assert(south == (maze.wall(x as int, y as int, S as int) && y + 1 == maze.height));
                    if south {
                        assert(sy as int == y * ch + ch - wall_px(cw));
                    }
                    assert(east == (maze.wall(x as int, y as int, E as int) && x + 1 == maze.width));
                    lemma_draw_cell(
                        q0, q1, q2, q3, q4, pixels@, *maze, pc, path_colors@, cw, ch, x as int, y as int,
                        img_width as int, img_height as int, color, px0 as int, py0 as int, wall_px(cw),
                        north, west, south, east, sy as int, ex as int,
                    );
                }
                x = x + 1;
            }
            y = y + 1;
        }
        pixels
    }
}

proof fn lemma_ascii_top_len(n: nat)
    ensures
        ascii_top(n).len() == 4 * n,
    decreases n,
{
    if n > 0 {
        lemma_ascii_top_len((n - 1) as nat);
    }
}

proof fn lemma_ascii_cells(m: Maze, on: Seq<Pos>, y: u32, n: nat)
    requires
        n <= u32::MAX + 1,
    ensures
        ascii_cells(m, on, y, n).len() == 4 * n,
        forall|x: int|
            0 <= x < n ==> {
                &&& #[trigger] ascii_cells(m, on, y, n)[4 * x] == ' '
                &&& ascii_cells(m, on, y, n)[4 * x + 1] == if on.contains((x as u32, y)) { '*' } else { ' ' }
                &&& ascii_cells(m, on, y, n)[4 * x + 2] == ' '
                &&& ascii_cells(m, on, y, n)[4 * x + 3] == if m.wall(x, y as int, E as int) { '|' } else { ' ' }
            },
    decreases n,
{
    if n > 0 {
        lemma_ascii_cells(m, on, y, (n - 1) as nat);
        let prev = ascii_cells(m, on, y, (n - 1) as nat);
        let cur = ascii_cells(m, on, y, n);
        assert forall|x: int| 0 <= x < n implies {
            &&& #[trigger] cur[4 * x] == ' '
            &&& cur[4 * x + 1] == if on.contains((x as u32, y)) { '*' } else { ' ' }
            &&& cur[4 * x + 2] == ' '
            &&& cur[4 * x + 3] == if m.wall(x, y as int, E as int) { '|' } else { ' ' }
        } by {
            if x < n - 1 {
                assert(cur[4 * x] == prev[4 * x]);
                assert(cur[4 * x + 1] == prev[4 * x + 1]);
                assert(cur[4 * x + 2] == prev[4 * x + 2]);
                assert(cur[4 * x + 3] == prev[4 * x + 3]);
            } else {
                assert(((n - 1) as u32) as int == x);
            }
        }
    }
}

proof fn lemma_ascii_seps(m: Maze, y: u32, n: nat)
    requires
        n <= u32::MAX + 1,
    ensures
        ascii_seps(m, y, n).len() == 4 * n,
        forall|x: int|
            0 <= x < n ==> {
                &&& #[trigger] ascii_seps(m, y, n)[4 * x] == '+'
                &&& forall|j: int|
                    1 <= j <= 3 ==> #[trigger] ascii_seps(m, y, n)[4 * x + j] == if m.wall(x, y as int, S as int) {
                        '-'
                    } else {
                        ' '
                    }
            },
    decreases n,
{
    if n > 0 {
        lemma_ascii_seps(m, y, (n - 1) as nat);
        let prev = ascii_seps(m, y, (n - 1) as nat);
        let cur = ascii_seps(m, y, n);
        assert forall|x: int| 0 <= x < n implies {
            &&& #[trigger] cur[4 * x] == '+'
            &&& forall|j: int|
                1 <= j <= 3 ==> #[trigger] cur[4 * x + j] == if m.wall(x, y as int, S as int) { '-' } else { ' ' }
        } by {
            if x < n - 1 {
                assert(cur[4 * x] == prev[4 * x]);
                assert forall|j: int| 1 <= j <= 3 implies #[trigger] cur[4 * x + j] == prev[4 * x + j] by {}
            } else {
                assert(((n - 1) as u32) as int == x);
            }
        }
    }
}

/// The text of row `y` of the drawing: a line break, the cell line, a line
/// break and the separator line under it.
pub open spec fn ascii_row_block(m: Maze, on: Seq<Pos>, y: u32) -> Seq<char> {
    seq!['\n', '|'] + ascii_cells(m, on, y, m.width as nat) + seq!['\n'] + ascii_seps(m, y, m.width as nat) + seq!['+']
}

proof fn lemma_ascii_rows(m: Maze, on: Seq<Pos>, k: nat)
    requires
        k <= u32::MAX + 1,
    ensures
        ascii_rows(m, on, k).len() == k * (8 * m.width + 4),
        forall|y: int, t: int|
            0 <= y < k && 0 <= t < 8 * m.width + 4 ==> #[trigger] ascii_rows(m, on, k)[y * (8 * m.width + 4) + t]
                == ascii_row_block(m, on, y as u32)[t],
    decreases k,
{
    let w = m.width as nat;
    let l = 8 * w + 4;
    if k > 0 {
        lemma_ascii_rows(m, on, (k - 1) as nat);
        let y0 = (k - 1) as u32;
        lemma_ascii_cells(m, on, y0, w);
        lemma_ascii_seps(m, y0, w);
        let prev = ascii_rows(m, on, (k - 1) as nat);
        let cur = ascii_rows(m, on, k);
        assert(ascii_row_block(m, on, y0).len() == l);
        assert(cur =~= prev + ascii_row_block(m, on, y0));
        assert((k - 1) * l + l == k * l) by (nonlinear_arith);
        assert forall|y: int, t: int| 0 <= y < k && 0 <= t < l implies #[trigger] cur[y * l + t] == ascii_row_block(
            m,
            on,
            y as u32,
        )[t] by {
            if y < k - 1 {
                assert(y * l + t < (k - 1) * l) by (nonlinear_arith)
                    requires y < k - 1, t < l, y >= 0;
            } else {
                assert(y * l == (k - 1) * l);
            }
        }
    }
}

/// In the ASCII drawing of a maze `w` cells wide, the line under row `y`
/// holds, after the `x`-th corner, three dashes exactly when cell `(x, y)`
/// keeps its south wall and three blanks when it is open; the cell line of
/// row `y` marks `(x, y)` with `*` exactly when it is on the path, and shows
/// `|` after it exactly when its east wall stands.
pub proof fn law_ascii_shows_walls(m: Maze, on: Seq<Pos>, x: int, y: int)
    requires
        0 <= x < m.width,
        0 <= y < m.height,
    ensures
        ({
            let w = m.width as int;
            let row = (4 * w + 1) + y * (8 * w + 4);
            &&& forall|j: int|
                1 <= j <= 3 ==> #[trigger] ascii_maze(m, on)[row + 4 * w + 3 + 4 * x + j] == if m.wall(
                    x,
                    y,
                    S as int,
                ) {
                    '-'
                } else {
                    ' '
                }
            &&& ascii_maze(m, on)[row + 4 * w + 3 + 4 * x] == '+'
            &&& ascii_maze(m, on)[row + 2 + 4 * x + 1] == if on.contains((x as u32, y as u32)) { '*' } else { ' ' }
            &&& ascii_maze(m, on)[row + 2 + 4 * x + 3] == if m.wall(x, y, E as int) { '|' } else { ' ' }
        }),
{
    let w = m.width as int;
    let l = 8 * w + 4;
    let row = (4 * w + 1) + y * l;
    lemma_ascii_top_len(m.width as nat);
    lemma_ascii_rows(m, on, m.height as nat);
    lemma_ascii_cells(m, on, y as u32, m.width as nat);
    lemma_ascii_seps(m, y as u32, m.width as nat);
    let head = ascii_top(m.width as nat) + seq!['+'];
    let rows = ascii_rows(m, on, m.height as nat);
    let blk = ascii_row_block(m, on, y as u32);
    let cells = ascii_cells(m, on, y as u32, m.width as nat);
    let seps = ascii_seps(m, y as u32, m.width as nat);
    assert(ascii_maze(m, on) =~= head + rows);
    assert(head.len() == 4 * w + 1);
    assert(y * l + l <= m.height * l) by (nonlinear_arith)
        requires y < m.height, l > 0;
    assert forall|t: int| 0 <= t < l implies #[trigger] ascii_maze(m, on)[row + t] == blk[t] by {
        assert(rows[y * l + t] == blk[t]);
    }
    assert(((y as u32) as int) == y);
    assert forall|j: int| 1 <= j <= 3 implies #[trigger] ascii_maze(m, on)[row + 4 * w + 3 + 4 * x + j] == if m.wall(
        x,
        y,
        S as int,
    ) {
        '-'
    } else {
        ' '
    } by {
        let t = 4 * w + 3 + 4 * x + j;
        assert(ascii_maze(m, on)[row + t] == blk[t]);
        assert(blk[t] == seps[4 * x + j]);
        assert(seps[4 * x] == '+');
        assert(seps[4 * x + j] == if m.wall(x, y, S as int) { '-' } else { ' ' });
        assert(row + t == row + 4 * w + 3 + 4 * x + j);
    }
    assert(ascii_maze(m, on)[row + (4 * w + 3 + 4 * x)] == blk[4 * w + 3 + 4 * x]);
    assert(blk[4 * w + 3 + 4 * x] == seps[4 * x]);
    assert(ascii_maze(m, on)[row + (2 + 4 * x + 1)] == blk[2 + 4 * x + 1]);
    assert(blk[2 + 4 * x + 1] == cells[4 * x + 1]);
    assert(ascii_maze(m, on)[row + (2 + 4 * x + 3)] == blk[2 + 4 * x + 3]);
    assert(blk[2 + 4 * x + 3] == cells[4 * x + 3]);
    assert(seps[4 * x] == '+');
    assert(cells[4 * x] == ' ');
    assert(ascii_maze(m, on)[row + 4 * w + 3 + 4 * x] == '+');
    assert(ascii_maze(m, on)[row + 2 + 4 * x + 1] == if on.contains((x as u32, y as u32)) { '*' } else { ' ' });
    assert(ascii_maze(m, on)[row + 2 + 4 * x + 3] == if m.wall(x, y, E as int) { '|' } else { ' ' });
}

} // verus!
