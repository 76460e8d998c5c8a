//! Quilting pattern generator.
use vstd::prelude::*;
use crate::pathfinding_art::grid::new_grid;
use crate::raster::{Pixels, pix_dims, in_rect, fill_rect};

verus! {

// ---------------------------------------------------------------------------
// QuiltBlock
// ---------------------------------------------------------------------------

/// The kinds of quilt block.
#[derive(Debug, Clone, PartialEq, Eq, Structural)]
pub enum QuiltBlock {
    NinePatches,
    PinwheelBlock,
    StarBlock,
    BasketWeave,
    LogCabin,
}

/// Canonical pixel size of one block of each kind.
pub open spec fn block_size_spec(b: QuiltBlock) -> u32 {
    match b {
        QuiltBlock::NinePatches => 90,
        QuiltBlock::PinwheelBlock => 80,
        QuiltBlock::StarBlock => 96,
        QuiltBlock::BasketWeave => 80,
        QuiltBlock::LogCabin => 100,
    }
}

impl QuiltBlock {
    /// Canonical pixel size of one block.
    pub fn block_size(&self) -> (s: u32)
        ensures
            s == block_size_spec(*self),
    {
        match self {
            QuiltBlock::NinePatches => 90,
            QuiltBlock::PinwheelBlock => 80,
            QuiltBlock::StarBlock => 96,
            QuiltBlock::BasketWeave => 80,
            QuiltBlock::LogCabin => 100,
        }
    }
}

// ---------------------------------------------------------------------------
// ColorPalette
// ---------------------------------------------------------------------------

/// A list of colours, read cyclically.
#[derive(Debug, Clone)]
pub struct ColorPalette {
    pub colors: Vec<[u8; 3]>,
}

/// The colour at `index`, wrapping around; mid grey for an empty palette.
pub open spec fn palette_color(colors: Seq<[u8; 3]>, index: int) -> [u8; 3] {
    if colors.len() == 0 {
        [128u8, 128u8, 128u8]
    } else {
        colors[index % (colors.len() as int)]
    }
}

impl ColorPalette {
    pub fn new(colors: Vec<[u8; 3]>) -> (p: Self)
        ensures
            p.colors@ == colors@,
    {
        ColorPalette { colors }
    }

    /// Get color at index, wrapping around.
    pub fn get(&self, index: usize) -> (c: [u8; 3])
        ensures
            c == palette_color(self.colors@, index as int),
    {
        if self.colors.len() == 0 {
            return [128, 128, 128];
        }
        self.colors[index % self.colors.len()]
    }

    /// Simple default palette with 6 colors.
    pub fn default_palette() -> (p: Self)
        ensures
            p.colors@ == seq![
                [220u8, 60u8, 60u8],
                [60u8, 120u8, 220u8],
                [60u8, 180u8, 60u8],
                [220u8, 180u8, 60u8],
                [180u8, 60u8, 180u8],
                [240u8, 240u8, 240u8],
            ],
    {
        let mut colors: Vec<[u8; 3]> = Vec::new();
        colors.push([220, 60, 60]);  // red
        colors.push([60, 120, 220]);  // blue
        colors.push([60, 180, 60]);  // green
        colors.push([220, 180, 60]);  // gold
        colors.push([180, 60, 180]);  // purple
        colors.push([240, 240, 240]);  // white
        Self::new(colors)
    }
}

// ---------------------------------------------------------------------------
// Internal generator (SplitMix64)
// ---------------------------------------------------------------------------

/// The SplitMix64 output mixer.
pub open spec fn mix64(z0: u64) -> u64 {
    let z1 = vstd::wrapping::u64_specs::wrapping_mul(z0 ^ (z0 >> 30u64), 0xbf58476d1ce4e5b9u64);
    let z2 = vstd::wrapping::u64_specs::wrapping_mul(z1 ^ (z1 >> 27u64), 0x94d049bb133111ebu64);
    z2 ^ (z2 >> 31u64)
}

/// Generator state after `k` draws from seed `seed`.
pub open spec fn lcg_state(seed: u64, k: nat) -> u64
    decreases k,
{
    if k == 0 {
        vstd::wrapping::u64_specs::wrapping_add(seed, 1u64)
    } else {
        vstd::wrapping::u64_specs::wrapping_add(lcg_state(seed, (k - 1) as nat), 0x9e3779b97f4a7c15u64)
    }
}

/// The `k`-th draw (from 0) below `n` from seed `seed`.
pub open spec fn lcg_draw(seed: u64, k: nat, n: usize) -> usize {
    ((mix64(lcg_state(seed, k + 1)) as usize) % (if n >= 1 { n } else { 1usize })) as usize
}

pub(crate) struct Lcg(pub(crate) u64);

impl Lcg {
    pub(crate) fn new(seed: u64) -> (r: Self)
        ensures
            r.0 == lcg_state(seed, 0),
    {
        Lcg(seed.wrapping_add(1))
    }

    pub(crate) fn next_usize(&mut self, n: usize) -> (r: usize)
        ensures
            final(self).0 == vstd::wrapping::u64_specs::wrapping_add(old(self).0, 0x9e3779b97f4a7c15u64),
            r == ((mix64(final(self).0) as usize) % (if n >= 1 { n } else { 1usize })) as usize,
    {
        self.0 = self.0.wrapping_add(0x9e3779b97f4a7c15);
        let mut z = self.0;
        z = (z ^ (z >> 30)).wrapping_mul(0xbf58476d1ce4e5b9);
        z = (z ^ (z >> 27)).wrapping_mul(0x94d049bb133111eb);
        z ^= z >> 31;
        let m: usize = if n >= 1 { n } else { 1 };
        (z as usize) % m
    }
}

// ---------------------------------------------------------------------------
// Pixel grids as values
// ---------------------------------------------------------------------------

/// A pixel grid read as rows of pixel values.
pub open spec fn deep(g: Seq<Vec<[u8; 3]>>) -> Seq<Seq<[u8; 3]>> {
    g.map_values(|r: Vec<[u8; 3]>| r@)
}

/// The `w`×`h` grid whose pixel `(px, py)` is `f(px, py)`.
pub open spec fn grid_of(w: int, h: int, f: spec_fn(int, int) -> [u8; 3]) -> Seq<Seq<[u8; 3]>> {
    Seq::new(h as nat, |py: int| Seq::new(w as nat, |px: int| f(px, py)))
}

proof fn lemma_deep_grid(g: Seq<Vec<[u8; 3]>>, w: int, h: int, f: spec_fn(int, int) -> [u8; 3])
    requires
        w >= 0,
        h >= 0,
        pix_dims(g, w, h),
        forall|px: int, py: int| 0 <= px < w && 0 <= py < h ==> #[trigger] g[py]@[px] == f(px, py),
    ensures
        deep(g) == grid_of(w, h, f),
{
    let d = deep(g);
    let e = grid_of(w, h, f);
    assert forall|py: int| 0 <= py < h implies #[trigger] d[py] == e[py] by {
        assert(d[py] =~= e[py]);
    }
    assert(d =~= e);
}

// ---------------------------------------------------------------------------
// Block pixel rules
// ---------------------------------------------------------------------------

/// Nine patch: the 30-pixel square holding `(px, py)` takes the palette colour of the
/// generator draw with the square's row-major index.
pub open spec fn nine_patch_px(colors: Seq<[u8; 3]>, seed: u64) -> spec_fn(int, int) -> [u8; 3] {
    |px: int, py: int|
        palette_color(
            colors,
            lcg_draw(seed, ((py / 30) * 3 + px / 30) as nat, if colors.len() >= 1 { colors.len() as usize } else { 1usize })
                as int,
        )
}

/// Pinwheel: whether `(px, py)` lies in one of the four first-colour triangles.
pub open spec fn pinwheel_first(px: int, py: int) -> bool {
    let qx = px - 40;
    let qy = py - 40;
    ||| qx >= 0 && qy >= 0 && qx >= qy
    ||| qx < 0 && qy >= 0 && -qx < qy
    ||| qx < 0 && qy < 0 && qx <= qy
    ||| qx >= 0 && qy < 0 && qx < -qy
}

pub open spec fn pinwheel_px(colors: Seq<[u8; 3]>) -> spec_fn(int, int) -> [u8; 3] {
    |px: int, py: int|
        if pinwheel_first(px, py) {
            palette_color(colors, 0)
        } else {
            palette_color(colors, 1)
        }
}

pub open spec fn abs_int(v: int) -> int {
    if v >= 0 {
        v
    } else {
        -v
    }
}

/// Star: an accent diagonal cross over a cross of horizontal and vertical arms on a background.
pub open spec fn star_px(colors: Seq<[u8; 3]>, seed: u64) -> spec_fn(int, int) -> [u8; 3] {
    |px: int, py: int|
        {
            let dx = abs_int(px - 48);
            let dy = abs_int(py - 48);
            if (dx == dy || dx == dy + 1 || dy == dx + 1) && dx < 48 {
                palette_color(
                    colors,
                    ((seed as usize) % (if colors.len() >= 1 { colors.len() as usize } else { 1usize })) as int,
                )
            } else if dy < 16 || dx < 16 {
                palette_color(colors, 1)
            } else {
                palette_color(colors, 0)
            }
        }
}

/// Basket weave: 20-pixel cells alternate between horizontal and vertical 10-pixel stripes.
pub open spec fn basket_px(colors: Seq<[u8; 3]>) -> spec_fn(int, int) -> [u8; 3] {
    |px: int, py: int|
        {
            let horizontal = (py / 20 + px / 20) % 2 == 0;
            let first = if horizontal { (py / 10) % 2 == 0 } else { (px / 10) % 2 == 0 };
            if first {
                palette_color(colors, 0)
            } else {
                palette_color(colors, 1)
            }
        }
}

/// Log cabin with `r` rings: side of the grid in cells.
pub open spec fn cabin_cells(r: int) -> int {
    2 * r + 1
}

/// Log cabin with `r` rings: side of one cell in pixels.
pub open spec fn cabin_cell_px(r: int) -> int {
    100int / cabin_cells(r)
}

/// Log cabin: concentric rings of cells, the right and bottom halves of each ring taking
/// the odd palette entry after the ring's even one.
pub open spec fn cabin_px(colors: Seq<[u8; 3]>, r: int) -> spec_fn(int, int) -> [u8; 3] {
    |px: int, py: int|
        {
            let size = cabin_cells(r);
            let cell = cabin_cell_px(r);
            let cx = px / cell;
            let cy = py / cell;
            let ring = vstd::math::min(vstd::math::min(cx, cy), vstd::math::min(size - 1 - cx, size - 1 - cy));
            let dcx = cx - size / 2;
            let dcy = cy - size / 2;
            let right_or_bottom = (abs_int(dcx) >= abs_int(dcy) && dcx >= 0) || dcy > abs_int(dcx);
            palette_color(colors, if right_or_bottom { ring * 2 + 1 } else { ring * 2 })
        }
}

// ---------------------------------------------------------------------------
// QuiltPattern — block generators
// ---------------------------------------------------------------------------

pub struct QuiltPattern;

impl QuiltPattern {
    /// 3×3 grid of colored squares; colors chosen randomly from palette.
    pub fn generate_nine_patch(palette: &ColorPalette, seed: u64) -> (grid: Pixels)
        ensures
            deep(grid@) == grid_of(90, 90, nine_patch_px(palette.colors@, seed)),
    {
        let size: u32 = 90;
        let cell: u32 = 30;
        let mut rng = Lcg::new(seed);
        let mut grid: Pixels = new_grid(size, size, [0u8, 0u8, 0u8]);
        let n: usize = if palette.colors.len() >= 1 { palette.colors.len() } else { 1 };
        let ghost f = nine_patch_px(palette.colors@, seed);
        let mut row: u32 = 0;
        while row < 3
            invariant
                size == 90,
                cell == 30,
                row <= 3,
                n == (if palette.colors@.len() >= 1 { palette.colors@.len() as usize } else { 1usize }),
                f == nine_patch_px(palette.colors@, seed),
                rng.0 == lcg_state(seed, (row * 3) as nat),
                pix_dims(grid@, 90, 90),
                forall|px: int, py: int|
                    0 <= px < 90 && 0 <= py < 90 ==> #[trigger] grid@[py]@[px] == if py / 30 < row {
                        f(px, py)
                    } else {
                        [0u8, 0u8, 0u8]
                    },
            decreases 3 - row,
        {
            let mut col: u32 = 0;
            while col < 3
                invariant
                    size == 90,
                    cell == 30,
                    row < 3,
                    col <= 3,
                    n == (if palette.colors@.len() >= 1 { palette.colors@.len() as usize } else { 1usize }),
                    f == nine_patch_px(palette.colors@, seed),
                    rng.0 == lcg_state(seed, (row * 3 + col) as nat),
                    pix_dims(grid@, 90, 90),
                    forall|px: int, py: int|
                        0 <= px < 90 && 0 <= py < 90 ==> #[trigger] grid@[py]@[px] == if py / 30 < row || (py / 30
                            == row && px / 30 < col) {
                            f(px, py)
                        } else {
                            [0u8, 0u8, 0u8]
                        },
                decreases 3 - col,
            {
                let ghost k = (row * 3 + col) as nat;
                let d = rng.next_usize(n);
                let color = palette.get(d);
                proof {
                    assert(rng.0 == lcg_state(seed, k + 1));
                    assert(d == lcg_draw(seed, k, n));
                }
                let ghost g0 = grid@;
                fill_rect(&mut grid, size, size, (col * cell) as u64, (row * cell) as u64, cell as u64, cell as u64, color);
                proof {
                    assert forall|px: int, py: int|
                        0 <= px < 90 && 0 <= py < 90 implies #[trigger] grid@[py]@[px] == if py / 30 < row || (py / 30
                            == row && px / 30 < col + 1) {
                            f(px, py)
                        } else {
                            [0u8, 0u8, 0u8]
                        } by {
                        if in_rect(px, py, (col * 30) as int, (row * 30) as int, 30, 30) {
                            assert(px / 30 == col);
                            assert(py / 30 == row);
                            assert((py / 30) * 3 + px / 30 == k);
                        } else {
                            assert(!(py / 30 == row && px / 30 == col));
                        }
                    }
                }
                col = col + 1;
            }
            row = row + 1;
        }
        proof {
            lemma_deep_grid(grid@, 90, 90, f);
        }
        grid
    }

    /// Pinwheel: four right-triangle quadrants, alternating two colors, rotated.
    pub fn generate_pinwheel(palette: &ColorPalette) -> (grid: Pixels)
        ensures
            deep(grid@) == grid_of(80, 80, pinwheel_px(palette.colors@)),
    {
        let size: usize = 80;
        let half: usize = size / 2;
        let c0 = palette.get(0);
        let c1 = palette.get(1);
        let ghost f = pinwheel_px(palette.colors@);
        let mut grid: Pixels = Vec::new();
        let mut py: usize = 0;
        while py < size
            invariant
                size == 80,
                half == 40,
                c0 == palette_color(palette.colors@, 0),
                c1 == palette_color(palette.colors@, 1),
                f == pinwheel_px(palette.colors@),
                py <= size,
                grid@.len() == py,
                forall|y: int| 0 <= y < py ==> #[trigger] grid@[y]@.len() == 80,
                forall|px: int, y: int| 0 <= px < 80 && 0 <= y < py ==> #[trigger] grid@[y]@[px] == f(px, y),
            decreases size - py,
        {
            let mut line: Vec<[u8; 3]> = Vec::new();
            let mut px: usize = 0;
            while px < size
                invariant
                    size == 80,
                    half == 40,
                    c0 == palette_color(palette.colors@, 0),
                    c1 == palette_color(palette.colors@, 1),
                    f == pinwheel_px(palette.colors@),
                    py < size,
                    px <= size,
                    line@.len() == px,
                    forall|x: int| 0 <= x < px ==> #[trigger] line@[x] == f(x, py as int),
                decreases size - px,
            {
                // Determine quadrant and triangle within quadrant for pinwheel effect
                let qx = px as i32 - half as i32;
                let qy = py as i32 - half as i32;
                let color = if (qx >= 0 && qy >= 0 && qx >= qy) || (qx < 0 && qy >= 0 && (-qx) < qy) || (qx < 0
                    && qy < 0 && qx <= qy) || (qx >= 0 && qy < 0 && qx < (-qy)) {
                    c0
                } else {
                    c1
                };
                line.push(color);
                px = px + 1;
            }
            grid.push(line);
            py = py + 1;
        }
        proof {
            lemma_deep_grid(grid@, 80, 80, f);
        }
        grid
    }

    /// Log Cabin: concentric rectangular strips, alternating two color groups.
    pub fn generate_log_cabin(palette: &ColorPalette, rings: u8) -> (grid: Pixels)
        ensures
            ({
                let r = if rings >= 1 { rings as int } else { 1 };
                let side = cabin_cell_px(r) * cabin_cells(r);
                deep(grid@) == grid_of(side, side, cabin_px(palette.colors@, r))
            }),
    {
        let rings: usize = if rings >= 1 { rings as usize } else { 1 };
        // Center cell + rings around it
        let size: usize = 2 * rings + 1;
        let pixel_size: usize = 100;
        let cell_size: usize = pixel_size / size;
        proof {
            assert(cell_size * size <= 100) by (nonlinear_arith)
                requires
                    cell_size == 100int / (size as int),
                    size >= 1,
            ;
        }
        let actual_size: usize = cell_size * size;
        let ghost f = cabin_px(palette.colors@, rings as int);
        let mut grid: Pixels = Vec::new();
        let mut py: usize = 0;
        while py < actual_size
            invariant
                1 <= rings <= 255,
                size == 2 * rings + 1,
                cell_size == cabin_cell_px(rings as int),
                actual_size == cell_size * size,
                actual_size <= 100,
                f == cabin_px(palette.colors@, rings as int),
                py <= actual_size,
                grid@.len() == py,
                forall|y: int| 0 <= y < py ==> #[trigger] grid@[y]@.len() == actual_size,
                forall|px: int, y: int| 0 <= px < actual_size && 0 <= y < py ==> #[trigger] grid@[y]@[px] == f(px, y),
            decreases actual_size - py,
        {
            let mut line: Vec<[u8; 3]> = Vec::new();
            let mut px: usize = 0;
            while px < actual_size
                invariant
                    1 <= rings <= 255,
                    size == 2 * rings + 1,
                    cell_size == cabin_cell_px(rings as int),
                    actual_size == cell_size * size,
                    actual_size <= 100,
                    f == cabin_px(palette.colors@, rings as int),
                    py < actual_size,
                    px <= actual_size,
                    line@.len() == px,
                    forall|x: int| 0 <= x < px ==> #[trigger] line@[x] == f(x, py as int),
                decreases actual_size - px,
            {
                // Distance from edge (ring index)
                let cx = px / cell_size;
                let cy = py / cell_size;
                proof {
                    assert(cx < size) by (nonlinear_arith)
                        requires
                            cx == px / cell_size,
                            px < cell_size * size,
                            cell_size > 0,
                    ;
                    assert(cy < size) by (nonlinear_arith)
                        requires
                            cy == py / cell_size,
                            py < cell_size * size,
                            cell_size > 0,
                    ;
                }
                let a = if cx < cy { cx } else { cy };
                let b = if size - 1 - cx < size - 1 - cy { size - 1 - cx } else { size - 1 - cy };
                let ring = if a < b { a } else { b };
                // Alternate dark/light sides (right and bottom dark, left and top light)
                let dcx = cx as i32 - (size / 2) as i32;
                let dcy = cy as i32 - (size / 2) as i32;
                let adcx = if dcx >= 0 { dcx } else { -dcx };
                let adcy = if dcy >= 0 { dcy } else { -dcy };
                let is_right_or_bottom = adcx >= adcy && dcx >= 0 || dcy > adcx;
                let color_idx = if is_right_or_bottom { ring * 2 + 1 } else { ring * 2 };
                line.push(palette.get(color_idx));
                px = px + 1;
            }
            grid.push(line);
            py = py + 1;
        }
        proof {
            lemma_deep_grid(grid@, actual_size as int, actual_size as int, f);
        }
        grid
    }
}

// ---------------------------------------------------------------------------
// Assembling blocks
// ---------------------------------------------------------------------------

/// Number of block rows needed for `n` blocks in `cols` columns.
pub open spec fn quilt_rows(n: int, cols: int) -> int {
    (n + cols - 1) / cols
}

/// Height of the first block.
pub open spec fn first_h(blocks: Seq<Seq<Seq<[u8; 3]>>>) -> int {
    blocks[0].len() as int
}

/// Width of the first row of the first block, or zero.
pub open spec fn first_w(blocks: Seq<Seq<Seq<[u8; 3]>>>) -> int {
    if blocks[0].len() > 0 {
        blocks[0][0].len() as int
    } else {
        0
    }
}

/// Pixel `(px, py)` of the quilt after placing the first `k` blocks, each at its slot
/// `(k mod cols, k / cols)` and over what came before; black where no block reaches.
pub open spec fn quilt_px(blocks: Seq<Seq<Seq<[u8; 3]>>>, cols: int, k: int, px: int, py: int) -> [u8; 3]
    decreases k,
{
    if k <= 0 {
        [0u8, 0u8, 0u8]
    } else {
        let i = k - 1;
        let yo = (i / cols) * first_h(blocks);
        let xo = (i % cols) * first_w(blocks);
        let b = blocks[i];
        if 0 <= py - yo < b.len() && 0 <= px - xo < b[py - yo].len() {
            b[py - yo][px - xo]
        } else {
            quilt_px(blocks, cols, k - 1, px, py)
        }
    }
}

/// The assembled quilt: blocks laid row-major in `cols` columns, each slot the size of
/// the first block; empty when there are no blocks or no columns.
pub open spec fn quilt_of(blocks: Seq<Seq<Seq<[u8; 3]>>>, cols: int) -> Seq<Seq<[u8; 3]>> {
    if blocks.len() == 0 || cols <= 0 {
        Seq::empty()
    } else {
        grid_of(
            cols * first_w(blocks),
            quilt_rows(blocks.len() as int, cols) * first_h(blocks),
            |px: int, py: int| quilt_px(blocks, cols, blocks.len() as int, px, py),
        )
    }
}

/// A list of blocks read as values.
pub open spec fn deep_blocks(blocks: Seq<Vec<Vec<[u8; 3]>>>) -> Seq<Seq<Seq<[u8; 3]>>> {
    blocks.map_values(|b: Vec<Vec<[u8; 3]>>| deep(b@))
}

/// The assembled quilt's height and width fit in memory indices.
pub open spec fn quilt_fits(blocks: Seq<Seq<Seq<[u8; 3]>>>, cols: int) -> bool {
    blocks.len() > 0 && cols > 0 ==> {
        &&& blocks.len() + cols <= usize::MAX
        &&& quilt_rows(blocks.len() as int, cols) * first_h(blocks) <= usize::MAX
        &&& cols * first_w(blocks) <= usize::MAX
    }
}

/// A `height`×`width` grid of `v`.
fn filled(width: usize, height: usize, v: [u8; 3]) -> (g: Pixels)
    ensures
        pix_dims(g@, width as int, height as int),
        forall|x: int, y: int| 0 <= x < width && 0 <= y < height ==> #[trigger] g@[y]@[x] == v,
{
    let mut g: Pixels = Vec::new();
    let mut y: usize = 0;
    while y < height
        invariant
            y <= height,
            g@.len() == y,
            forall|yy: int| 0 <= yy < y ==> #[trigger] g@[yy]@.len() == width,
            forall|x: int, yy: int| 0 <= x < width && 0 <= yy < y ==> #[trigger] g@[yy]@[x] == v,
        decreases height - y,
    {
        let mut row: Vec<[u8; 3]> = Vec::new();
        let mut x: usize = 0;
        while x < width
            invariant
                x <= width,
                row@.len() == x,
                forall|xx: int| 0 <= xx < x ==> #[trigger] row@[xx] == v,
            decreases width - x,
        {
            row.push(v);
            x = x + 1;
        }
        g.push(row);
        y = y + 1;
    }
    g
}

impl QuiltPattern {
    /// Assemble a list of blocks (each a 2D pixel grid) into a quilt grid.
    pub fn assemble_quilt(blocks: &[Vec<Vec<[u8; 3]>>], cols: usize) -> (out: Pixels)
        requires
            quilt_fits(deep_blocks(blocks@), cols as int),
        ensures
            deep(out@) == quilt_of(deep_blocks(blocks@), cols as int),
    {
        let ghost db = deep_blocks(blocks@);
        if blocks.len() == 0 || cols == 0 {
            let out: Pixels = Vec::new();
            proof {
                assert(deep(out@) =~= Seq::<Seq<[u8; 3]>>::empty());
            }
            return out;
        }
        proof {
            assert(db.len() == blocks@.len());
        }
        let block_h = blocks[0].len();
        let block_w = if block_h > 0 { blocks[0][0].len() } else { 0 };
        let rows = (blocks.len() + cols - 1) / cols;
        proof {
            assert(db[0] == deep(blocks@[0]@));
            assert(block_h == first_h(db));
            if block_h > 0 {
                assert(db[0][0] == blocks@[0]@[0]@);
            }
            assert(block_w == first_w(db));
        }
        let total_h = rows * block_h;
        let total_w = cols * block_w;
        let ghost f = |px: int, py: int| quilt_px(db, cols as int, blocks.len() as int, px, py);

        let mut out: Pixels = filled(total_w, total_h, [0u8, 0u8, 0u8]);

        let mut i: usize = 0;
        while i < blocks.len()
            invariant
                db == deep_blocks(blocks@),
                cols > 0,
                blocks@.len() > 0,
                block_h == first_h(db),
                block_w == first_w(db),
                rows == quilt_rows(blocks@.len() as int, cols as int),
                total_h == rows * block_h,
                total_w == cols * block_w,
                i <= blocks@.len(),
                pix_dims(out@, total_w as int, total_h as int),
                forall|px: int, py: int|
                    0 <= px < total_w && 0 <= py < total_h ==> #[trigger] out@[py]@[px] == quilt_px(
                        db,
                        cols as int,
                        i as int,
                        px,
                        py,
                    ),
            decreases blocks@.len() - i,
        {
            let block = &blocks[i];
            let block_row = i / cols;
            let block_col = i % cols;
            proof {
                assert(block_row * block_h <= total_h) by (nonlinear_arith)
                    requires
                        block_row == i / cols,
                        i < blocks@.len(),
                        cols > 0,
                        rows == (blocks@.len() + cols - 1) / (cols as int),
                        total_h == rows * block_h,
                ;
                assert(block_col * block_w <= total_w) by (nonlinear_arith)
                    requires
                        block_col == i % cols,
                        cols > 0,
                        total_w == cols * block_w,
                ;
            }
            let y_off = block_row * block_h;
            let x_off = block_col * block_w;
            let ghost b = db[i as int];
            proof {
                assert(b == deep(block@));
            }
            let mut py: usize = 0;
            while py < block.len()
                invariant
                    db == deep_blocks(blocks@),
                    b == db[i as int],
                    b == deep(block@),
                    i < blocks@.len(),
                    y_off <= total_h,
                    x_off <= total_w,
                    y_off == (i / cols) * block_h,
                    x_off == (i % cols) * block_w,
                    block_h == first_h(db),
                    block_w == first_w(db),
                    py <= block@.len(),
                    pix_dims(out@, total_w as int, total_h as int),
                    forall|qx: int, qy: int|
                        0 <= qx < total_w && 0 <= qy < total_h ==> #[trigger] out@[qy]@[qx] == if 0 <= qy - y_off < py
                            && 0 <= qx - x_off < b[qy - y_off].len() {
                            b[qy - y_off][qx - x_off]
                        } else {
                            quilt_px(db, cols as int, i as int, qx, qy)
                        },
                decreases block@.len() - py,
            {
                let row = &block[py];
                let mut px: usize = 0;
                while px < row.len()
                    invariant
                        b == deep(block@),
                        py < block@.len(),
                        row@ == b[py as int],
                        y_off <= total_h,
                        x_off <= total_w,
                        px <= row@.len(),
                        pix_dims(out@, total_w as int, total_h as int),
                        forall|qx: int, qy: int|
                            0 <= qx < total_w && 0 <= qy < total_h ==> #[trigger] out@[qy]@[qx] == if (0 <= qy - y_off
                                < py && 0 <= qx - x_off < b[qy - y_off].len()) || (qy - y_off == py && 0 <= qx - x_off
                                < px) {
                                b[qy - y_off][qx - x_off]
                            } else {
                                quilt_px(db, cols as int, i as int, qx, qy)
                            },
                    decreases row@.len() - px,
                {
                    let color = row[px];
                    if py < total_h - y_off && px < total_w - x_off {
                        let ghost before = out@;
                        out[y_off + py][x_off + px] = color;
                        proof {
                            assert forall|yy: int| 0 <= yy < total_h implies #[trigger] out@[yy]@.len() == total_w by {
                                if yy != y_off + py {
                                    assert(out@[yy] == before[yy]);
                                }
                            }
                            assert forall|qx: int, qy: int|
                                0 <= qx < total_w && 0 <= qy < total_h implies #[trigger] out@[qy]@[qx] == if (0
                                    <= qy - y_off < py && 0 <= qx - x_off < b[qy - y_off].len()) || (qy - y_off == py
                                    && 0 <= qx - x_off < px + 1) {
                                    b[qy - y_off][qx - x_off]
                                } else {
                                    quilt_px(db, cols as int, i as int, qx, qy)
                                } by {
                                if qy != y_off + py {
                                    assert(out@[qy] == before[qy]);
                                }
                            }
                        }
                    }
                    px = px + 1;
                }
                py = py + 1;
            }
            proof {
                assert forall|qx: int, qy: int|
                    0 <= qx < total_w && 0 <= qy < total_h implies #[trigger] out@[qy]@[qx] == quilt_px(
                        db,
                        cols as int,
                        i + 1,
                        qx,
                        qy,
                    ) by {
                    assert(block_h == first_h(db));
                }
            }
            i = i + 1;
        }
        proof {
            lemma_deep_grid(out@, total_w as int, total_h as int, f);
        }
        out
    }
}

// ---------------------------------------------------------------------------
// QuiltGenerator
// ---------------------------------------------------------------------------

/// The block of the given kind drawn with `colors` and block seed `s`.
pub open spec fn block_view(kind: QuiltBlock, colors: Seq<[u8; 3]>, s: u64) -> Seq<Seq<[u8; 3]>> {
    match kind {
        QuiltBlock::NinePatches => grid_of(90, 90, nine_patch_px(colors, s)),
        QuiltBlock::PinwheelBlock => grid_of(80, 80, pinwheel_px(colors)),
        QuiltBlock::StarBlock => grid_of(96, 96, star_px(colors, s)),
        QuiltBlock::BasketWeave => grid_of(80, 80, basket_px(colors)),
        QuiltBlock::LogCabin => grid_of(
            cabin_cell_px(3) * cabin_cells(3),
            cabin_cell_px(3) * cabin_cells(3),
            cabin_px(colors, 3),
        ),
    }
}

/// The blocks of a quilt of `n` blocks: block `i` is drawn with seed `seed + i` (wrapping).
pub open spec fn quilt_blocks(kind: QuiltBlock, colors: Seq<[u8; 3]>, seed: u64, n: nat) -> Seq<Seq<Seq<[u8; 3]>>> {
    Seq::new(n, |i: int| block_view(kind, colors, vstd::wrapping::u64_specs::wrapping_add(seed, i as u64)))
}

/// Side in pixels of the block of the given kind.
pub open spec fn block_side(kind: QuiltBlock) -> int {
    match kind {
        QuiltBlock::LogCabin => cabin_cell_px(3) * cabin_cells(3),
        _ => block_size_spec(kind) as int,
    }
}

pub struct QuiltGenerator;

impl QuiltGenerator {
    /// Generate a quilt of `rows × cols` blocks.
    pub fn generate(block: QuiltBlock, cols: u32, rows: u32, palette: &ColorPalette, seed: u64) -> (grid: Pixels)
        requires
            cols * rows <= u32::MAX,
            cols * rows + cols <= usize::MAX,
            rows * block_side(block) <= usize::MAX,
            cols * block_side(block) <= usize::MAX,
        ensures
            deep(grid@) == quilt_of(quilt_blocks(block, palette.colors@, seed, (cols * rows) as nat), cols as int),
    {
        let total = (cols * rows) as usize;
        let mut blocks: Vec<Pixels> = Vec::with_capacity(total);
        let mut rng = Lcg::new(seed);
        let ghost target = quilt_blocks(block, palette.colors@, seed, total as nat);

        let mut i: usize = 0;
        while i < total
            invariant
                total == cols * rows,
                target == quilt_blocks(block, palette.colors@, seed, total as nat),
                i <= total,
                deep_blocks(blocks@) == target.subrange(0, i as int),
            decreases total - i,
        {
            // The draw's modulus `usize::MAX + 1` wraps to zero, so every draw is zero
            // and the seed multiplier is one.
            let draw = rng.next_usize(usize::MAX.wrapping_add(1));
            proof {
                assert(usize::MAX.wrapping_add(1) == 0);
                assert(draw == 0);
            }
            let block_seed = seed.wrapping_add(i as u64).wrapping_mul(draw as u64 + 1);
            let b = match block {
                QuiltBlock::NinePatches => QuiltPattern::generate_nine_patch(palette, block_seed),
                QuiltBlock::PinwheelBlock => QuiltPattern::generate_pinwheel(palette),
                QuiltBlock::StarBlock => Self::generate_star_block(palette, block_seed),
                QuiltBlock::BasketWeave => Self::generate_basket_weave(palette, block_seed),
                QuiltBlock::LogCabin => QuiltPattern::generate_log_cabin(palette, 3),
            };
            let ghost before = blocks@;
            blocks.push(b);
            proof {
                assert(block_seed == vstd::wrapping::u64_specs::wrapping_add(seed, i as u64));
                assert(deep(b@) == target[i as int]);
                assert(deep_blocks(blocks@) =~= deep_blocks(before).push(deep(b@)));
                assert(target.subrange(0, i as int + 1) =~= target.subrange(0, i as int).push(target[i as int]));
            }
            i = i + 1;
        }
        proof {
            assert(target.subrange(0, total as int) =~= target);
            if total > 0 {
                assert(target[0] == block_view(block, palette.colors@, seed));
                assert(first_h(target) == block_side(block) && first_w(target) == block_side(block));
                assert(quilt_rows(total as int, cols as int) <= rows) by (nonlinear_arith)
                    requires
                        total == cols * rows,
                        cols > 0,
                ;
                assert(quilt_rows(total as int, cols as int) * block_side(block) <= rows * block_side(block)) by (nonlinear_arith)
                    requires
                        quilt_rows(total as int, cols as int) <= rows,
                        block_side(block) >= 0,
                ;
            }
        }
        proof {
            assert(deep_blocks(blocks@) == target);
            assert(quilt_fits(target, cols as int));
        }
        QuiltPattern::assemble_quilt(&blocks, cols as usize)
    }

    /// Simple star block: diagonal cross on solid background.
    fn generate_star_block(palette: &ColorPalette, seed: u64) -> (grid: Pixels)
        ensures
            deep(grid@) == grid_of(96, 96, star_px(palette.colors@, seed)),
    {
        let size: usize = 96;
        let bg = palette.get(0);
        let fg = palette.get(1);
        let n: usize = if palette.colors.len() >= 1 { palette.colors.len() } else { 1 };
        let accent = palette.get(seed as usize % n);
        let half: usize = size / 2;
        let arm: usize = size / 6;
        let ghost f = star_px(palette.colors@, seed);
        let mut grid: Pixels = Vec::new();
        let mut py: usize = 0;
        while py < size
            invariant
                size == 96,
                half == 48,
                arm == 16,
                bg == palette_color(palette.colors@, 0),
                fg == palette_color(palette.colors@, 1),
                n == (if palette.colors@.len() >= 1 { palette.colors@.len() as usize } else { 1usize }),
                accent == palette_color(palette.colors@, ((seed as usize) % n) as int),
                f == star_px(palette.colors@, seed),
                py <= size,
                grid@.len() == py,
                forall|y: int| 0 <= y < py ==> #[trigger] grid@[y]@.len() == 96,
                forall|px: int, y: int| 0 <= px < 96 && 0 <= y < py ==> #[trigger] grid@[y]@[px] == f(px, y),
            decreases size - py,
        {
            let mut line: Vec<[u8; 3]> = Vec::new();
            let mut px: usize = 0;
            while px < size
                invariant
                    size == 96,
                    half == 48,
                    arm == 16,
                    bg == palette_color(palette.colors@, 0),
                    fg == palette_color(palette.colors@, 1),
                    n == (if palette.colors@.len() >= 1 { palette.colors@.len() as usize } else { 1usize }),
                    accent == palette_color(palette.colors@, ((seed as usize) % n) as int),
                    f == star_px(palette.colors@, seed),
                    py < size,
                    px <= size,
                    line@.len() == px,
                    forall|x: int| 0 <= x < px ==> #[trigger] line@[x] == f(x, py as int),
                decreases size - px,
            {
                let dx: usize = if px >= half { px - half } else { half - px };
                let dy: usize = if py >= half { py - half } else { half - py };
                let mut color = bg;
                // Horizontal/vertical arms
                if dy < arm || dx < arm {
                    color = fg;
                }
                // Diagonal arms
                if dx == dy || (dx == dy + 1) || (dy == dx + 1) {
                    if dx < half {
                        color = accent;
                    }
                }
                line.push(color);
                px = px + 1;
            }
            grid.push(line);
            py = py + 1;
        }
        proof {
            lemma_deep_grid(grid@, 96, 96, f);
        }
        grid
    }

    /// Basket weave: alternating horizontal and vertical stripes in 2×2 blocks.
    fn generate_basket_weave(palette: &ColorPalette, _seed: u64) -> (grid: Pixels)
        ensures
            deep(grid@) == grid_of(80, 80, basket_px(palette.colors@)),
    {
        let size: usize = 80;
        let stripe: usize = 10;  // width of each stripe
        let c0 = palette.get(0);
        let c1 = palette.get(1);
        let ghost f = basket_px(palette.colors@);
        let mut grid: Pixels = Vec::new();
        let mut py: usize = 0;
        while py < size
            invariant
                size == 80,
                stripe == 10,
                c0 == palette_color(palette.colors@, 0),
                c1 == palette_color(palette.colors@, 1),
                f == basket_px(palette.colors@),
                py <= size,
                grid@.len() == py,
                forall|y: int| 0 <= y < py ==> #[trigger] grid@[y]@.len() == 80,
                forall|px: int, y: int| 0 <= px < 80 && 0 <= y < py ==> #[trigger] grid@[y]@[px] == f(px, y),
            decreases size - py,
        {
            let mut line: Vec<[u8; 3]> = Vec::new();
            let mut px: usize = 0;
            while px < size
                invariant
                    size == 80,
                    stripe == 10,
                    c0 == palette_color(palette.colors@, 0),
                    c1 == palette_color(palette.colors@, 1),
                    f == basket_px(palette.colors@),
                    py < size,
                    px <= size,
                    line@.len() == px,
                    forall|x: int| 0 <= x < px ==> #[trigger] line@[x] == f(x, py as int),
                decreases size - px,
            {
                // Determine 2×2 basket cell
                let cell_row = py / (stripe * 2);
                let cell_col = px / (stripe * 2);
                // Alternate orientation per cell
                let horizontal = (cell_row + cell_col) % 2 == 0;
                let color = if horizontal {
                    // Horizontal stripes: alternate by row within cell
                    if (py / stripe) % 2 == 0 {
                        c0
                    } else {
                        c1
                    }
                } else {
                    // Vertical stripes: alternate by col within cell
                    if (px / stripe) % 2 == 0 {
                        c0
                    } else {
                        c1
                    }
                };
                line.push(color);
                px = px + 1;
            }
            grid.push(line);
            py = py + 1;
        }
        proof {
            lemma_deep_grid(grid@, 80, 80, f);
        }
        grid
    }
}

/// The basket weave block: in the 20-pixel cells whose row and column sum
/// to an even number the 10-pixel stripes run across (pixel `(px, py)`
/// takes palette colour 0 exactly when `py / 10` is even), in the others
/// they run down (colour 0 exactly when `px / 10` is even).
pub proof fn law_basket_weave_stripes(colors: Seq<[u8; 3]>, px: int, py: int)
    requires
        0 <= px < 80,
        0 <= py < 80,
    ensures
        grid_of(80, 80, basket_px(colors))[py][px] == if (py / 20 + px / 20) % 2 == 0 {
            if (py / 10) % 2 == 0 { palette_color(colors, 0) } else { palette_color(colors, 1) }
        } else {
            if (px / 10) % 2 == 0 { palette_color(colors, 0) } else { palette_color(colors, 1) }
        },
{
}

/// Whether the stripes of the basket-weave cell in row `cr`, column `cc`
/// run across: its top-left pixel and the pixel ten rows below it differ.
pub open spec fn stripes_across(block: Seq<Seq<[u8; 3]>>, cr: int, cc: int) -> bool {
    block[20 * cr][20 * cc] != block[20 * cr + 10][20 * cc]
}

/// With two distinct colours, the cells of the basket weave alternate like a
/// checkerboard: each cell's stripes run the other way from those of the
/// cells below it and to its right.
pub proof fn law_basket_weave_checkerboard(colors: Seq<[u8; 3]>, cr: int, cc: int)
    requires
        0 <= cr < 4,
        0 <= cc < 4,
        palette_color(colors, 0) != palette_color(colors, 1),
    ensures
        cr + 1 < 4 ==> stripes_across(grid_of(80, 80, basket_px(colors)), cr, cc) != stripes_across(
            grid_of(80, 80, basket_px(colors)),
            cr + 1,
            cc,
        ),
        cc + 1 < 4 ==> stripes_across(grid_of(80, 80, basket_px(colors)), cr, cc) != stripes_across(
            grid_of(80, 80, basket_px(colors)),
            cr,
            cc + 1,
        ),
{
    let b = grid_of(80, 80, basket_px(colors));
    assert forall|r: int, c: int| 0 <= r < 4 && 0 <= c < 4 implies stripes_across(b, r, c) == ((r + c) % 2 == 0) by {
        assert((20 * r) / 20 == r && (20 * r + 10) / 20 == r);
        assert((20 * c) / 20 == c);
        assert((20 * r) / 10 == 2 * r && (20 * r + 10) / 10 == 2 * r + 1);
        assert((20 * c) / 10 == 2 * c);
        assert(b[20 * r][20 * c] == basket_px(colors)(20 * c, 20 * r));
        assert(b[20 * r + 10][20 * c] == basket_px(colors)(20 * c, 20 * r + 10));
    }
}

/// Every block of `blocks` is a `side`×`side` grid.
pub open spec fn square_blocks(blocks: Seq<Seq<Seq<[u8; 3]>>>, side: int) -> bool {
    forall|j: int|
        0 <= j < blocks.len() ==> (#[trigger] blocks[j]).len() == side && forall|r: int|
            0 <= r < side ==> (#[trigger] blocks[j][r]).len() == side
}

proof fn lemma_slot_apart(i: int, j: int, cols: int, side: int, px: int, py: int)
    requires
        cols > 0,
        side > 0,
        0 <= i,
        0 <= j,
        i != j,
        0 <= px < side,
        0 <= py < side,
    ensures
        !(0 <= (i / cols) * side + py - (j / cols) * side < side && 0 <= (i % cols) * side + px - (j % cols)
            * side < side),
{
    let (a, b, c, d) = (i / cols, j / cols, i % cols, j % cols);
    assert(i == a * cols + c && j == b * cols + d) by {
        vstd::arithmetic::div_mod::lemma_fundamental_div_mod(i, cols);
        vstd::arithmetic::div_mod::lemma_fundamental_div_mod(j, cols);
    }
    if a != b {
        if a < b {
            assert(a * side + py - b * side < 0) by (nonlinear_arith)
                requires a < b, side > 0, py < side;
        } else {
            assert(a * side + py - b * side >= side) by (nonlinear_arith)
                requires a > b, side > 0, py >= 0;
        }
    } else {
        assert(c != d);
        if c < d {
            assert(c * side + px - d * side < 0) by (nonlinear_arith)
                requires c < d, side > 0, px < side;
        } else {
            assert(c * side + px - d * side >= side) by (nonlinear_arith)
                requires c > d, side > 0, px >= 0;
        }
    }
}

proof fn lemma_quilt_px_slot(blocks: Seq<Seq<Seq<[u8; 3]>>>, cols: int, side: int, k: int, i: int, px: int, py: int)
    requires
        cols > 0,
        side > 0,
        square_blocks(blocks, side),
        0 <= i < k <= blocks.len(),
        0 <= px < side,
        0 <= py < side,
    ensures
        quilt_px(blocks, cols, k, (i % cols) * side + px, (i / cols) * side + py) == blocks[i][py][px],
    decreases k,
{
    assert(blocks[0].len() == side && blocks[0][0].len() == side);
    let j = k - 1;
    let qx = (i % cols) * side + px;
    let qy = (i / cols) * side + py;
    assert(blocks[j].len() == side);
    if j == i {
        assert(blocks[i][py].len() == side);
    } else {
        lemma_slot_apart(i, j, cols, side, px, py);
        let yo = (j / cols) * side;
        if 0 <= qy - yo < side {
            assert(blocks[j][qy - yo].len() == side);
        }
        lemma_quilt_px_slot(blocks, cols, side, k - 1, i, px, py);
    }
}

proof fn lemma_block_view_square(kind: QuiltBlock, colors: Seq<[u8; 3]>, s: u64)
    ensures
        block_side(kind) > 0,
        block_view(kind, colors, s).len() == block_side(kind),
        forall|r: int| 0 <= r < block_side(kind) ==> (#[trigger] block_view(kind, colors, s)[r]).len() == block_side(kind),
{
    assert(cabin_cells(3) == 7);
    vstd::arithmetic::div_mod::lemma_fundamental_div_mod_converse(100, 7, 14, 2);
    assert(cabin_cell_px(3) == 14);
    assert(cabin_cell_px(3) * cabin_cells(3) == 98);
}

proof fn lemma_quilt_blocks_square(kind: QuiltBlock, colors: Seq<[u8; 3]>, seed: u64, n: nat)
    ensures
        quilt_blocks(kind, colors, seed, n).len() == n,
        square_blocks(quilt_blocks(kind, colors, seed, n), block_side(kind)),
{
    let blocks = quilt_blocks(kind, colors, seed, n);
    assert forall|j: int| 0 <= j < blocks.len() implies (#[trigger] blocks[j]).len() == block_side(kind) && forall|r: int|
        0 <= r < block_side(kind) ==> (#[trigger] blocks[j][r]).len() == block_side(kind) by {
        lemma_block_view_square(kind, colors, vstd::wrapping::u64_specs::wrapping_add(seed, j as u64));
    }
}

proof fn lemma_slot_in_quilt(cols: int, rows: int, side: int, i: int, px: int, py: int)
    requires
        cols > 0,
        rows > 0,
        side > 0,
        0 <= i < cols * rows,
        0 <= px < side,
        0 <= py < side,
    ensures
        0 <= (i / cols) * side + py < quilt_rows(cols * rows, cols) * side,
        0 <= (i % cols) * side + px < cols * side,
{
    let n = cols * rows;
    vstd::arithmetic::div_mod::lemma_fundamental_div_mod(i, cols);
    assert((n + cols - 1) / cols == rows) by {
        assert(cols * rows == rows * cols) by (nonlinear_arith);
        vstd::arithmetic::div_mod::lemma_fundamental_div_mod_converse(n + cols - 1, cols, rows, cols - 1);
    }
    assert(0 <= i / cols < rows) by (nonlinear_arith)
        requires
            i < cols * rows,
            cols > 0,
            i >= 0,
            i == cols * (i / cols) + i % cols,
            0 <= i % cols < cols,
    ;
    assert(0 <= (i / cols) * side + py < rows * side) by (nonlinear_arith)
        requires
            0 <= i / cols < rows,
            0 <= py < side,
    ;
    assert(0 <= (i % cols) * side + px < cols * side) by (nonlinear_arith)
        requires
            0 <= i % cols < cols,
            0 <= px < side,
    ;
}

/// The generated quilt lays its `cols * rows` blocks out row by row, and
/// block `i` is the block of its kind drawn on its own with seed `seed + i`
/// (wrapping): every pixel of slot `i` shows that block.
pub proof fn law_quilt_block_seeds(
    kind: QuiltBlock,
    colors: Seq<[u8; 3]>,
    seed: u64,
    cols: int,
    rows: int,
    i: int,
    px: int,
    py: int,
)
    requires
        cols > 0,
        rows > 0,
        0 <= i < cols * rows,
        0 <= px < block_side(kind),
        0 <= py < block_side(kind),
    ensures
        quilt_of(quilt_blocks(kind, colors, seed, (cols * rows) as nat), cols)[(i / cols) * block_side(kind) + py][(i
            % cols) * block_side(kind) + px] == block_view(
            kind,
            colors,
            vstd::wrapping::u64_specs::wrapping_add(seed, i as u64),
        )[py][px],
{
    let n = cols * rows;
    let side = block_side(kind);
    let blocks = quilt_blocks(kind, colors, seed, n as nat);
    lemma_block_view_square(kind, colors, seed);
    lemma_quilt_blocks_square(kind, colors, seed, n as nat);
    assert(first_h(blocks) == side && first_w(blocks) == side);
    lemma_quilt_px_slot(blocks, cols, side, n, i, px, py);
    lemma_slot_in_quilt(cols, rows, side, i, px, py);
}

/// The nine patch is nine solid 30-pixel squares: two pixels of the same
/// square always have the same colour.
pub proof fn law_nine_patch_squares_solid(colors: Seq<[u8; 3]>, seed: u64, px: int, py: int, qx: int, qy: int)
    requires
        0 <= px < 90,
        0 <= py < 90,
        0 <= qx < 90,
        0 <= qy < 90,
        px / 30 == qx / 30,
        py / 30 == qy / 30,
    ensures
        grid_of(90, 90, nine_patch_px(colors, seed))[py][px] == grid_of(90, 90, nine_patch_px(colors, seed))[qy][qx],
{
}

/// The star block is symmetric: mirrored left to right, top to bottom, and
/// across its main diagonal.
pub proof fn law_star_symmetric(colors: Seq<[u8; 3]>, seed: u64, px: int, py: int)
    requires
        1 <= px < 96,
        1 <= py < 96,
    ensures
        grid_of(96, 96, star_px(colors, seed))[py][px] == grid_of(96, 96, star_px(colors, seed))[py][96 - px],
        grid_of(96, 96, star_px(colors, seed))[py][px] == grid_of(96, 96, star_px(colors, seed))[96 - py][px],
        grid_of(96, 96, star_px(colors, seed))[py][px] == grid_of(96, 96, star_px(colors, seed))[px][py],
{
}

} // verus!
