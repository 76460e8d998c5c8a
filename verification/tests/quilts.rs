use geodesic_wallpaper::quilts::{ColorPalette, QuiltBlock, QuiltGenerator, QuiltPattern};

fn default_palette() -> ColorPalette {
    ColorPalette::default_palette()
}

#[test]
fn test_block_sizes() {
    assert_eq!(QuiltBlock::NinePatches.block_size(), 90);
    assert_eq!(QuiltBlock::PinwheelBlock.block_size(), 80);
    assert_eq!(QuiltBlock::StarBlock.block_size(), 96);
    assert_eq!(QuiltBlock::BasketWeave.block_size(), 80);
    assert_eq!(QuiltBlock::LogCabin.block_size(), 100);
}

#[test]
fn test_palette_get_wrapping() {
    let p = ColorPalette::new(vec![[1, 2, 3], [4, 5, 6]]);
    assert_eq!(p.get(0), [1, 2, 3]);
    assert_eq!(p.get(1), [4, 5, 6]);
    assert_eq!(p.get(2), [1, 2, 3]); // wraps
}

#[test]
fn test_palette_empty() {
    let p = ColorPalette::new(vec![]);
    assert_eq!(p.get(0), [128, 128, 128]);
}

#[test]
fn test_nine_patch_dimensions() {
    let grid = QuiltPattern::generate_nine_patch(&default_palette(), 42);
    assert_eq!(grid.len(), 90);
    assert!(grid.iter().all(|r| r.len() == 90));
}

#[test]
fn test_nine_patch_has_multiple_colors() {
    let grid = QuiltPattern::generate_nine_patch(&default_palette(), 1);
    let first = grid[0][0];
    let has_other = grid.iter().flatten().any(|&c| c != first);
    assert!(has_other, "Nine patch should have more than one color");
}

#[test]
fn test_pinwheel_dimensions() {
    let grid = QuiltPattern::generate_pinwheel(&default_palette());
    assert_eq!(grid.len(), 80);
    assert!(grid.iter().all(|r| r.len() == 80));
}

#[test]
fn test_pinwheel_two_colors() {
    let p = ColorPalette::new(vec![[255, 0, 0], [0, 0, 255]]);
    let grid = QuiltPattern::generate_pinwheel(&p);
    let has_red = grid.iter().flatten().any(|&c| c == [255u8, 0, 0]);
    let has_blue = grid.iter().flatten().any(|&c| c == [0u8, 0, 255]);
    assert!(has_red && has_blue, "Pinwheel should use both colors");
}

#[test]
fn test_log_cabin_nonempty() {
    let grid = QuiltPattern::generate_log_cabin(&default_palette(), 2);
    assert!(!grid.is_empty());
    assert!(!grid[0].is_empty());
}

#[test]
fn test_assemble_quilt_dimensions() {
    let block_size = 10usize;
    let block: Vec<Vec<[u8; 3]>> = vec![vec![[1u8, 2, 3]; block_size]; block_size];
    let blocks = vec![block; 6];
    let assembled = QuiltPattern::assemble_quilt(&blocks, 3);
    assert_eq!(assembled.len(), 20); // 2 rows × 10
    assert_eq!(assembled[0].len(), 30); // 3 cols × 10
}

#[test]
fn test_assemble_quilt_empty() {
    let result = QuiltPattern::assemble_quilt(&[], 3);
    assert!(result.is_empty());
}

#[test]
fn test_quilt_generator_nine_patches() {
    let p = default_palette();
    let grid = QuiltGenerator::generate(QuiltBlock::NinePatches, 2, 2, &p, 99);
    // 2×2 grid of 90×90 blocks => 180×180
    assert_eq!(grid.len(), 180);
    assert_eq!(grid[0].len(), 180);
}

#[test]
fn test_quilt_generator_log_cabin() {
    let p = default_palette();
    let grid = QuiltGenerator::generate(QuiltBlock::LogCabin, 1, 1, &p, 0);
    assert!(!grid.is_empty());
}

#[test]
fn test_quilt_generator_basket_weave() {
    let p = default_palette();
    let grid = QuiltGenerator::generate(QuiltBlock::BasketWeave, 2, 1, &p, 5);
    assert!(!grid.is_empty());
    assert_eq!(grid[0].len(), 160); // 2 × 80
}

#[test]
fn log_cabin_with_three_rings_is_98_pixels() {
    let grid = QuiltPattern::generate_log_cabin(&default_palette(), 3);
    assert_eq!(grid.len(), 98);
    // Centre cell is ring 3, on the right/bottom side: palette index 7 -> wraps to 1.
    assert_eq!(grid[49][49], [60, 120, 220]);
    // Top-left corner is ring 0 on the light side: palette index 0.
    assert_eq!(grid[0][0], [220, 60, 60]);
}

#[test]
fn log_cabin_with_many_rings_is_empty() {
    let grid = QuiltPattern::generate_log_cabin(&default_palette(), 60);
    assert!(grid.is_empty());
}

#[test]
fn assembled_blocks_keep_their_places() {
    let a: Vec<Vec<[u8; 3]>> = vec![vec![[1, 1, 1]; 2]; 2];
    let b: Vec<Vec<[u8; 3]>> = vec![vec![[2, 2, 2]; 2]; 2];
    let c: Vec<Vec<[u8; 3]>> = vec![vec![[3, 3, 3]; 2]; 2];
    let q = QuiltPattern::assemble_quilt(&[a, b, c], 2);
    assert_eq!(q.len(), 4);
    assert_eq!(q[0], vec![[1, 1, 1], [1, 1, 1], [2, 2, 2], [2, 2, 2]]);
    assert_eq!(q[3], vec![[3, 3, 3], [3, 3, 3], [0, 0, 0], [0, 0, 0]]);
}

#[test]
fn pinwheel_quadrant_colours() {
    let p = ColorPalette::new(vec![[255, 0, 0], [0, 0, 255]]);
    let grid = QuiltPattern::generate_pinwheel(&p);
    assert_eq!(grid[40][45], [255, 0, 0]); // qx = 5, qy = 0
    assert_eq!(grid[45][40], [0, 0, 255]); // qx = 0, qy = 5
}

#[test]
fn basket_weave_stripes() {
    let p = ColorPalette::new(vec![[1, 1, 1], [2, 2, 2]]);
    let grid = QuiltGenerator::generate(QuiltBlock::BasketWeave, 1, 1, &p, 0);
    assert_eq!(grid[0][0], [1, 1, 1]);
    assert_eq!(grid[10][0], [2, 2, 2]); // horizontal cell, second stripe
    assert_eq!(grid[0][30], [2, 2, 2]); // vertical cell, second stripe
}

#[test]
fn star_block_draws_arms_and_diagonals() {
    let p = ColorPalette::new(vec![[1, 1, 1], [2, 2, 2], [3, 3, 3]]);
    // Seed 2 draws the accent colour at index 2 % 3.
    let grid = QuiltGenerator::generate(QuiltBlock::StarBlock, 1, 1, &p, 2);
    assert_eq!(grid.len(), 96);
    assert_eq!(grid[1][1], [3, 3, 3]); // diagonal, accent index 2
    assert_eq!(grid[0][0], [1, 1, 1]); // the diagonal stops short of the corner
    assert_eq!(grid[48][0], [2, 2, 2]); // horizontal arm
    assert_eq!(grid[0][40], [2, 2, 2]); // vertical arm
    assert_eq!(grid[0][20], [1, 1, 1]); // background
}

#[test]
fn nine_patch_is_deterministic() {
    let p = default_palette();
    assert_eq!(
        QuiltPattern::generate_nine_patch(&p, 7),
        QuiltPattern::generate_nine_patch(&p, 7)
    );
}
