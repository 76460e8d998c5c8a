use geodesic_wallpaper::fractal_tree::bresenham;

fn lit(pixels: &[u8], w: u32) -> Vec<(u32, u32)> {
    let mut out = Vec::new();
    for (i, px) in pixels.chunks(3).enumerate() {
        if px != [0, 0, 0] {
            out.push((i as u32 % w, i as u32 / w));
        }
    }
    out
}

#[test]
fn horizontal_line() {
    let mut px = vec![0u8; 5 * 3 * 3];
    bresenham(0, 1, 4, 1, [9, 8, 7], 5, 3, &mut px);
    assert_eq!(lit(&px, 5), vec![(0, 1), (1, 1), (2, 1), (3, 1), (4, 1)]);
    assert_eq!(&px[(5 + 2) * 3..(5 + 2) * 3 + 3], &[9, 8, 7]);
}

#[test]
fn reversed_diagonal_line() {
    let mut px = vec![0u8; 4 * 4 * 3];
    bresenham(3, 3, 0, 0, [1, 1, 1], 4, 4, &mut px);
    assert_eq!(lit(&px, 4), vec![(0, 0), (1, 1), (2, 2), (3, 3)]);
}

#[test]
fn shallow_line_steps_along_x() {
    let mut px = vec![0u8; 7 * 3 * 3];
    bresenham(0, 0, 6, 2, [5, 5, 5], 7, 3, &mut px);
    assert_eq!(
        lit(&px, 7),
        vec![(0, 0), (1, 0), (2, 1), (3, 1), (4, 1), (5, 2), (6, 2)]
    );
}

#[test]
fn steep_line_steps_along_y() {
    let mut px = vec![0u8; 2 * 4 * 3];
    bresenham(0, 0, 1, 3, [5, 5, 5], 2, 4, &mut px);
    assert_eq!(lit(&px, 2), vec![(0, 0), (0, 1), (1, 2), (1, 3)]);
}

#[test]
fn single_point() {
    let mut px = vec![0u8; 2 * 2 * 3];
    bresenham(1, 1, 1, 1, [3, 3, 3], 2, 2, &mut px);
    assert_eq!(lit(&px, 2), vec![(1, 1)]);
}

#[test]
fn points_outside_are_clipped() {
    let mut px = vec![0u8; 3 * 3 * 3];
    bresenham(-2, 1, 5, 1, [4, 4, 4], 3, 3, &mut px);
    assert_eq!(lit(&px, 3), vec![(0, 1), (1, 1), (2, 1)]);
    assert_eq!(px.len(), 27);
}

use geodesic_wallpaper::fractal_tree::fill_disc;

#[test]
fn disc_of_radius_one_is_a_plus() {
    let mut px = vec![0u8; 5 * 5 * 3];
    fill_disc(&mut px, 5, 5, 2, 2, 1, [7, 7, 7]);
    assert_eq!(lit(&px, 5), vec![(2, 1), (1, 2), (2, 2), (3, 2), (2, 3)]);
}

#[test]
fn disc_of_radius_two() {
    let mut px = vec![0u8; 5 * 5 * 3];
    fill_disc(&mut px, 5, 5, 2, 2, 2, [1, 2, 3]);
    // 13 points satisfy dx^2 + dy^2 <= 4.
    assert_eq!(lit(&px, 5).len(), 13);
    assert!(!lit(&px, 5).contains(&(0, 0)));
    assert_eq!(&px[0..3], &[0, 0, 0]);
    assert_eq!(&px[(2 * 5) * 3..(2 * 5) * 3 + 3], &[1, 2, 3]);
}

#[test]
fn disc_is_clipped_at_the_border() {
    let mut px = vec![0u8; 3 * 3 * 3];
    fill_disc(&mut px, 3, 3, 0, 0, 1, [9, 9, 9]);
    assert_eq!(lit(&px, 3), vec![(0, 0), (1, 0), (0, 1)]);
}

#[test]
fn zero_and_negative_radius() {
    let mut px = vec![0u8; 3 * 3 * 3];
    fill_disc(&mut px, 3, 3, 1, 1, 0, [9, 9, 9]);
    assert_eq!(lit(&px, 3), vec![(1, 1)]);
    let mut px2 = vec![0u8; 3 * 3 * 3];
    fill_disc(&mut px2, 3, 3, 1, 1, -4, [9, 9, 9]);
    assert!(lit(&px2, 3).is_empty());
}

#[test]
fn bytes_past_the_image_are_untouched() {
    let mut px = vec![5u8; 2 * 2 * 3 + 4];
    fill_disc(&mut px, 2, 2, 1, 1, 3, [0, 0, 1]);
    assert_eq!(&px[12..], &[5, 5, 5, 5]);
}
