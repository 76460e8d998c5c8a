use geodesic_wallpaper::noise::PerlinNoise;

/// The same Fisher-Yates shuffle, written independently.
fn reference_table(seed: u64) -> Vec<u8> {
    let mut table: Vec<u8> = (0..=255u8).collect();
    let mut rng = seed.wrapping_add(1);
    for i in (1..256usize).rev() {
        rng = rng
            .wrapping_mul(6364136223846793005)
            .wrapping_add(1442695040888963407);
        let j = (rng >> 33) as usize % (i + 1);
        table.swap(i, j);
    }
    table
}

#[test]
fn corner_hashes_follow_the_shuffled_table() {
    let seed = 42u64;
    let t = reference_table(seed);
    let noise = PerlinNoise::new(seed);
    for &(xi, yi) in &[(0i64, 0i64), (3, 7), (255, 255), (-1, 10), (300, -300), (1000, 1)] {
        let x = (xi & 255) as usize;
        let y = (yi & 255) as usize;
        let at = |k: usize| t[k % 256];
        let expected = (
            at(at(x) as usize + y),
            at(at(x) as usize + y + 1),
            at(at(x + 1) as usize + y),
            at(at(x + 1) as usize + y + 1),
        );
        assert_eq!(noise.corner_hashes(xi, yi), expected);
    }
}

#[test]
fn reference_table_is_a_permutation() {
    let mut t = reference_table(7);
    t.sort();
    assert_eq!(t, (0..=255u8).collect::<Vec<u8>>());
}

#[test]
fn perlin_tables_are_deterministic_and_seed_dependent() {
    let a = PerlinNoise::new(1);
    let b = PerlinNoise::new(1);
    let c = PerlinNoise::new(999);
    let mut differs = false;
    for x in 0..16i64 {
        assert_eq!(a.corner_hashes(x, 3), b.corner_hashes(x, 3));
        differs |= a.corner_hashes(x, 3) != c.corner_hashes(x, 3);
    }
    assert!(differs);
}
