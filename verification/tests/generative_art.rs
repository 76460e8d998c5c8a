use geodesic_wallpaper::generative_art::hash;

#[test]
fn hash_of_origin_with_zero_seed_is_zero() {
    assert_eq!(hash(0, 0, 0), 0);
}

#[test]
fn hash_exact_values() {
    assert_eq!(hash(1, 0, 0), 4028701401546325202);
    assert_eq!(hash(0, 1, 12345), 15768333033420759871);
    // The scaled coordinates' sum wraps modulo 2^64.
    assert_eq!(hash(2, 2, 42), 15904171674980682470);
    assert_eq!(hash(3, 0, u64::MAX), 7659266723906172681);
}

#[test]
fn hash_depends_on_every_argument() {
    let base = hash(1, 1, 7);
    assert_ne!(base, hash(2, 1, 7));
    assert_ne!(base, hash(1, 2, 7));
    assert_ne!(base, hash(1, 1, 8));
}

#[test]
fn hash_wraps_for_large_and_negative_coordinates() {
    // Noise octaves reach lattice coordinates in the tens, and below zero.
    assert_eq!(hash(46, 45, 7), 2686134052503069145);
    assert_eq!(hash(-1, -3, 0), 6296956142513777297);
    assert_eq!(hash(i64::MIN, i64::MAX, 123), 7437073659003317337);
}
