use geodesic_wallpaper::origami::CreaseType;

#[test]
fn test_crease_type_symbols() {
    assert_eq!(CreaseType::Mountain.symbol(), 'M');
    assert_eq!(CreaseType::Valley.symbol(), 'V');
    assert_eq!(CreaseType::Flat.symbol(), 'F');
}
