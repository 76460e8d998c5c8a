use geodesic_wallpaper::scene_presets::PresetCursor;

/// The built-in library holds ten presets.
const DEFAULT_PRESET_COUNT: usize = 10;

#[test]
fn next_wraps_around() {
    let mut lib = PresetCursor::new(DEFAULT_PRESET_COUNT);
    let first = lib.current();
    for _ in 0..lib.count() {
        lib.next();
    }
    assert_eq!(lib.current(), first);
}

#[test]
fn prev_wraps_around() {
    let mut lib = PresetCursor::new(DEFAULT_PRESET_COUNT);
    let first = lib.current();
    lib.prev();
    assert_ne!(lib.current(), first);
    // Going forward again should return to first.
    lib.next();
    assert_eq!(lib.current(), first);
}

#[test]
fn cursor_positions_exact() {
    let mut c = PresetCursor::new(3);
    assert_eq!(c.count(), 3);
    assert_eq!(c.current(), 0);
    assert_eq!(c.next(), 1);
    assert_eq!(c.next(), 2);
    assert_eq!(c.next(), 0);
    assert_eq!(c.prev(), 2);
    assert_eq!(c.prev(), 1);
    assert_eq!(c.current(), 1);
}

#[test]
fn single_preset_cursor_stays_put() {
    let mut c = PresetCursor::new(1);
    assert_eq!(c.next(), 0);
    assert_eq!(c.prev(), 0);
}

#[test]
fn empty_cursor_has_no_presets() {
    let c = PresetCursor::new(0);
    assert_eq!(c.count(), 0);
    assert_eq!(c.current(), 0);
}
