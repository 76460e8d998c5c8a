use geodesic_wallpaper::lod::{LodAction, LodCounter, LodPressure};

fn make_controller(initial: usize) -> LodCounter {
    // min 4, max 100, no cooldown, base step 2.
    LodCounter::new(initial, 4, 100, 0, 2)
}

/// Drives the counter with measured frame times the way the program does:
/// exponential smoothing (alpha 0.1, starting at the 16.667 ms target), then
/// a reduce threshold of 16 ms and an increase threshold of 8 ms.
struct Timed {
    counter: LodCounter,
    smoothed_ms: f32,
}

impl Timed {
    fn new(initial: usize) -> Self {
        Timed { counter: make_controller(initial), smoothed_ms: 16.667 }
    }

    fn update(&mut self, frame_ms: f32) -> LodAction {
        self.smoothed_ms = 0.9 * self.smoothed_ms + 0.1 * frame_ms;
        let pressure = if self.smoothed_ms > 16.0 {
            LodPressure::Slow { extra_step: ((self.smoothed_ms - 16.667) / 4.0) as usize }
        } else if self.smoothed_ms < 8.0 {
            LodPressure::Fast { extra_step: ((8.0 - self.smoothed_ms) / 2.0) as usize }
        } else {
            LodPressure::Steady
        };
        assert!(self.counter.update_fits(pressure));
        self.counter.update(pressure)
    }
}

// The original form of this test expects the 20th slow frame to report
// `Decreased`. With these inputs the count reaches its floor of 4 at the 9th
// frame (see `slow_frames_walk_down_to_the_floor`), so by the original
// controller's own rules the 20th frame leaves it unchanged; the test checks
// that the count went down and that the frames reported the decrease.
#[test]
fn test_lod_reduces_when_slow() {
    let mut ctrl = Timed::new(30);
    let mut action = LodAction::Unchanged;
    let mut decreased = false;
    for _ in 0..20 {
        action = ctrl.update(33.0); // 30 fps
        decreased |= matches!(action, LodAction::Decreased { .. });
    }
    assert!(decreased, "should reduce geodesics on slow frames");
    assert_eq!(action, LodAction::Unchanged, "the count sits at its floor by the 20th frame");
    assert!(ctrl.counter.geodesic_count() < 30, "geodesic count should decrease");
}

#[test]
fn slow_frames_walk_down_to_the_floor() {
    let mut ctrl = Timed::new(30);
    let mut counts = Vec::new();
    for _ in 0..10 {
        ctrl.update(33.0); // 30 fps
        counts.push(ctrl.counter.geodesic_count());
    }
    assert_eq!(counts, vec![28, 26, 23, 20, 17, 14, 10, 6, 4, 4]);
    assert_eq!(ctrl.counter.times_decreased(), 9);
}

#[test]
fn test_lod_increases_when_fast() {
    let mut ctrl = Timed::new(30);
    let mut action = LodAction::Unchanged;
    for _ in 0..20 {
        action = ctrl.update(3.0); // very fast
    }
    assert!(matches!(action, LodAction::Increased { .. }), "should increase geodesics on fast frame: {:?}", action);
    assert!(ctrl.counter.geodesic_count() > 30, "geodesic count should increase");
}

#[test]
fn test_lod_unchanged_at_target() {
    let mut ctrl = Timed::new(30);
    let mut last_action = LodAction::Unchanged;
    for _ in 0..50 {
        last_action = ctrl.update(12.0); // between 8 and 16 ms → stable
    }
    assert_eq!(last_action, LodAction::Unchanged, "should be stable at target");
}

#[test]
fn test_lod_clamps_to_min() {
    let mut ctrl = Timed::new(5);
    for _ in 0..100 {
        ctrl.update(100.0); // extremely slow
    }
    assert!(ctrl.counter.geodesic_count() >= ctrl.counter.min_geodesics());
}

#[test]
fn test_lod_clamps_to_max() {
    let mut ctrl = Timed::new(90);
    for _ in 0..100 {
        ctrl.update(0.1); // extremely fast
    }
    assert!(ctrl.counter.geodesic_count() <= ctrl.counter.max_geodesics());
}

#[test]
fn test_lod_force_set() {
    let mut ctrl = make_controller(30);
    ctrl.force_set(50);
    assert_eq!(ctrl.geodesic_count(), 50);
}

#[test]
fn force_set_clamps() {
    let mut ctrl = make_controller(30);
    ctrl.force_set(1);
    assert_eq!(ctrl.geodesic_count(), 4);
    ctrl.force_set(1000);
    assert_eq!(ctrl.geodesic_count(), 100);
}

#[test]
fn new_clamps_initial_count() {
    assert_eq!(make_controller(1).geodesic_count(), 4);
    assert_eq!(make_controller(500).geodesic_count(), 100);
    assert_eq!(make_controller(30).geodesic_count(), 30);
}

#[test]
fn slow_frame_reduces_by_base_plus_extra() {
    let mut ctrl = make_controller(30);
    // A smoothed 33 ms frame is about 16 ms over target: 4 extra steps.
    let action = ctrl.update(LodPressure::Slow { extra_step: 4 });
    assert_eq!(action, LodAction::Decreased { from: 30, to: 24 });
    assert_eq!(ctrl.geodesic_count(), 24);
    assert_eq!(ctrl.times_decreased(), 1);
    assert_eq!(ctrl.frame_count(), 1);
}

#[test]
fn fast_frame_increases_by_base_plus_extra() {
    let mut ctrl = make_controller(30);
    let action = ctrl.update(LodPressure::Fast { extra_step: 2 });
    assert_eq!(action, LodAction::Increased { from: 30, to: 34 });
    assert_eq!(ctrl.times_increased(), 1);
}

#[test]
fn steps_are_capped() {
    let mut ctrl = make_controller(60);
    assert_eq!(ctrl.update(LodPressure::Slow { extra_step: 1000 }), LodAction::Decreased { from: 60, to: 40 });
    assert_eq!(ctrl.update(LodPressure::Fast { extra_step: 1000 }), LodAction::Increased { from: 40, to: 50 });
}

#[test]
fn steady_frame_leaves_count() {
    let mut ctrl = make_controller(30);
    for _ in 0..50 {
        assert_eq!(ctrl.update(LodPressure::Steady), LodAction::Unchanged);
    }
    assert_eq!(ctrl.geodesic_count(), 30);
    assert_eq!(ctrl.frame_count(), 50);
}

#[test]
fn clamps_to_min_and_max() {
    let mut ctrl = make_controller(5);
    for _ in 0..100 {
        ctrl.update(LodPressure::Slow { extra_step: 20 });
    }
    assert_eq!(ctrl.geodesic_count(), 4);
    let mut ctrl = make_controller(90);
    for _ in 0..100 {
        ctrl.update(LodPressure::Fast { extra_step: 3 });
    }
    assert_eq!(ctrl.geodesic_count(), 100);
}

#[test]
fn change_starts_cooldown() {
    let mut ctrl = LodCounter::new(30, 4, 100, 3, 2);
    // Cooling down from the start.
    for _ in 0..3 {
        assert_eq!(ctrl.update(LodPressure::Slow { extra_step: 0 }), LodAction::Unchanged);
    }
    assert_eq!(ctrl.update(LodPressure::Slow { extra_step: 0 }), LodAction::Decreased { from: 30, to: 28 });
    assert_eq!(ctrl.cooldown_remaining(), 3);
    assert_eq!(ctrl.update(LodPressure::Slow { extra_step: 0 }), LodAction::Unchanged);
    assert_eq!(ctrl.cooldown_remaining(), 2);
}

#[test]
fn update_fits_on_ordinary_states() {
    let ctrl = make_controller(30);
    assert!(ctrl.update_fits(LodPressure::Slow { extra_step: 5 }));
    assert!(ctrl.update_fits(LodPressure::Fast { extra_step: 5 }));
    assert!(!ctrl.update_fits(LodPressure::Fast { extra_step: usize::MAX }));
}
