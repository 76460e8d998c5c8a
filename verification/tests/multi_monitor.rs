use geodesic_wallpaper::multi_monitor::{assign_surfaces, MonitorAssignment};

#[test]
fn assign_surfaces_respects_count() {
    let cfgs = assign_surfaces(4);
    assert_eq!(cfgs.len(), 4);
    // All indices are distinct and in order.
    for (i, cfg) in cfgs.iter().enumerate() {
        assert_eq!(cfg.monitor_index, i);
    }
}

#[test]
fn assign_surfaces_zero_gives_one() {
    let cfgs = assign_surfaces(0);
    assert_eq!(cfgs.len(), 1);
}

#[test]
fn surfaces_cycle_across_many_monitors() {
    let cfgs = assign_surfaces(25);
    // All geodesic_count defaults are 30.
    assert!(cfgs.iter().all(|c| c.geodesic_count == 30));
    // Surfaces are not all the same (they wrap around the cycle list).
    let surfaces: Vec<&str> = cfgs.iter().map(|c| c.surface.as_str()).collect();
    let first = surfaces[0];
    assert!(surfaces.iter().any(|s| *s != first));
}

#[test]
fn default_for_index_values() {
    let a = MonitorAssignment::default_for_index(0);
    assert_eq!(a.surface, "torus");
    assert_eq!(a.color_scheme, "cosmic");
    let b = MonitorAssignment::default_for_index(13);
    assert_eq!(b.monitor_index, 13);
    assert_eq!(b.surface, "sphere");
    assert_eq!(b.color_scheme, "neon");
    let c = MonitorAssignment::default_for_index(11);
    assert_eq!(c.surface, "torus_knot");
    assert_eq!(c.color_scheme, "forest");
}

#[test]
fn twelve_monitors_get_distinct_surfaces() {
    let cfgs = assign_surfaces(12);
    for i in 0..12 {
        for j in 0..12 {
            if i != j {
                assert_ne!(cfgs[i].surface, cfgs[j].surface);
            }
        }
    }
    let more = assign_surfaces(24);
    for i in 0..12 {
        assert_eq!(more[i].surface, more[i + 12].surface);
    }
}
