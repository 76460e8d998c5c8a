use geodesic_wallpaper::config::{resolve_profile, Profile, Settings};
use geodesic_wallpaper::config::{effective_target_fps, parse_hex_channels, validate, ConfigFacts, FloatSetting};

fn parse_color(hex: &str) -> [f32; 4] {
    let [r, g, b] = parse_hex_channels(hex);
    [r as f32 / 255.0, g as f32 / 255.0, b as f32 / 255.0, 1.0]
}

#[test]
fn parse_color_full_hex() {
    let c = parse_color("#FF8800");
    assert!((c[0] - 1.0).abs() < 0.01);
    assert!((c[1] - 0.533).abs() < 0.01);
    assert!((c[2] - 0.0).abs() < 0.01);
    assert_eq!(c[3], 1.0);
}

#[test]
fn parse_color_without_hash() {
    let c_hash = parse_color("#4488FF");
    let c_no_hash = parse_color("4488FF");
    assert_eq!(c_hash, c_no_hash);
}

#[test]
fn parse_color_invalid_falls_back() {
    let c = parse_color("#ZZZZZZ");
    assert!((c[0] - 128.0 / 255.0).abs() < 0.01);
    assert_eq!(c[3], 1.0);
}

#[test]
fn hex_channels_exact_values() {
    assert_eq!(parse_hex_channels("#FF8800"), [255, 136, 0]);
    assert_eq!(parse_hex_channels("4488ff"), [0x44, 0x88, 0xff]);
    assert_eq!(parse_hex_channels("##0a0B0c"), [10, 11, 12]);
}

#[test]
fn hex_channels_short_text_falls_back_per_channel() {
    assert_eq!(parse_hex_channels("#12"), [0x12, 128, 128]);
    assert_eq!(parse_hex_channels("#1234"), [0x12, 0x34, 128]);
    assert_eq!(parse_hex_channels(""), [128, 128, 128]);
    assert_eq!(parse_hex_channels("###"), [128, 128, 128]);
}

#[test]
fn hex_channels_plus_sign_and_bad_fields() {
    assert_eq!(parse_hex_channels("+F+a+0"), [15, 10, 0]);
    assert_eq!(parse_hex_channels("++GG-1"), [128, 128, 128]);
}

#[test]
fn hex_channels_multibyte_text() {
    // "é" is two bytes; the fields are byte pairs, so it spoils only the first.
    assert_eq!(parse_hex_channels("éFF00"), [128, 255, 0]);
    assert_eq!(parse_hex_channels("Fé000"), [128, 128, 0]);
}


/// The values validation reads of a configuration, from its settings as the
/// program holds them.
struct ConfigValues {
    num_geodesics: usize,
    trail_length: usize,
    torus_big_r: f32,
    torus_small_r: f32,
    time_step: f32,
    color_palette: Vec<String>,
    max_trail_verts: usize,
    target_fps: u32,
    trail_fade_power: f32,
    color_mode: String,
    surface: String,
}

impl ConfigValues {
    fn default_config() -> Self {
        ConfigValues {
            num_geodesics: 30,
            trail_length: 300,
            torus_big_r: 2.0,
            torus_small_r: 0.7,
            time_step: 0.016,
            color_palette: ["#4488FF", "#88DDFF", "#FFD700", "#88FF88", "#FF88CC"].iter().map(|c| c.to_string()).collect(),
            max_trail_verts: 100_000,
            target_fps: 30,
            trail_fade_power: 2.0,
            color_mode: "cycle".to_string(),
            surface: "torus".to_string(),
        }
    }

    fn validate(&self) -> Vec<String> {
        let setting = |v: f32| FloatSetting { at_most_zero: v <= 0.0, text: v.to_string() };
        validate(&ConfigFacts {
            num_geodesics: self.num_geodesics,
            trail_length: self.trail_length,
            torus_major: setting(self.torus_big_r),
            torus_minor: setting(self.torus_small_r),
            torus_self_intersects: self.torus_big_r > 0.0 && self.torus_small_r >= self.torus_big_r,
            time_step: setting(self.time_step),
            palette_len: self.color_palette.len(),
            max_trail_verts: self.max_trail_verts,
            target_fps: self.target_fps,
            trail_fade_power: setting(self.trail_fade_power),
            color_mode: self.color_mode.clone(),
            surface: self.surface.clone(),
        })
    }
}

#[test]
fn default_settings_have_no_warnings() {
    assert!(ConfigValues::default_config().validate().is_empty());
}

#[test]
fn validate_catches_zero_geodesics() {
    let mut cfg = ConfigValues::default_config();
    cfg.num_geodesics = 0;
    let warnings = cfg.validate();
    assert!(
        warnings.iter().any(|w| w.contains("num_geodesics")),
        "expected warning about num_geodesics, got: {warnings:?}"
    );
}

#[test]
fn validate_catches_self_intersecting_torus() {
    let mut cfg = ConfigValues::default_config();
    cfg.torus_small_r = 3.0;
    cfg.torus_big_r = 2.0;
    let warnings = cfg.validate();
    assert!(
        warnings.iter().any(|w| w.contains("self-intersect")),
        "expected self-intersect warning, got: {warnings:?}"
    );
}

#[test]
fn validate_catches_empty_palette() {
    let mut cfg = ConfigValues::default_config();
    cfg.color_palette = vec![];
    let warnings = cfg.validate();
    assert!(
        warnings.iter().any(|w| w.contains("color_palette")),
        "expected palette warning, got: {warnings:?}"
    );
}

#[test]
fn effective_target_fps_clamps_zero() {
    assert_eq!(effective_target_fps(0), 30);
    assert_eq!(effective_target_fps(60), 60);
}

#[test]
fn validate_exact_messages_in_order() {
    let mut cfg = ConfigValues::default_config();
    cfg.trail_length = 0;
    cfg.torus_big_r = -1.5;
    cfg.max_trail_verts = 42;
    cfg.color_mode = "rainbow".to_string();
    cfg.surface = "klein".to_string();
    let warnings = cfg.validate();
    assert_eq!(
        warnings,
        vec![
            "trail_length is 0 — trails will be invisible; set to at least 1".to_string(),
            "torus_R = -1.5 is not positive — torus will degenerate".to_string(),
            "max_trail_verts = 42 is very small — trails may be clipped".to_string(),
            "color_mode 'rainbow' is unrecognised — use 'cycle' or 'random'; defaulting to 'cycle'".to_string(),
            "surface 'klein' is unrecognised — known values: torus, sphere, saddle, enneper, catenoid, helicoid, hyperboloid; defaulting to 'torus'".to_string(),
        ]
    );
}

#[test]
fn validate_every_rule() {
    let cfg = ConfigValues {
        num_geodesics: 0,
        trail_length: 0,
        torus_big_r: 0.0,
        torus_small_r: -0.25,
        time_step: 0.0,
        color_palette: vec![],
        max_trail_verts: 99,
        target_fps: 0,
        trail_fade_power: -1.0,
        color_mode: "random".to_string(),
        surface: "hyperboloid".to_string(),
    };
    let warnings = cfg.validate();
    assert_eq!(warnings.len(), 9);
    assert_eq!(warnings[2], "torus_R = 0 is not positive — torus will degenerate");
    assert_eq!(warnings[3], "torus_r = -0.25 is not positive — torus will degenerate");
    assert_eq!(warnings[4], "time_step = 0 is not positive — simulation will not advance");
    assert_eq!(warnings[8], "trail_fade_power = -1 must be positive; defaulting to 2.0");
}

fn default_settings() -> Settings {
    Settings {
        surface: "torus".to_string(),
        num_geodesics: 30,
        trail_length: 300,
        rotation_speed: 0.001047f32.to_bits(),
        color_palette: ["#4488FF", "#88DDFF", "#FFD700", "#88FF88", "#FF88CC"].iter().map(|c| c.to_string()).collect(),
        torus_major: 2.0f32.to_bits(),
        torus_minor: 0.7f32.to_bits(),
        time_step: 0.016f32.to_bits(),
        camera_distance: 6.0f32.to_bits(),
        camera_elevation: 0.4f32.to_bits(),
        camera_fov: 0.8f32.to_bits(),
        camera_elevation_speed: 0.0f32.to_bits(),
        show_wireframe: true,
        max_trail_verts: 100_000,
        trail_fade_power: 2.0f32.to_bits(),
        color_mode: "cycle".to_string(),
        target_fps: 30,
        show_hud: false,
        epilepsy_warning: true,
        multi_monitor: false,
        seed: None,
        background_color: "#050510".to_string(),
        trail_mode: "line".to_string(),
        color_cycle_speed: 0.0f32.to_bits(),
        gradient_stops: Vec::new(),
        gradient_mode: "none".to_string(),
        preset_cycle_secs: None,
        presets_order: Vec::new(),
        catenoid_c: 1.0f32.to_bits(),
        helicoid_c: 1.0f32.to_bits(),
        hyperboloid_a: 1.0f32.to_bits(),
        hyperboloid_b: 1.0f32.to_bits(),
        light_dir: [1.0f32.to_bits(); 3],
        color_cycle_enabled: false,
    }
}

/// resolve_profile with no active profile returns the settings unchanged.
#[test]
fn test_resolve_profile_no_active() {
    let cfg = default_settings();
    let resolved = resolve_profile(cfg.clone(), None);
    assert_eq!(cfg.surface, resolved.surface);
    assert_eq!(cfg.num_geodesics, resolved.num_geodesics);
    assert_eq!(cfg, resolved);
}

/// resolve_profile with an active profile overlays its fields.
#[test]
fn test_resolve_profile_overlays_fields() {
    let cfg = default_settings();
    let mut profile = Profile::default();
    profile.surface = Some("sphere".into());
    profile.num_geodesics = Some(5);
    let resolved = resolve_profile(cfg, Some(profile));
    assert_eq!(resolved.surface, "sphere");
    assert_eq!(resolved.num_geodesics, 5);
    // Fields not in profile retain base config values.
    assert_eq!(resolved.trail_length, 300);
}

/// A profile name that names no profile leaves the settings unchanged.
#[test]
fn test_resolve_profile_missing_profile() {
    let cfg = default_settings();
    let profiles: std::collections::HashMap<String, Profile> = std::collections::HashMap::new();
    let resolved = resolve_profile(cfg.clone(), profiles.get("nonexistent").cloned());
    assert_eq!(cfg.surface, resolved.surface);
}

#[test]
fn resolve_profile_overlays_optional_and_float_settings() {
    let mut cfg = default_settings();
    cfg.seed = Some(7);
    let mut profile = Profile::default();
    profile.seed = Some(99);
    profile.torus_major = Some(3.5f32.to_bits());
    profile.preset_cycle_secs = Some(12.0f32.to_bits());
    profile.light_dir = Some([0, 0, 1.0f32.to_bits()]);
    let resolved = resolve_profile(cfg.clone(), Some(profile));
    assert_eq!(resolved.seed, Some(99));
    assert_eq!(f32::from_bits(resolved.torus_major), 3.5);
    assert_eq!(resolved.preset_cycle_secs.map(f32::from_bits), Some(12.0));
    assert_eq!(resolved.light_dir, [0, 0, 1.0f32.to_bits()]);
    assert_eq!(resolved.torus_minor, cfg.torus_minor);
    // An empty profile keeps a base seed.
    let kept = resolve_profile(cfg.clone(), Some(Profile::default()));
    assert_eq!(kept, cfg);
}
