//! The rules of the configuration file: reading its colour strings,
//! validating its settings, applying a profile, and the frame rate it asks for.
//!
//! A colour is written as CSS-style hex, `#RRGGBB`, with or without the `#`.
//! A channel that cannot be read falls back to 128, mid grey.
use crate::text::{decimal, push_decimal};
use vstd::prelude::*;

verus! {

/// The byte `#`.
pub const HASH_MARK: u8 = 35;

/// The byte `+`, which may stand before the digits of a channel.
pub const PLUS_SIGN: u8 = 43;

/// The value a channel takes when it cannot be read.
pub const FALLBACK_CHANNEL: u8 = 128;

/// The value of an ASCII hexadecimal digit, either case.
pub open spec fn hex_digit_value(b: u8) -> Option<int> {
    if 48 <= b <= 57 {
        Some(b - 48)
    } else if 97 <= b <= 102 {
        Some(b - 87)
    } else if 65 <= b <= 70 {
        Some(b - 55)
    } else {
        None
    }
}

/// What a two-byte channel field reads as: two hex digits, or a `+` and one
/// hex digit; anything else is the fallback.
pub open spec fn field_value(b0: u8, b1: u8) -> u8 {
    if b0 == PLUS_SIGN {
        match hex_digit_value(b1) {
            Some(v) => v as u8,
            None => FALLBACK_CHANNEL,
        }
    } else {
        match (hex_digit_value(b0), hex_digit_value(b1)) {
            (Some(hi), Some(lo)) => (16 * hi + lo) as u8,
            _ => FALLBACK_CHANNEL,
        }
    }
}

/// The number of `#` bytes the text begins with.
pub open spec fn leading_hash_marks(s: Seq<u8>) -> nat
    decreases s.len(),
{
    if s.len() > 0 && s[0] == HASH_MARK {
        1 + leading_hash_marks(s.drop_first())
    } else {
        0
    }
}

/// The channel whose field starts at byte `at` of the digits: the fallback
/// when the digits end before the field does.
pub open spec fn channel_at(digits: Seq<u8>, at: int) -> u8 {
    if at + 2 <= digits.len() {
        field_value(digits[at], digits[at + 1])
    } else {
        FALLBACK_CHANNEL
    }
}

/// The red, green and blue channels that the UTF-8 bytes of a colour string
/// read as, once its leading `#` marks are dropped.
pub open spec fn hex_channels(text: Seq<u8>) -> Seq<u8> {
    let digits = text.skip(leading_hash_marks(text) as int);
    seq![channel_at(digits, 0), channel_at(digits, 2), channel_at(digits, 4)]
}

proof fn lemma_leading_hash_marks(s: Seq<u8>, i: int)
    requires
        0 <= i <= s.len(),
        forall|j: int| 0 <= j < i ==> s[j] == HASH_MARK,
        i == s.len() || s[i] != HASH_MARK,
    ensures
        leading_hash_marks(s) == i,
    decreases i,
{
    if i > 0 {
        let t = s.drop_first();
        assert forall|j: int| 0 <= j < i - 1 implies t[j] == HASH_MARK by {
            assert(s[j + 1] == HASH_MARK);
        }
        lemma_leading_hash_marks(t, i - 1);
    }
}

proof fn lemma_leading_hash_marks_le(s: Seq<u8>)
    ensures
        leading_hash_marks(s) <= s.len(),
    decreases s.len(),
{
    if s.len() > 0 && s[0] == HASH_MARK {
        lemma_leading_hash_marks_le(s.drop_first());
    }
}

/// A colour reads the same with or without a `#` in front.
pub proof fn law_hash_mark_optional(text: Seq<u8>)
    ensures
        hex_channels(seq![HASH_MARK] + text) == hex_channels(text),
{
    let marked = seq![HASH_MARK] + text;
    assert(marked.drop_first() =~= text);
    assert(leading_hash_marks(marked) == 1 + leading_hash_marks(text));
    lemma_leading_hash_marks_le(text);
    assert(marked.skip(leading_hash_marks(marked) as int) =~= text.skip(leading_hash_marks(text) as int));
}

fn hex_digit(b: u8) -> (r: Option<u8>)
    ensures
        match hex_digit_value(b) {
            Some(v) => r == Some(v as u8),
            None => r is None,
        },
{
    if 48 <= b && b <= 57 {
        Some(b - 48)
    } else if 97 <= b && b <= 102 {
        Some(b - 87)
    } else if 65 <= b && b <= 70 {
        Some(b - 55)
    } else {
        None
    }
}

fn read_field(digits: &[u8], at: usize) -> (r: u8)
    ensures
        r == channel_at(digits@, at as int),
{
    if at > digits.len() || digits.len() - at < 2 {
        return FALLBACK_CHANNEL;
    }
    let b0 = digits[at];
    let b1 = digits[at + 1];
    if b0 == PLUS_SIGN {
        match hex_digit(b1) {
            Some(v) => v,
            None => FALLBACK_CHANNEL,
        }
    } else {
        match (hex_digit(b0), hex_digit(b1)) {
            (Some(hi), Some(lo)) => hi * 16 + lo,
            _ => FALLBACK_CHANNEL,
        }
    }
}

/// Reads the red, green and blue channels of a colour written `#RRGGBB`.
///
/// Every leading `#` is dropped; the channels are the byte pairs at offsets
/// 0, 2 and 4 of what remains of the UTF-8 text, each read as two hex digits
/// (or a `+` and one digit), and any pair that is missing or unreadable gives 128.
pub fn parse_hex_channels(hex: &str) -> (rgb: [u8; 3])
    ensures
        rgb@ == hex_channels(vstd::string::StringSliceAdditionalSpecFns::spec_bytes(hex)),
{
    let text = hex.as_bytes();
    let mut start: usize = 0;
    while start < text.len() && text[start] == HASH_MARK
        invariant
            start <= text.len(),
            forall|j: int| 0 <= j < start ==> text@[j] == HASH_MARK,
        decreases text.len() - start,
    {
        start = start + 1;
    }
    proof {
        lemma_leading_hash_marks(text@, start as int);
    }
    let (_, digits) = text.split_at(start);
    proof {
        assert(digits@ =~= text@.skip(start as int));
    }
    let r = read_field(digits, 0);
    let g = read_field(digits, 2);
    let b = read_field(digits, 4);
    let rgb = [r, g, b];
    proof {
        assert(rgb@ =~= hex_channels(text@));
    }
    rgb
}


/// The frame rate the renderer aims for: the configured one, or 30 when zero
/// is configured.
pub fn effective_target_fps(target_fps: u32) -> (fps: u32)
    ensures
        fps == if target_fps == 0 { 30 } else { target_fps },
{
    if target_fps == 0 {
        30
    } else {
        target_fps
    }
}

/// A floating-point setting as validation sees it: whether it is at most
/// zero, and how it prints.
pub struct FloatSetting {
    pub at_most_zero: bool,
    pub text: String,
}

/// What validation reads of a configuration. Floating-point settings come as
/// their comparisons and printed text.
pub struct ConfigFacts {
    pub num_geodesics: usize,
    pub trail_length: usize,
    /// The torus's major radius, `torus_R`.
    pub torus_major: FloatSetting,
    /// The torus's minor radius, `torus_r`.
    pub torus_minor: FloatSetting,
    /// Whether `torus_R > 0` and `torus_r >= torus_R`.
    pub torus_self_intersects: bool,
    pub time_step: FloatSetting,
    pub palette_len: usize,
    pub max_trail_verts: usize,
    pub target_fps: u32,
    pub trail_fade_power: FloatSetting,
    pub color_mode: String,
    pub surface: String,
}

/// The warning `w`, when `c` holds.
pub open spec fn warn_if(c: bool, w: Seq<char>) -> Seq<Seq<char>> {
    if c {
        seq![w]
    } else {
        seq![]
    }
}

/// The surfaces a configuration may name.
pub open spec fn known_surface(s: Seq<char>) -> bool {
    ||| s == "torus"@
    ||| s == "sphere"@
    ||| s == "saddle"@
    ||| s == "enneper"@
    ||| s == "catenoid"@
    ||| s == "helicoid"@
    ||| s == "hyperboloid"@
}

/// The colour modes a configuration may name.
pub open spec fn known_color_mode(s: Seq<char>) -> bool {
    s == "cycle"@ || s == "random"@
}

/// The warnings about the counts: no geodesics, invisible trails.
pub open spec fn count_warnings(f: ConfigFacts) -> Seq<Seq<char>> {
    warn_if(f.num_geodesics == 0, "num_geodesics is 0 — no geodesics will be rendered; set to at least 1"@)
        + warn_if(f.trail_length == 0, "trail_length is 0 — trails will be invisible; set to at least 1"@)
}

/// The warnings about the torus and the time step.
pub open spec fn shape_warnings(f: ConfigFacts) -> Seq<Seq<char>> {
    warn_if(
        f.torus_major.at_most_zero,
        "torus_R = "@ + f.torus_major.text@ + " is not positive — torus will degenerate"@,
    ) + warn_if(
        f.torus_minor.at_most_zero,
        "torus_r = "@ + f.torus_minor.text@ + " is not positive — torus will degenerate"@,
    ) + warn_if(
        f.torus_self_intersects,
        "torus_r ("@ + f.torus_minor.text@ + ") >= torus_R ("@ + f.torus_major.text@
            + ") — torus will self-intersect"@,
    ) + warn_if(
        f.time_step.at_most_zero,
        "time_step = "@ + f.time_step.text@ + " is not positive — simulation will not advance"@,
    )
}

/// The warnings about the palette, the trail buffer, the frame rate and the fade.
pub open spec fn display_warnings(f: ConfigFacts) -> Seq<Seq<char>> {
    warn_if(f.palette_len == 0, "color_palette is empty — a fallback grey colour will be used"@)
        + warn_if(
        f.max_trail_verts < 100,
        "max_trail_verts = "@ + decimal(f.max_trail_verts as nat) + " is very small — trails may be clipped"@,
    ) + warn_if(f.target_fps == 0, "target_fps is 0 — defaulting to 30 fps"@) + warn_if(
        f.trail_fade_power.at_most_zero,
        "trail_fade_power = "@ + f.trail_fade_power.text@ + " must be positive; defaulting to 2.0"@,
    )
}

/// The warnings about unrecognised names.
pub open spec fn name_warnings(f: ConfigFacts) -> Seq<Seq<char>> {
    warn_if(
        !known_color_mode(f.color_mode@),
        "color_mode '"@ + f.color_mode@ + "' is unrecognised — use 'cycle' or 'random'; defaulting to 'cycle'"@,
    ) + warn_if(
        !known_surface(f.surface@),
        "surface '"@ + f.surface@
            + "' is unrecognised — known values: torus, sphere, saddle, enneper, catenoid, helicoid, hyperboloid; defaulting to 'torus'"@,
    )
}

/// Every warning validation gives, in order.
pub open spec fn config_warnings(f: ConfigFacts) -> Seq<Seq<char>> {
    count_warnings(f) + shape_warnings(f) + display_warnings(f) + name_warnings(f)
}

/// The texts of a list of strings.
pub open spec fn texts(v: Seq<String>) -> Seq<Seq<char>> {
    v.map_values(|m: String| m@)
}

fn push_if(out: &mut Vec<String>, c: bool, m: String)
    ensures
        texts(final(out)@) == texts(old(out)@) + warn_if(c, m@),
{
    let ghost before = out@;
    if c {
        out.push(m);
        assert(texts(out@) =~= texts(before) + seq![m@]);
    } else {
        assert(texts(out@) =~= texts(before) + Seq::<Seq<char>>::empty());
    }
}

fn framed(before: &str, middle: &str, after: &str) -> (m: String)
    ensures
        m@ == before@ + middle@ + after@,
{
    let mut m = String::from_str(before);
    m.append(middle);
    m.append(after);
    m
}

fn same_text(a: &String, b: &str) -> (r: bool)
    ensures
        r == (a@ == b@),
{
    let b = String::from_str(b);
    *a == b
}

fn push_count_warnings(w: &mut Vec<String>, f: &ConfigFacts)
    ensures
        texts(final(w)@) == texts(old(w)@) + count_warnings(*f),
{
    let ghost t0 = texts(w@);
    push_if(
        w,
        f.num_geodesics == 0,
        String::from_str("num_geodesics is 0 — no geodesics will be rendered; set to at least 1"),
    );
    push_if(
        w,
        f.trail_length == 0,
        String::from_str("trail_length is 0 — trails will be invisible; set to at least 1"),
    );
    proof {
        assert(texts(w@) =~= t0 + count_warnings(*f));
    }
}

fn push_shape_warnings(w: &mut Vec<String>, f: &ConfigFacts)
    ensures
        texts(final(w)@) == texts(old(w)@) + shape_warnings(*f),
{
    let ghost t0 = texts(w@);
    push_if(
        w,
        f.torus_major.at_most_zero,
        framed("torus_R = ", f.torus_major.text.as_str(), " is not positive — torus will degenerate"),
    );
    push_if(
        w,
        f.torus_minor.at_most_zero,
        framed("torus_r = ", f.torus_minor.text.as_str(), " is not positive — torus will degenerate"),
    );
    let mut m = framed("torus_r (", f.torus_minor.text.as_str(), ") >= torus_R (");
    m.append(f.torus_major.text.as_str());
    m.append(") — torus will self-intersect");
    push_if(w, f.torus_self_intersects, m);
    push_if(
        w,
        f.time_step.at_most_zero,
        framed("time_step = ", f.time_step.text.as_str(), " is not positive — simulation will not advance"),
    );
    proof {
        assert(texts(w@) =~= t0 + shape_warnings(*f));
    }
}

fn push_display_warnings(w: &mut Vec<String>, f: &ConfigFacts)
    ensures
        texts(final(w)@) == texts(old(w)@) + display_warnings(*f),
{
    let ghost t0 = texts(w@);
    push_if(
        w,
        f.palette_len == 0,
        String::from_str("color_palette is empty — a fallback grey colour will be used"),
    );
    let mut m = String::from_str("max_trail_verts = ");
    push_decimal(&mut m, f.max_trail_verts as u64);
    m.append(" is very small — trails may be clipped");
    push_if(w, f.max_trail_verts < 100, m);
    push_if(w, f.target_fps == 0, String::from_str("target_fps is 0 — defaulting to 30 fps"));
    push_if(
        w,
        f.trail_fade_power.at_most_zero,
        framed("trail_fade_power = ", f.trail_fade_power.text.as_str(), " must be positive; defaulting to 2.0"),
    );
    proof {
        assert(texts(w@) =~= t0 + display_warnings(*f));
    }
}

fn is_known_surface(s: &String) -> (r: bool)
    ensures
        r == known_surface(s@),
{
    same_text(s, "torus") || same_text(s, "sphere") || same_text(s, "saddle") || same_text(s, "enneper")
        || same_text(s, "catenoid") || same_text(s, "helicoid") || same_text(s, "hyperboloid")
}

fn push_name_warnings(w: &mut Vec<String>, f: &ConfigFacts)
    ensures
        texts(final(w)@) == texts(old(w)@) + name_warnings(*f),
{
    let ghost t0 = texts(w@);
    let mode_known = same_text(&f.color_mode, "cycle") || same_text(&f.color_mode, "random");
    push_if(
        w,
        !mode_known,
        framed(
            "color_mode '",
            f.color_mode.as_str(),
            "' is unrecognised — use 'cycle' or 'random'; defaulting to 'cycle'",
        ),
    );
    push_if(
        w,
        !is_known_surface(&f.surface),
        framed(
            "surface '",
            f.surface.as_str(),
            "' is unrecognised — known values: torus, sphere, saddle, enneper, catenoid, helicoid, hyperboloid; defaulting to 'torus'",
        ),
    );
    proof {
        assert(texts(w@) =~= t0 + name_warnings(*f));
    }
}

/// Checks a configuration for settings that will misbehave, and returns one
/// warning per problem, in a fixed order: the counts, the torus and time
/// step, the palette, trail buffer, frame rate and fade, and the names of the
/// colour mode and surface.
pub fn validate(f: &ConfigFacts) -> (warnings: Vec<String>)
    ensures
        texts(warnings@) == config_warnings(*f),
{
    let mut w: Vec<String> = Vec::new();
    proof {
        assert(texts(w@) =~= Seq::<Seq<char>>::empty());
    }
    push_count_warnings(&mut w, f);
    push_shape_warnings(&mut w, f);
    push_display_warnings(&mut w, f);
    push_name_warnings(&mut w, f);
    proof {
        assert(texts(w@) =~= config_warnings(*f));
    }
    w
}

/// The settings a configuration profile can override. Floating-point
/// settings are carried as the bit patterns of their `f32` values.
#[derive(Clone, Debug, PartialEq)]
pub struct Settings {
    /// The surface to render.
    pub surface: String,
    /// Simultaneous geodesics.
    pub num_geodesics: usize,
    /// Trail length in frames.
    pub trail_length: usize,
    /// Camera rotation speed (`f32` bits).
    pub rotation_speed: u32,
    /// Trail colours as hex strings.
    pub color_palette: Vec<String>,
    /// The torus's major radius (`f32` bits).
    pub torus_major: u32,
    /// The torus's minor radius (`f32` bits).
    pub torus_minor: u32,
    /// Integration time step (`f32` bits).
    pub time_step: u32,
    /// Camera distance (`f32` bits).
    pub camera_distance: u32,
    /// Camera elevation (`f32` bits).
    pub camera_elevation: u32,
    /// Camera field of view (`f32` bits).
    pub camera_fov: u32,
    /// Camera elevation speed (`f32` bits).
    pub camera_elevation_speed: u32,
    /// Whether the wireframe shows.
    pub show_wireframe: bool,
    /// Trail vertex buffer size.
    pub max_trail_verts: usize,
    /// Trail fade exponent (`f32` bits).
    pub trail_fade_power: u32,
    /// How colours are assigned.
    pub color_mode: String,
    /// Target frame rate.
    pub target_fps: u32,
    /// Whether the HUD shows.
    pub show_hud: bool,
    /// Whether the epilepsy warning shows.
    pub epilepsy_warning: bool,
    /// Whether every monitor is used.
    pub multi_monitor: bool,
    /// Random seed.
    pub seed: Option<u64>,
    /// Background colour as a hex string.
    pub background_color: String,
    /// How trails are drawn.
    pub trail_mode: String,
    /// Colour cycling speed (`f32` bits).
    pub color_cycle_speed: u32,
    /// Gradient stops as hex strings.
    pub gradient_stops: Vec<String>,
    /// Gradient interpolation.
    pub gradient_mode: String,
    /// Seconds between preset changes (`f32` bits).
    pub preset_cycle_secs: Option<u32>,
    /// Preset order.
    pub presets_order: Vec<String>,
    /// Catenoid parameter (`f32` bits).
    pub catenoid_c: u32,
    /// Helicoid parameter (`f32` bits).
    pub helicoid_c: u32,
    /// Hyperboloid parameter a (`f32` bits).
    pub hyperboloid_a: u32,
    /// Hyperboloid parameter b (`f32` bits).
    pub hyperboloid_b: u32,
    /// Light direction (`f32` bits).
    pub light_dir: [u32; 3],
    /// Whether colours cycle.
    pub color_cycle_enabled: bool,
}

/// A named configuration profile: each setting it gives replaces the base one.
#[derive(Clone, Debug, Default)]
pub struct Profile {
    pub surface: Option<String>,
    pub num_geodesics: Option<usize>,
    pub trail_length: Option<usize>,
    pub rotation_speed: Option<u32>,
    pub color_palette: Option<Vec<String>>,
    pub torus_major: Option<u32>,
    pub torus_minor: Option<u32>,
    pub time_step: Option<u32>,
    pub camera_distance: Option<u32>,
    pub camera_elevation: Option<u32>,
    pub camera_fov: Option<u32>,
    pub camera_elevation_speed: Option<u32>,
    pub show_wireframe: Option<bool>,
    pub max_trail_verts: Option<usize>,
    pub trail_fade_power: Option<u32>,
    pub color_mode: Option<String>,
    pub target_fps: Option<u32>,
    pub show_hud: Option<bool>,
    pub epilepsy_warning: Option<bool>,
    pub multi_monitor: Option<bool>,
    pub seed: Option<u64>,
    pub background_color: Option<String>,
    pub trail_mode: Option<String>,
    pub color_cycle_speed: Option<u32>,
    pub gradient_stops: Option<Vec<String>>,
    pub gradient_mode: Option<String>,
    pub preset_cycle_secs: Option<u32>,
    pub presets_order: Option<Vec<String>>,
    pub catenoid_c: Option<u32>,
    pub helicoid_c: Option<u32>,
    pub hyperboloid_a: Option<u32>,
    pub hyperboloid_b: Option<u32>,
    pub light_dir: Option<[u32; 3]>,
    pub color_cycle_enabled: Option<bool>,
}

/// `over` when it is given, else `base`.
pub open spec fn pick<T>(base: T, over: Option<T>) -> T {
    match over {
        Some(v) => v,
        None => base,
    }
}

/// An optional setting: the profile's when it gives one, else the base's.
pub open spec fn pick_opt<T>(base: Option<T>, over: Option<T>) -> Option<T> {
    if over is Some {
        over
    } else {
        base
    }
}

/// The base settings with every setting the profile gives put in its place;
/// without a profile, the base settings unchanged.
pub open spec fn overlay(base: Settings, profile: Option<Profile>) -> Settings {
    match profile {
        None => base,
        Some(p) => Settings {
            surface: pick(base.surface, p.surface),
            num_geodesics: pick(base.num_geodesics, p.num_geodesics),
            trail_length: pick(base.trail_length, p.trail_length),
            rotation_speed: pick(base.rotation_speed, p.rotation_speed),
            color_palette: pick(base.color_palette, p.color_palette),
            torus_major: pick(base.torus_major, p.torus_major),
            torus_minor: pick(base.torus_minor, p.torus_minor),
            time_step: pick(base.time_step, p.time_step),
            camera_distance: pick(base.camera_distance, p.camera_distance),
            camera_elevation: pick(base.camera_elevation, p.camera_elevation),
            camera_fov: pick(base.camera_fov, p.camera_fov),
            camera_elevation_speed: pick(base.camera_elevation_speed, p.camera_elevation_speed),
            show_wireframe: pick(base.show_wireframe, p.show_wireframe),
            max_trail_verts: pick(base.max_trail_verts, p.max_trail_verts),
            trail_fade_power: pick(base.trail_fade_power, p.trail_fade_power),
            color_mode: pick(base.color_mode, p.color_mode),
            target_fps: pick(base.target_fps, p.target_fps),
            show_hud: pick(base.show_hud, p.show_hud),
            epilepsy_warning: pick(base.epilepsy_warning, p.epilepsy_warning),
            multi_monitor: pick(base.multi_monitor, p.multi_monitor),
            seed: pick_opt(base.seed, p.seed),
            background_color: pick(base.background_color, p.background_color),
            trail_mode: pick(base.trail_mode, p.trail_mode),
            color_cycle_speed: pick(base.color_cycle_speed, p.color_cycle_speed),
            gradient_stops: pick(base.gradient_stops, p.gradient_stops),
            gradient_mode: pick(base.gradient_mode, p.gradient_mode),
            preset_cycle_secs: pick_opt(base.preset_cycle_secs, p.preset_cycle_secs),
            presets_order: pick(base.presets_order, p.presets_order),
            catenoid_c: pick(base.catenoid_c, p.catenoid_c),
            helicoid_c: pick(base.helicoid_c, p.helicoid_c),
            hyperboloid_a: pick(base.hyperboloid_a, p.hyperboloid_a),
            hyperboloid_b: pick(base.hyperboloid_b, p.hyperboloid_b),
            light_dir: pick(base.light_dir, p.light_dir),
            color_cycle_enabled: pick(base.color_cycle_enabled, p.color_cycle_enabled),
        },
    }
}

fn take<T>(base: T, over: Option<T>) -> (r: T)
    ensures
        r == pick(base, over),
{
    match over {
        Some(v) => v,
        None => base,
    }
}

fn take_opt<T>(base: Option<T>, over: Option<T>) -> (r: Option<T>)
    ensures
        r == pick_opt(base, over),
{
    match over {
        Some(v) => Some(v),
        None => base,
    }
}

/// Applies the active profile, if there is one, to the base settings: each
/// setting the profile gives wins, every other setting keeps its base value.
pub fn resolve_profile(base: Settings, profile: Option<Profile>) -> (r: Settings)
    ensures
        r == overlay(base, profile),
{
    match profile {
        None => base,
        Some(p) => Settings {
            surface: take(base.surface, p.surface),
            num_geodesics: take(base.num_geodesics, p.num_geodesics),
            trail_length: take(base.trail_length, p.trail_length),
            rotation_speed: take(base.rotation_speed, p.rotation_speed),
            color_palette: take(base.color_palette, p.color_palette),
            torus_major: take(base.torus_major, p.torus_major),
            torus_minor: take(base.torus_minor, p.torus_minor),
            time_step: take(base.time_step, p.time_step),
            camera_distance: take(base.camera_distance, p.camera_distance),
            camera_elevation: take(base.camera_elevation, p.camera_elevation),
            camera_fov: take(base.camera_fov, p.camera_fov),
            camera_elevation_speed: take(base.camera_elevation_speed, p.camera_elevation_speed),
            show_wireframe: take(base.show_wireframe, p.show_wireframe),
            max_trail_verts: take(base.max_trail_verts, p.max_trail_verts),
            trail_fade_power: take(base.trail_fade_power, p.trail_fade_power),
            color_mode: take(base.color_mode, p.color_mode),
            target_fps: take(base.target_fps, p.target_fps),
            show_hud: take(base.show_hud, p.show_hud),
            epilepsy_warning: take(base.epilepsy_warning, p.epilepsy_warning),
            multi_monitor: take(base.multi_monitor, p.multi_monitor),
            seed: take_opt(base.seed, p.seed),
            background_color: take(base.background_color, p.background_color),
            trail_mode: take(base.trail_mode, p.trail_mode),
            color_cycle_speed: take(base.color_cycle_speed, p.color_cycle_speed),
            gradient_stops: take(base.gradient_stops, p.gradient_stops),
            gradient_mode: take(base.gradient_mode, p.gradient_mode),
            preset_cycle_secs: take_opt(base.preset_cycle_secs, p.preset_cycle_secs),
            presets_order: take(base.presets_order, p.presets_order),
            catenoid_c: take(base.catenoid_c, p.catenoid_c),
            helicoid_c: take(base.helicoid_c, p.helicoid_c),
            hyperboloid_a: take(base.hyperboloid_a, p.hyperboloid_a),
            hyperboloid_b: take(base.hyperboloid_b, p.hyperboloid_b),
            light_dir: take(base.light_dir, p.light_dir),
            color_cycle_enabled: take(base.color_cycle_enabled, p.color_cycle_enabled),
        },
    }
}

/// Without a profile, resolving gives back the base settings.
pub proof fn law_no_profile_keeps_base(base: Settings)
    ensures
        overlay(base, None) == base,
{
}

/// With a profile, every setting the profile gives is the resolved one, and
/// every setting it leaves out keeps the base's value.
pub proof fn law_profile_settings_win(base: Settings, p: Profile, r: Settings)
    requires
        r == overlay(base, Some(p)),
    ensures
        p.surface is Some ==> r.surface == p.surface->0,
        p.surface is None ==> r.surface == base.surface,
        p.num_geodesics is Some ==> r.num_geodesics == p.num_geodesics->0,
        p.num_geodesics is None ==> r.num_geodesics == base.num_geodesics,
        p.trail_length is Some ==> r.trail_length == p.trail_length->0,
        p.trail_length is None ==> r.trail_length == base.trail_length,
        p.rotation_speed is Some ==> r.rotation_speed == p.rotation_speed->0,
        p.rotation_speed is None ==> r.rotation_speed == base.rotation_speed,
        p.color_palette is Some ==> r.color_palette == p.color_palette->0,
        p.color_palette is None ==> r.color_palette == base.color_palette,
        p.torus_major is Some ==> r.torus_major == p.torus_major->0,
        p.torus_major is None ==> r.torus_major == base.torus_major,
        p.torus_minor is Some ==> r.torus_minor == p.torus_minor->0,
        p.torus_minor is None ==> r.torus_minor == base.torus_minor,
        p.time_step is Some ==> r.time_step == p.time_step->0,
        p.time_step is None ==> r.time_step == base.time_step,
        p.camera_distance is Some ==> r.camera_distance == p.camera_distance->0,
        p.camera_distance is None ==> r.camera_distance == base.camera_distance,
        p.camera_elevation is Some ==> r.camera_elevation == p.camera_elevation->0,
        p.camera_elevation is None ==> r.camera_elevation == base.camera_elevation,
        p.camera_fov is Some ==> r.camera_fov == p.camera_fov->0,
        p.camera_fov is None ==> r.camera_fov == base.camera_fov,
        p.camera_elevation_speed is Some ==> r.camera_elevation_speed == p.camera_elevation_speed->0,
        p.camera_elevation_speed is None ==> r.camera_elevation_speed == base.camera_elevation_speed,
        p.show_wireframe is Some ==> r.show_wireframe == p.show_wireframe->0,
        p.show_wireframe is None ==> r.show_wireframe == base.show_wireframe,
        p.max_trail_verts is Some ==> r.max_trail_verts == p.max_trail_verts->0,
        p.max_trail_verts is None ==> r.max_trail_verts == base.max_trail_verts,
        p.trail_fade_power is Some ==> r.trail_fade_power == p.trail_fade_power->0,
        p.trail_fade_power is None ==> r.trail_fade_power == base.trail_fade_power,
        p.color_mode is Some ==> r.color_mode == p.color_mode->0,
        p.color_mode is None ==> r.color_mode == base.color_mode,
        p.target_fps is Some ==> r.target_fps == p.target_fps->0,
        p.target_fps is None ==> r.target_fps == base.target_fps,
        p.show_hud is Some ==> r.show_hud == p.show_hud->0,
        p.show_hud is None ==> r.show_hud == base.show_hud,
        p.epilepsy_warning is Some ==> r.epilepsy_warning == p.epilepsy_warning->0,
        p.epilepsy_warning is None ==> r.epilepsy_warning == base.epilepsy_warning,
        p.multi_monitor is Some ==> r.multi_monitor == p.multi_monitor->0,
        p.multi_monitor is None ==> r.multi_monitor == base.multi_monitor,
        p.seed is Some ==> r.seed == p.seed,
        p.seed is None ==> r.seed == base.seed,
        p.background_color is Some ==> r.background_color == p.background_color->0,
        p.background_color is None ==> r.background_color == base.background_color,
        p.trail_mode is Some ==> r.trail_mode == p.trail_mode->0,
        p.trail_mode is None ==> r.trail_mode == base.trail_mode,
        p.color_cycle_speed is Some ==> r.color_cycle_speed == p.color_cycle_speed->0,
        p.color_cycle_speed is None ==> r.color_cycle_speed == base.color_cycle_speed,
        p.gradient_stops is Some ==> r.gradient_stops == p.gradient_stops->0,
        p.gradient_stops is None ==> r.gradient_stops == base.gradient_stops,
        p.gradient_mode is Some ==> r.gradient_mode == p.gradient_mode->0,
        p.gradient_mode is None ==> r.gradient_mode == base.gradient_mode,
        p.preset_cycle_secs is Some ==> r.preset_cycle_secs == p.preset_cycle_secs,
        p.preset_cycle_secs is None ==> r.preset_cycle_secs == base.preset_cycle_secs,
        p.presets_order is Some ==> r.presets_order == p.presets_order->0,
        p.presets_order is None ==> r.presets_order == base.presets_order,
        p.catenoid_c is Some ==> r.catenoid_c == p.catenoid_c->0,
        p.catenoid_c is None ==> r.catenoid_c == base.catenoid_c,
        p.helicoid_c is Some ==> r.helicoid_c == p.helicoid_c->0,
        p.helicoid_c is None ==> r.helicoid_c == base.helicoid_c,
        p.hyperboloid_a is Some ==> r.hyperboloid_a == p.hyperboloid_a->0,
        p.hyperboloid_a is None ==> r.hyperboloid_a == base.hyperboloid_a,
        p.hyperboloid_b is Some ==> r.hyperboloid_b == p.hyperboloid_b->0,
        p.hyperboloid_b is None ==> r.hyperboloid_b == base.hyperboloid_b,
        p.light_dir is Some ==> r.light_dir == p.light_dir->0,
        p.light_dir is None ==> r.light_dir == base.light_dir,
        p.color_cycle_enabled is Some ==> r.color_cycle_enabled == p.color_cycle_enabled->0,
        p.color_cycle_enabled is None ==> r.color_cycle_enabled == base.color_cycle_enabled,
{
}

/// Two sets of facts that differ at most in the surface name.
pub open spec fn same_but_surface(f: ConfigFacts, g: ConfigFacts) -> bool {
    &&& f.num_geodesics == g.num_geodesics
    &&& f.trail_length == g.trail_length
    &&& f.torus_major == g.torus_major
    &&& f.torus_minor == g.torus_minor
    &&& f.torus_self_intersects == g.torus_self_intersects
    &&& f.time_step == g.time_step
    &&& f.palette_len == g.palette_len
    &&& f.max_trail_verts == g.max_trail_verts
    &&& f.target_fps == g.target_fps
    &&& f.trail_fade_power == g.trail_fade_power
    &&& f.color_mode == g.color_mode
}

/// Each of the seven documented surfaces — torus, sphere, saddle, enneper,
/// catenoid, helicoid and hyperboloid — is accepted alike: swapping one for
/// another changes no warning. Any other name adds exactly one warning, which
/// names it and comes last.
pub proof fn law_documented_surfaces_accepted(f: ConfigFacts, g: ConfigFacts)
    requires
        same_but_surface(f, g),
        f.surface@ == "torus"@ || f.surface@ == "sphere"@ || f.surface@ == "saddle"@ || f.surface@ == "enneper"@
            || f.surface@ == "catenoid"@ || f.surface@ == "helicoid"@ || f.surface@ == "hyperboloid"@,
    ensures
        g.surface@ == "torus"@ || g.surface@ == "sphere"@ || g.surface@ == "saddle"@ || g.surface@ == "enneper"@
            || g.surface@ == "catenoid"@ || g.surface@ == "helicoid"@ || g.surface@ == "hyperboloid"@
            ==> config_warnings(g) == config_warnings(f),
        !(g.surface@ == "torus"@ || g.surface@ == "sphere"@ || g.surface@ == "saddle"@ || g.surface@ == "enneper"@
            || g.surface@ == "catenoid"@ || g.surface@ == "helicoid"@ || g.surface@ == "hyperboloid"@)
            ==> config_warnings(g) == config_warnings(f).push(
            "surface '"@ + g.surface@
                + "' is unrecognised — known values: torus, sphere, saddle, enneper, catenoid, helicoid, hyperboloid; defaulting to 'torus'"@,
        ),
{
    assert(count_warnings(f) == count_warnings(g));
    assert(shape_warnings(f) == shape_warnings(g));
    assert(display_warnings(f) == display_warnings(g));
    let head = count_warnings(f) + shape_warnings(f) + display_warnings(f);
    let mode = warn_if(
        !known_color_mode(f.color_mode@),
        "color_mode '"@ + f.color_mode@ + "' is unrecognised — use 'cycle' or 'random'; defaulting to 'cycle'"@,
    );
    assert(known_surface(f.surface@));
    assert(name_warnings(f) =~= mode);
    assert(config_warnings(f) =~= head + mode);
    if known_surface(g.surface@) {
        assert(name_warnings(g) =~= mode);
    } else {
        assert(config_warnings(g) =~= (head + mode).push(
            "surface '"@ + g.surface@
                + "' is unrecognised — known values: torus, sphere, saddle, enneper, catenoid, helicoid, hyperboloid; defaulting to 'torus'"@,
        ));
    }
}

/// One when `c` holds, else zero.
pub open spec fn count_if(c: bool) -> int {
    if c {
        1
    } else {
        0
    }
}

proof fn lemma_count_warnings_len(f: ConfigFacts)
    ensures
        count_warnings(f).len() == count_if(f.num_geodesics == 0) + count_if(f.trail_length == 0),
{
}

proof fn lemma_shape_warnings_len(f: ConfigFacts)
    ensures
        shape_warnings(f).len() == count_if(f.torus_major.at_most_zero) + count_if(f.torus_minor.at_most_zero)
            + count_if(f.torus_self_intersects) + count_if(f.time_step.at_most_zero),
{
}

proof fn lemma_display_warnings_len(f: ConfigFacts)
    ensures
        display_warnings(f).len() == count_if(f.palette_len == 0) + count_if(f.max_trail_verts < 100) + count_if(
            f.target_fps == 0,
        ) + count_if(f.trail_fade_power.at_most_zero),
{
}

proof fn lemma_name_warnings_len(f: ConfigFacts)
    ensures
        name_warnings(f).len() == count_if(!known_color_mode(f.color_mode@)) + count_if(!known_surface(f.surface@)),
{
}

/// Validation gives exactly one warning per problem: no geodesics, no trail,
/// a torus radius or time step at most zero, a self-intersecting torus, an
/// empty palette, fewer than 100 trail vertices, a zero frame rate, a fade
/// power at most zero, a colour mode other than `cycle` or `random`, and a
/// surface other than the seven documented ones. Settings with none of these
/// problems give no warning.
pub proof fn law_one_warning_per_problem(f: ConfigFacts)
    ensures
        config_warnings(f).len() == count_if(f.num_geodesics == 0) + count_if(f.trail_length == 0) + count_if(
            f.torus_major.at_most_zero,
        ) + count_if(f.torus_minor.at_most_zero) + count_if(f.torus_self_intersects) + count_if(
            f.time_step.at_most_zero,
        ) + count_if(f.palette_len == 0) + count_if(f.max_trail_verts < 100) + count_if(f.target_fps == 0)
            + count_if(f.trail_fade_power.at_most_zero) + count_if(
            !(f.color_mode@ == "cycle"@ || f.color_mode@ == "random"@),
        ) + count_if(
            !(f.surface@ == "torus"@ || f.surface@ == "sphere"@ || f.surface@ == "saddle"@ || f.surface@
                == "enneper"@ || f.surface@ == "catenoid"@ || f.surface@ == "helicoid"@ || f.surface@
                == "hyperboloid"@),
        ),
{
    lemma_count_warnings_len(f);
    lemma_shape_warnings_len(f);
    lemma_display_warnings_len(f);
    lemma_name_warnings_len(f);
}

/// The byte of hex digit `d` in lower case (`0`-`9`, `a`-`f`).
pub open spec fn lower_hex_byte(d: int) -> u8 {
    if d < 10 {
        (48 + d) as u8
    } else {
        (87 + d) as u8
    }
}

/// The byte of hex digit `d` in upper case (`0`-`9`, `A`-`F`).
pub open spec fn upper_hex_byte(d: int) -> u8 {
    if d < 10 {
        (48 + d) as u8
    } else {
        (55 + d) as u8
    }
}

/// A channel written as two hex digits, in either case, reads as the byte
/// they spell: sixteen times the first digit plus the second.
pub proof fn law_hex_pair_value(hi: int, lo: int)
    requires
        0 <= hi < 16,
        0 <= lo < 16,
    ensures
        field_value(lower_hex_byte(hi), lower_hex_byte(lo)) == 16 * hi + lo,
        field_value(upper_hex_byte(hi), upper_hex_byte(lo)) == 16 * hi + lo,
        field_value(upper_hex_byte(hi), lower_hex_byte(lo)) == 16 * hi + lo,
{
}

} // verus!
