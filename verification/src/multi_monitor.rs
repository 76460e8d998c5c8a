//! Which surface and colour scheme each monitor shows.
//!
//! Monitors are numbered from zero; monitor `i` gets the `i`-th surface of
//! the built-in list and the `i`-th colour scheme, each list taken in turn.
use vstd::prelude::*;

verus! {

/// The number of built-in surfaces that monitors are given in turn.
pub const SURFACE_COUNT: usize = 12;

/// The number of colour schemes that monitors are given in turn.
pub const SCHEME_COUNT: usize = 8;

/// The number of geodesics a monitor shows by default.
pub const DEFAULT_GEODESIC_COUNT: usize = 30;

/// The built-in surfaces, in the order monitors are given them.
pub open spec fn surface_cycle() -> Seq<Seq<char>> {
    seq![
        "torus"@,
        "sphere"@,
        "saddle"@,
        "hyperboloid"@,
        "klein_bottle"@,
        "catenoid"@,
        "helicoid"@,
        "ellipsoid"@,
        "enneper"@,
        "boy_surface"@,
        "hyperbolic_paraboloid"@,
        "torus_knot"@,
    ]
}

/// The colour schemes, in the order monitors are given them.
pub open spec fn scheme_cycle() -> Seq<Seq<char>> {
    seq!["cosmic"@, "ocean"@, "ember"@, "forest"@, "aurora"@, "neon"@, "dusk"@, "ice"@]
}

/// The surface monitor `i` gets by default.
pub open spec fn default_surface(i: int) -> Seq<char> {
    surface_cycle()[i % (SURFACE_COUNT as int)]
}

/// The colour scheme monitor `i` gets by default.
pub open spec fn default_scheme(i: int) -> Seq<char> {
    scheme_cycle()[i % (SCHEME_COUNT as int)]
}

/// What one monitor shows: its surface, colour scheme and number of geodesics.
pub struct MonitorAssignment {
    /// Zero-based index of the physical monitor.
    pub monitor_index: usize,
    /// Surface type shown on this monitor.
    pub surface: String,
    /// Named colour scheme for this monitor.
    pub color_scheme: String,
    /// Number of simultaneous geodesic curves on this monitor.
    pub geodesic_count: usize,
}

impl MonitorAssignment {
    /// The assignment a monitor holds when it is the `monitor_index`-th default.
    pub open spec fn is_default_for(&self, monitor_index: int) -> bool {
        &&& self.monitor_index == monitor_index
        &&& self.surface@ == default_surface(monitor_index)
        &&& self.color_scheme@ == default_scheme(monitor_index)
        &&& self.geodesic_count == DEFAULT_GEODESIC_COUNT
    }

    /// The default assignment of the monitor at `monitor_index`.
    pub fn default_for_index(monitor_index: usize) -> (a: Self)
        ensures
            a.is_default_for(monitor_index as int),
    {
        MonitorAssignment {
            monitor_index,
            surface: surface_name(monitor_index % SURFACE_COUNT),
            color_scheme: scheme_name(monitor_index % SCHEME_COUNT),
            geodesic_count: DEFAULT_GEODESIC_COUNT,
        }
    }
}

fn surface_name(k: usize) -> (s: String)
    requires
        k < SURFACE_COUNT,
    ensures
        s@ == surface_cycle()[k as int],
{
    let name = match k {
        0 => "torus",
        1 => "sphere",
        2 => "saddle",
        3 => "hyperboloid",
        4 => "klein_bottle",
        5 => "catenoid",
        6 => "helicoid",
        7 => "ellipsoid",
        8 => "enneper",
        9 => "boy_surface",
        10 => "hyperbolic_paraboloid",
        _ => "torus_knot",
    };
    String::from_str(name)
}

fn scheme_name(k: usize) -> (s: String)
    requires
        k < SCHEME_COUNT,
    ensures
        s@ == scheme_cycle()[k as int],
{
    let name = match k {
        0 => "cosmic",
        1 => "ocean",
        2 => "ember",
        3 => "forest",
        4 => "aurora",
        5 => "neon",
        6 => "dusk",
        _ => "ice",
    };
    String::from_str(name)
}

/// One default assignment per monitor, monitor `i` at position `i`; at least
/// one monitor is assumed, so a count of zero gives one assignment.
pub fn assign_surfaces(monitor_count: usize) -> (v: Vec<MonitorAssignment>)
    ensures
        v.len() == if monitor_count == 0 { 1 } else { monitor_count },
        forall|i: int| 0 <= i < v.len() ==> (#[trigger] v@[i]).is_default_for(i),
{
    let count = if monitor_count == 0 { 1 } else { monitor_count };
    let mut v: Vec<MonitorAssignment> = Vec::new();
    let mut i: usize = 0;
    while i < count
        invariant
            i <= count,
            v.len() == i,
            forall|j: int| 0 <= j < i ==> (#[trigger] v@[j]).is_default_for(j),
        decreases count - i,
    {
        v.push(MonitorAssignment::default_for_index(i));
        i = i + 1;
    }
    v
}

/// Up to as many monitors as there are built-in surfaces, no two monitors
/// are given the same surface.
pub proof fn law_default_surfaces_distinct(i: int, j: int)
    requires
        0 <= i < SURFACE_COUNT,
        0 <= j < SURFACE_COUNT,
        i != j,
    ensures
        default_surface(i) != default_surface(j),
{
    reveal_strlit("torus");
    reveal_strlit("sphere");
    reveal_strlit("saddle");
    reveal_strlit("hyperboloid");
    reveal_strlit("klein_bottle");
    reveal_strlit("catenoid");
    reveal_strlit("helicoid");
    reveal_strlit("ellipsoid");
    reveal_strlit("enneper");
    reveal_strlit("boy_surface");
    reveal_strlit("hyperbolic_paraboloid");
    reveal_strlit("torus_knot");
    let s = surface_cycle();
    assert(s[i].len() != s[j].len() || s[i][0] != s[j][0] || s[i][1] != s[j][1] || s[i][5] != s[j][5]);
}

/// The surfaces repeat with the length of the built-in list: monitor `i` and
/// monitor `i + 12` show the same surface.
pub proof fn law_default_surfaces_cycle(i: int)
    requires
        0 <= i,
    ensures
        default_surface(i) == default_surface(i + SURFACE_COUNT),
{
    assert((i + 12) % 12 == i % 12);
}

} // verus!
