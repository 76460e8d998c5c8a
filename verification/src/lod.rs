//! Level-of-detail control of the number of geodesics.
//!
//! Each frame the measured frame time is judged slow, fast or steady against
//! the thresholds (floating-point work done by the caller); the controller
//! then lowers or raises the geodesic count within its floor and ceiling,
//! and waits a number of frames before changing it again.
use vstd::prelude::*;

verus! {

/// The largest step by which the count is lowered at once.
pub const MAX_REDUCE_STEP: usize = 20;

/// The largest step by which the count is raised at once.
pub const MAX_INCREASE_STEP: usize = 10;

/// The action taken by the controller on a given frame.
#[derive(PartialEq, Eq, Structural, Clone, Copy, Debug)]
pub enum LodAction {
    /// No change this frame.
    Unchanged,
    /// Geodesic count was increased.
    Increased { from: usize, to: usize },
    /// Geodesic count was decreased.
    Decreased { from: usize, to: usize },
}

/// How this frame's smoothed frame time compares with the thresholds.
#[derive(PartialEq, Eq, Structural, Clone, Copy, Debug)]
pub enum LodPressure {
    /// Between the thresholds.
    Steady,
    /// Above the reduce threshold; `extra_step` is how far above the target
    /// frame time, in units of 4 ms.
    Slow { extra_step: usize },
    /// Below the increase threshold; `extra_step` is the headroom below it,
    /// in units of 2 ms.
    Fast { extra_step: usize },
}

/// The controller's state as plain numbers.
pub struct LodView {
    pub geodesic_count: int,
    pub min_geodesics: int,
    pub max_geodesics: int,
    pub cooldown_frames: int,
    pub base_step: int,
    pub cooldown_remaining: int,
    pub frame_count: int,
    pub times_increased: int,
    pub times_decreased: int,
}

/// The smaller of two integers.
pub open spec fn min_int(a: int, b: int) -> int {
    if a <= b {
        a
    } else {
        b
    }
}

/// The larger of two integers.
pub open spec fn max_int(a: int, b: int) -> int {
    if a >= b {
        a
    } else {
        b
    }
}

/// `v` brought into `[lo, hi]`.
pub open spec fn clamp_int(v: int, lo: int, hi: int) -> int {
    max_int(lo, min_int(v, hi))
}

/// The count after lowering `count` by `step`, never below zero or the floor.
pub open spec fn lowered(count: int, floor: int, step: int) -> int {
    max_int(max_int(count - step, 0), floor)
}

/// The count after raising `count` by `step`, never above the ceiling.
pub open spec fn raised(count: int, ceiling: int, step: int) -> int {
    min_int(count + step, ceiling)
}

/// The next state and the action of one frame under `p`.
pub open spec fn lod_update(s: LodView, p: LodPressure) -> (LodView, LodAction) {
    let s1 = LodView { frame_count: s.frame_count + 1, ..s };
    if s1.cooldown_remaining > 0 {
        (LodView { cooldown_remaining: s1.cooldown_remaining - 1, ..s1 }, LodAction::Unchanged)
    } else {
        match p {
            LodPressure::Steady => (s1, LodAction::Unchanged),
            LodPressure::Slow { extra_step } => {
                let step = min_int(s.base_step + extra_step, MAX_REDUCE_STEP as int);
                let to = lowered(s.geodesic_count, s.min_geodesics, step);
                if to < s.geodesic_count {
                    (
                        LodView {
                            geodesic_count: to,
                            cooldown_remaining: s.cooldown_frames,
                            times_decreased: s.times_decreased + 1,
                            ..s1
                        },
                        LodAction::Decreased { from: s.geodesic_count as usize, to: to as usize },
                    )
                } else {
                    (s1, LodAction::Unchanged)
                }
            },
            LodPressure::Fast { extra_step } => {
                let step = min_int(s.base_step + extra_step, MAX_INCREASE_STEP as int);
                let to = raised(s.geodesic_count, s.max_geodesics, step);
                if to > s.geodesic_count {
                    (
                        LodView {
                            geodesic_count: to,
                            cooldown_remaining: s.cooldown_frames,
                            times_increased: s.times_increased + 1,
                            ..s1
                        },
                        LodAction::Increased { from: s.geodesic_count as usize, to: to as usize },
                    )
                } else {
                    (s1, LodAction::Unchanged)
                }
            },
        }
    }
}

/// The counts one frame under `p` would need to hold without overflow:
/// the frame tally, the step, the raised count and the tally of changes.
pub open spec fn lod_update_fits(s: LodView, p: LodPressure) -> bool {
    &&& s.frame_count + 1 <= u64::MAX
    &&& s.cooldown_remaining == 0 ==> match p {
        LodPressure::Steady => true,
        LodPressure::Slow { extra_step } => {
            &&& s.base_step + extra_step <= usize::MAX
            &&& lowered(
                s.geodesic_count,
                s.min_geodesics,
                min_int(s.base_step + extra_step, MAX_REDUCE_STEP as int),
            ) < s.geodesic_count ==> s.times_decreased + 1 <= u32::MAX
        },
        LodPressure::Fast { extra_step } => {
            &&& s.base_step + extra_step <= usize::MAX
            &&& s.geodesic_count + min_int(s.base_step + extra_step, MAX_INCREASE_STEP as int) <= usize::MAX
            &&& raised(
                s.geodesic_count,
                s.max_geodesics,
                min_int(s.base_step + extra_step, MAX_INCREASE_STEP as int),
            ) > s.geodesic_count ==> s.times_increased + 1 <= u32::MAX
        },
    }
}

/// The integer side of the level-of-detail controller: the recommended
/// geodesic count between its floor and ceiling, the frames left before it
/// may change again, and tallies of frames and changes.
pub struct LodCounter {
    geodesic_count: usize,
    min_geodesics: usize,
    max_geodesics: usize,
    cooldown_frames: u32,
    base_step: usize,
    cooldown_remaining: u32,
    frame_count: u64,
    times_increased: u32,
    times_decreased: u32,
}

impl View for LodCounter {
    type V = LodView;

    closed spec fn view(&self) -> LodView {
        LodView {
            geodesic_count: self.geodesic_count as int,
            min_geodesics: self.min_geodesics as int,
            max_geodesics: self.max_geodesics as int,
            cooldown_frames: self.cooldown_frames as int,
            base_step: self.base_step as int,
            cooldown_remaining: self.cooldown_remaining as int,
            frame_count: self.frame_count as int,
            times_increased: self.times_increased as int,
            times_decreased: self.times_decreased as int,
        }
    }
}

/// A state whose count lies between its floor and its ceiling.
pub open spec fn lod_in_bounds(s: LodView) -> bool {
    s.min_geodesics <= s.geodesic_count <= s.max_geodesics
}

impl LodCounter {
    #[verifier::type_invariant]
    spec fn bounded(self) -> bool {
        self.min_geodesics <= self.geodesic_count <= self.max_geodesics
    }

    /// A controller whose count is `initial_geodesics` brought within
    /// `[min_geodesics, max_geodesics]`, waiting `cooldown_frames` frames
    /// before its first change.
    pub fn new(
        initial_geodesics: usize,
        min_geodesics: usize,
        max_geodesics: usize,
        cooldown_frames: u32,
        base_step: usize,
    ) -> (c: Self)
        requires
            min_geodesics <= max_geodesics,
        ensures
            c@ == (LodView {
                geodesic_count: clamp_int(initial_geodesics as int, min_geodesics as int, max_geodesics as int),
                min_geodesics: min_geodesics as int,
                max_geodesics: max_geodesics as int,
                cooldown_frames: cooldown_frames as int,
                base_step: base_step as int,
                cooldown_remaining: cooldown_frames as int,
                frame_count: 0,
                times_increased: 0,
                times_decreased: 0,
            }),
    {
        let count = if initial_geodesics < min_geodesics {
            min_geodesics
        } else if initial_geodesics > max_geodesics {
            max_geodesics
        } else {
            initial_geodesics
        };
        LodCounter {
            geodesic_count: count,
            min_geodesics,
            max_geodesics,
            cooldown_frames,
            base_step,
            cooldown_remaining: cooldown_frames,
            frame_count: 0,
            times_increased: 0,
            times_decreased: 0,
        }
    }

    /// Takes one frame under `pressure` and returns the action taken: while
    /// cooling down nothing changes; a slow frame lowers the count by the base
    /// step plus `extra_step` (at most 20) down to the floor, a fast one
    /// raises it by the base step plus `extra_step` (at most 10) up to the
    /// ceiling, and a change starts a new cooldown.
    pub fn update(&mut self, pressure: LodPressure) -> (action: LodAction)
        requires
            lod_update_fits(old(self)@, pressure),
        ensures
            (final(self)@, action) == lod_update(old(self)@, pressure),
    {
        proof {
            use_type_invariant(&*self);
        }
        self.frame_count = self.frame_count + 1;
        if self.cooldown_remaining > 0 {
            self.cooldown_remaining = self.cooldown_remaining - 1;
            return LodAction::Unchanged;
        }
        let old_count = self.geodesic_count;
        match pressure {
            LodPressure::Steady => LodAction::Unchanged,
            LodPressure::Slow { extra_step } => {
                let wanted = self.base_step + extra_step;
                let step = if wanted < MAX_REDUCE_STEP { wanted } else { MAX_REDUCE_STEP };
                let down = if old_count >= step { old_count - step } else { 0 };
                let new_count = if down > self.min_geodesics { down } else { self.min_geodesics };
                if new_count < old_count {
                    self.geodesic_count = new_count;
                    self.cooldown_remaining = self.cooldown_frames;
                    self.times_decreased = self.times_decreased + 1;
                    LodAction::Decreased { from: old_count, to: new_count }
                } else {
                    LodAction::Unchanged
                }
            },
            LodPressure::Fast { extra_step } => {
                let wanted = self.base_step + extra_step;
                let step = if wanted < MAX_INCREASE_STEP { wanted } else { MAX_INCREASE_STEP };
                let up = old_count + step;
                let new_count = if up < self.max_geodesics { up } else { self.max_geodesics };
                if new_count > old_count {
                    self.geodesic_count = new_count;
                    self.cooldown_remaining = self.cooldown_frames;
                    self.times_increased = self.times_increased + 1;
                    LodAction::Increased { from: old_count, to: new_count }
                } else {
                    LodAction::Unchanged
                }
            },
        }
    }

    /// Whether one frame under `pressure` keeps every count within its type,
    /// so that `update` may be called with it.
    pub fn update_fits(&self, pressure: LodPressure) -> (ok: bool)
        ensures
            ok == lod_update_fits(self@, pressure),
    {
        proof {
            use_type_invariant(self);
        }
        if self.frame_count == u64::MAX {
            return false;
        }
        if self.cooldown_remaining > 0 {
            return true;
        }
        let old_count = self.geodesic_count;
        match pressure {
            LodPressure::Steady => true,
            LodPressure::Slow { extra_step } => {
                if extra_step > usize::MAX - self.base_step {
                    return false;
                }
                let wanted = self.base_step + extra_step;
                let step = if wanted < MAX_REDUCE_STEP { wanted } else { MAX_REDUCE_STEP };
                let down = if old_count >= step { old_count - step } else { 0 };
                let new_count = if down > self.min_geodesics { down } else { self.min_geodesics };
                new_count >= old_count || self.times_decreased < u32::MAX
            },
            LodPressure::Fast { extra_step } => {
                if extra_step > usize::MAX - self.base_step {
                    return false;
                }
                let wanted = self.base_step + extra_step;
                let step = if wanted < MAX_INCREASE_STEP { wanted } else { MAX_INCREASE_STEP };
                if old_count > usize::MAX - step {
                    return false;
                }
                let up = old_count + step;
                let new_count = if up < self.max_geodesics { up } else { self.max_geodesics };
                new_count <= old_count || self.times_increased < u32::MAX
            },
        }
    }

    /// The frames left before the count may change again.
    pub fn cooldown_remaining(&self) -> (n: u32)
        ensures
            n == self@.cooldown_remaining,
    {
        self.cooldown_remaining
    }

    /// Sets the count to `count` brought within the floor and ceiling, and
    /// starts a new cooldown.
    pub fn force_set(&mut self, count: usize)
        ensures
            final(self)@ == (LodView {
                geodesic_count: clamp_int(count as int, old(self)@.min_geodesics, old(self)@.max_geodesics),
                cooldown_remaining: old(self)@.cooldown_frames,
                ..old(self)@
            }),
    {
        proof {
            use_type_invariant(&*self);
        }
        let c = if count < self.min_geodesics {
            self.min_geodesics
        } else if count > self.max_geodesics {
            self.max_geodesics
        } else {
            count
        };
        self.geodesic_count = c;
        self.cooldown_remaining = self.cooldown_frames;
    }

    /// The recommended geodesic count.
    pub fn geodesic_count(&self) -> (n: usize)
        ensures
            n == self@.geodesic_count,
            self@.min_geodesics <= n <= self@.max_geodesics,
    {
        proof {
            use_type_invariant(self);
        }
        self.geodesic_count
    }

    /// The floor of the count.
    pub fn min_geodesics(&self) -> (n: usize)
        ensures
            n == self@.min_geodesics,
    {
        self.min_geodesics
    }

    /// The ceiling of the count.
    pub fn max_geodesics(&self) -> (n: usize)
        ensures
            n == self@.max_geodesics,
    {
        self.max_geodesics
    }

    /// The number of frames processed so far.
    pub fn frame_count(&self) -> (n: u64)
        ensures
            n == self@.frame_count,
    {
        self.frame_count
    }

    /// The number of times the count was raised.
    pub fn times_increased(&self) -> (n: u32)
        ensures
            n == self@.times_increased,
    {
        self.times_increased
    }

    /// The number of times the count was lowered.
    pub fn times_decreased(&self) -> (n: u32)
        ensures
            n == self@.times_decreased,
    {
        self.times_decreased
    }
}

/// Whatever the frames bring, the count stays between the floor and the
/// ceiling, and it moves only in the direction the action reports.
pub proof fn law_update_stays_in_bounds(s: LodView, p: LodPressure)
    requires
        lod_in_bounds(s),
        0 <= s.min_geodesics,
        s.max_geodesics <= usize::MAX,
    ensures
        lod_in_bounds(lod_update(s, p).0),
        match lod_update(s, p).1 {
            LodAction::Unchanged => lod_update(s, p).0.geodesic_count == s.geodesic_count,
            LodAction::Increased { from, to } => from == s.geodesic_count && to == lod_update(s, p).0.geodesic_count
                && to > from,
            LodAction::Decreased { from, to } => from == s.geodesic_count && to == lod_update(s, p).0.geodesic_count
                && to < from,
        },
{
}

/// A change is followed by a full cooldown: for that many frames no other
/// change can happen.
pub proof fn law_change_starts_cooldown(s: LodView, p: LodPressure)
    requires
        lod_update(s, p).1 != LodAction::Unchanged,
    ensures
        lod_update(s, p).0.cooldown_remaining == s.cooldown_frames,
{
}

} // verus!
