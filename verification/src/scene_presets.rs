//! Sequential navigation through a library of scene presets.
//!
//! The presets themselves hold floating-point colours and speeds; what the
//! navigation reads of them is how many there are and which one is current.
use vstd::prelude::*;

verus! {

/// The position after `pos` among `count` presets, wrapping to the first
/// after the last.
pub open spec fn next_position(count: nat, pos: nat) -> nat {
    (((pos + 1) as int) % (count as int)) as nat
}

/// The position before `pos` among `count` presets, wrapping to the last
/// before the first.
pub open spec fn prev_position(count: nat, pos: nat) -> nat {
    if pos == 0 {
        (count - 1) as nat
    } else {
        (pos - 1) as nat
    }
}

/// The position reached from `pos` after `k` steps forward.
pub open spec fn advance(count: nat, pos: nat, k: nat) -> nat
    decreases k,
{
    if k == 0 {
        pos
    } else {
        next_position(count, advance(count, pos, (k - 1) as nat))
    }
}

/// Which of a library's presets is selected.
pub struct PresetCursor {
    count: usize,
    current_idx: usize,
}

impl PresetCursor {
    #[verifier::type_invariant]
    spec fn well_placed(self) -> bool {
        if self.count == 0 {
            self.current_idx == 0
        } else {
            self.current_idx < self.count
        }
    }

    /// How many presets the library holds.
    pub closed spec fn len(self) -> nat {
        self.count as nat
    }

    /// The position of the selected preset.
    pub closed spec fn position(self) -> nat {
        self.current_idx as nat
    }

    /// A cursor over `count` presets, on the first.
    pub fn new(count: usize) -> (c: Self)
        ensures
            c.len() == count,
            c.position() == 0,
    {
        PresetCursor { count, current_idx: 0 }
    }

    /// Moves to the next preset, wrapping to the first after the last, and
    /// returns its position.
    pub fn next(&mut self) -> (pos: usize)
        requires
            old(self).len() > 0,
        ensures
            final(self).len() == old(self).len(),
            final(self).position() == next_position(old(self).len(), old(self).position()),
            pos == final(self).position(),
    {
        proof {
            use_type_invariant(&*self);
        }
        self.current_idx = (self.current_idx + 1) % self.count;
        self.current_idx
    }

    /// Moves to the previous preset, wrapping to the last before the first,
    /// and returns its position.
    pub fn prev(&mut self) -> (pos: usize)
        requires
            old(self).len() > 0,
        ensures
            final(self).len() == old(self).len(),
            final(self).position() == prev_position(old(self).len(), old(self).position()),
            pos == final(self).position(),
    {
        proof {
            use_type_invariant(&*self);
        }
        if self.current_idx == 0 {
            self.current_idx = self.count - 1;
        } else {
            self.current_idx = self.current_idx - 1;
        }
        self.current_idx
    }

    /// The position of the selected preset.
    pub fn current(&self) -> (pos: usize)
        ensures
            pos == self.position(),
            self.len() > 0 ==> pos < self.len(),
            self.len() == 0 ==> pos == 0,
    {
        proof {
            use_type_invariant(self);
        }
        self.current_idx
    }

    /// How many presets the library holds.
    pub fn count(&self) -> (n: usize)
        ensures
            n == self.len(),
    {
        self.count
    }
}

/// Stepping forward and then back returns to the same preset.
pub proof fn law_next_then_prev(count: nat, pos: nat)
    requires
        pos < count,
    ensures
        prev_position(count, next_position(count, pos)) == pos,
{
    if pos + 1 == count {
        assert(((pos + 1) as int) % (count as int) == 0) by {
            vstd::arithmetic::div_mod::lemma_mod_self_0(count as int);
        }
    } else {
        assert(((pos + 1) as int) % (count as int) == pos + 1) by {
            vstd::arithmetic::div_mod::lemma_small_mod((pos + 1) as nat, count);
        }
    }
}

/// Stepping back and then forward returns to the same preset.
pub proof fn law_prev_then_next(count: nat, pos: nat)
    requires
        pos < count,
    ensures
        next_position(count, prev_position(count, pos)) == pos,
{
    if pos == 0 {
        vstd::arithmetic::div_mod::lemma_mod_self_0(count as int);
    } else {
        vstd::arithmetic::div_mod::lemma_small_mod(pos, count);
    }
}

/// Stepping forward `k` times from `pos` lands on `(pos + k) mod count`.
pub proof fn lemma_advance(count: nat, pos: nat, k: nat)
    requires
        pos < count,
    ensures
        advance(count, pos, k) == ((pos + k) as int) % (count as int),
    decreases k,
{
    if k == 0 {
        vstd::arithmetic::div_mod::lemma_small_mod(pos, count);
    } else {
        lemma_advance(count, pos, (k - 1) as nat);
        let a = (pos + k - 1) as int;
        vstd::arithmetic::div_mod::lemma_add_mod_noop(a, 1, count as int);
        if count == 1 {
            vstd::arithmetic::div_mod::lemma_mod_self_0(1);
        } else {
            vstd::arithmetic::div_mod::lemma_small_mod(1, count);
        }
    }
}

/// Stepping forward once per preset goes all the way round, back to the
/// preset it started from.
pub proof fn law_full_cycle(count: nat, pos: nat)
    requires
        pos < count,
    ensures
        advance(count, pos, count) == pos,
{
    lemma_advance(count, pos, count);
    vstd::arithmetic::div_mod::lemma_add_mod_noop(pos as int, count as int, count as int);
    vstd::arithmetic::div_mod::lemma_mod_self_0(count as int);
    vstd::arithmetic::div_mod::lemma_small_mod(pos, count);
}

} // verus!
