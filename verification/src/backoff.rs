//! Adaptive waiting: spin, then yield, then give up.

use vstd::prelude::*;
use vstd::arithmetic::power2::{lemma2_to64, pow2};

verus! {

/// The last step that spins: the spin count stops doubling at `2^SPIN_LIMIT`.
pub const SPIN_LIMIT: u32 = 6;

/// The last step that yields; past it the patience is exhausted.
pub const YIELD_LIMIT: u32 = 10;

/// Where a waiter stands in its wait: it spins for the first steps, with a spin
/// count that doubles, then asks to yield, then reports that it has waited enough.
#[derive(Debug)]
pub struct Backoff {
    step: u32,
}

/// Tells the processor that the caller is in a busy-wait loop, by a call of
/// `std::hint::spin_loop`. The call has no result and changes nothing that the
/// program can read, so nothing is claimed of it.
#[verifier::external_body]
fn pause() {
    std::hint::spin_loop()
}

impl Backoff {
    /// The number of steps taken so far, which stops growing past `YIELD_LIMIT + 1`.
    pub closed spec fn step_spec(&self) -> nat {
        self.step as nat
    }

    /// The number of pause hints a spin issues at step `step`: 1, 2, 4, .. up to
    /// `2^SPIN_LIMIT`.
    pub open spec fn spins_at(step: nat) -> nat {
        if step <= SPIN_LIMIT {
            pow2(step)
        } else {
            pow2(SPIN_LIMIT as nat)
        }
    }

    /// The step after a spin at `step`.
    pub open spec fn after_spin(step: nat) -> nat {
        if step <= SPIN_LIMIT {
            step + 1
        } else {
            step
        }
    }

    /// The step after a snooze at `step`.
    pub open spec fn after_snooze(step: nat) -> nat {
        if step <= YIELD_LIMIT {
            step + 1
        } else {
            step
        }
    }

    /// A waiter at step zero.
    pub fn new() -> (backoff: Self)
        ensures
            backoff.step_spec() == 0,
    {
        Backoff { step: 0 }
    }

    /// The number of steps taken so far.
    pub fn step(&self) -> (step: u32)
        ensures
            step == self.step_spec(),
    {
        self.step
    }

    /// The number of pause hints that the next spin issues.
    pub fn spin_count(&self) -> (count: u32)
        ensures
            count == Self::spins_at(self.step_spec()),
            1 <= count <= 64,
    {
        proof {
            lemma2_to64();
        }
        let capped: u32 = if self.step <= SPIN_LIMIT {
            self.step
        } else {
            SPIN_LIMIT
        };
        assert(1u32 << capped == pow2(capped as nat)) by {
            assert(1u32 << 0u32 == 1) by (bit_vector);
            assert(1u32 << 1u32 == 2) by (bit_vector);
            assert(1u32 << 2u32 == 4) by (bit_vector);
            assert(1u32 << 3u32 == 8) by (bit_vector);
            assert(1u32 << 4u32 == 16) by (bit_vector);
            assert(1u32 << 5u32 == 32) by (bit_vector);
            assert(1u32 << 6u32 == 64) by (bit_vector);
        }
        1u32 << capped
    }

    /// Spins: issues `spins_at(step)` pause hints, then moves one step on unless
    /// the spinning steps are used up.
    pub fn spin(&mut self)
        ensures
            final(self).step_spec() == Self::after_spin(old(self).step_spec()),
    {
        let spins: u32 = self.spin_count();
        let mut issued: u32 = 0;
        while issued < spins
            invariant
                issued <= spins,
            decreases spins - issued,
        {
            pause();
            issued = issued + 1;
        }
        if self.step <= SPIN_LIMIT {
            self.step = self.step + 1;
        }
    }

    /// One round of waiting. While the spinning steps last it spins and returns
    /// false. After them it moves one step on, unless the patience is exhausted, and
    /// returns true: the caller is to yield to the scheduler before it tries again.
    pub fn snooze(&mut self) -> (must_yield: bool)
        ensures
            must_yield == (old(self).step_spec() > SPIN_LIMIT),
            final(self).step_spec() == Self::after_snooze(old(self).step_spec()),
    {
        if self.step <= SPIN_LIMIT {
            self.spin();
            false
        } else {
            if self.step <= YIELD_LIMIT {
                self.step = self.step + 1;
            }
            true
        }
    }

    /// Whether the patience is exhausted: more than `YIELD_LIMIT` steps were taken.
    pub fn is_completed(&self) -> (completed: bool)
        ensures
            completed == (self.step_spec() > YIELD_LIMIT),
    {
        self.step > YIELD_LIMIT
    }

    /// Starts a new wait at step zero.
    pub fn reset(&mut self)
        ensures
            final(self).step_spec() == 0,
    {
        self.step = 0;
    }
}

impl Default for Backoff {
    fn default() -> (backoff: Self)
        ensures
            backoff.step_spec() == 0,
    {
        Backoff::new()
    }
}

} // verus!
