//! The fixed-step driver: turns irregular wall-clock frame deltas into a
//! deterministic count of fixed-size physics steps.
//!
//! The driver accumulates elapsed time; whenever a whole step's worth is
//! available, it hands that many steps to the caller and carries the
//! remainder over. Accumulated debt is capped, so a long stall cannot start
//! a runaway catch-up spiral. The step count is determined by the total
//! accepted time alone — however the frames were chunked — which is what
//! makes a fixed-step simulation reproducible.

use vstd::prelude::*;

verus! {

/// Diagnostic: the wall-clock cost of the last physics step, in
/// microseconds. Measured by the host, recorded here for telemetry.
#[derive(Clone, Copy, Debug, PartialEq, Eq, Structural)]
pub struct StepTime(pub u64);

/// The fixed-step accumulator.
pub struct FixedStepDriver {
    step_us: u64,
    acc_us: u64,
    cap_us: u64,
    last_cost: StepTime,
    total_steps: Ghost<int>,
    total_accepted: Ghost<int>,
}

/// How much of a frame delta the accumulator takes: all of it, unless that
/// would push the accumulated debt past the cap.
pub open spec fn accepted_of(delta: int, cap: int, acc: int) -> int {
    if delta <= cap - acc {
        delta
    } else {
        cap - acc
    }
}

impl FixedStepDriver {
    /// The fixed step size, in microseconds.
    pub closed spec fn step(self) -> int {
        self.step_us as int
    }

    /// Time accumulated and not yet spent on steps, in microseconds.
    pub closed spec fn acc(self) -> int {
        self.acc_us as int
    }

    /// The cap on accumulated debt, in microseconds.
    pub closed spec fn cap(self) -> int {
        self.cap_us as int
    }

    /// Total number of steps this driver has handed out.
    pub closed spec fn total_steps(self) -> int {
        self.total_steps@
    }

    /// Total frame time the accumulator has accepted, in microseconds.
    pub closed spec fn total_accepted(self) -> int {
        self.total_accepted@
    }

    /// The last recorded step cost.
    pub closed spec fn last_cost(self) -> StepTime {
        self.last_cost
    }

    /// The driver invariant: the carried remainder is smaller than one
    /// step, and the books balance — steps handed out times the step size,
    /// plus the remainder, is exactly the time accepted.
    pub open spec fn wf(self) -> bool {
        &&& 0 < self.step() <= self.cap()
        &&& 0 <= self.acc() < self.step()
        &&& 0 <= self.total_steps()
        &&& self.total_steps() * self.step() + self.acc() == self.total_accepted()
    }

    /// A driver for steps of `step_us` microseconds, carrying at most
    /// `cap_us` microseconds of debt.
    pub fn new(step_us: u64, cap_us: u64) -> (d: FixedStepDriver)
        requires
            0 < step_us <= cap_us,
        ensures
            d.wf(),
            d.step() == step_us,
            d.cap() == cap_us,
            d.acc() == 0,
            d.total_steps() == 0,
            d.total_accepted() == 0,
            d.last_cost() == (StepTime(0)),
    {
        FixedStepDriver {
            step_us,
            acc_us: 0,
            cap_us,
            last_cost: StepTime(0),
            total_steps: Ghost(0),
            total_accepted: Ghost(0),
        }
    }

    /// Feed one frame's wall-clock delta into the accumulator and take out
    /// the number of whole steps now owed. The delta is accepted in full
    /// unless it would push the debt past the cap; the remainder below one
    /// step size is carried over.
    pub fn advance(&mut self, frame_delta_us: u64) -> (n: u64)
        requires
            old(self).wf(),
        ensures
            final(self).wf(),
            final(self).step() == old(self).step(),
            final(self).cap() == old(self).cap(),
            final(self).last_cost() == old(self).last_cost(),
            final(self).total_accepted() == old(self).total_accepted() + accepted_of(
                frame_delta_us as int,
                old(self).cap(),
                old(self).acc(),
            ),
            n == (old(self).acc() + accepted_of(
                frame_delta_us as int,
                old(self).cap(),
                old(self).acc(),
            )) / old(self).step(),
            final(self).acc() == (old(self).acc() + accepted_of(
                frame_delta_us as int,
                old(self).cap(),
                old(self).acc(),
            )) % old(self).step(),
            final(self).total_steps() == old(self).total_steps() + n,
    {
        let room = self.cap_us - self.acc_us;
        let a = if frame_delta_us <= room {
            frame_delta_us
        } else {
            room
        };
        self.acc_us = self.acc_us + a;
        let n = self.acc_us / self.step_us;
        let ghost filled = self.acc_us as int;
        self.acc_us = self.acc_us % self.step_us;
        proof {
            self.total_steps@ = self.total_steps@ + n as int;
            self.total_accepted@ = self.total_accepted@ + a as int;
            vstd::arithmetic::div_mod::lemma_fundamental_div_mod(filled, self.step() as int);
            vstd::arithmetic::div_mod::lemma_mod_bound(filled, self.step() as int);
            vstd::arithmetic::mul::lemma_mul_is_distributive_add_other_way(
                self.step(),
                old(self).total_steps(),
                n as int,
            );
            vstd::arithmetic::div_mod::lemma_div_pos_is_pos(filled, self.step() as int);
            assert((old(self).total_steps() + n) * self.step() == old(self).total_steps()
                * self.step() + n * self.step());
            assert(n * self.step() == self.step() * n) by (nonlinear_arith);
            assert(self.total_steps() * self.step() + self.acc() == self.total_accepted());
        }
        n
    }

    /// Record the measured wall-clock cost of the last physics step.
    pub fn record_step_time(&mut self, cost: StepTime)
        requires
            old(self).wf(),
        ensures
            final(self).wf(),
            final(self).last_cost() == cost,
            final(self).step() == old(self).step(),
            final(self).cap() == old(self).cap(),
            final(self).acc() == old(self).acc(),
            final(self).total_steps() == old(self).total_steps(),
            final(self).total_accepted() == old(self).total_accepted(),
    {
        self.last_cost = cost;
    }

    /// The last recorded step cost.
    pub fn step_time(&self) -> (t: StepTime)
        ensures
            t == self.last_cost(),
    {
        self.last_cost
    }

    /// The carried remainder, in microseconds.
    pub fn accumulator(&self) -> (a: u64)
        ensures
            a == self.acc(),
    {
        self.acc_us
    }

    /// The fixed step size, in microseconds.
    pub fn step_size(&self) -> (s: u64)
        ensures
            s == self.step(),
    {
        self.step_us
    }
}

/// The steps a driver has handed out are exactly the whole steps in the
/// time it accepted: `total_steps == total_accepted / step`, whatever the
/// frame deltas looked like.
pub proof fn lemma_step_count_is_quotient(d: FixedStepDriver)
    requires
        d.wf(),
    ensures
        d.total_steps() == d.total_accepted() / d.step(),
{
    vstd::arithmetic::div_mod::lemma_fundamental_div_mod_converse(
        d.total_accepted(),
        d.step(),
        d.total_steps(),
        d.acc(),
    );
}

/// Fixed-step determinism: two drivers with the same step size that
/// accepted the same total wall-clock time have run the same number of
/// steps, no matter how differently that time was chunked into frames.
pub proof fn lemma_fixed_step_determinism(d1: FixedStepDriver, d2: FixedStepDriver)
    requires
        d1.wf(),
        d2.wf(),
        d1.step() == d2.step(),
        d1.total_accepted() == d2.total_accepted(),
    ensures
        d1.total_steps() == d2.total_steps(),
{
    lemma_step_count_is_quotient(d1);
    lemma_step_count_is_quotient(d2);
}

} // verus!
