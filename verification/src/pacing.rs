use vstd::prelude::*;
use vstd::arithmetic::mul::lemma_mul_is_distributive_add_other_way;

verus! {

/// Drift-free deadline arithmetic for a fixed-period replay.
///
/// The loop that drives a replay fixes a deadline one period ahead before
/// the first item; after each item's action it waits out whatever of the
/// period remains, then advances the deadline by exactly one period.
/// Deadlines accumulate on the original schedule, never on actual wake
/// time, so processing latency cannot drift the schedule; an action that
/// overruns its period only costs the following wait, which is skipped
/// rather than made negative.
pub struct PacedSchedule {
    pub period: u64,
    pub next_deadline: u64,
}

impl PacedSchedule {
    /// Starts a schedule: the first deadline lies one period after `now`.
    pub fn new(now: u64, period: u64) -> (r: PacedSchedule)
        requires
            now + period <= u64::MAX,
        ensures
            r.period == period,
            r.next_deadline == now + period,
    {
        PacedSchedule { period, next_deadline: now + period }
    }

    /// How long to wait at time `now` until the next item is due: the time
    /// left to the deadline, or nothing when the deadline already passed. A
    /// wait begun by the deadline ends exactly on it.
    pub fn wait_before_next(&self, now: u64) -> (r: u64)
        ensures
            r == if now < self.next_deadline {
                self.next_deadline - now
            } else {
                0
            },
            now <= self.next_deadline ==> now + r == self.next_deadline,
    {
        if now < self.next_deadline {
            self.next_deadline - now
        } else {
            0
        }
    }

    /// Moves to the next deadline: exactly one period later, wherever the
    /// clock stands.
    pub fn advance(&mut self)
        requires
            old(self).next_deadline + old(self).period <= u64::MAX,
        ensures
            final(self).period == old(self).period,
            final(self).next_deadline == old(self).next_deadline + old(self).period,
    {
        self.next_deadline = self.next_deadline + self.period;
    }
}

/// The deadline a schedule holds after `k` advances: one unfolding per
/// advance, exactly as [`PacedSchedule::new`] and [`PacedSchedule::advance`]
/// build it.
pub open spec fn spec_deadline_after(start: u64, period: u64, k: nat) -> int
    decreases k,
{
    if k == 0 {
        start + period
    } else {
        spec_deadline_after(start, period, (k - 1) as nat) + period
    }
}

/// Pacing never drifts: after `k` advances the deadline stands exactly
/// `k + 1` whole periods after the start. So a run over `n` items whose
/// actions each finish by their deadline sleeps up to each deadline in turn
/// and completes at `start + n * period` exactly.
pub proof fn lemma_no_drift(start: u64, period: u64, k: nat)
    ensures
        spec_deadline_after(start, period, k) == start + period + k * period,
    decreases k,
{
    if k == 0 {
        vstd::arithmetic::mul::lemma_mul_by_zero_is_zero(period as int);
    } else {
        lemma_no_drift(start, period, (k - 1) as nat);
        lemma_mul_is_distributive_add_other_way(period as int, k - 1, 1);
        vstd::arithmetic::mul::lemma_mul_basics(period as int);
    }
}

} // verus!
