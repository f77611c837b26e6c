//! Tunable parameters of the collector, in fixed-point integers.

use vstd::prelude::*;

verus! {

/// The scale of the two multipliers: a multiplier of `100` stands for one.
pub const MULTIPLIER_UNIT: u32 = 100;

/// Tunable parameters of a collector.
///
/// The multipliers and the granularity are held in hundredths, so that
/// every comparison the collector makes is exact integer arithmetic.
#[derive(Clone, Copy, Debug)]
pub struct GcParameters {
    /// Reserved for scheduling later cycles as a multiple of the live size;
    /// in hundredths. The collector does not read it.
    pub pause_multiplier: u32,
    /// Scales the debt that one allocation adds, which is
    /// `1 + 1 / timing_multiplier`; in hundredths.
    pub timing_multiplier: u32,
    /// The accumulated debt from which an allocation runs a step of
    /// collection, and the amount of work of such a step; in hundredths.
    pub allocation_granularity: u32,
    /// The number of allocations after which the first cycle starts.
    pub min_wakeup: usize,
}

impl GcParameters {
    /// The debt that one allocation adds, scaled by the timing multiplier:
    /// `timing * (1 + 1 / timing)`, in hundredths of hundredths.
    pub open spec fn debt_per_allocation(&self) -> nat {
        ((self.timing_multiplier + MULTIPLIER_UNIT) * MULTIPLIER_UNIT) as nat
    }

    /// The granularity on the scale of the debt.
    pub open spec fn debt_threshold(&self) -> nat {
        (self.allocation_granularity * self.timing_multiplier) as nat
    }

    /// The units of work of a step that an allocation runs: the
    /// granularity, rounded up to whole units, since a step goes on while
    /// any of its work is left.
    pub open spec fn step_work(&self) -> u64 {
        ((self.allocation_granularity + MULTIPLIER_UNIT - 1) / MULTIPLIER_UNIT as int) as u64
    }

    /// The debt after one more allocation: it grows by
    /// `debt_per_allocation` and stops at the largest value it can hold.
    pub open spec fn debt_after_allocation(&self, debt: u64) -> u64 {
        if debt + self.debt_per_allocation() > u64::MAX {
            u64::MAX
        } else {
            (debt + self.debt_per_allocation()) as u64
        }
    }

    /// Whether a debt has reached the granularity.
    pub open spec fn debt_is_due(&self, debt: u64) -> bool {
        debt >= self.debt_threshold()
    }

    /// Parameters with the given values.
    pub fn new(
        pause_multiplier: u32,
        timing_multiplier: u32,
        allocation_granularity: u32,
        min_wakeup: usize,
    ) -> (parameters: GcParameters)
        ensures
            parameters == (GcParameters {
                pause_multiplier,
                timing_multiplier,
                allocation_granularity,
                min_wakeup,
            }),
    {
        GcParameters { pause_multiplier, timing_multiplier, allocation_granularity, min_wakeup }
    }

    /// Adds the debt of one allocation to `debt`.
    pub fn charge(&self, debt: u64) -> (charged: u64)
        ensures
            charged == self.debt_after_allocation(debt),
    {
        let step: u64 = (self.timing_multiplier as u64 + MULTIPLIER_UNIT as u64)
            * MULTIPLIER_UNIT as u64;
        if debt > u64::MAX - step {
            u64::MAX
        } else {
            debt + step
        }
    }

    /// The units of work of a step that an allocation runs.
    pub fn units_of_step(&self) -> (units: u64)
        ensures
            units == self.step_work(),
    {
        (self.allocation_granularity as u64 + MULTIPLIER_UNIT as u64 - 1) / MULTIPLIER_UNIT as u64
    }

    /// Whether `debt` has reached the granularity.
    pub fn is_due(&self, debt: u64) -> (due: bool)
        ensures
            due == self.debt_is_due(debt),
    {
        let granularity: u64 = self.allocation_granularity as u64;
        let timing: u64 = self.timing_multiplier as u64;
        assert(granularity * timing <= 0xffff_ffff * 0xffff_ffff) by (nonlinear_arith)
            requires
                granularity <= 0xffff_ffff,
                timing <= 0xffff_ffff,
        ;
        debt >= granularity * timing
    }
}

impl Default for GcParameters {
    /// Pause multiplier 1.5, timing multiplier 1.0, granularity 50, first
    /// wake-up after 512 allocations.
    fn default() -> (parameters: GcParameters)
        ensures
            parameters == (GcParameters {
                pause_multiplier: 150,
                timing_multiplier: 100,
                allocation_granularity: 5000,
                min_wakeup: 512,
            }),
    {
        GcParameters {
            pause_multiplier: 150,
            timing_multiplier: 100,
            allocation_granularity: 5000,
            min_wakeup: 512,
        }
    }
}

} // verus!
