//! Triangle insertion V3: seeded with the widest triangle of the convex hull,
//! grown by global cheapest insertion, polished by 2-opt and or-opt.
use vstd::prelude::*;
use crate::strategies::{plan_seeded_insertion, seeded_insertion_plan, StepPlan};
use crate::tour::push_range;

verus! {

/// State of triangle insertion V3.
pub struct TriangleInsertionV3 {
    /// Whether the tour has been seeded from the geometry.
    pub initialized: bool,
}

impl TriangleInsertionV3 {
    pub fn new() -> (s: Self)
        ensures
            !s.initialized,
    {
        TriangleInsertionV3 { initialized: false }
    }

    /// Forgets the seeding, as a fresh strategy.
    pub fn reset(&mut self)
        ensures
            !final(self).initialized,
    {
        self.initialized = false;
    }

    /// One step over a problem of `n` nodes (see [`seeded_insertion_plan`]).
    pub fn plan_step(&mut self, path: &mut Vec<usize>, n: usize) -> (plan: StepPlan)
        ensures
            seeded_insertion_plan(old(self).initialized, old(path)@, n as nat, plan, final(path)@),
            *final(self) == *old(self),
    {
        plan_seeded_insertion(self.initialized, path, n)
    }

    /// Seeds the tour with the hull triangle chosen by the caller.
    pub fn begin(&mut self, path: &mut Vec<usize>, seed: &Vec<usize>)
        ensures
            final(path)@ == old(path)@ + seed@,
            final(self).initialized,
    {
        push_range(path, seed, 0, seed.len());
        assert(seed@.subrange(0, seed@.len() as int) =~= seed@);
        self.initialized = true;
    }
}

} // verus!
