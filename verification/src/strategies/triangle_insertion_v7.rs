//! Triangle insertion V7: hull triangle, smoothest-angle insertion among
//! nearby candidates under a cooling schedule, and ejection chains.  The
//! schedule's temperature and every score are floating point and kept by
//! the caller; the steps, the growth count that drives the cooling, and the
//! rule for when an ejection chain runs are kept here.
use vstd::prelude::*;
use crate::strategies::{plan_seeded_insertion, seeded_insertion_plan, StepPlan};
use crate::tour::push_range;

verus! {

/// State of triangle insertion V7.
pub struct TriangleInsertionV7 {
    /// Whether the tour has been seeded from the geometry.
    pub initialized: bool,
    /// Growth steps taken since the start of the run.
    pub iteration: usize,
    /// Planned length of the cooling schedule.
    pub total_iterations: usize,
    /// How many nearby candidates each insertion considers.
    pub k_neighbors: usize,
}

impl TriangleInsertionV7 {
    pub fn new() -> (s: Self)
        ensures
            !s.initialized,
            s.iteration == 0,
            s.total_iterations == 1000,
            s.k_neighbors == 15,
    {
        TriangleInsertionV7 { initialized: false, iteration: 0, total_iterations: 1000, k_neighbors: 15 }
    }

    /// Forgets the seeding and restarts the schedule.
    pub fn reset(&mut self)
        ensures
            !final(self).initialized,
            final(self).iteration == 0,
            final(self).total_iterations == old(self).total_iterations,
            final(self).k_neighbors == old(self).k_neighbors,
    {
        self.initialized = false;
        self.iteration = 0;
    }

    /// One step over a problem of `n` nodes (see [`seeded_insertion_plan`]);
    /// a growth step advances the schedule by one.
    pub fn plan_step(&mut self, path: &mut Vec<usize>, n: usize) -> (plan: StepPlan)
        requires
            old(self).iteration < usize::MAX,
        ensures
            seeded_insertion_plan(old(self).initialized, old(path)@, n as nat, plan, final(path)@),
            final(self).iteration == (if plan is Grow {
                old(self).iteration + 1
            } else {
                old(self).iteration as int
            }),
            final(self).initialized == old(self).initialized,
            final(self).total_iterations == old(self).total_iterations,
            final(self).k_neighbors == old(self).k_neighbors,
    {
        let plan = plan_seeded_insertion(self.initialized, path, n);
        if let StepPlan::Grow(_) = plan {
            self.iteration = self.iteration + 1;
        }
        plan
    }

    /// Seeds the tour with the hull triangle chosen by the caller.
    pub fn begin(&mut self, path: &mut Vec<usize>, seed: &Vec<usize>)
        ensures
            final(path)@ == old(path)@ + seed@,
            final(self).initialized,
            final(self).iteration == old(self).iteration,
            final(self).total_iterations == old(self).total_iterations,
            final(self).k_neighbors == old(self).k_neighbors,
    {
        push_range(path, seed, 0, seed.len());
        assert(seed@.subrange(0, seed@.len() as int) =~= seed@);
        self.initialized = true;
    }

    /// Whether an ejection chain follows the insertion that left the tour
    /// with `path_len` nodes: every fifth growth step, once the tour has
    /// more than six nodes.
    pub fn ejection_due(&self, path_len: usize) -> (r: bool)
        ensures
            r == (self.iteration % 5 == 0 && path_len > 6),
    {
        self.iteration % 5 == 0 && path_len > 6
    }
}

} // verus!
