//! Triangle insertion V2: seeded with the best-shaped triangle among the
//! first nodes, grown from three candidates, with 2-opt after every insertion.
use vstd::prelude::*;
use crate::strategies::StepPlan;
use crate::tour::{push_range, unvisited_nodes, unvisited_spec};

verus! {

/// State of triangle insertion V2.
pub struct TriangleInsertionV2 {
    /// Whether the starting triangle has been laid down.
    pub triangle_initialized: bool,
    /// Count of 2-opt improvements, reset with the strategy.
    pub last_improvement: usize,
}

/// One step of V2 over `n` nodes: polish once every node is on the tour; an
/// empty tour of at least three nodes asks for the starting triangle;
/// without one the run ends; otherwise the unvisited nodes are handed out.
pub open spec fn v2_plan(initialized: bool, path: Seq<usize>, n: nat, plan: StepPlan, new_path: Seq<usize>) -> bool {
    let unvisited = unvisited_spec(path, n);
    new_path == path && if unvisited.len() == 0 {
        plan is Polish
    } else if path.len() == 0 && n >= 3 {
        plan is Seed
    } else if !initialized {
        plan is Finished
    } else {
        plan matches StepPlan::Grow(u) && u@ == unvisited
    }
}

impl TriangleInsertionV2 {
    pub fn new() -> (s: Self)
        ensures
            !s.triangle_initialized,
            s.last_improvement == 0,
    {
        TriangleInsertionV2 { triangle_initialized: false, last_improvement: 0 }
    }

    /// Forgets the triangle and the improvement count, as a fresh strategy.
    pub fn reset(&mut self)
        ensures
            !final(self).triangle_initialized,
            final(self).last_improvement == 0,
    {
        self.triangle_initialized = false;
        self.last_improvement = 0;
    }

    /// One step over a problem of `n` nodes (see [`v2_plan`]).
    pub fn plan_step(&mut self, path: &mut Vec<usize>, n: usize) -> (plan: StepPlan)
        ensures
            v2_plan(old(self).triangle_initialized, old(path)@, n as nat, plan, final(path)@),
            *final(self) == *old(self),
    {
        let unvisited = unvisited_nodes(path, n);
        if unvisited.len() == 0 {
            return StepPlan::Polish;
        }
        if path.len() == 0 && n >= 3 {
            return StepPlan::Seed;
        }
        if !self.triangle_initialized {
            return StepPlan::Finished;
        }
        StepPlan::Grow(unvisited)
    }

    /// Lays down the starting triangle chosen by the caller.
    pub fn begin(&mut self, path: &mut Vec<usize>, triangle: &Vec<usize>)
        ensures
            final(path)@ == old(path)@ + triangle@,
            final(self).triangle_initialized,
            final(self).last_improvement == old(self).last_improvement,
    {
        push_range(path, triangle, 0, triangle.len());
        assert(triangle@.subrange(0, triangle@.len() as int) =~= triangle@);
        self.triangle_initialized = true;
    }
}

} // verus!
