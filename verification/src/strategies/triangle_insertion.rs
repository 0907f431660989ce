//! Triangle insertion: start from the triangle 0, 1, 2 and repeatedly insert
//! the cheaper of the two unvisited nodes nearest to the tour's last node.
use vstd::prelude::*;
use crate::strategies::StepPlan;
use crate::tour::{unvisited_nodes, unvisited_spec};

verus! {

/// State of triangle insertion.
pub struct TriangleInsertion {
    /// Whether the starting triangle has been laid down.
    pub triangle_initialized: bool,
}

/// One step of triangle insertion over `n` nodes: finished once every node
/// is on the tour; an empty tour of at least three nodes becomes the triangle
/// 0, 1, 2; without a triangle the run ends; otherwise the unvisited nodes
/// are handed out for insertion.
pub open spec fn triangle_plan(
    initialized: bool,
    path: Seq<usize>,
    n: nat,
    plan: StepPlan,
    new_path: Seq<usize>,
    new_initialized: bool,
) -> bool {
    let unvisited = unvisited_spec(path, n);
    if unvisited.len() == 0 {
        plan is Finished && new_path == path && new_initialized == initialized
    } else if path.len() == 0 && n >= 3 {
        plan is Advanced && new_path == seq![0usize, 1, 2] && new_initialized
    } else if !initialized {
        plan is Finished && new_path == path && new_initialized == initialized
    } else {
        new_path == path && new_initialized == initialized && (plan matches StepPlan::Grow(u) && u@
            == unvisited)
    }
}

impl TriangleInsertion {
    pub fn new() -> (s: Self)
        ensures
            !s.triangle_initialized,
    {
        TriangleInsertion { triangle_initialized: false }
    }

    /// Forgets the starting triangle, as a fresh strategy.
    pub fn reset(&mut self)
        ensures
            !final(self).triangle_initialized,
    {
        self.triangle_initialized = false;
    }

    /// One step over a problem of `n` nodes (see [`triangle_plan`]).
    pub fn plan_step(&mut self, path: &mut Vec<usize>, n: usize) -> (plan: StepPlan)
        ensures
            triangle_plan(
                old(self).triangle_initialized,
                old(path)@,
                n as nat,
                plan,
                final(path)@,
                final(self).triangle_initialized,
            ),
    {
        let unvisited = unvisited_nodes(path, n);
        if unvisited.len() == 0 {
            return StepPlan::Finished;
        }
        if path.len() == 0 && n >= 3 {
            path.push(0);
            path.push(1);
            path.push(2);
            self.triangle_initialized = true;
            assert(path@ =~= seq![0usize, 1, 2]);
            return StepPlan::Advanced;
        }
        if !self.triangle_initialized {
            return StepPlan::Finished;
        }
        StepPlan::Grow(unvisited)
    }
}

} // verus!
