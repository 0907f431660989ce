//! Nearest neighbour: start at node 0 and keep walking to the closest
//! unvisited node.
use vstd::prelude::*;
use crate::strategies::StepPlan;
use crate::tour::{extend_with_range, unvisited_nodes, unvisited_spec};

verus! {

/// The nearest-neighbour strategy; it keeps no state between steps.
pub struct NearestNeighbor;

impl NearestNeighbor {
    pub fn new() -> Self {
        NearestNeighbor
    }

    /// One step over a problem of `n` nodes: finished once every node is on
    /// the tour; an empty tour starts at node 0; otherwise the caller appends
    /// the unvisited node closest to the tour's last node.
    pub fn plan_step(&mut self, path: &mut Vec<usize>, n: usize) -> (plan: StepPlan)
        ensures
            unvisited_spec(old(path)@, n as nat).len() == 0 ==> plan is Finished && final(path)@
                == old(path)@,
            unvisited_spec(old(path)@, n as nat).len() > 0 && old(path)@.len() == 0 ==> plan is Advanced
                && final(path)@ == seq![0usize],
            unvisited_spec(old(path)@, n as nat).len() > 0 && old(path)@.len() > 0 ==> final(path)@
                == old(path)@ && (plan matches StepPlan::Grow(u) && u@ == unvisited_spec(old(path)@, n as nat)),
    {
        let unvisited = unvisited_nodes(path, n);
        if unvisited.len() == 0 {
            return StepPlan::Finished;
        }
        if path.len() == 0 {
            path.push(0);
            return StepPlan::Advanced;
        }
        StepPlan::Grow(unvisited)
    }
}

} // verus!
