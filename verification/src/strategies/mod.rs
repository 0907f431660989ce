//! The construction strategies.  Each is driven one step at a time: a
//! verified step decides, from the strategy's state and the tour so far,
//! whether the run is over, whether the tour must be seeded, or which nodes
//! remain to be placed; the geometric choice of node and position is made by
//! the caller, and the tour moves it then applies are those of `tour`.

pub mod christofides;
pub mod lin_kernighan;
pub mod nearest_neighbor;
pub mod triangle_insertion;
pub mod triangle_insertion_v2;
pub mod triangle_insertion_v3;
pub mod triangle_insertion_v4;
pub mod triangle_insertion_v5;
pub mod triangle_insertion_v6;
pub mod triangle_insertion_v7;
pub mod triangle_insertion_v8;
pub mod triangle_insertion_v8_7;
pub mod v9_ils;

use vstd::prelude::*;
use crate::tour::{extend_with_range, identity_spec, unvisited_nodes, unvisited_spec};

verus! {

/// What one step of a strategy asks of its caller.
#[derive(Debug)]
pub enum StepPlan {
    /// The run is over: the step reports completion.
    Finished,
    /// The step has already advanced the tour: more steps follow.
    Advanced,
    /// The tour is empty and must be seeded from the geometry.
    Seed,
    /// One of these unvisited nodes is to be placed into the tour.
    Grow(Vec<usize>),
    /// Every node is on the tour: run the final local search, then report
    /// completion.
    Polish,
    /// The whole tour is to be computed in one go by the caller.
    Solve,
}

/// The step shared by the insertion strategies that seed from the geometry
/// and polish at the end: polish once every node is on the tour; an empty
/// tour of fewer than three nodes becomes `0..n` and the run ends, a larger
/// one asks for a seed; an unseeded strategy with a non-empty tour ends the
/// run; otherwise the unvisited nodes are handed out for insertion.
pub open spec fn seeded_insertion_plan(
    initialized: bool,
    path: Seq<usize>,
    n: nat,
    plan: StepPlan,
    new_path: Seq<usize>,
) -> bool {
    let unvisited = unvisited_spec(path, n);
    if unvisited.len() == 0 {
        plan is Polish && new_path == path
    } else if path.len() == 0 {
        if n < 3 {
            plan is Finished && new_path == identity_spec(n)
        } else {
            plan is Seed && new_path == path
        }
    } else if !initialized {
        plan is Finished && new_path == path
    } else {
        new_path == path && (plan matches StepPlan::Grow(u) && u@ == unvisited)
    }
}

pub(crate) fn plan_seeded_insertion(initialized: bool, path: &mut Vec<usize>, n: usize) -> (plan: StepPlan)
    ensures
        seeded_insertion_plan(initialized, old(path)@, n as nat, plan, final(path)@),
{
    let unvisited = unvisited_nodes(path, n);
    if unvisited.len() == 0 {
        return StepPlan::Polish;
    }
    if path.len() == 0 {
        if n < 3 {
            extend_with_range(path, n);
            assert(path@ =~= identity_spec(n as nat));
            return StepPlan::Finished;
        }
        return StepPlan::Seed;
    }
    if !initialized {
        return StepPlan::Finished;
    }
    StepPlan::Grow(unvisited)
}

} // verus!
