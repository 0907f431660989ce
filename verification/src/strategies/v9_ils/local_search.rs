//! Settings of the candidate-list local search used by iterated local search.
use vstd::prelude::*;

verus! {

/// Sizes and round limits of the local search.
#[derive(Clone, Copy, Debug, PartialEq, Eq)]
pub struct LocalSearchConfig {
    /// How many nearest neighbours each node's candidate list holds.
    pub candidate_size: usize,
    /// Rounds of 2-opt.
    pub max_2opt_rounds: usize,
    /// Rounds of single-node reinsertion.
    pub max_reinsert_rounds: usize,
    /// Rounds of or-opt per segment length.
    pub max_oropt_rounds: usize,
}

impl Default for LocalSearchConfig {
    fn default() -> (c: Self)
        ensures
            c.candidate_size == 20,
            c.max_2opt_rounds == 5,
            c.max_reinsert_rounds == 2,
            c.max_oropt_rounds == 1,
    {
        LocalSearchConfig {
            candidate_size: 20,
            max_2opt_rounds: 5,
            max_reinsert_rounds: 2,
            max_oropt_rounds: 1,
        }
    }
}

} // verus!
