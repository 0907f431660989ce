//! Iterated local search on top of edge insertion.

pub mod local_search;
pub mod perturbation;
