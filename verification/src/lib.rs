//! Combinatorial core of a step-by-step travelling-salesman visualizer:
//! tour representations, the moves that local search applies to them, the
//! graph phases of Christofides' heuristic, and the state machines that drive
//! each construction strategy one step at a time.

pub mod scenario;
pub mod settings;
pub mod strategies;
pub mod text;
pub mod tour;
pub mod tsplib;
pub mod ui;
