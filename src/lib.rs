//! Fixed-point engines for verification: a modal mu-calculus model checker
//! over labelled transition systems (naive and Emerson-Lei evaluation), and
//! a small-progress-measure solver for parity games with several lifting
//! strategies.

pub mod vertex;
pub mod progress_measure;
pub mod potential;
pub mod measure_order;
pub mod lifting_strategies;
pub mod ltl;
pub mod formula;
pub mod solver;
pub mod fixpoints;
pub mod analysis;
pub mod state_set;
pub mod game;
