//! A greedy approximation to the weighted set-cover problem.
//!
//! Given a catalog mapping solution identifiers to the sets of problem
//! identifiers they cover, and a target set of problems, the solver
//! repeatedly picks the solution covering the most still-unsolved problems
//! until either every target is covered or no catalog entry makes progress.

pub mod model;

pub mod laws;

pub mod solver;
