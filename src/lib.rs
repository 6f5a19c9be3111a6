//! Generation and verification of capacitated vehicle routing instances
//! with time windows.
//!
//! The library places customers on a square grid, draws their demands and
//! time windows, computes the rounded Euclidean distance matrix, builds a
//! greedy baseline solution, calibrates a distance bound from it, and
//! checks candidate solutions against that bound.

pub mod geometry;
pub mod routes;
pub mod draws;
pub mod instance;
pub mod windows;
pub mod placement;
pub mod generation;
pub mod feasibility;

pub use generation::{start_instance, GenerationError};
pub use instance::{Challenge, Difficulty, Solution, SolutionError};
pub use routes::{calc_baseline_routes, calc_routes_total_distance, RouteError};
