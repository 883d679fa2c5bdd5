//! Monte Carlo estimation of how often a wall-hugging escape heuristic
//! finds its way out of a randomly obstructed rectangular grid.
//!
//! The crate has four parts: cardinal [`direction::Direction`]s and the
//! rotations on them; the [`office::Office`] grid of occupied and free
//! desks, built with an exact occupancy count drawn at random; the
//! traversal engine in [`navigation`], which walks the grid favouring
//! left turns and detects the cycles that trap it; and the
//! [`stats`] engine, which aggregates many random trials into a
//! success percentage and an average escape-path length.

pub mod direction;
pub mod navigation;
pub mod office;
mod rng;
pub mod show_path;
pub mod stats;
