//! Verified puzzle solvers for a collection of grid, simulation and
//! number puzzles, organised by year and day.
//!
//! The heart of the crate is `y2022::day_17`: a falling-piece tower
//! simulator with collision resolution, cycle detection over skyline
//! fingerprints, and height extrapolation for very large piece counts.

pub mod geometry;
pub mod numfmt;
pub mod utils;
pub mod scan;
pub mod y2021;
pub mod y2022;
pub mod y2025;
