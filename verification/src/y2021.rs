//! Puzzle solvers, one module per day.

pub mod day_03;
pub mod day_05;
