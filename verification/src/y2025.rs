//! Puzzle solvers, one module per day.

use vstd::prelude::*;

pub mod day_01;
pub mod day_02;
pub mod day_03;
pub mod day_04;
pub mod day_05;
pub mod day_06;
pub mod day_07;
pub mod day_08;
pub mod day_09;
pub mod day_10;

verus! {

/// The calendar entries of this year.
pub fn get_days() -> (r: Vec<crate::utils::Day>)
    ensures
        r@ == crate::utils::days_of(2025),
{
    crate::utils::get_days(2025)
}

} // verus!
