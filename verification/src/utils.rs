//! The calendar: which solvers exist, and a dispatcher that runs one
//! by year, day and puzzle number.

use vstd::prelude::*;

verus! {

/// Which input a runner feeds a solver.
#[derive(Debug, PartialEq, Eq, Structural, Clone, Copy)]
pub enum InputKind {
    Test,
    Run,
}

/// One calendar entry.
#[derive(Debug, PartialEq, Eq, Structural, Clone, Copy)]
pub struct Day {
    pub year: u16,
    pub day: u8,
}

/// The days of `year` with a solver in this crate.
pub open spec fn known_day(year: int, day: int) -> bool {
    ||| (year == 2021 && (day == 3 || day == 5))
    ||| (year == 2022 && (day == 8 || day == 9 || day == 10 || day == 11 || day == 12 || day == 13 || day == 14 || day == 15 || day == 16 || day == 17))
    ||| (year == 2025 && (day == 1 || day == 2 || day == 3 || day == 4 || day == 5 || day == 6 || day == 7 || day == 8 || day == 9 || day == 10))
}

/// Runs one solver. `None` when the year, day or puzzle number names
/// no solver in this crate.
pub fn run_puzzle(year: u16, day: u8, puzzle_number: u8, input: &str) -> (r: Option<String>)
    ensures
        (r is Some) == (known_day(year as int, day as int) && (puzzle_number == 1
            || puzzle_number == 2)),
{
    if puzzle_number != 1 && puzzle_number != 2 {
        return None;
    }
    let first = puzzle_number == 1;
    match (year, day) {
        (2021, 3) => Some(
            if first {
                crate::y2021::day_03::puzzle_1(input)
            } else {
                crate::y2021::day_03::puzzle_2(input)
            },
        ),
        (2021, 5) => Some(
            if first {
                crate::y2021::day_05::puzzle_1(input)
            } else {
                crate::y2021::day_05::puzzle_2(input)
            },
        ),
        (2022, 8) => Some(
            if first {
                crate::y2022::day_08::puzzle_1(input)
            } else {
                crate::y2022::day_08::puzzle_2(input)
            },
        ),
        (2022, 9) => Some(
            if first {
                crate::y2022::day_09::puzzle_1(input)
            } else {
                crate::y2022::day_09::puzzle_2(input)
            },
        ),
        (2022, 10) => Some(
            if first {
                crate::y2022::day_10::puzzle_1(input)
            } else {
                crate::y2022::day_10::puzzle_2(input)
            },
        ),
        (2022, 11) => Some(
            if first {
                crate::y2022::day_11::puzzle_1(input)
            } else {
                crate::y2022::day_11::puzzle_2(input)
            },
        ),
        (2022, 12) => Some(
            if first {
                crate::y2022::day_12::puzzle_1(input)
            } else {
                crate::y2022::day_12::puzzle_2(input)
            },
        ),
        (2022, 13) => Some(
            if first {
                crate::y2022::day_13::puzzle_1(input)
            } else {
                crate::y2022::day_13::puzzle_2(input)
            },
        ),
        (2022, 14) => Some(
            if first {
                crate::y2022::day_14::puzzle_1(input)
            } else {
                crate::y2022::day_14::puzzle_2(input)
            },
        ),
        (2022, 15) => Some(
            if first {
                crate::y2022::day_15::puzzle_1(input)
            } else {
                crate::y2022::day_15::puzzle_2(input)
            },
        ),
        (2022, 16) => Some(
            if first {
                crate::y2022::day_16::puzzle_1(input)
            } else {
                crate::y2022::day_16::puzzle_2(input)
            },
        ),
        (2022, 17) => Some(
            if first {
                crate::y2022::day_17::puzzle_1(input)
            } else {
                crate::y2022::day_17::puzzle_2(input)
            },
        ),
        (2025, 1) => Some(
            if first {
                crate::y2025::day_01::puzzle_1(input)
            } else {
                crate::y2025::day_01::puzzle_2(input)
            },
        ),
        (2025, 2) => Some(
            if first {
                crate::y2025::day_02::puzzle_1(input)
            } else {
                crate::y2025::day_02::puzzle_2(input)
            },
        ),
        (2025, 3) => Some(
            if first {
                crate::y2025::day_03::puzzle_1(input)
            } else {
                crate::y2025::day_03::puzzle_2(input)
            },
        ),
        (2025, 4) => Some(
            if first {
                crate::y2025::day_04::puzzle_1(input)
            } else {
                crate::y2025::day_04::puzzle_2(input)
            },
        ),
        (2025, 6) => Some(
            if first {
                crate::y2025::day_06::puzzle_1(input)
            } else {
                crate::y2025::day_06::puzzle_2(input)
            },
        ),
        (2025, 5) => Some(
            if first {
                crate::y2025::day_05::puzzle_1(input)
            } else {
                crate::y2025::day_05::puzzle_2(input)
            },
        ),
        (2025, 7) => Some(
            if first {
                crate::y2025::day_07::puzzle_1(input)
            } else {
                crate::y2025::day_07::puzzle_2(input)
            },
        ),
        (2025, 8) => Some(
            if first {
                crate::y2025::day_08::puzzle_1(input)
            } else {
                crate::y2025::day_08::puzzle_2(input)
            },
        ),
        (2025, 9) => Some(
            if first {
                crate::y2025::day_09::puzzle_1(input)
            } else {
                crate::y2025::day_09::puzzle_2(input)
            },
        ),
        (2025, 10) => Some(
            if first {
                crate::y2025::day_10::puzzle_1(input)
            } else {
                crate::y2025::day_10::puzzle_2(input)
            },
        ),
        _ => None,
    }
}

/// The calendar entries: the days of `year` with a solver in this
/// crate, in day order.
pub open spec fn days_of(year: u16) -> Seq<Day> {
    if year == 2021 {
        seq![Day { year: 2021, day: 3 }, Day { year: 2021, day: 5 }]
    } else if year == 2022 {
        seq![
            Day { year: 2022, day: 8 },
            Day { year: 2022, day: 9 },
            Day { year: 2022, day: 10 },
            Day { year: 2022, day: 11 },
            Day { year: 2022, day: 12 },
            Day { year: 2022, day: 13 },
            Day { year: 2022, day: 14 },
            Day { year: 2022, day: 15 },
            Day { year: 2022, day: 16 },
            Day { year: 2022, day: 17 },
        ]
    } else if year == 2025 {
        seq![
            Day { year: 2025, day: 1 },
            Day { year: 2025, day: 2 },
            Day { year: 2025, day: 3 },
            Day { year: 2025, day: 4 },
            Day { year: 2025, day: 5 },
            Day { year: 2025, day: 6 },
            Day { year: 2025, day: 7 },
            Day { year: 2025, day: 8 },
            Day { year: 2025, day: 9 },
            Day { year: 2025, day: 10 },
        ]
    } else {
        Seq::empty()
    }
}

/// The calendar entries of `year`, in day order.
pub fn get_days(year: u16) -> (r: Vec<Day>)
    ensures
        r@ == days_of(year),
        forall|i: int|
            0 <= i < r@.len() ==> (#[trigger] r@[i]).year == year && known_day(
                year as int,
                r@[i].day as int,
            ),
{
    let mut r: Vec<Day> = Vec::new();
    if year == 2021 {
        r.push(Day { year, day: 3 });
        r.push(Day { year, day: 5 });
    } else if year == 2022 {
        r.push(Day { year, day: 8 });
        r.push(Day { year, day: 9 });
        r.push(Day { year, day: 10 });
        r.push(Day { year, day: 11 });
        r.push(Day { year, day: 12 });
        r.push(Day { year, day: 13 });
        r.push(Day { year, day: 14 });
        r.push(Day { year, day: 15 });
        r.push(Day { year, day: 16 });
        r.push(Day { year, day: 17 });
    } else if year == 2025 {
        r.push(Day { year, day: 1 });
        r.push(Day { year, day: 2 });
        r.push(Day { year, day: 3 });
        r.push(Day { year, day: 4 });
        r.push(Day { year, day: 5 });
        r.push(Day { year, day: 6 });
        r.push(Day { year, day: 7 });
        r.push(Day { year, day: 8 });
        r.push(Day { year, day: 9 });
        r.push(Day { year, day: 10 });
    }
    proof {
        assert(r@ =~= days_of(year));
    }
    r
}

} // verus!
