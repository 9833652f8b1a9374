//! The dispatch table: which solver answers for which day.

use crate::solution::{Answer, Part, Solution};
use vstd::prelude::*;

pub mod day00;
pub mod day01;
pub mod day02;
pub mod day03;
pub mod day04;
pub mod day05;
pub mod day06;
pub mod day07;
pub mod day08;
pub mod day09;
pub mod day10;
pub mod day11;
pub mod day12;
pub mod day13;
pub mod day14;
pub mod day15;
pub mod day16;
pub mod day17;
pub mod day18;
pub mod day19;
pub mod day20;
pub mod day21;
pub mod day22;
pub mod day23;
pub mod day24;
pub mod day25;

verus! {

/// The number of the last day with a registered solver.
pub const LAST_DAY: usize = 20;

/// The answer that the solver registered for `day` gives; `None` for a day
/// without a registered solver.
pub open spec fn registered_answer(day: usize, input: Seq<char>, part: Part) -> Option<Answer> {
    if day == 0 {
        day00::Day.answer(input, part)
    } else if day == 1 {
        day01::Day.answer(input, part)
    } else if day == 2 {
        day02::Day.answer(input, part)
    } else if day == 3 {
        day03::Day.answer(input, part)
    } else if day == 4 {
        day04::Day.answer(input, part)
    } else if day == 5 {
        day05::Day.answer(input, part)
    } else if day == 6 {
        day06::Day.answer(input, part)
    } else if day == 7 {
        day07::Day.answer(input, part)
    } else if day == 8 {
        day08::Day.answer(input, part)
    } else if day == 9 {
        day09::Day.answer(input, part)
    } else if day == 10 {
        day10::Day.answer(input, part)
    } else if day == 11 {
        day11::Day.answer(input, part)
    } else if day == 12 {
        day12::Day.answer(input, part)
    } else if day == 13 {
        day13::Day.answer(input, part)
    } else if day == 14 {
        day14::Day.answer(input, part)
    } else if day == 15 {
        day15::Day.answer(input, part)
    } else if day == 16 {
        day16::Day.answer(input, part)
    } else if day == 17 {
        day17::Day.answer(input, part)
    } else if day == 18 {
        day18::Day.answer(input, part)
    } else if day == 19 {
        day19::Day.answer(input, part)
    } else if day == 20 {
        day20::Day.answer(input, part)
    } else {
        None
    }
}

/// The solver of a day, or `None` where no solver is registered for it.
/// Solvers are registered for the days from 0 to `LAST_DAY`; each call makes
/// a new one, and the solvers hold no state.
#[must_use]
pub fn get_day(day: usize) -> (r: Option<Box<dyn Solution>>)
    ensures
        r is Some <==> day <= LAST_DAY,
        r matches Some(solver) ==> forall|input: Seq<char>, part: Part|
            (#[trigger] solver.answer(input, part)) == registered_answer(day, input, part),
{
    match day {
        0 => Some(Box::new(day00::Day)),
        1 => Some(Box::new(day01::Day)),
        2 => Some(Box::new(day02::Day)),
        3 => Some(Box::new(day03::Day)),
        4 => Some(Box::new(day04::Day)),
        5 => Some(Box::new(day05::Day)),
        6 => Some(Box::new(day06::Day)),
        7 => Some(Box::new(day07::Day)),
        8 => Some(Box::new(day08::Day)),
        9 => Some(Box::new(day09::Day)),
        10 => Some(Box::new(day10::Day)),
        11 => Some(Box::new(day11::Day)),
        12 => Some(Box::new(day12::Day)),
        13 => Some(Box::new(day13::Day)),
        14 => Some(Box::new(day14::Day)),
        15 => Some(Box::new(day15::Day)),
        16 => Some(Box::new(day16::Day)),
        17 => Some(Box::new(day17::Day)),
        18 => Some(Box::new(day18::Day)),
        19 => Some(Box::new(day19::Day)),
        20 => Some(Box::new(day20::Day)),
        _ => None,
    }
}

/// A day without a registered solver has no answer.
pub proof fn lemma_unregistered_has_no_answer(day: usize, input: Seq<char>, part: Part)
    requires
        day > LAST_DAY,
    ensures
        registered_answer(day, input, part) is None,
{
}

} // verus!
