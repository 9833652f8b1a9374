//! The empty day: a solver that answers neither part.

use crate::solution::{Answer, Part, Solution, SolvedValue};
use vstd::prelude::*;

verus! {

pub struct Day;

impl Solution for Day {
    open spec fn answer(&self, input: Seq<char>, part: Part) -> Option<Answer> {
        None
    }

    fn part1(&self, _input: &str) -> (r: Option<SolvedValue>) {
        None
    }

    fn part2(&self, _input: &str) -> (r: Option<SolvedValue>) {
        None
    }
}

} // verus!
