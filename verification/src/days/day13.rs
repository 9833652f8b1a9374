//! Day 13: claw machines with two buttons and a prize. This module reads
//! the machines and prices the button presses that win a prize; finding
//! the presses takes a solver for linear equations over real numbers,
//! which is not part of this library.

use crate::solution::{Answer, Part, Solution, SolvedValue};
use crate::text::{
    chars_of, lines, lines_of, parse_u64, parse_u64_spec, rows, split, split_by, string_of,
};
use vstd::prelude::*;

verus! {

/// A claw machine: how far each button moves the claw to the right and
/// forward, and where the prize lies.
#[derive(Debug, Clone, Copy)]
pub struct Machine {
    pub button_a_vec: (u64, u64),
    pub button_b_vec: (u64, u64),
    pub price_location: (u64, u64),
}

/// The pattern of the line of a button.
pub const BUTTON_PATTERN: &'static str = r"Button [AB]: X\+(?<x>\d+), Y\+(?<y>\d+)";

/// The pattern of the line of the prize.
pub const PRIZE_PATTERN: &'static str = r"Prize: X=(?<x>\d+), Y=(?<y>\d+)";

/// What the groups named `first` and `second` of the first match of a
/// pattern in a text hold; `None` where the pattern is not a valid one,
/// does not match, or has no such groups.
pub uninterp spec fn named_pair(
    pattern: Seq<char>,
    first: Seq<char>,
    second: Seq<char>,
    text: Seq<char>,
) -> Option<(Seq<char>, Seq<char>)>;

/// Compiles a pattern with `regex::Regex::new`, searches a text for its
/// first match with `Regex::captures`, and hands out what two named groups
/// hold, by `Captures::name` and `Match::as_str`. The contract gives the
/// result a name and claims only that it depends on the four texts alone.
#[verifier::external_body]
fn capture_pair(pattern: &str, first: &str, second: &str, text: &str) -> (r: Option<(String, String)>)
    ensures
        match r {
            Some((x, y)) => named_pair(pattern@, first@, second@, text@) == Some((x@, y@)),
            None => named_pair(pattern@, first@, second@, text@) is None,
        },
{
    let re = regex::Regex::new(pattern).ok()?;
    let caps = re.captures(text)?;
    let x = caps.name(first)?.as_str().to_string();
    let y = caps.name(second)?.as_str().to_string();
    Some((x, y))
}

/// The two numbers that two texts write.
pub open spec fn pair_of(texts: (Seq<char>, Seq<char>)) -> Option<(u64, u64)> {
    match (parse_u64_spec(texts.0), parse_u64_spec(texts.1)) {
        (Some(x), Some(y)) => Some((x, y)),
        _ => None,
    }
}

/// The machine that the numbers found on its three lines describe.
pub open spec fn machine_of(
    button_a: (Seq<char>, Seq<char>),
    button_b: (Seq<char>, Seq<char>),
    prize: (Seq<char>, Seq<char>),
) -> Option<Machine> {
    match (pair_of(button_a), pair_of(button_b), pair_of(prize)) {
        (Some(a), Some(b), Some(p)) => Some(
            Machine { button_a_vec: a, button_b_vec: b, price_location: p },
        ),
        _ => None,
    }
}

fn read_pair(texts: &(String, String)) -> (r: Option<(u64, u64)>)
    ensures
        r == pair_of((texts.0@, texts.1@)),
{
    let x = parse_u64(&chars_of(texts.0.as_str()));
    let y = parse_u64(&chars_of(texts.1.as_str()));
    match (x, y) {
        (Some(x), Some(y)) => Some((x, y)),
        _ => None,
    }
}

impl Machine {
    /// The machine that the numbers found on its three lines describe.
    pub fn from_captures(
        button_a: &(String, String),
        button_b: &(String, String),
        prize: &(String, String),
    ) -> (r: Option<Machine>)
        ensures
            r == machine_of(
                (button_a.0@, button_a.1@),
                (button_b.0@, button_b.1@),
                (prize.0@, prize.1@),
            ),
    {
        match (read_pair(button_a), read_pair(button_b), read_pair(prize)) {
            (Some(a), Some(b), Some(p)) => Some(
                Machine { button_a_vec: a, button_b_vec: b, price_location: p },
            ),
            _ => None,
        }
    }

    /// The machine with its prize ten billion times a thousand further
    /// away in both directions.
    pub open spec fn spec_far(self) -> Option<Machine> {
        match (
            self.price_location.0.checked_add(10_000_000_000_000),
            self.price_location.1.checked_add(10_000_000_000_000),
        ) {
            (Some(x), Some(y)) => Some(Machine { price_location: (x, y), ..self }),
            _ => None,
        }
    }

    /// The machine with its prize further away, as part two has it.
    pub fn far(&self) -> (r: Option<Machine>)
        ensures
            r == self.spec_far(),
    {
        match (
            self.price_location.0.checked_add(10_000_000_000_000),
            self.price_location.1.checked_add(10_000_000_000_000),
        ) {
            (Some(x), Some(y)) => Some(Machine { price_location: (x, y), ..*self }),
            _ => None,
        }
    }
}

/// The price of button presses: three tokens for every press of the
/// first button and one for every press of the second.
pub open spec fn tokens_price(presses: (usize, usize)) -> Option<usize> {
    match presses.0.checked_mul(3) {
        Some(first) => first.checked_add(presses.1),
        None => None,
    }
}

/// The price of button presses.
pub fn min_tokens_price(presses: (usize, usize)) -> (r: Option<usize>)
    ensures
        r == tokens_price(presses),
{
    match presses.0.checked_mul(3) {
        Some(first) => first.checked_add(presses.1),
        None => None,
    }
}

/// The sum of the prices of the presses from `i` on, added to `acc`.
pub open spec fn prices_from(presses: Seq<(usize, usize)>, i: int, acc: usize) -> Option<usize>
    decreases presses.len() - i,
{
    if i < 0 || i >= presses.len() {
        Some(acc)
    } else {
        match tokens_price(presses[i]) {
            Some(price) => match acc.checked_add(price) {
                Some(more) => prices_from(presses, i + 1, more),
                None => None,
            },
            None => None,
        }
    }
}

/// The sum of the prices of the presses found for a list of machines.
#[verifier::loop_isolation(false)]
pub fn total_price(presses: &Vec<(usize, usize)>) -> (r: Option<usize>)
    ensures
        r == prices_from(presses@, 0, 0),
{
    let mut total: usize = 0;
    let mut i: usize = 0;
    while i < presses.len()
        invariant
            i <= presses.len(),
            prices_from(presses@, 0, 0) == prices_from(presses@, i as int, total),
        decreases presses.len() - i,
    {
        let more = match min_tokens_price(presses[i]) {
            Some(price) => total.checked_add(price),
            None => None,
        };
        total = match more {
            Some(more) => more,
            None => {
                return None;
            },
        };
        i += 1;
    }
    Some(total)
}

/// The machine of a block of lines: the two buttons on the first two
/// lines and the prize on the third.
pub open spec fn parse_machine(block: Seq<char>) -> Option<Machine> {
    let ls = lines(block);
    if ls.len() < 3 {
        None
    } else {
        match (
            named_pair(BUTTON_PATTERN@, "x"@, "y"@, ls[0]),
            named_pair(BUTTON_PATTERN@, "x"@, "y"@, ls[1]),
            named_pair(PRIZE_PATTERN@, "x"@, "y"@, ls[2]),
        ) {
            (Some(a), Some(b), Some(p)) => machine_of(a, b, p),
            _ => None,
        }
    }
}

/// The machines of the blocks from `i` on, added to `acc`.
pub open spec fn machines_from(blocks: Seq<Seq<char>>, i: int, acc: Seq<Machine>) -> Option<
    Seq<Machine>,
>
    decreases blocks.len() - i,
{
    if i < 0 || i >= blocks.len() {
        Some(acc)
    } else {
        match parse_machine(blocks[i]) {
            Some(machine) => machines_from(blocks, i + 1, acc.push(machine)),
            None => None,
        }
    }
}

/// The machines of a puzzle text, with an empty line between each two.
pub open spec fn parse_puzzle(input: Seq<char>) -> Option<Seq<Machine>> {
    machines_from(split(input, "\n\n"@), 0, Seq::empty())
}

fn read_machine(block: &Vec<char>) -> (r: Option<Machine>)
    ensures
        r == parse_machine(block@),
{
    let all = lines_of(block);
    if all.len() < 3 {
        return None;
    }
    assert(rows(all@)[0] == all@[0]@);
    assert(rows(all@)[1] == all@[1]@);
    assert(rows(all@)[2] == all@[2]@);
    let first = string_of(&all[0]);
    let second = string_of(&all[1]);
    let third = string_of(&all[2]);
    let a = capture_pair(BUTTON_PATTERN, "x", "y", first.as_str());
    let b = capture_pair(BUTTON_PATTERN, "x", "y", second.as_str());
    let p = capture_pair(PRIZE_PATTERN, "x", "y", third.as_str());
    match (a, b, p) {
        (Some(a), Some(b), Some(p)) => Machine::from_captures(&a, &b, &p),
        _ => None,
    }
}

/// Reads the machines of a puzzle text.
#[verifier::loop_isolation(false)]
pub fn parse_machines(input: &str) -> (r: Option<Vec<Machine>>)
    ensures
        match r {
            Some(machines) => parse_puzzle(input@) == Some(machines@),
            None => parse_puzzle(input@) is None,
        },
{
    let chars = chars_of(input);
    let blocks = split_by(&chars, "\n\n");
    let mut machines: Vec<Machine> = Vec::new();
    let mut i: usize = 0;
    while i < blocks.len()
        invariant
            i <= blocks.len(),
            parse_puzzle(input@) == machines_from(rows(blocks@), i as int, machines@),
        decreases blocks.len() - i,
    {
        assert(rows(blocks@)[i as int] == blocks@[i as int]@);
        match read_machine(&blocks[i]) {
            Some(machine) => {
                machines.push(machine);
            },
            None => {
                return None;
            },
        }
        i += 1;
    }
    Some(machines)
}

/// The solver of this day answers neither part: the presses that win a
/// prize are found by a solver for real numbers outside of this library,
/// which reads the machines with `parse_machines` and prices what it
/// finds with `total_price`.
pub struct Day;

impl Solution for Day {
    open spec fn answer(&self, input: Seq<char>, part: Part) -> Option<Answer> {
        None
    }

    fn part1(&self, _input: &str) -> (r: Option<SolvedValue>) {
        None
    }

    fn part2(&self, _input: &str) -> (r: Option<SolvedValue>) {
        None
    }
}

} // verus!
