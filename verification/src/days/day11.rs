//! Day 11: stones with numbers that change at every blink. A stone with 0
//! becomes a stone with 1; a stone with an even number of digits splits
//! into two stones with its left and right digits; every other stone gets
//! its number multiplied by 2024. The answer is the number of stones after
//! 25 blinks (part one) or 75 (part two).

use crate::parallel::par_map;
use crate::solution::{answer_of, Answer, Part, Solution, SolvedValue};
use crate::text::{
    chars_of, count_digits, digits, parse_usize, parse_usize_spec, power_of_ten, rows, ten_to, words,
    words_of,
};
use std::collections::HashMap;
use vstd::prelude::*;
use vstd::std_specs::hash::group_hash_axioms;

verus! {

broadcast use group_hash_axioms;

/// A stone with its number.
#[derive(Debug, Clone, Copy, PartialEq, Eq, Structural)]
pub struct Stone(pub usize);

/// The number of stones that a stone with the number `value` becomes in
/// `blinks` blinks. `None` where a number does not fit the machine word.
pub open spec fn blinked(value: usize, blinks: nat) -> Option<usize>
    decreases blinks,
{
    if blinks == 0 {
        Some(1)
    } else {
        let rest = (blinks - 1) as nat;
        if value == 0 {
            blinked(1, rest)
        } else if digits(value as nat) % 2 == 0 {
            match power_of_ten(digits(value as nat) / 2) {
                Some(factor) => if factor == 0 {
                    None
                } else {
                    match (blinked(value / factor, rest), blinked(value % factor, rest)) {
                        (Some(left), Some(right)) => left.checked_add(right),
                        _ => None,
                    }
                },
                None => None,
            }
        } else {
            match value.checked_mul(2024) {
                Some(more) => blinked(more, rest),
                None => None,
            }
        }
    }
}

/// The key under which the cache keeps the number of stones for a stone
/// and a number of blinks.
pub open spec fn cache_key(value: usize, blinks: usize) -> u128 {
    (value as u128 * 0x1_0000_0000_0000_0000 + blinks as u128) as u128
}

/// Whether all that a cache holds is right.
pub open spec fn all_right(cache: Map<u128, Option<usize>>) -> bool {
    forall|key: u128| #[trigger]
        cache.contains_key(key) ==> cache[key] == blinked(
            (key / 0x1_0000_0000_0000_0000) as usize,
            (key % 0x1_0000_0000_0000_0000) as nat,
        )
}

fn key_for(value: usize, blinks: usize) -> (key: u128)
    ensures
        key == cache_key(value, blinks),
        key / 0x1_0000_0000_0000_0000 == value,
        key % 0x1_0000_0000_0000_0000 == blinks,
{
    assert(value <= 0xffff_ffff_ffff_ffff);
    assert(blinks <= 0xffff_ffff_ffff_ffff);
    (value as u128) * 0x1_0000_0000_0000_0000 + (blinks as u128)
}

impl Stone {
    /// The number of stones that the stone becomes in `n` blinks. What
    /// was found is kept in `cache` and looked up there.
    pub fn blink(self, n: usize, cache: &mut HashMap<u128, Option<usize>>) -> (r: Option<usize>)
        requires
            all_right(old(cache)@),
        ensures
            all_right(final(cache)@),
            r == blinked(self.0, n as nat),
        decreases n,
    {
        if n == 0 {
            return Some(1);
        }
        let key = key_for(self.0, n);
        if let Some(found) = cache.get(&key) {
            return *found;
        }
        let count = if self.0 == 0 {
            Stone(1).blink(n - 1, cache)
        } else {
            let d = count_digits(self.0);
            if d % 2 == 0 {
                match ten_to(d / 2) {
                    Some(factor) => if factor == 0 {
                        None
                    } else {
                        let left = Stone(self.0 / factor);
                        let right = Stone(self.0 % factor);
                        let a = left.blink(n - 1, cache);
                        let b = right.blink(n - 1, cache);
                        match (a, b) {
                            (Some(x), Some(y)) => x.checked_add(y),
                            _ => None,
                        }
                    },
                    None => None,
                }
            } else {
                match self.0.checked_mul(2024) {
                    Some(more) => Stone(more).blink(n - 1, cache),
                    None => None,
                }
            }
        };
        cache.insert(key, count);
        count
    }
}

/// The number of stones that a stone becomes in `n` blinks, found with a
/// cache of its own.
pub fn blink_alone(stone: Stone, n: usize) -> (r: Option<usize>)
    ensures
        r == blinked(stone.0, n as nat),
{
    let mut cache: HashMap<u128, Option<usize>> = HashMap::new();
    stone.blink(n, &mut cache)
}

/// The stones of the words from `i` on, added to `acc`.
pub open spec fn stones_from(words: Seq<Seq<char>>, i: int, acc: Seq<Stone>) -> Option<Seq<Stone>>
    decreases words.len() - i,
{
    if i < 0 || i >= words.len() {
        Some(acc)
    } else {
        match parse_usize_spec(words[i]) {
            Some(n) => stones_from(words, i + 1, acc.push(Stone(n))),
            None => None,
        }
    }
}

/// The stones of a puzzle text: numbers between white space.
pub open spec fn parse_stones(input: Seq<char>) -> Option<Seq<Stone>> {
    stones_from(words(input), 0, Seq::empty())
}

/// Reads the stones of a puzzle text.
#[verifier::loop_isolation(false)]
pub fn parse_input(input: &Vec<char>) -> (r: Option<Vec<Stone>>)
    ensures
        match r {
            Some(stones) => parse_stones(input@) == Some(stones@),
            None => parse_stones(input@) is None,
        },
{
    let all = words_of(input);
    let mut stones: Vec<Stone> = Vec::new();
    let mut i: usize = 0;
    while i < all.len()
        invariant
            i <= all.len(),
            parse_stones(input@) == stones_from(words(input@), i as int, stones@),
        decreases all.len() - i,
    {
        assert(rows(all@)[i as int] == all@[i as int]@);
        match parse_usize(&all[i]) {
            Some(n) => {
                stones.push(Stone(n));
            },
            None => {
                return None;
            },
        }
        i += 1;
    }
    Some(stones)
}

/// The number of stones that the stones from `i` on become, added to
/// `acc`.
pub open spec fn total_from(stones: Seq<Stone>, blinks: nat, i: int, acc: usize) -> Option<usize>
    decreases stones.len() - i,
{
    if i < 0 || i >= stones.len() {
        Some(acc)
    } else {
        match blinked(stones[i].0, blinks) {
            Some(n) => match acc.checked_add(n) {
                Some(more) => total_from(stones, blinks, i + 1, more),
                None => None,
            },
            None => None,
        }
    }
}

/// The answer of a part.
pub open spec fn solve(input: Seq<char>, part: Part) -> Option<Answer> {
    match parse_stones(input) {
        Some(stones) => match total_from(
            stones,
            if part == Part::One {
                25
            } else {
                75
            },
            0,
            0,
        ) {
            Some(n) => Some(Answer::Number(n)),
            None => None,
        },
        None => None,
    }
}

#[verifier::loop_isolation(false)]
fn count(input: &str, blinks: usize) -> (r: Option<SolvedValue>)
    ensures
        answer_of(r) == (match parse_stones(input@) {
            Some(stones) => match total_from(stones, blinks as nat, 0, 0) {
                Some(n) => Some(Answer::Number(n)),
                None => None,
            },
            None => None,
        }),
{
    let chars = chars_of(input);
    let stones = match parse_input(&chars) {
        Some(stones) => stones,
        None => {
            return None;
        },
    };
    let mut cache: HashMap<u128, Option<usize>> = HashMap::new();
    let mut total: usize = 0;
    let mut i: usize = 0;
    while i < stones.len()
        invariant
            i <= stones.len(),
            all_right(cache@),
            total_from(stones@, blinks as nat, 0, 0) == total_from(
                stones@,
                blinks as nat,
                i as int,
                total,
            ),
        decreases stones.len() - i,
    {
        let more = match stones[i].blink(blinks, &mut cache) {
            Some(n) => total.checked_add(n),
            None => None,
        };
        match more {
            Some(more) => {
                total = more;
            },
            None => {
                return None;
            },
        }
        i += 1;
    }
    Some(SolvedValue::Number(total))
}

pub struct Day;

impl Solution for Day {
    open spec fn answer(&self, input: Seq<char>, part: Part) -> Option<Answer> {
        solve(input, part)
    }

    fn part1(&self, input: &str) -> (r: Option<SolvedValue>) {
        count(input, 25)
    }

    #[verifier::loop_isolation(false)]
    fn part2(&self, input: &str) -> (r: Option<SolvedValue>) {
        let chars = chars_of(input);
        let stones = match parse_input(&chars) {
            Some(stones) => stones,
            None => {
                return None;
            },
        };
        let each = |stone: &Stone| -> (r: Option<usize>)
            ensures
                r == blinked(stone.0, 75),
            { blink_alone(*stone, 75) };
        let counts = par_map(&stones, each);
        let mut total: usize = 0;
        let mut i: usize = 0;
        while i < counts.len()
            invariant
                i <= counts.len(),
                total_from(stones@, 75, 0, 0) == total_from(stones@, 75, i as int, total),
            decreases counts.len() - i,
        {
            let more = match counts[i] {
                Some(n) => total.checked_add(n),
                None => None,
            };
            total = match more {
                Some(more) => more,
                None => {
                    return None;
                },
            };
            i += 1;
        }
        Some(SolvedValue::Number(total))
    }
}

} // verus!
