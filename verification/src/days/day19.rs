//! Day 19: designs of stripes that are laid out with towels, one towel
//! after the other. Part one counts the designs that can be laid out at
//! all; part two adds up the numbers of ways in which each can be.

use crate::parallel::par_map;
use crate::solution::{answer_of, Answer, Part, Solution, SolvedValue};
use crate::text::{chars_of, lines, lines_of, matches_at, matches_here, rows, split, split_by};
use vstd::prelude::*;

verus! {

/// The number of ways to lay out the stripes of a design from index `from`
/// on. `None` where a number does not fit the machine word.
pub open spec fn ways_from(design: Seq<char>, towels: Seq<Seq<char>>, from: int) -> Option<usize>
    decreases design.len() - from, 1nat, 0nat,
{
    if from < 0 || from >= design.len() {
        Some(1)
    } else {
        ways_over(design, towels, from, 0, 0)
    }
}

/// The number of such ways that begin with one of the towels from `i` on,
/// added to `acc`. A towel without stripes begins none.
pub open spec fn ways_over(
    design: Seq<char>,
    towels: Seq<Seq<char>>,
    from: int,
    i: int,
    acc: usize,
) -> Option<usize>
    decreases design.len() - from, 0nat, towels.len() - i,
{
    if i < 0 || i >= towels.len() || from < 0 || from >= design.len() {
        Some(acc)
    } else if towels[i].len() == 0 || !matches_at(design, towels[i], from) {
        ways_over(design, towels, from, i + 1, acc)
    } else {
        match ways_from(design, towels, from + towels[i].len()) {
            Some(n) => match acc.checked_add(n) {
                Some(more) => ways_over(design, towels, from, i + 1, more),
                None => None,
            },
            None => None,
        }
    }
}

/// The number of ways to lay out a design with the towels.
#[verifier::loop_isolation(false)]
pub fn design_possible_count(design: &Vec<char>, towels: &Vec<Vec<char>>) -> (r: Option<usize>)
    ensures
        r == ways_from(design@, rows(towels@), 0),
{
    let ghost stripes = rows(towels@);
    let n = design.len();
    // For every index from the end on, the number of ways from there.
    let mut known: Vec<Option<usize>> = Vec::new();
    while known.len() <= n
        invariant
            known.len() <= n + 1,
            forall|j: int| 0 <= j < known.len() ==> #[trigger] known@[j] == Some(1usize),
        decreases n + 1 - known.len(),
    {
        known.push(Some(1));
    }
    let mut from: usize = n;
    while from > 0
        invariant
            from <= n,
            known.len() == n + 1,
            forall|j: int| from <= j <= n ==> #[trigger] known@[j] == ways_from(design@, stripes, j),
        decreases from,
    {
        from -= 1;
        let mut acc: Option<usize> = Some(0);
        let mut i: usize = 0;
        while i < towels.len()
            invariant
                i <= towels.len(),
                from < n,
                known.len() == n + 1,
                forall|j: int|
                    from < j <= n ==> #[trigger] known@[j] == ways_from(design@, stripes, j),
                match acc {
                    Some(sum) => ways_from(design@, stripes, from as int) == ways_over(
                        design@,
                        stripes,
                        from as int,
                        i as int,
                        sum,
                    ),
                    None => ways_from(design@, stripes, from as int) is None,
                },
            decreases towels.len() - i,
        {
            let towel = &towels[i];
            assert(stripes[i as int] == towel@);
            if towel.len() > 0 && matches_here(design, towel, from) {
                let after = from + towel.len();
                acc = match (acc, known[after]) {
                    (Some(sum), Some(ways)) => sum.checked_add(ways),
                    _ => None,
                };
            }
            i += 1;
        }
        known.set(from, acc);
    }
    known[0]
}

/// The towels and the designs of a puzzle text: the towels on the first
/// line with `, ` between them, a line that is passed over, and one
/// design on every further line. `None` for a text without a line.
pub open spec fn parse_puzzle(input: Seq<char>) -> Option<(Seq<Seq<char>>, Seq<Seq<char>>)> {
    let ls = lines(input);
    if ls.len() == 0 {
        None
    } else {
        Some(
            (
                split(ls[0], ", "@),
                if ls.len() >= 2 {
                    ls.subrange(2, ls.len() as int)
                } else {
                    Seq::empty()
                },
            ),
        )
    }
}

/// Reads the towels and the designs of a puzzle text.
pub fn parse_input(input: &Vec<char>) -> (r: Option<(Vec<Vec<char>>, Vec<Vec<char>>)>)
    ensures
        match r {
            Some((towels, designs)) => parse_puzzle(input@) == Some((rows(towels@), rows(designs@))),
            None => parse_puzzle(input@) is None,
        },
{
    let mut all = lines_of(input);
    let ghost ls = rows(all@);
    if all.len() == 0 {
        return None;
    }
    assert(ls[0] == all@[0]@);
    let towels = split_by(&all[0], ", ");
    let designs = if all.len() >= 2 {
        let rest = all.split_off(2);
        assert(rows(rest@) =~= ls.subrange(2, ls.len() as int));
        rest
    } else {
        let none: Vec<Vec<char>> = Vec::new();
        assert(rows(none@) =~= Seq::<Seq<char>>::empty());
        none
    };
    Some((towels, designs))
}

/// The number of designs from `i` on that count, or with `all` set the
/// number of ways of all of them, added to `acc`.
pub open spec fn total_from(
    towels: Seq<Seq<char>>,
    designs: Seq<Seq<char>>,
    all: bool,
    i: int,
    acc: usize,
) -> Option<usize>
    decreases designs.len() - i,
{
    if i < 0 || i >= designs.len() {
        Some(acc)
    } else {
        match ways_from(designs[i], towels, 0) {
            Some(n) => match acc.checked_add(
                if all {
                    n
                } else if n > 0 {
                    1
                } else {
                    0
                },
            ) {
                Some(more) => total_from(towels, designs, all, i + 1, more),
                None => None,
            },
            None => None,
        }
    }
}

/// The answer of a part.
pub open spec fn solve(input: Seq<char>, part: Part) -> Option<Answer> {
    match parse_puzzle(input) {
        Some((towels, designs)) => match total_from(towels, designs, part == Part::Two, 0, 0) {
            Some(n) => Some(Answer::Number(n)),
            None => None,
        },
        None => None,
    }
}

#[verifier::loop_isolation(false)]
fn count(input: &str, all: bool) -> (r: Option<SolvedValue>)
    ensures
        answer_of(r) == (match parse_puzzle(input@) {
            Some((towels, designs)) => match total_from(towels, designs, all, 0, 0) {
                Some(n) => Some(Answer::Number(n)),
                None => None,
            },
            None => None,
        }),
{
    let chars = chars_of(input);
    let (towels, designs) = match parse_input(&chars) {
        Some(parsed) => parsed,
        None => {
            return None;
        },
    };
    let each = |design: &Vec<char>| -> (r: Option<usize>)
        ensures
            r == ways_from(design@, rows(towels@), 0),
        { design_possible_count(design, &towels) };
    let ways = par_map(&designs, each);
    let mut total: usize = 0;
    let mut i: usize = 0;
    while i < designs.len()
        invariant
            i <= designs.len(),
            total_from(rows(towels@), rows(designs@), all, 0, 0) == total_from(
                rows(towels@),
                rows(designs@),
                all,
                i as int,
                total,
            ),
        decreases designs.len() - i,
    {
        assert(rows(designs@)[i as int] == designs@[i as int]@);
        let more = match ways[i] {
            Some(n) => total.checked_add(
                if all {
                    n
                } else if n > 0 {
                    1
                } else {
                    0
                },
            ),
            None => None,
        };
        match more {
            Some(more) => {
                total = more;
            },
            None => {
                return None;
            },
        }
        i += 1;
    }
    Some(SolvedValue::Number(total))
}

pub struct Day;

impl Solution for Day {
    open spec fn answer(&self, input: Seq<char>, part: Part) -> Option<Answer> {
        solve(input, part)
    }

    fn part1(&self, input: &str) -> (r: Option<SolvedValue>) {
        count(input, false)
    }

    fn part2(&self, input: &str) -> (r: Option<SolvedValue>) {
        count(input, true)
    }
}

} // verus!
