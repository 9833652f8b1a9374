//! Day 1: two lists of numbers side by side. Part one adds up the
//! distances between the numbers of both lists, paired in rising order;
//! part two adds up each number of the left list times the number of times
//! it stands in the right list.

use crate::solution::{Answer, Part, Solution, SolvedValue};
use crate::text::{chars_of, lines, lines_of, parse_i64, parse_i64_spec, rows, words, words_of};
use std::collections::HashMap;
use vstd::prelude::*;
use vstd::std_specs::hash::group_hash_axioms;

verus! {

broadcast use group_hash_axioms;

/// The two lists of a puzzle text.
pub struct Lists {
    pub left: Seq<i64>,
    pub right: Seq<i64>,
}

/// The lists of the lines from `i` on, added to `acc`: the first two
/// numbers of every line go to the left and to the right list.
pub open spec fn lists_from(lines: Seq<Seq<char>>, i: int, acc: Lists) -> Option<Lists>
    decreases lines.len() - i,
{
    if i < 0 || i >= lines.len() {
        Some(acc)
    } else {
        let parts = words(lines[i]);
        if parts.len() < 2 {
            None
        } else {
            match (parse_i64_spec(parts[0]), parse_i64_spec(parts[1])) {
                (Some(l), Some(r)) => lists_from(
                    lines,
                    i + 1,
                    Lists { left: acc.left.push(l), right: acc.right.push(r) },
                ),
                _ => None,
            }
        }
    }
}

/// The lists of a puzzle text.
pub open spec fn parse_lists(input: Seq<char>) -> Option<Lists> {
    lists_from(lines(input), 0, Lists { left: Seq::empty(), right: Seq::empty() })
}

/// Reads the two lists of a puzzle text.
#[verifier::loop_isolation(false)]
pub fn get_left_right_lists(input: &Vec<char>) -> (r: Option<(Vec<i64>, Vec<i64>)>)
    ensures
        match r {
            Some((left, right)) => parse_lists(input@) == Some(Lists { left: left@, right: right@ }),
            None => parse_lists(input@) is None,
        },
{
    let all = lines_of(input);
    let mut left: Vec<i64> = Vec::new();
    let mut right: Vec<i64> = Vec::new();
    let mut i: usize = 0;
    while i < all.len()
        invariant
            i <= all.len(),
            parse_lists(input@) == lists_from(
                lines(input@),
                i as int,
                Lists { left: left@, right: right@ },
            ),
        decreases all.len() - i,
    {
        assert(rows(all@)[i as int] == all@[i as int]@);
        let parts = words_of(&all[i]);
        if parts.len() < 2 {
            return None;
        }
        assert(rows(parts@)[0] == parts@[0]@);
        assert(rows(parts@)[1] == parts@[1]@);
        match (parse_i64(&parts[0]), parse_i64(&parts[1])) {
            (Some(l), Some(r)) => {
                left.push(l);
                right.push(r);
            },
            _ => {
                return None;
            },
        }
        i += 1;
    }
    Some((left, right))
}

/// The first index at or after `from` of a number larger than `x`, or the
/// length of the list.
pub open spec fn place_from(list: Seq<i64>, x: i64, from: int) -> int
    decreases list.len() - from,
{
    if from < 0 || from >= list.len() {
        list.len() as int
    } else if x < list[from] {
        from
    } else {
        place_from(list, x, from + 1)
    }
}

/// The numbers of a list in rising order: each, one after the other, is
/// put before the first larger number of the ordered list.
pub open spec fn sorted(list: Seq<i64>) -> Seq<i64>
    decreases list.len(),
{
    if list.len() == 0 {
        Seq::empty()
    } else {
        let before = sorted(list.drop_last());
        let at = place_from(before, list.last(), 0);
        if 0 <= at <= before.len() {
            before.insert(at, list.last())
        } else {
            before
        }
    }
}

/// `place_from` lies in `from..=len`, after numbers that are no larger and
/// before one that is.
pub proof fn lemma_place_from(list: Seq<i64>, x: i64, from: int)
    requires
        0 <= from <= list.len(),
    ensures
        from <= place_from(list, x, from) <= list.len(),
        forall|k: int| from <= k < place_from(list, x, from) ==> list[k] <= x,
        place_from(list, x, from) < list.len() ==> x < list[place_from(list, x, from)],
    decreases list.len() - from,
{
    if from < list.len() && !(x < list[from]) {
        lemma_place_from(list, x, from + 1);
    }
}

/// Whether the numbers of a list rise.
pub open spec fn rising(list: Seq<i64>) -> bool {
    forall|i: int, j: int| 0 <= i <= j < list.len() ==> list[i] <= list[j]
}

/// The ordered list rises, and holds every number as often as the list
/// does.
pub proof fn lemma_sorted(list: Seq<i64>)
    ensures
        rising(sorted(list)),
        sorted(list).len() == list.len(),
        sorted(list).to_multiset() == list.to_multiset(),
    decreases list.len(),
{
    if list.len() > 0 {
        let rest = list.drop_last();
        let x = list.last();
        lemma_sorted(rest);
        let before = sorted(rest);
        lemma_place_from(before, x, 0);
        let at = place_from(before, x, 0);
        let after = before.insert(at, x);
        assert forall|i: int, j: int| 0 <= i <= j < after.len() implies after[i] <= after[j] by {
            if i < at && j > at {
                assert(after[i] == before[i]);
                assert(after[j] == before[j - 1]);
                assert(before[i] <= x);
                assert(x < before[at]);
                assert(before[at] <= before[j - 1]);
            } else if i < at && j < at {
                assert(after[i] == before[i] && after[j] == before[j]);
            } else if i > at {
                assert(after[i] == before[i - 1] && after[j] == before[j - 1]);
            } else if i == at && j > at {
                assert(after[j] == before[j - 1]);
                assert(before[at] <= before[j - 1]);
            } else if j == at && i < at {
                assert(after[i] == before[i]);
            }
        }
        vstd::seq_lib::to_multiset_insert(before, at, x);
        assert(list =~= rest.push(x));
        vstd::seq_lib::to_multiset_build(rest, x);
        assert(sorted(list) == after);
        assert(after.to_multiset() == before.to_multiset().insert(x));
        assert(list.to_multiset() =~= rest.to_multiset().insert(x));
    } else {
        assert(list =~= Seq::<i64>::empty());
    }
}

/// Puts the numbers of a list in rising order.
pub fn sort(list: &Vec<i64>) -> (r: Vec<i64>)
    ensures
        r@ == sorted(list@),
{
    let mut r: Vec<i64> = Vec::new();
    let mut i: usize = 0;
    assert(list@.take(0) =~= Seq::<i64>::empty());
    while i < list.len()
        invariant
            i <= list.len(),
            r@ == sorted(list@.take(i as int)),
        decreases list.len() - i,
    {
        let x = list[i];
        let mut at: usize = 0;
        while at < r.len() && !(x < r[at])
            invariant
                at <= r.len(),
                place_from(r@, x, 0) == place_from(r@, x, at as int),
            decreases r.len() - at,
        {
            at += 1;
        }
        proof {
            lemma_place_from(r@, x, 0);
            assert(list@.take(i + 1).drop_last() =~= list@.take(i as int));
        }
        r.insert(at, x);
        i += 1;
    }
    assert(list@.take(i as int) =~= list@);
    r
}

/// The distance between two numbers, where it fits 64 bits.
pub open spec fn distance(l: i64, r: i64) -> Option<i64> {
    match l.checked_sub(r) {
        Some(d) => if d < 0 {
            0i64.checked_sub(d)
        } else {
            Some(d)
        },
        None => None,
    }
}

/// The sum of the distances between the numbers of two lists at the same
/// index, from index `i` on, added to `acc`.
pub open spec fn distances_from(left: Seq<i64>, right: Seq<i64>, i: int, acc: i64) -> Option<i64>
    decreases left.len() - i,
{
    if i < 0 || i >= left.len() || i >= right.len() {
        Some(acc)
    } else {
        match distance(left[i], right[i]) {
            Some(d) => match acc.checked_add(d) {
                Some(more) => distances_from(left, right, i + 1, more),
                None => None,
            },
            None => None,
        }
    }
}

/// How often a number stands among the first `count` of a list.
pub open spec fn occurrences(list: Seq<i64>, x: i64, count: nat) -> nat
    decreases count,
{
    if count == 0 || count > list.len() {
        0
    } else {
        occurrences(list, x, (count - 1) as nat) + (if list[count - 1] == x {
            1nat
        } else {
            0nat
        })
    }
}

/// No number stands more often among some of a list than there are.
pub proof fn lemma_occurrences(list: Seq<i64>, x: i64, count: nat)
    requires
        count <= list.len(),
    ensures
        occurrences(list, x, count) <= count,
    decreases count,
{
    if count > 0 {
        lemma_occurrences(list, x, (count - 1) as nat);
    }
}

/// The sum over the numbers of the left list from `i` on of the number
/// times how often it stands in the right list, added to `acc`.
pub open spec fn similarity_from(left: Seq<i64>, right: Seq<i64>, i: int, acc: i64) -> Option<i64>
    decreases left.len() - i,
{
    if i < 0 || i >= left.len() {
        Some(acc)
    } else {
        let times = occurrences(right, left[i], right.len());
        if times > i64::MAX {
            None
        } else {
            match left[i].checked_mul(times as i64) {
                Some(product) => match acc.checked_add(product) {
                    Some(more) => similarity_from(left, right, i + 1, more),
                    None => None,
                },
                None => None,
            }
        }
    }
}

/// A sum as an answer, where it is not negative and fits the machine word.
pub open spec fn as_answer(sum: Option<i64>) -> Option<Answer> {
    match sum {
        Some(n) => if 0 <= n <= usize::MAX {
            Some(Answer::Number(n as usize))
        } else {
            None
        },
        None => None,
    }
}

/// The answer of a part.
pub open spec fn solve(input: Seq<char>, part: Part) -> Option<Answer> {
    match parse_lists(input) {
        Some(lists) => as_answer(
            if part == Part::One {
                distances_from(sorted(lists.left), sorted(lists.right), 0, 0)
            } else {
                similarity_from(lists.left, lists.right, 0, 0)
            },
        ),
        None => None,
    }
}

fn answer_for(sum: Option<i64>) -> (r: Option<SolvedValue>)
    ensures
        crate::solution::answer_of(r) == as_answer(sum),
{
    match sum {
        Some(n) => if n >= 0 && n as u64 <= usize::MAX as u64 {
            Some(SolvedValue::Number(n as usize))
        } else {
            None
        },
        None => None,
    }
}

/// How often each number stands in a list.
#[verifier::loop_isolation(false)]
fn count_all(right: &Vec<i64>) -> (counts: HashMap<i64, usize>)
    ensures
        forall|x: i64|
            (if counts@.contains_key(x) {
                counts@[x] as nat
            } else {
                0nat
            }) == #[trigger] occurrences(right@, x, right@.len()),
{
    let mut counts: HashMap<i64, usize> = HashMap::new();
    let mut i: usize = 0;
    while i < right.len()
        invariant
            i <= right.len(),
            forall|x: i64|
                (if counts@.contains_key(x) {
                    counts@[x] as nat
                } else {
                    0nat
                }) == #[trigger] occurrences(right@, x, i as nat),
        decreases right.len() - i,
    {
        let r = right[i];
        let seen = match counts.get(&r) {
            Some(n) => *n,
            None => 0,
        };
        proof {
            lemma_occurrences(right@, r, i as nat);
            assert(seen == occurrences(right@, r, i as nat));
        }
        let ghost before = counts@;
        counts.insert(r, seen + 1);
        i += 1;
        assert forall|x: i64|
            (if counts@.contains_key(x) {
                counts@[x] as nat
            } else {
                0nat
            }) == #[trigger] occurrences(right@, x, i as nat) by {
            assert(counts@ == before.insert(r, (seen + 1) as usize));
            assert((if before.contains_key(x) {
                before[x] as nat
            } else {
                0nat
            }) == occurrences(right@, x, (i - 1) as nat));
            assert(occurrences(right@, x, i as nat) == occurrences(right@, x, (i - 1) as nat) + (
            if right@[i - 1] == x {
                1nat
            } else {
                0nat
            }));
        }
    }
    counts
}

pub struct Day;

impl Solution for Day {
    open spec fn answer(&self, input: Seq<char>, part: Part) -> Option<Answer> {
        solve(input, part)
    }

    #[verifier::loop_isolation(false)]
    fn part1(&self, input: &str) -> (r: Option<SolvedValue>) {
        let chars = chars_of(input);
        let (left, right) = match get_left_right_lists(&chars) {
            Some(lists) => lists,
            None => {
                return None;
            },
        };
        let left = sort(&left);
        let right = sort(&right);
        let mut total: Option<i64> = Some(0);
        let mut i: usize = 0;
        while i < left.len() && i < right.len() && total.is_some()
            invariant
                i <= left.len(),
                match total {
                    Some(sum) => distances_from(left@, right@, 0, 0) == distances_from(
                        left@,
                        right@,
                        i as int,
                        sum,
                    ),
                    None => distances_from(left@, right@, 0, 0) is None,
                },
            decreases left.len() - i + (if total is Some { 1int } else { 0int }),
        {
            let d = match left[i].checked_sub(right[i]) {
                Some(d) => if d < 0 {
                    0i64.checked_sub(d)
                } else {
                    Some(d)
                },
                None => None,
            };
            total = match (total, d) {
                (Some(sum), Some(d)) => sum.checked_add(d),
                _ => None,
            };
            if total.is_some() {
                i += 1;
            }
        }
        answer_for(total)
    }

    #[verifier::loop_isolation(false)]
    fn part2(&self, input: &str) -> (r: Option<SolvedValue>) {
        let chars = chars_of(input);
        let (left, right) = match get_left_right_lists(&chars) {
            Some(lists) => lists,
            None => {
                return None;
            },
        };
        let right_hash = count_all(&right);
        let mut result: Option<i64> = Some(0);
        let mut i: usize = 0;
        while i < left.len() && result.is_some()
            invariant
                i <= left.len(),
                match result {
                    Some(sum) => similarity_from(left@, right@, 0, 0) == similarity_from(
                        left@,
                        right@,
                        i as int,
                        sum,
                    ),
                    None => similarity_from(left@, right@, 0, 0) is None,
                },
            decreases left.len() - i + (if result is Some { 1int } else { 0int }),
        {
            let l = left[i];
            let times = match right_hash.get(&l) {
                Some(n) => *n,
                None => 0,
            };
            assert(times == occurrences(right@, l, right@.len()));
            let product = if times as u64 > i64::MAX as u64 {
                None
            } else {
                l.checked_mul(times as i64)
            };
            result = match (result, product) {
                (Some(sum), Some(product)) => sum.checked_add(product),
                _ => None,
            };
            if result.is_some() {
                i += 1;
            }
        }
        answer_for(result)
    }
}

} // verus!
