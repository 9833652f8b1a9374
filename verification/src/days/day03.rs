//! Day 3: a corrupted memory with instructions `mul(a,b)` in it. Part one
//! adds up the products of all of them; part two leaves out those that
//! follow a `don't()` before the next `do()`.

use crate::solution::{Answer, Part, Solution, SolvedValue};
use crate::text::{
    chars_of, decimal, is_digit, lemma_decimal_grows, matches_at, matches_here, rows, split,
    split_by,
};
use vstd::prelude::*;

verus! {

/// The first index at or after `from` that holds no digit, or the length
/// of the text.
pub open spec fn digits_end(s: Seq<char>, from: int) -> int
    decreases s.len() - from,
{
    if from < 0 || from >= s.len() || !is_digit(s[from]) {
        from
    } else {
        digits_end(s, from + 1)
    }
}

/// The digits run from `from` on ends at an index from `from` to the
/// length, and holds digits only.
pub proof fn lemma_digits_end(s: Seq<char>, from: int)
    requires
        0 <= from <= s.len(),
    ensures
        from <= digits_end(s, from) <= s.len(),
        forall|k: int| from <= k < digits_end(s, from) ==> is_digit(#[trigger] s[k]),
    decreases s.len() - from,
{
    if from < s.len() && is_digit(s[from]) {
        lemma_digits_end(s, from + 1);
    }
}

/// The number that stands at index `from`, with the index after it: the
/// longest run of digits there, which is not empty and writes a number of
/// at most 32 bits.
pub open spec fn number_at(s: Seq<char>, from: int) -> Option<(u32, int)> {
    let end = digits_end(s, from);
    if 0 <= from < end <= s.len() && decimal(s.subrange(from, end)) <= u32::MAX {
        Some((decimal(s.subrange(from, end)) as u32, end))
    } else {
        None
    }
}

/// The instruction that stands at index `from`, with the index after it:
/// `mul(`, a number, a comma, a number, and `)`.
pub open spec fn mul_at(s: Seq<char>, from: int) -> Option<(u32, u32, int)> {
    if !matches_at(s, "mul("@, from) {
        None
    } else {
        match number_at(s, from + "mul("@.len()) {
            Some((a, comma)) => if !matches_at(s, ","@, comma) {
                None
            } else {
                match number_at(s, comma + ","@.len()) {
                    Some((b, close)) => if matches_at(s, ")"@, close) {
                        Some((a, b, close + ")"@.len()))
                    } else {
                        None
                    },
                    None => None,
                }
            },
            None => None,
        }
    }
}

/// The sum of the products of the instructions of a text from index
/// `from` on, read from the left, none inside another, added to `acc`.
/// `None` where a product does not fit 32 bits or the sum does not fit the
/// machine word.
pub open spec fn muls_from(s: Seq<char>, from: int, acc: usize) -> Option<usize>
    decreases s.len() - from,
{
    if from < 0 || from >= s.len() {
        Some(acc)
    } else {
        match mul_at(s, from) {
            Some((a, b, end)) => if end <= from {
                None
            } else {
                match a.checked_mul(b) {
                    Some(product) => if product > usize::MAX {
                        None
                    } else {
                        match acc.checked_add(product as usize) {
                            Some(more) => muls_from(s, end, more),
                            None => None,
                        }
                    },
                    None => None,
                }
            },
            None => muls_from(s, from + 1, acc),
        }
    }
}

#[verifier::loop_isolation(false)]
fn read_number(s: &Vec<char>, from: usize) -> (r: Option<(u32, usize)>)
    requires
        from <= s.len(),
    ensures
        match r {
            Some((n, end)) => number_at(s@, from as int) == Some((n, end as int)) && from < end
                <= s.len(),
            None => number_at(s@, from as int) is None,
        },
{
    let mut end: usize = from;
    while end < s.len() && is_digit_char(s[end])
        invariant
            from <= end <= s.len(),
            digits_end(s@, from as int) == digits_end(s@, end as int),
        decreases s.len() - end,
    {
        end += 1;
    }
    proof {
        lemma_digits_end(s@, from as int);
    }
    if end == from {
        return None;
    }
    let ghost run = s@.subrange(from as int, end as int);
    let mut value: u64 = 0;
    let mut k: usize = from;
    assert(run.take(0) =~= Seq::<char>::empty());
    while k < end
        invariant
            from <= k <= end,
            value == decimal(run.take(k - from)),
            value <= u32::MAX,
        decreases end - k,
    {
        let c = s[k];
        assert(is_digit(s@[k as int]));
        let d = (c as u32 - 0x30) as u64;
        proof {
            let next = run.take(k - from + 1);
            assert(next.drop_last() =~= run.take(k - from));
            assert(next.last() == c);
        }
        value = value * 10 + d;
        if value > u32::MAX as u64 {
            proof {
                lemma_decimal_grows(run, k - from + 1);
            }
            return None;
        }
        k += 1;
    }
    assert(run.take(k - from) =~= run);
    Some((value as u32, end))
}

fn is_digit_char(c: char) -> (r: bool)
    ensures
        r == is_digit(c),
{
    let n = c as u32;
    0x30 <= n && n <= 0x39
}

/// The instruction that stands at an index, with the index after it.
pub fn nom_multiplication(s: &Vec<char>, from: usize) -> (r: Option<(u32, u32, usize)>)
    requires
        from <= s.len(),
    ensures
        match r {
            Some((a, b, end)) => mul_at(s@, from as int) == Some((a, b, end as int)) && from < end
                <= s.len(),
            None => mul_at(s@, from as int) is None,
        },
{
    let open = chars_of("mul(");
    let comma_text = chars_of(",");
    let close_text = chars_of(")");
    if !matches_here(s, &open, from) {
        return None;
    }
    let (a, comma) = match read_number(s, from + open.len()) {
        Some(found) => found,
        None => {
            return None;
        },
    };
    if !matches_here(s, &comma_text, comma) {
        return None;
    }
    let (b, close) = match read_number(s, comma + comma_text.len()) {
        Some(found) => found,
        None => {
            return None;
        },
    };
    if !matches_here(s, &close_text, close) {
        return None;
    }
    Some((a, b, close + close_text.len()))
}

/// The sum of the products of the instructions of a text.
#[verifier::loop_isolation(false)]
pub fn nom_muls(s: &Vec<char>) -> (r: Option<usize>)
    ensures
        r == muls_from(s@, 0, 0),
{
    let mut sum: usize = 0;
    let mut from: usize = 0;
    while from < s.len()
        invariant
            from <= s.len(),
            muls_from(s@, 0, 0) == muls_from(s@, from as int, sum),
        decreases s.len() - from,
    {
        match nom_multiplication(s, from) {
            Some((a, b, end)) => {
                let product = match a.checked_mul(b) {
                    Some(product) => product,
                    None => {
                        return None;
                    },
                };
                if product as u64 > usize::MAX as u64 {
                    return None;
                }
                sum = match sum.checked_add(product as usize) {
                    Some(more) => more,
                    None => {
                        return None;
                    },
                };
                from = end;
            },
            None => {
                from += 1;
            },
        }
    }
    Some(sum)
}

/// The sum over the pieces from `i` on of the products in what stands in
/// each before its first `don't()`, added to `acc`.
pub open spec fn enabled_from(pieces: Seq<Seq<char>>, i: int, acc: usize) -> Option<usize>
    decreases pieces.len() - i,
{
    if i < 0 || i >= pieces.len() {
        Some(acc)
    } else {
        match muls_from(split(pieces[i], "don't()"@)[0], 0, 0) {
            Some(n) => match acc.checked_add(n) {
                Some(more) => enabled_from(pieces, i + 1, more),
                None => None,
            },
            None => None,
        }
    }
}

/// The answer of a part. In part two the text is cut at every `do()`.
pub open spec fn solve(input: Seq<char>, part: Part) -> Option<Answer> {
    match (match part {
        Part::One => muls_from(input, 0, 0),
        Part::Two => enabled_from(split(input, "do()"@), 0, 0),
    }) {
        Some(n) => Some(Answer::Number(n)),
        None => None,
    }
}

pub struct Day;

impl Solution for Day {
    open spec fn answer(&self, input: Seq<char>, part: Part) -> Option<Answer> {
        solve(input, part)
    }

    fn part1(&self, input: &str) -> (r: Option<SolvedValue>) {
        let chars = chars_of(input);
        match nom_muls(&chars) {
            Some(n) => Some(SolvedValue::Number(n)),
            None => None,
        }
    }

    #[verifier::loop_isolation(false)]
    fn part2(&self, input: &str) -> (r: Option<SolvedValue>) {
        let chars = chars_of(input);
        let do_split = split_by(&chars, "do()");
        let mut sum: usize = 0;
        let mut i: usize = 0;
        while i < do_split.len()
            invariant
                i <= do_split.len(),
                enabled_from(rows(do_split@), 0, 0) == enabled_from(rows(do_split@), i as int, sum),
            decreases do_split.len() - i,
        {
            assert(rows(do_split@)[i as int] == do_split@[i as int]@);
            let parts = split_by(&do_split[i], "don't()");
            assert(rows(parts@)[0] == parts@[0]@);
            let more = match nom_muls(&parts[0]) {
                Some(n) => sum.checked_add(n),
                None => None,
            };
            sum = match more {
                Some(more) => more,
                None => {
                    return None;
                },
            };
            i += 1;
        }
        Some(SolvedValue::Number(sum))
    }
}

} // verus!
