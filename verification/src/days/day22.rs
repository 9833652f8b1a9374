//! Day 22: buyers whose secret numbers change by a fixed rule; the last
//! digit of a secret is a price. Part one adds up the secrets after two
//! thousand changes; part two finds the most bananas that one sequence of
//! four price changes can buy from all buyers.

use crate::parallel::par_map;
use crate::solution::{Answer, Part, Solution, SolvedValue};
use crate::text::{chars_of, lines, lines_of, parse_u64, parse_u64_spec, rows};
use std::collections::VecDeque;
use vstd::prelude::*;

verus! {

/// A secret mixed with a value and pruned: their exclusive or, modulo
/// 16777216.
pub open spec fn spec_mix_and_prune(current: u64, value: u64) -> u64 {
    (current ^ value) % 16_777_216
}

/// Mixes a value into a secret and prunes the result.
pub fn mix_and_prune(current: u64, value: u64) -> (r: u64)
    ensures
        r == spec_mix_and_prune(current, value),
        r < 16_777_216,
{
    (current ^ value) % 16_777_216
}

/// The secret after one change: mixed and pruned with 64 times itself,
/// then with a thirty-second of itself, then with 2048 times itself.
/// `None` where 64 times the secret does not fit 64 bits.
pub open spec fn spec_next_secret(current: u64) -> Option<u64> {
    match current.checked_mul(64) {
        Some(first) => {
            let a = spec_mix_and_prune(current, first);
            let b = spec_mix_and_prune(a, a / 32);
            Some(spec_mix_and_prune(b, (b * 2048) as u64))
        },
        None => None,
    }
}

/// The secret after one change.
pub fn next_secret(current: u64) -> (r: Option<u64>)
    ensures
        r == spec_next_secret(current),
        r matches Some(s) ==> s < 16_777_216,
{
    match current.checked_mul(64) {
        Some(first) => {
            let a = mix_and_prune(current, first);
            let b = mix_and_prune(a, a / 32);
            Some(mix_and_prune(b, b * 2048))
        },
        None => None,
    }
}

/// The price that a secret offers: its last digit.
pub fn get_price(secret: u64) -> (r: u64)
    ensures
        r == secret % 10,
{
    secret % 10
}

/// The secret after `n` changes.
pub open spec fn secret_after(secret: u64, n: nat) -> Option<u64>
    decreases n,
{
    if n == 0 {
        Some(secret)
    } else {
        match spec_next_secret(secret) {
            Some(next) => secret_after(next, (n - 1) as nat),
            None => None,
        }
    }
}

/// The secret of a buyer after 2000 changes.
pub fn last_secret(first: u64) -> (r: Option<u64>)
    ensures
        r == secret_after(first, 2000),
{
    let mut secret = first;
    let mut n: usize = 0;
    while n < 2000
        invariant
            n <= 2000,
            secret_after(first, 2000) == secret_after(secret, (2000 - n) as nat),
        decreases 2000 - n,
    {
        secret = match next_secret(secret) {
            Some(next) => next,
            None => {
                return None;
            },
        };
        n += 1;
    }
    Some(secret)
}

/// The secrets of the lines from `i` on, added to `acc`.
pub open spec fn secrets_from(lines: Seq<Seq<char>>, i: int, acc: Seq<u64>) -> Option<Seq<u64>>
    decreases lines.len() - i,
{
    if i < 0 || i >= lines.len() {
        Some(acc)
    } else {
        match parse_u64_spec(lines[i]) {
            Some(n) => secrets_from(lines, i + 1, acc.push(n)),
            None => None,
        }
    }
}

/// The first secrets of the buyers of a puzzle text, one on every line.
pub open spec fn parse_secrets(input: Seq<char>) -> Option<Seq<u64>> {
    secrets_from(lines(input), 0, Seq::empty())
}

/// Reads the first secrets of the buyers.
#[verifier::loop_isolation(false)]
pub fn parse_input(input: &Vec<char>) -> (r: Option<Vec<u64>>)
    ensures
        match r {
            Some(secrets) => parse_secrets(input@) == Some(secrets@),
            None => parse_secrets(input@) is None,
        },
{
    let all = lines_of(input);
    let mut secrets: Vec<u64> = Vec::new();
    let mut i: usize = 0;
    while i < all.len()
        invariant
            i <= all.len(),
            parse_secrets(input@) == secrets_from(lines(input@), i as int, secrets@),
        decreases all.len() - i,
    {
        assert(rows(all@)[i as int] == all@[i as int]@);
        match parse_u64(&all[i]) {
            Some(n) => {
                secrets.push(n);
            },
            None => {
                return None;
            },
        }
        i += 1;
    }
    Some(secrets)
}

/// The place of four price changes in a table of sequences of four: each
/// change plus ten is a digit of the place in base twenty. Sequences of
/// changes from -10 to 9 have places of their own below 160000.
pub open spec fn diff_index(x1: i64, x2: i64, x3: i64, x4: i64) -> int {
    (x1 + 10) * 8000 + (x2 + 10) * 400 + (x3 + 10) * 20 + (x4 + 10)
}

/// The place of four price changes in the table, where it is not negative
/// and fits the machine word.
pub fn get_diff_index(x1: i64, x2: i64, x3: i64, x4: i64) -> (r: usize)
    requires
        0 <= diff_index(x1, x2, x3, x4) <= usize::MAX,
    ensures
        r == diff_index(x1, x2, x3, x4),
        -10 <= x1 < 10 && -10 <= x2 < 10 && -10 <= x3 < 10 && -10 <= x4 < 10 ==> r < 160_000,
{
    let place: i128 = (x1 as i128 + 10) * 8000 + (x2 as i128 + 10) * 400 + (x3 as i128 + 10) * 20 + (
    x4 as i128 + 10);
    place as usize
}

/// The sum of the secrets after 2000 changes, of the buyers from `i` on,
/// added to `acc`.
pub open spec fn secrets_sum(secrets: Seq<u64>, i: int, acc: usize) -> Option<usize>
    decreases secrets.len() - i,
{
    if i < 0 || i >= secrets.len() {
        Some(acc)
    } else {
        match secret_after(secrets[i], 2000) {
            Some(last) => if last > usize::MAX {
                None
            } else {
                match acc.checked_add(last as usize) {
                    Some(more) => secrets_sum(secrets, i + 1, more),
                    None => None,
                }
            },
            None => None,
        }
    }
}

/// The bananas that every sequence of four price changes has bought so
/// far, and the most that one has.
pub struct Sales {
    pub totals: Seq<usize>,
    pub best: usize,
}

/// A buyer while the prices change: the secret, the price before, the
/// last price changes, at most three of them, and which sequences of
/// changes the buyer has seen.
pub struct Buyer {
    pub secret: u64,
    pub last_price: u64,
    pub diffs: Seq<i64>,
    pub seen: Seq<bool>,
}

/// A buyer and the sales after one more change of the secret: the change
/// of the price, the price before minus the new one, joins the last
/// changes; where there are four of them that the buyer did not see
/// before, the new price is added to what they have bought, and the oldest
/// change is dropped. `None` where a number does not fit.
pub open spec fn traded(buyer: Buyer, sales: Sales) -> Option<(Buyer, Sales)> {
    match spec_next_secret(buyer.secret) {
        None => None,
        Some(secret) => {
            let price = secret % 10;
            let diffs = buyer.diffs.push((buyer.last_price - price) as i64);
            let next = Buyer { secret, last_price: price, diffs, ..buyer };
            if diffs.len() <= 3 {
                Some((next, sales))
            } else {
                let key = diff_index(diffs[0], diffs[1], diffs[2], diffs[3]);
                let rest = diffs.subrange(1, diffs.len() as int);
                if !(0 <= key < buyer.seen.len() && key < sales.totals.len()) {
                    None
                } else if buyer.seen[key] {
                    Some((Buyer { diffs: rest, ..next }, sales))
                } else {
                    match sales.totals[key].checked_add(price as usize) {
                        Some(total) => Some(
                            (
                                Buyer { diffs: rest, seen: buyer.seen.update(key, true), ..next },
                                Sales {
                                    totals: sales.totals.update(key, total),
                                    best: if total > sales.best {
                                        total
                                    } else {
                                        sales.best
                                    },
                                },
                            ),
                        ),
                        None => None,
                    }
                }
            }
        },
    }
}

/// A buyer and the sales after `n` more changes.
pub open spec fn traded_on(buyer: Buyer, sales: Sales, n: nat) -> Option<(Buyer, Sales)>
    decreases n,
{
    if n == 0 {
        Some((buyer, sales))
    } else {
        match traded(buyer, sales) {
            Some((next, sold)) => traded_on(next, sold, (n - 1) as nat),
            None => None,
        }
    }
}

/// A table of every sequence of four price changes, each place holding
/// `value`.
pub open spec fn table<T>(value: T) -> Seq<T> {
    Seq::new(160_000, |i: int| value)
}

/// The sales after the buyers from `i` on have traded 2000 times each.
pub open spec fn sold_from(secrets: Seq<u64>, i: int, sales: Sales) -> Option<Sales>
    decreases secrets.len() - i,
{
    if i < 0 || i >= secrets.len() {
        Some(sales)
    } else {
        match traded_on(
            Buyer {
                secret: secrets[i],
                last_price: secrets[i] % 10,
                diffs: Seq::empty(),
                seen: table(false),
            },
            sales,
            2000,
        ) {
            Some((_, sold)) => sold_from(secrets, i + 1, sold),
            None => None,
        }
    }
}

/// The answer of a part.
pub open spec fn solve(input: Seq<char>, part: Part) -> Option<Answer> {
    match parse_secrets(input) {
        Some(secrets) => match part {
            Part::One => match secrets_sum(secrets, 0, 0) {
                Some(n) => Some(Answer::Number(n)),
                None => None,
            },
            Part::Two => match sold_from(secrets, 0, Sales { totals: table(0usize), best: 0 }) {
                Some(sales) => Some(Answer::Number(sales.best)),
                None => None,
            },
        },
        None => None,
    }
}

fn make_table<T: Copy>(value: T) -> (r: Vec<T>)
    ensures
        r@ == table(value),
{
    let mut r: Vec<T> = Vec::new();
    let mut i: usize = 0;
    while i < 160_000
        invariant
            i <= 160_000,
            r.len() == i,
            forall|k: int| 0 <= k < i ==> #[trigger] r@[k] == value,
        decreases 160_000 - i,
    {
        r.push(value);
        i += 1;
    }
    assert(r@ =~= table(value));
    r
}

pub struct Day;

impl Solution for Day {
    open spec fn answer(&self, input: Seq<char>, part: Part) -> Option<Answer> {
        solve(input, part)
    }

    #[verifier::loop_isolation(false)]
    fn part1(&self, input: &str) -> (r: Option<SolvedValue>) {
        let chars = chars_of(input);
        let secrets = match parse_input(&chars) {
            Some(secrets) => secrets,
            None => {
                return None;
            },
        };
        let each = |secret: &u64| -> (r: Option<u64>)
            ensures
                r == secret_after(*secret, 2000),
            { last_secret(*secret) };
        let last = par_map(&secrets, each);
        let mut total: usize = 0;
        let mut i: usize = 0;
        while i < secrets.len()
            invariant
                i <= secrets.len(),
                secrets_sum(secrets@, 0, 0) == secrets_sum(secrets@, i as int, total),
            decreases secrets.len() - i,
        {
            let secret = match last[i] {
                Some(secret) => secret,
                None => {
                    return None;
                },
            };
            if secret > usize::MAX as u64 {
                return None;
            }
            total = match total.checked_add(secret as usize) {
                Some(more) => more,
                None => {
                    return None;
                },
            };
            i += 1;
        }
        Some(SolvedValue::Number(total))
    }

    #[verifier::loop_isolation(false)]
    fn part2(&self, input: &str) -> (r: Option<SolvedValue>) {
        let chars = chars_of(input);
        let start_secrets = match parse_input(&chars) {
            Some(secrets) => secrets,
            None => {
                return None;
            },
        };
        let mut max: usize = 0;
        let mut global_diffs: Vec<usize> = make_table(0);
        let ghost first = Sales { totals: table(0usize), best: 0 };
        let mut k: usize = 0;
        while k < start_secrets.len()
            invariant
                k <= start_secrets.len(),
                global_diffs.len() == 160_000,
                sold_from(start_secrets@, 0, first) == sold_from(
                    start_secrets@,
                    k as int,
                    Sales { totals: global_diffs@, best: max },
                ),
            decreases start_secrets.len() - k,
        {
            let mut secret = start_secrets[k];
            let mut last_price = get_price(secret);
            let mut diffs: VecDeque<i64> = VecDeque::new();
            let mut seen: Vec<bool> = make_table(false);
            let ghost begun = traded_on(
                Buyer { secret, last_price, diffs: Seq::empty(), seen: table(false) },
                Sales { totals: global_diffs@, best: max },
                2000,
            );
            let mut n: usize = 0;
            while n < 2000
                invariant
                    n <= 2000,
                    global_diffs.len() == 160_000,
                    seen.len() == 160_000,
                    last_price < 10,
                    diffs@.len() <= 3,
                    forall|j: int| 0 <= j < diffs@.len() ==> -10 < #[trigger] diffs@[j] < 10,
                    begun == traded_on(
                        Buyer { secret, last_price, diffs: diffs@, seen: seen@ },
                        Sales { totals: global_diffs@, best: max },
                        (2000 - n) as nat,
                    ),
                decreases 2000 - n,
            {
                secret = match next_secret(secret) {
                    Some(next) => next,
                    None => {
                        return None;
                    },
                };
                let current_price = get_price(secret);
                let price_diff = last_price as i64 - current_price as i64;
                last_price = current_price;
                diffs.push_back(price_diff);
                if diffs.len() > 3 {
                    let key = get_diff_index(diffs[0], diffs[1], diffs[2], diffs[3]);
                    if !seen[key] {
                        seen.set(key, true);
                        let total = match global_diffs[key].checked_add(current_price as usize) {
                            Some(total) => total,
                            None => {
                                return None;
                            },
                        };
                        global_diffs.set(key, total);
                        if total > max {
                            max = total;
                        }
                    }
                    diffs.pop_front();
                }
                n += 1;
            }
            k += 1;
        }
        Some(SolvedValue::Number(max))
    }
}

} // verus!
