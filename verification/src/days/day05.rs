//! Day 5: pages that must be printed in an order given by rules. Part one
//! adds up the middle pages of the updates that keep the rules; part two
//! puts the other updates in order first and adds up theirs.

use crate::solution::{answer_of, Answer, Part, Solution, SolvedValue};
use crate::text::{
    chars_of, lines, lines_of, parse_usize, parse_usize_spec, rows, split, split_by,
};
use std::collections::{HashMap, HashSet};
use vstd::prelude::*;
use vstd::std_specs::hash::group_hash_axioms;

verus! {

broadcast use group_hash_axioms;

/// The two numbers of a line `before|after`.
pub open spec fn parse_rule(line: Seq<char>) -> Option<(usize, usize)> {
    let parts = split(line, "|"@);
    if parts.len() < 2 {
        None
    } else {
        match (parse_usize_spec(parts[0]), parse_usize_spec(parts[1])) {
            (Some(a), Some(b)) => Some((a, b)),
            _ => None,
        }
    }
}

/// The rules of the lines from `i` on, added to `acc`.
pub open spec fn rules_from(lines: Seq<Seq<char>>, i: int, acc: Seq<(usize, usize)>) -> Option<
    Seq<(usize, usize)>,
>
    decreases lines.len() - i,
{
    if i < 0 || i >= lines.len() {
        Some(acc)
    } else {
        match parse_rule(lines[i]) {
            Some(rule) => rules_from(lines, i + 1, acc.push(rule)),
            None => None,
        }
    }
}

/// The numbers of the pieces from `i` on, added to `acc`.
pub open spec fn numbers_from(pieces: Seq<Seq<char>>, i: int, acc: Seq<usize>) -> Option<Seq<usize>>
    decreases pieces.len() - i,
{
    if i < 0 || i >= pieces.len() {
        Some(acc)
    } else {
        match parse_usize_spec(pieces[i]) {
            Some(n) => numbers_from(pieces, i + 1, acc.push(n)),
            None => None,
        }
    }
}

/// The updates of the lines from `i` on, each a list of pages between
/// commas, added to `acc`.
pub open spec fn updates_from(lines: Seq<Seq<char>>, i: int, acc: Seq<Seq<usize>>) -> Option<
    Seq<Seq<usize>>,
>
    decreases lines.len() - i,
{
    if i < 0 || i >= lines.len() {
        Some(acc)
    } else {
        match numbers_from(split(lines[i], ","@), 0, Seq::empty()) {
            Some(pages) => updates_from(lines, i + 1, acc.push(pages)),
            None => None,
        }
    }
}

/// The rules and the updates of a puzzle text: the lines of the rules, an
/// empty line, and the lines of the updates.
pub open spec fn parse_puzzle(input: Seq<char>) -> Option<(Seq<(usize, usize)>, Seq<Seq<usize>>)> {
    let parts = split(input, "\n\n"@);
    if parts.len() < 2 {
        None
    } else {
        match (
            rules_from(lines(parts[0]), 0, Seq::empty()),
            updates_from(lines(parts[1]), 0, Seq::empty()),
        ) {
            (Some(rules), Some(updates)) => Some((rules, updates)),
            _ => None,
        }
    }
}

fn read_numbers(pieces: &Vec<Vec<char>>) -> (r: Option<Vec<usize>>)
    ensures
        match r {
            Some(v) => numbers_from(rows(pieces@), 0, Seq::empty()) == Some(v@),
            None => numbers_from(rows(pieces@), 0, Seq::empty()) is None,
        },
{
    let mut values: Vec<usize> = Vec::new();
    let mut i: usize = 0;
    while i < pieces.len()
        invariant
            i <= pieces.len(),
            numbers_from(rows(pieces@), 0, Seq::empty()) == numbers_from(
                rows(pieces@),
                i as int,
                values@,
            ),
        decreases pieces.len() - i,
    {
        assert(rows(pieces@)[i as int] == pieces@[i as int]@);
        match parse_usize(&pieces[i]) {
            Some(n) => {
                values.push(n);
            },
            None => {
                return None;
            },
        }
        i += 1;
    }
    Some(values)
}

/// Reads the rules and the updates of a puzzle text.
#[verifier::loop_isolation(false)]
pub fn parse_input(input: &Vec<char>) -> (r: Option<(Vec<(usize, usize)>, Vec<Vec<usize>>)>)
    ensures
        match r {
            Some((rules, updates)) => parse_puzzle(input@) == Some((rules@, rows(updates@))),
            None => parse_puzzle(input@) is None,
        },
{
    let parts = split_by(input, "\n\n");
    if parts.len() < 2 {
        return None;
    }
    assert(rows(parts@)[0] == parts@[0]@);
    assert(rows(parts@)[1] == parts@[1]@);
    let rule_lines = lines_of(&parts[0]);
    let mut rules: Vec<(usize, usize)> = Vec::new();
    let mut i: usize = 0;
    let mut failed = false;
    while i < rule_lines.len() && !failed
        invariant
            i <= rule_lines.len(),
            !failed ==> rules_from(rows(rule_lines@), 0, Seq::empty()) == rules_from(
                rows(rule_lines@),
                i as int,
                rules@,
            ),
            failed ==> rules_from(rows(rule_lines@), 0, Seq::empty()) is None,
        decreases rule_lines.len() - i + (if failed { 0int } else { 1int }),
    {
        assert(rows(rule_lines@)[i as int] == rule_lines@[i as int]@);
        let pieces = split_by(&rule_lines[i], "|");
        if pieces.len() < 2 {
            failed = true;
        } else {
            assert(rows(pieces@)[0] == pieces@[0]@);
            assert(rows(pieces@)[1] == pieces@[1]@);
            match (parse_usize(&pieces[0]), parse_usize(&pieces[1])) {
                (Some(a), Some(b)) => {
                    rules.push((a, b));
                    i += 1;
                },
                _ => {
                    failed = true;
                },
            }
        }
    }
    let update_lines = lines_of(&parts[1]);
    let mut updates: Vec<Vec<usize>> = Vec::new();
    let mut k: usize = 0;
    assert(rows(updates@) =~= Seq::<Seq<usize>>::empty());
    while k < update_lines.len()
        invariant
            k <= update_lines.len(),
            updates_from(rows(update_lines@), 0, Seq::empty()) == updates_from(
                rows(update_lines@),
                k as int,
                rows(updates@),
            ),
        decreases update_lines.len() - k,
    {
        assert(rows(update_lines@)[k as int] == update_lines@[k as int]@);
        let pieces = split_by(&update_lines[k], ",");
        match read_numbers(&pieces) {
            Some(pages) => {
                let ghost before = rows(updates@);
                let ghost model = pages@;
                updates.push(pages);
                assert(rows(updates@) =~= before.push(model));
            },
            None => {
                return None;
            },
        }
        k += 1;
    }
    if failed {
        return None;
    }
    Some((rules, updates))
}

/// Whether a list of rules holds the rule that `before` comes before
/// `after`.
pub open spec fn has_pair(rules: Seq<(usize, usize)>, before: usize, after: usize) -> bool {
    exists|k: int| 0 <= k < rules.len() && #[trigger] rules[k] == (before, after)
}

/// Whether a map of rules holds the rule that `before` comes before
/// `after`: `after` is in the list of `before`.
pub open spec fn has_rule(map: Map<usize, Vec<usize>>, before: usize, after: usize) -> bool {
    map.contains_key(before) && map[before]@.contains(after)
}

/// The order that a list of rules gives: which page must come before
/// which.
pub open spec fn by_list(rules: Seq<(usize, usize)>) -> spec_fn(usize, usize) -> bool {
    |before: usize, after: usize| has_pair(rules, before, after)
}

/// The order that a map of rules gives.
pub open spec fn by_map(map: Map<usize, Vec<usize>>) -> spec_fn(usize, usize) -> bool {
    |before: usize, after: usize| has_rule(map, before, after)
}

/// The rules as a map from each page to the pages that come after it. The
/// map gives the order that the list gives.
pub fn get_rules_map(raw_rules: &Vec<(usize, usize)>) -> (rules_map: HashMap<usize, Vec<usize>>)
    ensures
        by_map(rules_map@) == by_list(raw_rules@),
{
    let mut rules_map: HashMap<usize, Vec<usize>> = HashMap::new();
    let mut i: usize = 0;
    while i < raw_rules.len()
        invariant
            i <= raw_rules.len(),
            forall|a: usize, b: usize|
                has_rule(rules_map@, a, b) <==> has_pair(raw_rules@.take(i as int), a, b),
        decreases raw_rules.len() - i,
    {
        let (before, after) = raw_rules[i];
        let ghost old_map = rules_map@;
        let mut list = match rules_map.remove(&before) {
            Some(list) => list,
            None => Vec::new(),
        };
        let ghost old_list = list@;
        list.push(after);
        let ghost new_list = list@;
        rules_map.insert(before, list);
        proof {
            let prev = raw_rules@.take(i as int);
            let next = raw_rules@.take(i + 1);
            assert forall|a: usize, b: usize| has_rule(rules_map@, a, b) <==> has_pair(
                next,
                a,
                b,
            ) by {
                if has_pair(next, a, b) {
                    let k = choose|k: int| 0 <= k < next.len() && #[trigger] next[k] == (a, b);
                    if k < i {
                        assert(prev[k] == (a, b));
                        assert(has_rule(old_map, a, b));
                        if a == before {
                            let j = choose|j: int| 0 <= j < old_list.len() && old_list[j] == b;
                            assert(new_list[j] == b);
                        }
                    } else {
                        assert(new_list[old_list.len() as int] == b);
                    }
                }
                if has_rule(rules_map@, a, b) {
                    if a == before {
                        let j = choose|j: int| 0 <= j < new_list.len() && new_list[j] == b;
                        if j < old_list.len() {
                            assert(old_list[j] == b);
                            assert(has_rule(old_map, a, b));
                            let k = choose|k: int| 0 <= k < prev.len() && #[trigger] prev[k] == (a, b);
                            assert(next[k] == (a, b));
                        } else {
                            assert(next[i as int] == (a, b));
                        }
                    } else {
                        assert(has_rule(old_map, a, b));
                        let k = choose|k: int| 0 <= k < prev.len() && #[trigger] prev[k] == (a, b);
                        assert(next[k] == (a, b));
                    }
                }
            }
        }
        i += 1;
    }
    assert(raw_rules@.take(i as int) =~= raw_rules@);
    assert(by_map(rules_map@) =~= by_list(raw_rules@)) by {
        assert forall|a: usize, b: usize| #[trigger]
            by_map(rules_map@)(a, b) == by_list(raw_rules@)(a, b) by {
            assert(has_rule(rules_map@, a, b) <==> has_pair(raw_rules@, a, b));
        }
    }
    rules_map
}

/// The page in the middle of an update.
pub fn middle_page(pages: &Vec<usize>) -> (r: Option<usize>)
    ensures
        r == (if pages.len() > 0 {
            Some(pages@[pages.len() as int / 2])
        } else {
            None
        }),
{
    if pages.len() == 0 {
        None
    } else {
        Some(pages[pages.len() / 2])
    }
}

/// Whether an update keeps the rules: no page comes after a page that it
/// must come before.
pub open spec fn in_order(pages: Seq<usize>, before: spec_fn(usize, usize) -> bool) -> bool {
    forall|i: int, j: int| 0 <= i < j < pages.len() ==> !before(pages[j], pages[i])
}

/// Whether an update keeps the rules.
#[verifier::loop_isolation(false)]
pub fn is_pages_sorted(pages: &Vec<usize>, rules: &HashMap<usize, Vec<usize>>) -> (r: bool)
    ensures
        r == in_order(pages@, by_map(rules@)),
{
    let mut seen: HashSet<usize> = HashSet::new();
    let mut j: usize = 0;
    while j < pages.len()
        invariant
            j <= pages.len(),
            forall|x: usize| seen@.contains(x) <==> exists|i: int| 0 <= i < j && pages@[i] == x,
            forall|i: int, k: int| 0 <= i < k < j ==> !has_rule(rules@, pages@[k], pages@[i]),
        decreases pages.len() - j,
    {
        let page = pages[j];
        if let Some(list) = rules.get(&page) {
            let mut k: usize = 0;
            while k < list.len()
                invariant
                    k <= list.len(),
                    forall|n: int| 0 <= n < k ==> !seen@.contains(list@[n]),
                decreases list.len() - k,
            {
                if seen.contains(&list[k]) {
                    proof {
                        let i = choose|i: int| 0 <= i < j && pages@[i] == list@[k as int];
                        assert(list@.contains(list@[k as int]));
                        assert(has_rule(rules@, pages@[j as int], pages@[i]));
                    }
                    return false;
                }
                k += 1;
            }
            assert forall|i: int| 0 <= i < j implies !has_rule(rules@, page, pages@[i]) by {
                if has_rule(rules@, page, pages@[i]) {
                    let n = choose|n: int| 0 <= n < list@.len() && list@[n] == pages@[i];
                    assert(seen@.contains(list@[n]));
                }
            }
        }
        let ghost before = seen@;
        seen.insert(page);
        assert forall|x: usize| seen@.contains(x) <==> exists|i: int|
            0 <= i < j + 1 && pages@[i] == x by {
            if seen@.contains(x) {
                if x == page {
                    assert(pages@[j as int] == x);
                } else {
                    assert(before.contains(x));
                    let i = choose|i: int| 0 <= i < j && pages@[i] == x;
                    assert(0 <= i < j + 1 && pages@[i] == x);
                }
            }
            if exists|i: int| 0 <= i < j + 1 && pages@[i] == x {
                let i = choose|i: int| 0 <= i < j + 1 && pages@[i] == x;
                if i < j {
                    assert(before.contains(x));
                }
            }
        }
        j += 1;
    }
    true
}

/// The first index at or after `from` of a page that `page` must come
/// before, or the length of the list.
pub open spec fn place_from(
    list: Seq<usize>,
    page: usize,
    before: spec_fn(usize, usize) -> bool,
    from: int,
) -> int
    decreases list.len() - from,
{
    if from < 0 || from >= list.len() {
        list.len() as int
    } else if before(page, list[from]) {
        from
    } else {
        place_from(list, page, before, from + 1)
    }
}

/// The pages of an update put in order: each page, one after the other, is
/// put before the first page of the ordered list that it must come
/// before, or at the end.
pub open spec fn ordered(pages: Seq<usize>, before: spec_fn(usize, usize) -> bool) -> Seq<usize>
    decreases pages.len(),
{
    if pages.len() == 0 {
        Seq::empty()
    } else {
        let first = ordered(pages.drop_last(), before);
        let at = place_from(first, pages.last(), before, 0);
        if 0 <= at <= first.len() {
            first.insert(at, pages.last())
        } else {
            first
        }
    }
}

/// `place_from` lies in `from..=len`.
proof fn lemma_place_from(list: Seq<usize>, page: usize, before: spec_fn(usize, usize) -> bool, from: int)
    requires
        0 <= from <= list.len(),
    ensures
        from <= place_from(list, page, before, from) <= list.len(),
    decreases list.len() - from,
{
    if from < list.len() && !before(page, list[from]) {
        lemma_place_from(list, page, before, from + 1);
    }
}

#[verifier::loop_isolation(false)]
fn rule_holds(rules: &HashMap<usize, Vec<usize>>, before: usize, after: usize) -> (r: bool)
    ensures
        r == has_rule(rules@, before, after),
{
    match rules.get(&before) {
        Some(list) => {
            let mut k: usize = 0;
            while k < list.len()
                invariant
                    k <= list.len(),
                    forall|n: int| 0 <= n < k ==> list@[n] != after,
                decreases list.len() - k,
            {
                if list[k] == after {
                    return true;
                }
                k += 1;
            }
            false
        },
        None => false,
    }
}

/// Puts the pages of an update in the order of the rules.
pub fn sorted_pages(pages: &Vec<usize>, rules: &HashMap<usize, Vec<usize>>) -> (result: Vec<usize>)
    ensures
        result@ == ordered(pages@, by_map(rules@)),
{
    let mut result: Vec<usize> = Vec::new();
    let mut i: usize = 0;
    assert(pages@.take(0) =~= Seq::<usize>::empty());
    while i < pages.len()
        invariant
            i <= pages.len(),
            result@ == ordered(pages@.take(i as int), by_map(rules@)),
        decreases pages.len() - i,
    {
        let page = pages[i];
        let mut at: usize = 0;
        while at < result.len() && !rule_holds(rules, page, result[at])
            invariant
                at <= result.len(),
                place_from(result@, page, by_map(rules@), 0) == place_from(
                    result@,
                    page,
                    by_map(rules@),
                    at as int,
                ),
            decreases result.len() - at,
        {
            at += 1;
        }
        proof {
            assert(pages@.take(i + 1).drop_last() =~= pages@.take(i as int));
            lemma_place_from(result@, page, by_map(rules@), 0);
        }
        result.insert(at, page);
        i += 1;
    }
    assert(pages@.take(i as int) =~= pages@);
    result
}

/// The sum of the middle pages of the updates from `i` on that count,
/// added to `acc`. With `fix` unset those count that keep the rules; with
/// `fix` set the others, put in order. `None` where an update that counts
/// is empty or the sum does not fit the machine word.
pub open spec fn middles_from(
    updates: Seq<Seq<usize>>,
    before: spec_fn(usize, usize) -> bool,
    fix: bool,
    i: int,
    acc: usize,
) -> Option<usize>
    decreases updates.len() - i,
{
    if i < 0 || i >= updates.len() {
        Some(acc)
    } else if in_order(updates[i], before) == fix {
        middles_from(updates, before, fix, i + 1, acc)
    } else {
        let pages = if fix {
            ordered(updates[i], before)
        } else {
            updates[i]
        };
        if pages.len() == 0 {
            None
        } else {
            match acc.checked_add(pages[pages.len() as int / 2]) {
                Some(more) => middles_from(updates, before, fix, i + 1, more),
                None => None,
            }
        }
    }
}

/// The answer of a part.
pub open spec fn solve(input: Seq<char>, part: Part) -> Option<Answer> {
    match parse_puzzle(input) {
        Some((rules, updates)) => match middles_from(
            updates,
            by_list(rules),
            part == Part::Two,
            0,
            0,
        ) {
            Some(n) => Some(Answer::Number(n)),
            None => None,
        },
        None => None,
    }
}

#[verifier::loop_isolation(false)]
fn sum_middles(input: &str, fix: bool) -> (r: Option<SolvedValue>)
    ensures
        answer_of(r) == (match parse_puzzle(input@) {
            Some((rules, updates)) => match middles_from(updates, by_list(rules), fix, 0, 0) {
                Some(n) => Some(Answer::Number(n)),
                None => None,
            },
            None => None,
        }),
{
    let chars = chars_of(input);
    let (rules, pages_list) = match parse_input(&chars) {
        Some(parsed) => parsed,
        None => {
            return None;
        },
    };
    let rules_map = get_rules_map(&rules);
    let ghost before = by_list(rules@);
    let ghost updates = rows(pages_list@);
    let mut total: usize = 0;
    let mut i: usize = 0;
    while i < pages_list.len()
        invariant
            i <= pages_list.len(),
            middles_from(updates, before, fix, 0, 0) == middles_from(
                updates,
                before,
                fix,
                i as int,
                total,
            ),
        decreases pages_list.len() - i,
    {
        let pages = &pages_list[i];
        assert(updates[i as int] == pages@);
        if is_pages_sorted(pages, &rules_map) != fix {
            let middle = if fix {
                middle_page(&sorted_pages(pages, &rules_map))
            } else {
                middle_page(pages)
            };
            let more = match middle {
                Some(page) => total.checked_add(page),
                None => None,
            };
            match more {
                Some(more) => {
                    total = more;
                },
                None => {
                    return None;
                },
            }
        }
        i += 1;
    }
    Some(SolvedValue::Number(total))
}

pub struct Day;

impl Solution for Day {
    open spec fn answer(&self, input: Seq<char>, part: Part) -> Option<Answer> {
        solve(input, part)
    }

    fn part1(&self, input: &str) -> (r: Option<SolvedValue>) {
        sum_middles(input, false)
    }

    fn part2(&self, input: &str) -> (r: Option<SolvedValue>) {
        sum_middles(input, true)
    }
}

} // verus!
