//! Day 2: reports of levels. A report is safe where its levels all rise
//! or all fall, by one to three from one to the next. Part one counts the
//! safe reports; part two those that are safe once one level is taken
//! out.

use crate::solution::{answer_of, Answer, Part, Solution, SolvedValue};
use crate::text::{chars_of, lines, lines_of, parse_i64, parse_i64_spec, rows, words, words_of};
use vstd::prelude::*;

verus! {

/// Whether the level at index `i` follows the one before it as it
/// should: one to three higher with `up`, one to three lower without.
pub open spec fn follows(report: Seq<i32>, up: bool, i: int) -> bool {
    if up {
        1 <= report[i] - report[i - 1] <= 3
    } else {
        1 <= report[i - 1] - report[i] <= 3
    }
}

/// The last index below `upto` whose level does not follow the one before
/// it as it should, or 0 where all do.
pub open spec fn last_fail(report: Seq<i32>, up: bool, upto: int) -> int
    decreases upto,
{
    if upto <= 1 || upto > report.len() {
        0
    } else if !follows(report, up, upto - 1) {
        upto - 1
    } else {
        last_fail(report, up, upto - 1)
    }
}

/// The last fail is an index of the report, and where it is 0 every level
/// follows the one before it.
pub proof fn lemma_last_fail(report: Seq<i32>, up: bool, upto: int)
    requires
        upto <= report.len(),
    ensures
        0 <= last_fail(report, up, upto),
        last_fail(report, up, upto) > 0 ==> last_fail(report, up, upto) < upto,
        last_fail(report, up, upto) == 0 <==> forall|i: int|
            1 <= i < upto ==> follows(report, up, i),
    decreases upto,
{
    if upto > 1 {
        lemma_last_fail(report, up, upto - 1);
    }
}

/// Nothing for a safe report, whose levels all rise or all fall by one to
/// three; else the last index where the levels do not rise so and the last
/// where they do not fall so.
pub open spec fn spec_report_okay(report: Seq<i32>) -> Option<(usize, usize)> {
    let up_fail = last_fail(report, true, report.len() as int);
    let down_fail = last_fail(report, false, report.len() as int);
    if up_fail == 0 || down_fail == 0 {
        None
    } else {
        Some((up_fail as usize, down_fail as usize))
    }
}

/// Whether a report is safe; where it is not, the last indices at which it
/// fails to rise and to fall.
pub fn report_okay(report: &Vec<i32>) -> (r: Option<(usize, usize)>)
    ensures
        r == spec_report_okay(report@),
        r matches Some((up, down)) ==> 1 <= up < report.len() && 1 <= down < report.len(),
{
    let mut up_fail: usize = 0;
    let mut down_fail: usize = 0;
    let mut i: usize = 1;
    while i < report.len()
        invariant
            1 <= i,
            i <= report.len() || i == 1,
            up_fail < i,
            down_fail < i,
            i <= report.len() ==> up_fail == last_fail(report@, true, i as int),
            i <= report.len() ==> down_fail == last_fail(report@, false, i as int),
            i > report.len() ==> up_fail == 0 && down_fail == 0,
        decreases report.len() - i,
    {
        let last = report[i - 1] as i64;
        let item = report[i] as i64;
        if !(1 <= item - last && item - last <= 3) {
            up_fail = i;
        }
        if !(1 <= last - item && last - item <= 3) {
            down_fail = i;
        }
        i += 1;
    }
    if up_fail == 0 || down_fail == 0 {
        None
    } else {
        Some((up_fail, down_fail))
    }
}

/// Whether a report is safe once the level at an index is taken out.
pub open spec fn safe_without(report: Seq<i32>, index: int) -> bool {
    0 <= index < report.len() && spec_report_okay(report.remove(index)) is None
}

/// Whether a report is safe, or with `has_skipped` unset becomes safe
/// when one level is taken out: the first, or one of those at and before
/// the last indices where it fails to rise and to fall.
pub open spec fn safe_part2(report: Seq<i32>, has_skipped: bool) -> bool {
    match spec_report_okay(report) {
        None => true,
        Some((up_fail, down_fail)) => !has_skipped && (safe_without(report, 0) || safe_without(
            report,
            up_fail - 1,
        ) || safe_without(report, down_fail - 1) || safe_without(report, up_fail as int)
            || safe_without(report, down_fail as int)),
    }
}

fn without(report: &Vec<i32>, index: usize) -> (r: Vec<i32>)
    requires
        index < report.len(),
    ensures
        r@ == report@.remove(index as int),
{
    let mut r: Vec<i32> = Vec::new();
    let mut i: usize = 0;
    while i < report.len()
        invariant
            i <= report.len(),
            index < report.len(),
            r.len() == (if i <= index { i as int } else { i - 1 }),
            forall|k: int| 0 <= k < r.len() ==> #[trigger] r@[k] == report@.remove(index as int)[k],
        decreases report.len() - i,
    {
        if i != index {
            r.push(report[i]);
        }
        i += 1;
    }
    assert(r@ =~= report@.remove(index as int));
    r
}

/// Whether a report is safe, or becomes safe when one level is taken out.
pub fn check_is_save_part2(report: &Vec<i32>, has_skipped: bool) -> (r: bool)
    ensures
        r == safe_part2(report@, has_skipped),
{
    let (up_fail, down_fail) = match report_okay(report) {
        None => {
            return true;
        },
        Some(fails) => fails,
    };
    if has_skipped {
        return false;
    }
    report_okay(&without(report, 0)).is_none() || report_okay(&without(report, up_fail - 1)).is_none()
        || report_okay(&without(report, down_fail - 1)).is_none() || report_okay(
        &without(report, up_fail),
    ).is_none() || report_okay(&without(report, down_fail)).is_none()
}

/// The levels of the words from `i` on, added to `acc`; `None` where a
/// word writes no number of 32 bits.
pub open spec fn levels_from(words: Seq<Seq<char>>, i: int, acc: Seq<i32>) -> Option<Seq<i32>>
    decreases words.len() - i,
{
    if i < 0 || i >= words.len() {
        Some(acc)
    } else {
        match parse_i64_spec(words[i]) {
            Some(n) => if i32::MIN <= n <= i32::MAX {
                levels_from(words, i + 1, acc.push(n as i32))
            } else {
                None
            },
            None => None,
        }
    }
}

/// The reports of the lines from `i` on, added to `acc`.
pub open spec fn reports_from(lines: Seq<Seq<char>>, i: int, acc: Seq<Seq<i32>>) -> Option<
    Seq<Seq<i32>>,
>
    decreases lines.len() - i,
{
    if i < 0 || i >= lines.len() {
        Some(acc)
    } else {
        match levels_from(words(lines[i]), 0, Seq::empty()) {
            Some(report) => reports_from(lines, i + 1, acc.push(report)),
            None => None,
        }
    }
}

/// The reports of a puzzle text: one on every line, its levels between
/// white space.
pub open spec fn parse_reports(input: Seq<char>) -> Option<Seq<Seq<i32>>> {
    reports_from(lines(input), 0, Seq::empty())
}

#[verifier::loop_isolation(false)]
fn read_levels(line: &Vec<char>) -> (r: Option<Vec<i32>>)
    ensures
        match r {
            Some(report) => levels_from(words(line@), 0, Seq::empty()) == Some(report@),
            None => levels_from(words(line@), 0, Seq::empty()) is None,
        },
{
    let all = words_of(line);
    let mut report: Vec<i32> = Vec::new();
    let mut i: usize = 0;
    while i < all.len()
        invariant
            i <= all.len(),
            levels_from(words(line@), 0, Seq::empty()) == levels_from(
                words(line@),
                i as int,
                report@,
            ),
        decreases all.len() - i,
    {
        assert(rows(all@)[i as int] == all@[i as int]@);
        match parse_i64(&all[i]) {
            Some(n) => {
                if n < i32::MIN as i64 || n > i32::MAX as i64 {
                    return None;
                }
                report.push(n as i32);
            },
            None => {
                return None;
            },
        }
        i += 1;
    }
    Some(report)
}

/// Reads the reports of a puzzle text.
#[verifier::loop_isolation(false)]
pub fn get_reports(input: &Vec<char>) -> (r: Option<Vec<Vec<i32>>>)
    ensures
        match r {
            Some(reports) => parse_reports(input@) == Some(rows(reports@)),
            None => parse_reports(input@) is None,
        },
{
    let all = lines_of(input);
    let mut reports: Vec<Vec<i32>> = Vec::new();
    assert(rows(reports@) =~= Seq::<Seq<i32>>::empty());
    let mut i: usize = 0;
    while i < all.len()
        invariant
            i <= all.len(),
            parse_reports(input@) == reports_from(lines(input@), i as int, rows(reports@)),
        decreases all.len() - i,
    {
        assert(rows(all@)[i as int] == all@[i as int]@);
        match read_levels(&all[i]) {
            Some(report) => {
                let ghost before = rows(reports@);
                let ghost model = report@;
                reports.push(report);
                assert(rows(reports@) =~= before.push(model));
            },
            None => {
                return None;
            },
        }
        i += 1;
    }
    Some(reports)
}

/// Whether a report counts in a part.
pub open spec fn counts(report: Seq<i32>, part: Part) -> bool {
    if part == Part::One {
        spec_report_okay(report) is None
    } else {
        safe_part2(report, false)
    }
}

/// The number of reports among the first `count` that count in a part.
pub open spec fn safe_reports(reports: Seq<Seq<i32>>, part: Part, count: nat) -> nat
    decreases count,
{
    if count == 0 || count > reports.len() {
        0
    } else {
        safe_reports(reports, part, (count - 1) as nat) + (if counts(reports[count - 1], part) {
            1nat
        } else {
            0nat
        })
    }
}

/// The answer of a part.
pub open spec fn solve(input: Seq<char>, part: Part) -> Option<Answer> {
    match parse_reports(input) {
        Some(reports) => Some(Answer::Number(safe_reports(reports, part, reports.len()) as usize)),
        None => None,
    }
}

#[verifier::loop_isolation(false)]
fn count(input: &str, part: Part) -> (r: Option<SolvedValue>)
    ensures
        answer_of(r) == solve(input@, part),
{
    let chars = chars_of(input);
    let reports = match get_reports(&chars) {
        Some(reports) => reports,
        None => {
            return None;
        },
    };
    let mut okay_reports: usize = 0;
    let mut i: usize = 0;
    while i < reports.len()
        invariant
            i <= reports.len(),
            okay_reports <= i,
            okay_reports == safe_reports(rows(reports@), part, i as nat),
        decreases reports.len() - i,
    {
        assert(rows(reports@)[i as int] == reports@[i as int]@);
        let safe = match part {
            Part::One => report_okay(&reports[i]).is_none(),
            Part::Two => check_is_save_part2(&reports[i], false),
        };
        if safe {
            okay_reports += 1;
        }
        i += 1;
    }
    Some(SolvedValue::Number(okay_reports))
}

pub struct Day;

impl Solution for Day {
    open spec fn answer(&self, input: Seq<char>, part: Part) -> Option<Answer> {
        solve(input, part)
    }

    fn part1(&self, input: &str) -> (r: Option<SolvedValue>) {
        count(input, Part::One)
    }

    fn part2(&self, input: &str) -> (r: Option<SolvedValue>) {
        count(input, Part::Two)
    }
}

} // verus!
