//! Day 7: equations whose operators are missing. An equation can be
//! solved where operators, put between its numbers and applied from left to
//! right, give its test value. The answer is the sum of the test values
//! of the equations that can be solved: with addition and multiplication
//! in part one, and with concatenation too in part two.

use crate::parallel::par_map;
use crate::solution::{answer_of, Answer, Part, Solution, SolvedValue};
use crate::text::{
    chars_of, count_digits, digits, lines, lines_of, parse_usize, parse_usize_spec,
    power_of_ten, rows, split_once, split_once_at, ten_to, words, words_of,
};
use vstd::prelude::*;

verus! {

/// An operator between two numbers.
#[derive(Clone, Debug, Copy, PartialEq, Eq, Structural)]
pub enum Operator {
    Add,
    Multiply,
    Concat,
}

impl Operator {
    /// What the operator makes of two numbers: their sum, their product,
    /// or the number that the digits of both write one after the other.
    /// `None` where the result does not fit the machine word, and for a
    /// concatenation with zero.
    pub open spec fn spec_apply(self, a: usize, b: usize) -> Option<usize> {
        match self {
            Operator::Add => a.checked_add(b),
            Operator::Multiply => a.checked_mul(b),
            Operator::Concat => if b == 0 {
                None
            } else {
                match power_of_ten(digits(b as nat)) {
                    Some(shift) => match a.checked_mul(shift) {
                        Some(high) => high.checked_add(b),
                        None => None,
                    },
                    None => None,
                }
            },
        }
    }

    /// Applies the operator to two numbers.
    pub fn apply(self, a: usize, b: usize) -> (r: Option<usize>)
        ensures
            r == self.spec_apply(a, b),
    {
        match self {
            Operator::Add => a.checked_add(b),
            Operator::Multiply => a.checked_mul(b),
            Operator::Concat => if b == 0 {
                None
            } else {
                match ten_to(count_digits(b)) {
                    Some(shift) => match a.checked_mul(shift) {
                        Some(high) => high.checked_add(b),
                        None => None,
                    },
                    None => None,
                }
            },
        }
    }
}

/// Whether operators can be put before the numbers from index `from` on
/// so that `current` becomes `expected`. The operators are tried in their
/// order, and the first that does it is taken; `None` where a result that
/// is tried before does not fit the machine word.
pub open spec fn solvable(
    expected: usize,
    current: usize,
    params: Seq<usize>,
    from: int,
    ops: Seq<Operator>,
) -> Option<bool>
    decreases params.len() - from, 1nat, 0nat,
{
    if from < 0 || from >= params.len() {
        Some(expected == current)
    } else {
        solvable_with(expected, current, params, from, ops, 0)
    }
}

/// Whether one of the operators from `i` on does it.
pub open spec fn solvable_with(
    expected: usize,
    current: usize,
    params: Seq<usize>,
    from: int,
    ops: Seq<Operator>,
    i: int,
) -> Option<bool>
    decreases params.len() - from, 0nat, ops.len() - i,
{
    if i < 0 || i >= ops.len() || from < 0 || from >= params.len() {
        Some(false)
    } else {
        match ops[i].spec_apply(current, params[from]) {
            Some(next) => match solvable(expected, next, params, from + 1, ops) {
                Some(true) => Some(true),
                Some(false) => solvable_with(expected, current, params, from, ops, i + 1),
                None => None,
            },
            None => None,
        }
    }
}

/// Whether operators can be put before the numbers from index `from` on
/// so that `current` becomes `expected`.
#[verifier::loop_isolation(false)]
pub fn recursive_is_solvable(
    expected: usize,
    current: usize,
    params: &Vec<usize>,
    from: usize,
    ops: &Vec<Operator>,
) -> (r: Option<bool>)
    ensures
        r == solvable(expected, current, params@, from as int, ops@),
    decreases params.len() - from,
{
    if from >= params.len() {
        return Some(expected == current);
    }
    let mut i: usize = 0;
    while i < ops.len()
        invariant
            i <= ops.len(),
            solvable(expected, current, params@, from as int, ops@) == solvable_with(
                expected,
                current,
                params@,
                from as int,
                ops@,
                i as int,
            ),
        decreases ops.len() - i,
    {
        match ops[i].apply(current, params[from]) {
            Some(next) => match recursive_is_solvable(expected, next, params, from + 1, ops) {
                Some(true) => {
                    return Some(true);
                },
                Some(false) => {},
                None => {
                    return None;
                },
            },
            None => {
                return None;
            },
        }
        i += 1;
    }
    Some(false)
}

/// The numbers of the words from `i` on, added to `acc`.
pub open spec fn numbers_from(words: Seq<Seq<char>>, i: int, acc: Seq<usize>) -> Option<Seq<usize>>
    decreases words.len() - i,
{
    if i < 0 || i >= words.len() {
        Some(acc)
    } else {
        match parse_usize_spec(words[i]) {
            Some(n) => numbers_from(words, i + 1, acc.push(n)),
            None => None,
        }
    }
}

/// The equation of a line `value: numbers`.
pub open spec fn parse_equation(line: Seq<char>) -> Option<(usize, Seq<usize>)> {
    match split_once(line, ": "@) {
        Some((value, rest)) => match (
            parse_usize_spec(value),
            numbers_from(words(rest), 0, Seq::empty()),
        ) {
            (Some(expected), Some(params)) => Some((expected, params)),
            _ => None,
        },
        None => None,
    }
}

/// The equations of the lines from `i` on, added to `acc`.
pub open spec fn equations_from(lines: Seq<Seq<char>>, i: int, acc: Seq<(usize, Seq<usize>)>) -> Option<
    Seq<(usize, Seq<usize>)>,
>
    decreases lines.len() - i,
{
    if i < 0 || i >= lines.len() {
        Some(acc)
    } else {
        match parse_equation(lines[i]) {
            Some(equation) => equations_from(lines, i + 1, acc.push(equation)),
            None => None,
        }
    }
}

pub open spec fn equation_models(equations: Seq<(usize, Vec<usize>)>) -> Seq<(usize, Seq<usize>)> {
    Seq::new(equations.len(), |i: int| (equations[i].0, equations[i].1@))
}

#[verifier::loop_isolation(false)]
fn read_equation(line: &Vec<char>) -> (r: Option<(usize, Vec<usize>)>)
    ensures
        match r {
            Some((expected, params)) => parse_equation(line@) == Some((expected, params@)),
            None => parse_equation(line@) is None,
        },
{
    let (value, rest) = match split_once_at(line, ": ") {
        Some(parts) => parts,
        None => {
            return None;
        },
    };
    let expected = parse_usize(&value);
    let all = words_of(&rest);
    let mut params: Vec<usize> = Vec::new();
    let mut i: usize = 0;
    while i < all.len()
        invariant
            i <= all.len(),
            numbers_from(words(rest@), 0, Seq::empty()) == numbers_from(
                words(rest@),
                i as int,
                params@,
            ),
        decreases all.len() - i,
    {
        assert(rows(all@)[i as int] == all@[i as int]@);
        match parse_usize(&all[i]) {
            Some(n) => {
                params.push(n);
            },
            None => {
                return None;
            },
        }
        i += 1;
    }
    match expected {
        Some(expected) => Some((expected, params)),
        None => None,
    }
}

/// Reads the equations of a puzzle text, one on every line.
#[verifier::loop_isolation(false)]
pub fn parse_equations(input: &Vec<char>) -> (r: Option<Vec<(usize, Vec<usize>)>>)
    ensures
        match r {
            Some(equations) => equations_from(lines(input@), 0, Seq::empty()) == Some(
                equation_models(equations@),
            ),
            None => equations_from(lines(input@), 0, Seq::empty()) is None,
        },
{
    let all = lines_of(input);
    let mut equations: Vec<(usize, Vec<usize>)> = Vec::new();
    assert(equation_models(equations@) =~= Seq::empty());
    let mut i: usize = 0;
    while i < all.len()
        invariant
            i <= all.len(),
            equations_from(lines(input@), 0, Seq::empty()) == equations_from(
                lines(input@),
                i as int,
                equation_models(equations@),
            ),
        decreases all.len() - i,
    {
        assert(rows(all@)[i as int] == all@[i as int]@);
        match read_equation(&all[i]) {
            Some((expected, params)) => {
                let ghost before = equation_models(equations@);
                let ghost model = params@;
                equations.push((expected, params));
                assert(equation_models(equations@) =~= before.push((expected, model)));
            },
            None => {
                return None;
            },
        }
        i += 1;
    }
    Some(equations)
}

/// Whether an equation can be solved, beginning with its first number.
/// `None` where it has no number, or a result that is tried does not fit
/// the machine word.
pub open spec fn verdict(equation: (usize, Seq<usize>), ops: Seq<Operator>) -> Option<bool> {
    if equation.1.len() == 0 {
        None
    } else {
        solvable(equation.0, equation.1[0], equation.1, 1, ops)
    }
}

/// Whether an equation can be solved.
pub fn is_solvable(equation: &(usize, Vec<usize>), ops: &Vec<Operator>) -> (r: Option<bool>)
    ensures
        r == verdict((equation.0, equation.1@), ops@),
{
    if equation.1.len() == 0 {
        None
    } else {
        recursive_is_solvable(equation.0, equation.1[0], &equation.1, 1, ops)
    }
}

/// The sum of the test values of the equations from `i` on that can be
/// solved, added to `acc`. `None` where an equation has no number, or a
/// number does not fit the machine word.
pub open spec fn calibration_from(
    equations: Seq<(usize, Seq<usize>)>,
    ops: Seq<Operator>,
    i: int,
    acc: usize,
) -> Option<usize>
    decreases equations.len() - i,
{
    if i < 0 || i >= equations.len() {
        Some(acc)
    } else {
        match verdict(equations[i], ops) {
            Some(true) => match acc.checked_add(equations[i].0) {
                Some(more) => calibration_from(equations, ops, i + 1, more),
                None => None,
            },
            Some(false) => calibration_from(equations, ops, i + 1, acc),
            None => None,
        }
    }
}

/// The operators of a part.
pub open spec fn operators(part: Part) -> Seq<Operator> {
    if part == Part::One {
        seq![Operator::Add, Operator::Multiply]
    } else {
        seq![Operator::Add, Operator::Multiply, Operator::Concat]
    }
}

/// The answer of a part.
pub open spec fn solve(input: Seq<char>, part: Part) -> Option<Answer> {
    match equations_from(lines(input), 0, Seq::empty()) {
        Some(equations) => match calibration_from(equations, operators(part), 0, 0) {
            Some(n) => Some(Answer::Number(n)),
            None => None,
        },
        None => None,
    }
}

#[verifier::loop_isolation(false)]
fn calibrate(input: &str, ops: &Vec<Operator>) -> (r: Option<SolvedValue>)
    ensures
        answer_of(r) == (match equations_from(lines(input@), 0, Seq::empty()) {
            Some(equations) => match calibration_from(equations, ops@, 0, 0) {
                Some(n) => Some(Answer::Number(n)),
                None => None,
            },
            None => None,
        }),
{
    let chars = chars_of(input);
    let equations = match parse_equations(&chars) {
        Some(equations) => equations,
        None => {
            return None;
        },
    };
    let ghost models = equation_models(equations@);
    let each = |equation: &(usize, Vec<usize>)| -> (r: Option<bool>)
        ensures
            r == verdict((equation.0, equation.1@), ops@),
        { is_solvable(equation, ops) };
    let verdicts = par_map(&equations, each);
    let mut total: usize = 0;
    let mut i: usize = 0;
    while i < equations.len()
        invariant
            i <= equations.len(),
            calibration_from(models, ops@, 0, 0) == calibration_from(models, ops@, i as int, total),
        decreases equations.len() - i,
    {
        assert(models[i as int] == (equations@[i as int].0, equations@[i as int].1@));
        let expected = equations[i].0;
        match verdicts[i] {
            Some(true) => {
                total = match total.checked_add(expected) {
                    Some(more) => more,
                    None => {
                        return None;
                    },
                };
            },
            Some(false) => {},
            None => {
                return None;
            },
        }
        i += 1;
    }
    Some(SolvedValue::Number(total))
}

pub struct Day;

impl Solution for Day {
    open spec fn answer(&self, input: Seq<char>, part: Part) -> Option<Answer> {
        solve(input, part)
    }

    fn part1(&self, input: &str) -> (r: Option<SolvedValue>) {
        let mut ops: Vec<Operator> = Vec::new();
        ops.push(Operator::Add);
        ops.push(Operator::Multiply);
        assert(ops@ =~= operators(Part::One));
        calibrate(input, &ops)
    }

    fn part2(&self, input: &str) -> (r: Option<SolvedValue>) {
        let mut ops: Vec<Operator> = Vec::new();
        ops.push(Operator::Add);
        ops.push(Operator::Multiply);
        ops.push(Operator::Concat);
        assert(ops@ =~= operators(Part::Two));
        calibrate(input, &ops)
    }
}

} // verus!
