//! The contract every daily solver fulfils, and the values it answers with.

use vstd::prelude::*;
use vstd::std_specs::cmp::PartialEqSpecImpl;
use vstd::std_specs::convert::FromSpecImpl;

verus! {

/// The mathematical value of an answer: a number or a text.
pub enum Answer {
    Number(usize),
    Text(Seq<char>),
}

/// The answer of one part of a puzzle: an unsigned number, or a text for
/// the puzzles that answer with a formatted string.
#[derive(Debug, Clone)]
pub enum SolvedValue {
    Number(usize),
    Text(String),
}

impl View for SolvedValue {
    type V = Answer;

    open spec fn view(&self) -> Answer {
        match self {
            SolvedValue::Number(n) => Answer::Number(*n),
            SolvedValue::Text(t) => Answer::Text(t@),
        }
    }
}

/// The mathematical value of an optional answer.
pub open spec fn answer_of(value: Option<SolvedValue>) -> Option<Answer> {
    match value {
        Some(v) => Some(v@),
        None => None,
    }
}

impl SolvedValue {
    /// The answer as the text that is shown to the user: the decimal digits
    /// of a number, or the text itself.
    pub fn to_text(&self) -> (r: String)
        ensures
            r@ == match self@ {
                Answer::Number(n) => crate::text::decimal_digits(n as nat),
                Answer::Text(t) => t,
            },
    {
        match self {
            SolvedValue::Number(n) => crate::text::string_of(&crate::text::format_usize(*n)),
            SolvedValue::Text(t) => t.clone(),
        }
    }
}

impl PartialEq for SolvedValue {
    fn eq(&self, other: &Self) -> (r: bool) {
        match (self, other) {
            (SolvedValue::Number(a), SolvedValue::Number(b)) => *a == *b,
            (SolvedValue::Text(a), SolvedValue::Text(b)) => *a == *b,
            _ => false,
        }
    }
}

impl PartialEqSpecImpl for SolvedValue {
    open spec fn obeys_eq_spec() -> bool {
        true
    }

    open spec fn eq_spec(&self, other: &Self) -> bool {
        self@ == other@
    }
}

impl From<usize> for SolvedValue {
    fn from(n: usize) -> (r: Self) {
        SolvedValue::Number(n)
    }
}

impl FromSpecImpl<usize> for SolvedValue {
    open spec fn obeys_from_spec() -> bool {
        true
    }

    open spec fn from_spec(n: usize) -> Self {
        SolvedValue::Number(n)
    }
}

impl From<String> for SolvedValue {
    fn from(t: String) -> (r: Self) {
        SolvedValue::Text(t)
    }
}

impl FromSpecImpl<String> for SolvedValue {
    open spec fn obeys_from_spec() -> bool {
        true
    }

    open spec fn from_spec(t: String) -> Self {
        SolvedValue::Text(t)
    }
}

impl<'a> From<&'a str> for SolvedValue {
    fn from(t: &'a str) -> (r: Self)
        ensures
            r@ == Answer::Text(t@),
    {
        SolvedValue::Text(t.to_owned())
    }
}

impl<'a> FromSpecImpl<&'a str> for SolvedValue {
    /// A text has no string of its own in a contract; what the conversion
    /// gives is said by the view of its result.
    open spec fn obeys_from_spec() -> bool {
        false
    }

    open spec fn from_spec(t: &'a str) -> Self {
        SolvedValue::Number(0)
    }
}

/// One of the two sub-answers that a puzzle asks for.
#[derive(Debug, Clone, Copy, PartialEq, Eq, Structural)]
pub enum Part {
    One,
    Two,
}

impl Part {
    /// The number of the part, 1 or 2.
    pub fn number(self) -> (n: u8)
        ensures
            n == self.spec_number(),
    {
        match self {
            Part::One => 1,
            Part::Two => 2,
        }
    }

    pub open spec fn spec_number(self) -> u8 {
        match self {
            Part::One => 1,
            Part::Two => 2,
        }
    }

    /// The part as it is shown to the user: `1` or `2`.
    pub fn to_text(self) -> (r: String)
        ensures
            r@ == seq![if self == Part::One { '1' } else { '2' }],
    {
        let mut chars: Vec<char> = Vec::new();
        match self {
            Part::One => chars.push('1'),
            Part::Two => chars.push('2'),
        }
        crate::text::string_of(&chars)
    }
}

impl From<Part> for u8 {
    fn from(part: Part) -> (r: u8) {
        part.number()
    }
}

impl FromSpecImpl<Part> for u8 {
    open spec fn obeys_from_spec() -> bool {
        true
    }

    open spec fn from_spec(part: Part) -> u8 {
        part.spec_number()
    }
}

/// A daily solver: a stateless value that computes the two answers of one
/// puzzle from the puzzle text.
///
/// `answer` is the mathematical function an implementer computes. It is
/// `None` where a part has no answer for an input: the part is not
/// implemented, the text is not a well-formed puzzle input, a number that
/// the computation needs does not fit the machine's `usize`, or the
/// computation passes a limit that a solver sets itself. Such limits are
/// `day16::MAX_POSES` for the size of a maze, `day17::MAX_STEPS` for the
/// instructions that a program runs and `day17::SEARCH_LIMIT` for the
/// values of a register that a search tries; the simulations of other
/// days stop after as many steps as their spec functions name.
pub trait Solution {
    /// The answer of `part` for the puzzle text `input`.
    spec fn answer(&self, input: Seq<char>, part: Part) -> Option<Answer>;

    /// Computes the answer of part one.
    fn part1(&self, input: &str) -> (r: Option<SolvedValue>)
        ensures
            answer_of(r) == self.answer(input@, Part::One),
    ;

    /// Computes the answer of part two.
    fn part2(&self, input: &str) -> (r: Option<SolvedValue>)
        ensures
            answer_of(r) == self.answer(input@, Part::Two),
    ;

    /// Computes the answer of the given part.
    fn run(&self, input: &str, part: Part) -> (r: Option<SolvedValue>)
        ensures
            answer_of(r) == self.answer(input@, part),
    {
        match part {
            Part::One => self.part1(input),
            Part::Two => self.part2(input),
        }
    }
}

/// Solving is a pure function of the puzzle text: two runs of a solver on
/// texts that hold the same characters give the same answer.
pub proof fn lemma_same_input_same_answer<S: Solution>(
    solver: &S,
    first: Seq<char>,
    second: Seq<char>,
    part: Part,
)
    requires
        first =~= second,
    ensures
        solver.answer(first, part) == solver.answer(second, part),
{
}

} // verus!
