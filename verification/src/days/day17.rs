//! Day 17: a small computer with three registers and eight instructions.
//! Part one runs a program and joins what it puts out; part two searches
//! for the value of register A with which a program puts out itself.

use crate::solution::{Answer, Part, Solution, SolvedValue};
use crate::text::{
    chars_of, decimal_digits, format_u64, join, joined, lines, lines_of,
    parse_u64, parse_u64_spec, rows, same_text, split, split_by, split_once, split_once_at,
    string_of,
};
use vstd::prelude::*;

verus! {

/// The three registers of the computer.
#[derive(Debug, Clone, Copy, PartialEq, Eq, Structural)]
pub struct Registers {
    pub a: u64,
    pub b: u64,
    pub c: u64,
}

/// An operand that names a small number or a register.
#[derive(Debug, Clone, Copy, PartialEq, Eq, Structural)]
pub struct ComboOperand(pub u64);

impl ComboOperand {
    /// The value of the operand: itself up to three, then the registers A,
    /// B and C; `None` from seven on.
    pub open spec fn spec_value(self, registers: Registers) -> Option<u64> {
        if self.0 <= 3 {
            Some(self.0)
        } else if self.0 == 4 {
            Some(registers.a)
        } else if self.0 == 5 {
            Some(registers.b)
        } else if self.0 == 6 {
            Some(registers.c)
        } else {
            None
        }
    }

    /// The value of the operand.
    pub fn value(self, registers: Registers) -> (r: Option<u64>)
        ensures
            r == self.spec_value(registers),
    {
        if self.0 <= 3 {
            Some(self.0)
        } else if self.0 == 4 {
            Some(registers.a)
        } else if self.0 == 5 {
            Some(registers.b)
        } else if self.0 == 6 {
            Some(registers.c)
        } else {
            None
        }
    }
}

/// An instruction with its operand.
#[derive(Debug, Clone, Copy, PartialEq, Eq, Structural)]
pub enum Operation {
    Adv(ComboOperand),
    Bxl(u64),
    Bst(ComboOperand),
    Jnz(u64),
    Bxc,
    Out(ComboOperand),
    Bdv(ComboOperand),
    Cdv(ComboOperand),
}

/// What one instruction leaves behind: the next program counter, the
/// registers, and the number it puts out, if any.
pub struct Effect {
    pub pc: usize,
    pub registers: Registers,
    pub output: Option<u64>,
}

/// Register A divided by two to the power of an operand's value. `None`
/// where the operand has no value or the power does not fit 63 bits.
pub open spec fn divided(operand: ComboOperand, registers: Registers) -> Option<u64> {
    match operand.spec_value(registers) {
        Some(e) => if e < 63 {
            Some(registers.a >> e)
        } else {
            None
        },
        None => None,
    }
}

impl Operation {
    /// The instruction with the given number, from 0 to 7.
    pub open spec fn spec_new(instruction: u64, operand: u64) -> Option<Operation> {
        if instruction == 0 {
            Some(Operation::Adv(ComboOperand(operand)))
        } else if instruction == 1 {
            Some(Operation::Bxl(operand))
        } else if instruction == 2 {
            Some(Operation::Bst(ComboOperand(operand)))
        } else if instruction == 3 {
            Some(Operation::Jnz(operand))
        } else if instruction == 4 {
            Some(Operation::Bxc)
        } else if instruction == 5 {
            Some(Operation::Out(ComboOperand(operand)))
        } else if instruction == 6 {
            Some(Operation::Bdv(ComboOperand(operand)))
        } else if instruction == 7 {
            Some(Operation::Cdv(ComboOperand(operand)))
        } else {
            None
        }
    }

    /// The instruction with the given number.
    pub fn new(instruction: u64, operand: u64) -> (r: Option<Operation>)
        ensures
            r == Self::spec_new(instruction, operand),
    {
        match instruction {
            0 => Some(Operation::Adv(ComboOperand(operand))),
            1 => Some(Operation::Bxl(operand)),
            2 => Some(Operation::Bst(ComboOperand(operand))),
            3 => Some(Operation::Jnz(operand)),
            4 => Some(Operation::Bxc),
            5 => Some(Operation::Out(ComboOperand(operand))),
            6 => Some(Operation::Bdv(ComboOperand(operand))),
            7 => Some(Operation::Cdv(ComboOperand(operand))),
            _ => None,
        }
    }

    /// Where the instruction jumps to: the operand of a `Jnz` while A is
    /// not zero. `None` where it does not jump.
    pub open spec fn jump(self, registers: Registers) -> Option<u64> {
        match self {
            Operation::Jnz(operand) => if registers.a != 0 {
                Some(operand)
            } else {
                None
            },
            _ => None,
        }
    }

    /// What the instruction does at program counter `pc` with the given
    /// registers. The divisions put the quotient of A by a power of two
    /// into A, B or C; `Bxl` and `Bxc` put the exclusive or of B with the
    /// operand or with C into B; `Bst` puts the lowest three bits of its
    /// operand into B; `Out` puts them out; `Jnz` jumps to its operand
    /// unless A is zero, whatever the program counter is. Every other
    /// instruction goes on with the next, and has no effect where the
    /// program counter is the largest number of the machine.
    pub open spec fn spec_execute(self, pc: usize, registers: Registers) -> Option<Effect> {
        if let Some(target) = self.jump(registers) {
            if target <= usize::MAX {
                Some(Effect { pc: target as usize, registers, output: None })
            } else {
                None
            }
        } else if pc == usize::MAX {
            None
        } else {
            let next = (pc + 1) as usize;
            match self {
                Operation::Adv(operand) => match divided(operand, registers) {
                    Some(q) => Some(
                        Effect {
                            pc: next,
                            registers: Registers { a: q, ..registers },
                            output: None,
                        },
                    ),
                    None => None,
                },
                Operation::Bxl(operand) => Some(
                    Effect {
                        pc: next,
                        registers: Registers { b: registers.b ^ operand, ..registers },
                        output: None,
                    },
                ),
                Operation::Bst(operand) => match operand.spec_value(registers) {
                    Some(v) => Some(
                        Effect {
                            pc: next,
                            registers: Registers { b: v & 7, ..registers },
                            output: None,
                        },
                    ),
                    None => None,
                },
                Operation::Jnz(operand) => Some(Effect { pc: next, registers, output: None }),
                Operation::Bxc => Some(
                    Effect {
                        pc: next,
                        registers: Registers { b: registers.b ^ registers.c, ..registers },
                        output: None,
                    },
                ),
                Operation::Out(operand) => match operand.spec_value(registers) {
                    Some(v) => Some(Effect { pc: next, registers, output: Some(v & 7) }),
                    None => None,
                },
                Operation::Bdv(operand) => match divided(operand, registers) {
                    Some(q) => Some(
                        Effect {
                            pc: next,
                            registers: Registers { b: q, ..registers },
                            output: None,
                        },
                    ),
                    None => None,
                },
                Operation::Cdv(operand) => match divided(operand, registers) {
                    Some(q) => Some(
                        Effect {
                            pc: next,
                            registers: Registers { c: q, ..registers },
                            output: None,
                        },
                    ),
                    None => None,
                },
            }
        }
    }

    /// Runs the instruction at program counter `pc`.
    pub fn execute(self, pc: usize, registers: Registers) -> (r: Option<Effect>)
        ensures
            r == self.spec_execute(pc, registers),
    {
        if let Operation::Jnz(operand) = self {
            if registers.a != 0 {
                return if operand <= usize::MAX as u64 {
                    Some(Effect { pc: operand as usize, registers, output: None })
                } else {
                    None
                };
            }
        }
        if pc == usize::MAX {
            return None;
        }
        let next = pc + 1;
        match self {
            Operation::Adv(operand) => match shifted(operand, registers) {
                Some(q) => Some(
                    Effect { pc: next, registers: Registers { a: q, ..registers }, output: None },
                ),
                None => None,
            },
            Operation::Bxl(operand) => Some(
                Effect {
                    pc: next,
                    registers: Registers { b: registers.b ^ operand, ..registers },
                    output: None,
                },
            ),
            Operation::Bst(operand) => match operand.value(registers) {
                Some(v) => Some(
                    Effect {
                        pc: next,
                        registers: Registers { b: v & 7, ..registers },
                        output: None,
                    },
                ),
                None => None,
            },
            Operation::Jnz(_) => Some(Effect { pc: next, registers, output: None }),
            Operation::Bxc => Some(
                Effect {
                    pc: next,
                    registers: Registers { b: registers.b ^ registers.c, ..registers },
                    output: None,
                },
            ),
            Operation::Out(operand) => match operand.value(registers) {
                Some(v) => Some(Effect { pc: next, registers, output: Some(v & 7) }),
                None => None,
            },
            Operation::Bdv(operand) => match shifted(operand, registers) {
                Some(q) => Some(
                    Effect { pc: next, registers: Registers { b: q, ..registers }, output: None },
                ),
                None => None,
            },
            Operation::Cdv(operand) => match shifted(operand, registers) {
                Some(q) => Some(
                    Effect { pc: next, registers: Registers { c: q, ..registers }, output: None },
                ),
                None => None,
            },
        }
    }
}

fn shifted(operand: ComboOperand, registers: Registers) -> (r: Option<u64>)
    ensures
        r == divided(operand, registers),
{
    match operand.value(registers) {
        Some(e) => if e < 63 {
            Some(registers.a >> e)
        } else {
            None
        },
        None => None,
    }
}

/// The most instructions that one run may take.
pub const MAX_STEPS: usize = 1_000_000;

/// The state in which a run of at most `fuel` instructions ends: the
/// registers and all that was put out. `None` where an instruction fails or
/// the run does not end in time.
pub open spec fn run(
    program: Seq<Operation>,
    pc: usize,
    registers: Registers,
    output: Seq<u64>,
    fuel: nat,
) -> Option<(Registers, Seq<u64>)>
    decreases fuel,
{
    if pc >= program.len() {
        Some((registers, output))
    } else if fuel == 0 {
        None
    } else {
        match program[pc as int].spec_execute(pc, registers) {
            Some(effect) => run(
                program,
                effect.pc,
                effect.registers,
                match effect.output {
                    Some(v) => output.push(v),
                    None => output,
                },
                (fuel - 1) as nat,
            ),
            None => None,
        }
    }
}

/// The numbers of a list written in base ten.
pub open spec fn written(numbers: Seq<u64>) -> Seq<Seq<char>> {
    Seq::new(numbers.len(), |i: int| decimal_digits(numbers[i] as nat))
}

/// What was put out, as text: the numbers with commas between them.
pub open spec fn output_text(output: Seq<u64>) -> Seq<char> {
    joined(written(output), ","@)
}

/// The computer with a program: the registers, the instructions, what was
/// put out so far, and the text of the program.
#[derive(Debug)]
pub struct System {
    pub registers: Registers,
    pub program: Vec<Operation>,
    pub output: Vec<u64>,
    pub program_string: Vec<char>,
}

/// The mathematical value of a computer with a program.
pub struct SystemModel {
    pub registers: Registers,
    pub program: Seq<Operation>,
    pub output: Seq<u64>,
    pub program_string: Seq<char>,
}

impl View for System {
    type V = SystemModel;

    open spec fn view(&self) -> SystemModel {
        SystemModel {
            registers: self.registers,
            program: self.program@,
            output: self.output@,
            program_string: self.program_string@,
        }
    }
}

impl System {
    /// Runs the program from its first instruction. Where the run ends in
    /// time, the registers and the output are those at its end.
    #[verifier::loop_isolation(false)]
    pub fn execute_program(&mut self) -> (done: bool)
        ensures
            final(self).program == old(self).program,
            final(self).program_string == old(self).program_string,
            match run(
                old(self).program@,
                0,
                old(self).registers,
                old(self).output@,
                MAX_STEPS as nat,
            ) {
                Some((registers, output)) => {
                    &&& done
                    &&& final(self).registers == registers
                    &&& final(self).output@ == output
                },
                None => !done,
            },
    {
        let mut pc: usize = 0;
        let mut fuel: usize = MAX_STEPS;
        let ghost goal = run(
            old(self).program@,
            0,
            old(self).registers,
            old(self).output@,
            MAX_STEPS as nat,
        );
        while pc < self.program.len()
            invariant
                self.program == old(self).program,
                self.program_string == old(self).program_string,
                goal == run(self.program@, pc, self.registers, self.output@, fuel as nat),
            decreases fuel,
        {
            if fuel == 0 {
                return false;
            }
            let operation = self.program[pc];
            match operation.execute(pc, self.registers) {
                Some(effect) => {
                    pc = effect.pc;
                    self.registers = effect.registers;
                    if let Some(v) = effect.output {
                        self.output.push(v);
                    }
                },
                None => {
                    return false;
                },
            }
            fuel -= 1;
        }
        true
    }

    /// What was put out, as text.
    pub fn get_output_string(&self) -> (r: Vec<char>)
        ensures
            r@ == output_text(self.output@),
    {
        let mut pieces: Vec<Vec<char>> = Vec::new();
        let mut i: usize = 0;
        while i < self.output.len()
            invariant
                i <= self.output.len(),
                pieces.len() == i,
                forall|k: int| 0 <= k < i ==> (#[trigger] pieces@[k])@ == decimal_digits(
                    self.output@[k] as nat,
                ),
            decreases self.output.len() - i,
        {
            pieces.push(format_u64(self.output[i]));
            i += 1;
        }
        assert(rows(pieces@) =~= written(self.output@));
        join(&pieces, ",")
    }

    /// The text that the program puts out when register A starts with `a`.
    fn output_for(&self, a: u64) -> (r: Option<Vec<char>>)
        ensures
            match r {
                Some(text) => output_with(self@, a) == Some(text@),
                None => output_with(self@, a) is None,
            },
    {
        let mut copy = System {
            registers: Registers { a, ..self.registers },
            program: self.program.clone(),
            output: Vec::new(),
            program_string: Vec::new(),
        };
        assert(copy.program@ =~= self.program@) by {
            assert forall|i: int| 0 <= i < self.program@.len() implies copy.program@[i]
                == self.program@[i] by {
                assert(vstd::pervasive::cloned(self.program@[i], copy.program@[i]));
            }
        }
        if copy.execute_program() {
            Some(copy.get_output_string())
        } else {
            None
        }
    }
}

/// The text that a program puts out when register A starts with `a`.
pub open spec fn output_with(system: SystemModel, a: u64) -> Option<Seq<char>> {
    match run(
        system.program,
        0,
        Registers { a, ..system.registers },
        Seq::empty(),
        MAX_STEPS as nat,
    ) {
        Some((_, output)) => Some(output_text(output)),
        None => None,
    }
}

/// The registers that the lines `Register X: value` set, in the order of
/// the lines; `None` where a line is of another form.
pub open spec fn register_values(lines: Seq<Seq<char>>, i: int, acc: Seq<u64>) -> Option<Seq<u64>>
    decreases lines.len() - i,
{
    if i < 0 || i >= lines.len() {
        Some(acc)
    } else {
        match split_once(lines[i], ": "@) {
            Some((_, value)) => match parse_u64_spec(value) {
                Some(n) => register_values(lines, i + 1, acc.push(n)),
                None => None,
            },
            None => None,
        }
    }
}

/// The numbers that the pieces from `i` on write; `None` where a piece
/// writes none.
pub open spec fn numbers_from(pieces: Seq<Seq<char>>, i: int, acc: Seq<u64>) -> Option<Seq<u64>>
    decreases pieces.len() - i,
{
    if i < 0 || i >= pieces.len() {
        Some(acc)
    } else {
        match parse_u64_spec(pieces[i]) {
            Some(n) => numbers_from(pieces, i + 1, acc.push(n)),
            None => None,
        }
    }
}

/// The instructions that the numbers from index `i` on spell, two numbers
/// each; `None` where a number is left over or names no instruction.
pub open spec fn operations_from(numbers: Seq<u64>, i: int, acc: Seq<Operation>) -> Option<
    Seq<Operation>,
>
    decreases numbers.len() - i,
{
    if i < 0 || i >= numbers.len() {
        Some(acc)
    } else if i + 1 >= numbers.len() {
        None
    } else {
        match Operation::spec_new(numbers[i], numbers[i + 1]) {
            Some(operation) => operations_from(numbers, i + 2, acc.push(operation)),
            None => None,
        }
    }
}

/// The computer that a puzzle text describes: the lines of the registers,
/// an empty line, and the line `Program: ` with numbers between commas.
pub open spec fn parse_system(input: Seq<char>) -> Option<SystemModel> {
    match split_once(input, "\n\n"@) {
        Some((register_part, program_part)) => match (
            register_values(lines(register_part), 0, Seq::empty()),
            split_once(program_part, ": "@),
        ) {
            (Some(values), Some((_, program_string))) => match numbers_from(
                split(program_string, ","@),
                0,
                Seq::empty(),
            ) {
                Some(numbers) => match operations_from(numbers, 0, Seq::empty()) {
                    Some(program) => if values.len() >= 3 {
                        Some(
                            SystemModel {
                                registers: Registers { a: values[0], b: values[1], c: values[2] },
                                program,
                                output: Seq::empty(),
                                program_string,
                            },
                        )
                    } else {
                        None
                    },
                    None => None,
                },
                None => None,
            },
            _ => None,
        },
        None => None,
    }
}

fn parse_registers(text: &Vec<char>) -> (r: Option<Vec<u64>>)
    ensures
        r.is_some() == register_values(lines(text@), 0, Seq::empty()).is_some(),
        r matches Some(v) ==> register_values(lines(text@), 0, Seq::empty()) == Some(v@),
{
    let all = lines_of(text);
    let mut values: Vec<u64> = Vec::new();
    let mut i: usize = 0;
    while i < all.len()
        invariant
            i <= all.len(),
            rows(all@) == lines(text@),
            register_values(lines(text@), 0, Seq::empty()) == register_values(
                lines(text@),
                i as int,
                values@,
            ),
        decreases all.len() - i,
    {
        assert(rows(all@)[i as int] == all@[i as int]@);
        match split_once_at(&all[i], ": ") {
            Some((_, value)) => match parse_u64(&value) {
                Some(n) => {
                    values.push(n);
                },
                None => {
                    return None;
                },
            },
            None => {
                return None;
            },
        }
        i += 1;
    }
    Some(values)
}

fn parse_numbers(pieces: &Vec<Vec<char>>) -> (r: Option<Vec<u64>>)
    ensures
        r.is_some() == numbers_from(rows(pieces@), 0, Seq::empty()).is_some(),
        r matches Some(v) ==> numbers_from(rows(pieces@), 0, Seq::empty()) == Some(v@),
{
    let mut values: Vec<u64> = Vec::new();
    let mut i: usize = 0;
    while i < pieces.len()
        invariant
            i <= pieces.len(),
            numbers_from(rows(pieces@), 0, Seq::empty()) == numbers_from(
                rows(pieces@),
                i as int,
                values@,
            ),
        decreases pieces.len() - i,
    {
        assert(rows(pieces@)[i as int] == pieces@[i as int]@);
        match parse_u64(&pieces[i]) {
            Some(n) => {
                values.push(n);
            },
            None => {
                return None;
            },
        }
        i += 1;
    }
    Some(values)
}

fn parse_operations(numbers: &Vec<u64>) -> (r: Option<Vec<Operation>>)
    ensures
        r.is_some() == operations_from(numbers@, 0, Seq::empty()).is_some(),
        r matches Some(v) ==> operations_from(numbers@, 0, Seq::empty()) == Some(v@),
{
    let mut program: Vec<Operation> = Vec::new();
    let mut i: usize = 0;
    while i < numbers.len()
        invariant
            i <= numbers.len(),
            operations_from(numbers@, 0, Seq::empty()) == operations_from(
                numbers@,
                i as int,
                program@,
            ),
        decreases numbers.len() - i,
    {
        if i + 1 >= numbers.len() {
            return None;
        }
        match Operation::new(numbers[i], numbers[i + 1]) {
            Some(operation) => {
                program.push(operation);
            },
            None => {
                return None;
            },
        }
        i += 2;
    }
    Some(program)
}

/// Reads the computer that a puzzle text describes.
pub fn parse_input(input: &Vec<char>) -> (r: Option<System>)
    ensures
        match r {
            Some(system) => parse_system(input@) == Some(system@),
            None => parse_system(input@) is None,
        },
{
    let (register_part, program_part) = match split_once_at(input, "\n\n") {
        Some(parts) => parts,
        None => {
            return None;
        },
    };
    let values = parse_registers(&register_part);
    let program_string = match split_once_at(&program_part, ": ") {
        Some((_, text)) => text,
        None => {
            return None;
        },
    };
    let values = match values {
        Some(values) => values,
        None => {
            return None;
        },
    };
    let pieces = split_by(&program_string, ",");
    let numbers = match parse_numbers(&pieces) {
        Some(numbers) => numbers,
        None => {
            return None;
        },
    };
    let program = match parse_operations(&numbers) {
        Some(program) => program,
        None => {
            return None;
        },
    };
    if values.len() < 3 {
        return None;
    }
    Some(
        System {
            registers: Registers { a: values[0], b: values[1], c: values[2] },
            program,
            output: Vec::new(),
            program_string,
        },
    )
}

/// The largest value of register A that the search tries.
pub const SEARCH_LIMIT: u64 = 0x4000_0000_0000_0000;

/// The first of the values `2 * from`, `4 * from`, and so on, with which
/// the output is as long as the text of the program (`same` is true) or is
/// not (`same` is false). `None` where a run fails or the values pass the
/// limit of the search.
pub open spec fn doubled_until(system: SystemModel, from: u64, same: bool) -> Option<u64>
    decreases SEARCH_LIMIT - from,
{
    if from == 0 || from >= SEARCH_LIMIT / 2 {
        None
    } else {
        let next = (from * 2) as u64;
        match output_with(system, next) {
            Some(text) => if (text.len() == system.program_string.len()) == same {
                Some(next)
            } else {
                doubled_until(system, next, same)
            },
            None => None,
        }
    }
}

/// How many characters two texts have in common at their beginning, from
/// index `i` on.
pub open spec fn common_from(a: Seq<char>, b: Seq<char>, i: int) -> int
    decreases a.len() - i,
{
    if i < 0 || i >= a.len() || i >= b.len() || a[i] != b[i] {
        i
    } else {
        common_from(a, b, i + 1)
    }
}

/// Where the search ends, and with which output. It goes from `cur` in
/// steps of `offset` while it is not beyond `max` and fewer than 31
/// characters of the output were ever right; whenever more characters at
/// the beginning of the output are right than ever before, and that was
/// more than one, the step grows eightfold. `None` where a run fails or a
/// value passes the limit of the search.
pub open spec fn search(
    system: SystemModel,
    cur: u64,
    max: u64,
    offset: u64,
    most: int,
    output: Seq<char>,
) -> Option<(u64, Seq<char>)>
    decreases max - cur,
{
    if !(cur <= max && most < 31) {
        Some((cur, output))
    } else if offset == 0 || offset >= SEARCH_LIMIT / 8 || cur >= SEARCH_LIMIT {
        None
    } else {
        let next = (cur + offset) as u64;
        match output_with(system, next) {
            Some(text) => {
                let common = common_from(text, system.program_string, 0);
                let grown = if common > most && most > 1 {
                    (offset * 8) as u64
                } else {
                    offset
                };
                let best = if common > most {
                    common
                } else {
                    most
                };
                if next > max {
                    Some((next, text))
                } else {
                    search(system, next, max, grown, best, text)
                }
            },
            None => None,
        }
    }
}

/// The value of register A with which the program puts out its own text,
/// as the search finds it: between the first power of two that gives an
/// output of the right length and the next that does not.
pub open spec fn quine_value(system: SystemModel) -> Option<u64> {
    match doubled_until(system, 1, true) {
        Some(min) => match doubled_until(system, min, false) {
            Some(max) => match search(system, min, max, 1, 0, Seq::empty()) {
                Some((cur, output)) => if output == system.program_string {
                    Some(cur)
                } else {
                    None
                },
                None => None,
            },
            None => None,
        },
        None => None,
    }
}

/// A value that the doubling finds is larger than the one it began with.
proof fn lemma_doubled_grows(system: SystemModel, from: u64, same: bool)
    ensures
        doubled_until(system, from, same) matches Some(found) ==> found > from,
    decreases SEARCH_LIMIT - from,
{
    if !(from == 0 || from >= SEARCH_LIMIT / 2) {
        lemma_doubled_grows(system, (from * 2) as u64, same);
    }
}

/// A search that has a value to try, or begins with the output of the
/// value it stands on, ends on a value with its output.
proof fn lemma_search_ends(
    system: SystemModel,
    cur: u64,
    max: u64,
    offset: u64,
    most: int,
    output: Seq<char>,
)
    requires
        (cur <= max && most < 31) || output_with(system, cur) == Some(output),
    ensures
        search(system, cur, max, offset, most, output) matches Some((found, text)) ==> output_with(
            system,
            found,
        ) == Some(text),
    decreases max - cur,
{
    if cur <= max && most < 31 && !(offset == 0 || offset >= SEARCH_LIMIT / 8 || cur >= SEARCH_LIMIT) {
        let next = (cur + offset) as u64;
        match output_with(system, next) {
            Some(text) => {
                let common = common_from(text, system.program_string, 0);
                let grown = if common > most && most > 1 {
                    (offset * 8) as u64
                } else {
                    offset
                };
                let best = if common > most {
                    common
                } else {
                    most
                };
                if next <= max {
                    lemma_search_ends(system, next, max, grown, best, text);
                }
            },
            None => {},
        }
    }
}

/// With the value that the search finds for register A, the program puts
/// out its own text.
pub proof fn lemma_quine_value(system: SystemModel, a: u64)
    requires
        quine_value(system) == Some(a),
    ensures
        output_with(system, a) == Some(system.program_string),
{
    let min = doubled_until(system, 1, true).unwrap();
    let max = doubled_until(system, min, false).unwrap();
    lemma_doubled_grows(system, min, false);
    lemma_search_ends(system, min, max, 1, 0, Seq::empty());
}

/// The answer of a part.
pub open spec fn solve(input: Seq<char>, part: Part) -> Option<Answer> {
    match parse_system(input) {
        Some(system) => match part {
            Part::One => match output_with(system, system.registers.a) {
                Some(text) => Some(Answer::Text(text)),
                None => None,
            },
            Part::Two => match quine_value(system) {
                Some(a) => if a <= usize::MAX {
                    Some(Answer::Number(a as usize))
                } else {
                    None
                },
                None => None,
            },
        },
        None => None,
    }
}

fn double_until(system: &System, from: u64, same: bool) -> (r: Option<u64>)
    ensures
        r == doubled_until(system@, from, same),
{
    let mut cur = from;
    loop
        invariant
            doubled_until(system@, from, same) == doubled_until(system@, cur, same),
        decreases SEARCH_LIMIT - cur,
    {
        if cur == 0 || cur >= SEARCH_LIMIT / 2 {
            return None;
        }
        let next = cur * 2;
        match system.output_for(next) {
            Some(text) => {
                if (text.len() == system.program_string.len()) == same {
                    return Some(next);
                }
            },
            None => {
                return None;
            },
        }
        cur = next;
    }
}

fn common_prefix(a: &Vec<char>, b: &Vec<char>) -> (r: usize)
    ensures
        r == common_from(a@, b@, 0),
{
    let mut i: usize = 0;
    while i < a.len() && i < b.len() && a[i] == b[i]
        invariant
            i <= a.len(),
            common_from(a@, b@, 0) == common_from(a@, b@, i as int),
        decreases a.len() - i,
    {
        i += 1;
    }
    i
}

/// The value of register A with which the program puts out its own text.
#[verifier::loop_isolation(false)]
pub fn find_quine(system: &System) -> (r: Option<u64>)
    ensures
        r == quine_value(system@),
{
    let min = match double_until(system, 1, true) {
        Some(min) => min,
        None => {
            return None;
        },
    };
    let max = match double_until(system, min, false) {
        Some(max) => max,
        None => {
            return None;
        },
    };
    let mut cur = min;
    let mut offset: u64 = 1;
    let mut most: usize = 0;
    let mut output: Vec<char> = Vec::new();
    let ghost goal = search(system@, min, max, 1, 0, Seq::empty());
    let mut done = false;
    let mut last = min;
    while !done && cur <= max && most < 31
        invariant
            !done ==> last == cur && goal == search(
                system@,
                cur,
                max,
                offset,
                most as int,
                output@,
            ),
            done ==> cur <= max && goal == Some((last, output@)),
        decreases (if done { 0int } else { 1int }) + (max - cur),
    {
        if offset == 0 || offset >= SEARCH_LIMIT / 8 || cur >= SEARCH_LIMIT {
            return None;
        }
        let next = cur + offset;
        match system.output_for(next) {
            Some(text) => {
                let common = common_prefix(&text, &system.program_string);
                if common > most {
                    if most > 1 {
                        offset = offset * 8;
                    }
                    most = common;
                }
                output = text;
                last = next;
                if next > max {
                    done = true;
                } else {
                    cur = next;
                }
            },
            None => {
                return None;
            },
        }
    }
    if same_text(&output, &system.program_string) {
        Some(last)
    } else {
        None
    }
}

pub struct Day;

impl Solution for Day {
    open spec fn answer(&self, input: Seq<char>, part: Part) -> Option<Answer> {
        solve(input, part)
    }

    fn part1(&self, input: &str) -> (r: Option<SolvedValue>) {
        let chars = chars_of(input);
        match parse_input(&chars) {
            Some(system) => match system.output_for(system.registers.a) {
                Some(text) => Some(SolvedValue::Text(string_of(&text))),
                None => None,
            },
            None => None,
        }
    }

    fn part2(&self, input: &str) -> (r: Option<SolvedValue>) {
        let chars = chars_of(input);
        match parse_input(&chars) {
            Some(system) => match find_quine(&system) {
                Some(a) => if a <= usize::MAX as u64 {
                    Some(SolvedValue::Number(a as usize))
                } else {
                    None
                },
                None => None,
            },
            None => None,
        }
    }
}

} // verus!
