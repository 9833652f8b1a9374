//! Day 24: a circuit of logic gates. Part one reads the number on the `z`
//! wires; part two names the outputs of gates that break the shape of a
//! ripple-carry adder.

use crate::solution::{Answer, Part, Solution, SolvedValue};
use crate::text::{
    chars_of, copy_text, decimal_digits, format_usize, holds_text, is_literal, join, joined,
    lines, lines_of, rows, same_text, sort_texts, sorted_texts, split, split_by, split_once,
    split_once_at, starts_with_char, string_of,
};
use vstd::prelude::*;

verus! {

/// What a gate computes of its two operands.
#[derive(Debug, Clone, Copy, PartialEq, Eq, Structural)]
pub enum Kind {
    And,
    Or,
    Xor,
}

/// A gate: two operand wires, what it computes of them, and the wire that
/// carries the result.
pub struct LogicGate {
    pub kind: Kind,
    pub left: Vec<char>,
    pub right: Vec<char>,
    pub output: Vec<char>,
}

/// The mathematical value of a gate.
pub struct GateModel {
    pub kind: Kind,
    pub left: Seq<char>,
    pub right: Seq<char>,
    pub output: Seq<char>,
}

impl View for LogicGate {
    type V = GateModel;

    open spec fn view(&self) -> GateModel {
        GateModel { kind: self.kind, left: self.left@, right: self.right@, output: self.output@ }
    }
}

/// A wire with the state it is given at the start.
pub struct Wire {
    pub name: Vec<char>,
    pub state: bool,
}

/// The mathematical value of a wire.
pub struct WireModel {
    pub name: Seq<char>,
    pub state: bool,
}

impl View for Wire {
    type V = WireModel;

    open spec fn view(&self) -> WireModel {
        WireModel { name: self.name@, state: self.state }
    }
}

pub open spec fn gate_models(gates: Seq<LogicGate>) -> Seq<GateModel> {
    Seq::new(gates.len(), |i: int| gates[i]@)
}

pub open spec fn wire_models(wires: Seq<Wire>) -> Seq<WireModel> {
    Seq::new(wires.len(), |i: int| wires[i]@)
}

/// A circuit: the wires that are given a state, and the gates. No two wires
/// have one name, and no two gates one output.
pub struct CircuitModel {
    pub wires: Seq<WireModel>,
    pub gates: Seq<GateModel>,
}

/// What a gate of a kind computes of two states.
pub open spec fn apply(kind: Kind, left: bool, right: bool) -> bool {
    match kind {
        Kind::And => left && right,
        Kind::Or => left || right,
        Kind::Xor => left != right,
    }
}

/// The kind that a word of a gate's text names.
pub open spec fn kind_of(word: Seq<char>) -> Option<Kind> {
    if word == "AND"@ {
        Some(Kind::And)
    } else if word == "OR"@ {
        Some(Kind::Or)
    } else if word == "XOR"@ {
        Some(Kind::Xor)
    } else {
        None
    }
}

/// A gate as the text `left KIND right` describes it, with its output.
pub open spec fn parse_gate(gate: Seq<char>, output: Seq<char>) -> Option<GateModel> {
    let parts = split(gate, " "@);
    if parts.len() < 3 {
        None
    } else {
        match kind_of(parts[1]) {
            Some(kind) => Some(GateModel { kind, left: parts[0], right: parts[2], output }),
            None => None,
        }
    }
}

/// The first index at or after `from` of the wire with the given name, or
/// the number of wires.
pub open spec fn wire_at(wires: Seq<WireModel>, name: Seq<char>, from: int) -> int
    decreases wires.len() - from,
{
    if from < 0 || from >= wires.len() {
        wires.len() as int
    } else if wires[from].name == name {
        from
    } else {
        wire_at(wires, name, from + 1)
    }
}

/// The first index at or after `from` of a gate with the given output, or
/// the number of gates.
pub open spec fn gate_at(gates: Seq<GateModel>, output: Seq<char>, from: int) -> int
    decreases gates.len() - from,
{
    if from < 0 || from >= gates.len() {
        gates.len() as int
    } else if gates[from].output == output {
        from
    } else {
        gate_at(gates, output, from + 1)
    }
}

/// The wires with one more: it takes the place of the wire of its name, or
/// comes last where there is none.
pub open spec fn put_wire(wires: Seq<WireModel>, wire: WireModel) -> Seq<WireModel> {
    let at = wire_at(wires, wire.name, 0);
    if 0 <= at < wires.len() {
        wires.update(at, wire)
    } else {
        wires.push(wire)
    }
}

/// The gates with one more: it takes the place of that with its output,
/// or comes last where there is none.
pub open spec fn put_gate(gates: Seq<GateModel>, gate: GateModel) -> Seq<GateModel> {
    let at = gate_at(gates, gate.output, 0);
    if 0 <= at < gates.len() {
        gates.update(at, gate)
    } else {
        gates.push(gate)
    }
}

/// The wire that a line `name: state` describes; its state is set exactly
/// where the line ends in `1`.
pub open spec fn parse_wire(line: Seq<char>) -> Option<WireModel> {
    match split_once(line, ": "@) {
        Some((name, state)) => Some(WireModel { name, state: state == "1"@ }),
        None => None,
    }
}

/// A gate as a line `left KIND right -> output` describes it.
pub open spec fn parse_gate_line(line: Seq<char>) -> Option<GateModel> {
    match split_once(line, " -> "@) {
        Some((gate, output)) => parse_gate(gate, output),
        None => None,
    }
}

/// The wires of the lines from `i` on, put one after the other to `acc`;
/// `None` where a line describes no wire.
pub open spec fn wires_from(lines: Seq<Seq<char>>, i: int, acc: Seq<WireModel>) -> Option<
    Seq<WireModel>,
>
    decreases lines.len() - i,
{
    if i < 0 || i >= lines.len() {
        Some(acc)
    } else {
        match parse_wire(lines[i]) {
            Some(wire) => wires_from(lines, i + 1, put_wire(acc, wire)),
            None => None,
        }
    }
}

/// The gates of the lines from `i` on, put one after the other to `acc`;
/// `None` where a line describes no gate.
pub open spec fn gates_from(lines: Seq<Seq<char>>, i: int, acc: Seq<GateModel>) -> Option<
    Seq<GateModel>,
>
    decreases lines.len() - i,
{
    if i < 0 || i >= lines.len() {
        Some(acc)
    } else {
        match parse_gate_line(lines[i]) {
            Some(gate) => gates_from(lines, i + 1, put_gate(acc, gate)),
            None => None,
        }
    }
}

/// The circuit that a puzzle text describes: the lines of the wires, an
/// empty line, and the lines of the gates.
pub open spec fn parse_circuit(input: Seq<char>) -> Option<CircuitModel> {
    match split_once(input, "\n\n"@) {
        Some((first, second)) => match (
            wires_from(lines(first), 0, Seq::empty()),
            gates_from(lines(second), 0, Seq::empty()),
        ) {
            (Some(wires), Some(gates)) => Some(CircuitModel { wires, gates }),
            _ => None,
        },
        None => None,
    }
}

/// The state of a wire: the state it is given, or what its driving gate
/// it computes of the states of its operands. `fuel` bounds how many gates
/// may lie on a path behind the wire; the state is `None` where a wire is
/// neither given nor driven, or the fuel does not reach the given wires.
pub open spec fn wire_state(
    wires: Seq<WireModel>,
    gates: Seq<GateModel>,
    wire: Seq<char>,
    fuel: nat,
) -> Option<bool>
    decreases fuel, 0nat,
{
    let w = wire_at(wires, wire, 0);
    let g = gate_at(gates, wire, 0);
    if 0 <= w < wires.len() {
        Some(wires[w].state)
    } else if fuel == 0 || !(0 <= g < gates.len()) {
        None
    } else {
        gate_state(wires, gates, gates[g], (fuel - 1) as nat)
    }
}

/// What a gate computes of the states of its operands.
pub open spec fn gate_state(
    wires: Seq<WireModel>,
    gates: Seq<GateModel>,
    gate: GateModel,
    fuel: nat,
) -> Option<bool>
    decreases fuel, 1nat,
{
    match (wire_state(wires, gates, gate.left, fuel), wire_state(wires, gates, gate.right, fuel)) {
        (Some(left), Some(right)) => Some(apply(gate.kind, left, right)),
        _ => None,
    }
}

/// The outputs of the gates from `i` on that begin with `var`, added to
/// `acc` in their order.
pub open spec fn gate_names_from(gates: Seq<GateModel>, var: char, i: int, acc: Seq<Seq<char>>) -> Seq<
    Seq<char>,
>
    decreases gates.len() - i,
{
    if i < 0 || i >= gates.len() {
        acc
    } else if gates[i].output.len() > 0 && gates[i].output[0] == var {
        gate_names_from(gates, var, i + 1, acc.push(gates[i].output))
    } else {
        gate_names_from(gates, var, i + 1, acc)
    }
}

/// The names of the wires from `i` on that begin with `var`, added to
/// `acc` in their order.
pub open spec fn wire_names_from(wires: Seq<WireModel>, var: char, i: int, acc: Seq<Seq<char>>) -> Seq<
    Seq<char>,
>
    decreases wires.len() - i,
{
    if i < 0 || i >= wires.len() {
        acc
    } else if wires[i].name.len() > 0 && wires[i].name[0] == var {
        wire_names_from(wires, var, i + 1, acc.push(wires[i].name))
    } else {
        wire_names_from(wires, var, i + 1, acc)
    }
}

/// The number whose bit `k` is the state of the wire `names[k]`, for the
/// names from `i` on, added to `acc`. `None` where a wire has no state, or a
/// set bit lies beyond 64 bits.
pub open spec fn bits_from(
    wires: Seq<WireModel>,
    gates: Seq<GateModel>,
    names: Seq<Seq<char>>,
    i: int,
    acc: u64,
) -> Option<u64>
    decreases names.len() - i,
{
    if i < 0 || i >= names.len() {
        Some(acc)
    } else {
        match wire_state(wires, gates, names[i], gates.len()) {
            None => None,
            Some(false) => bits_from(wires, gates, names, i + 1, acc),
            Some(true) => if i >= 64 {
                None
            } else {
                bits_from(wires, gates, names, i + 1, acc | (1u64 << (i as u64)))
            },
        }
    }
}

/// The number that the wires beginning with `var` carry: the wires in the
/// order of a dictionary, the first being the lowest bit.
pub open spec fn system_var(circuit: CircuitModel, var: char) -> Option<usize> {
    let names = sorted_texts(
        wire_names_from(
            circuit.wires,
            var,
            0,
            gate_names_from(circuit.gates, var, 0, Seq::empty()),
        ),
    );
    match bits_from(circuit.wires, circuit.gates, names, 0, 0) {
        Some(value) => if value <= usize::MAX {
            Some(value as usize)
        } else {
            None
        },
        None => None,
    }
}

/// Whether a gate reads an `x` wire.
pub open spec fn direct(gate: GateModel) -> bool {
    (gate.left.len() > 0 && gate.left[0] == 'x') || (gate.right.len() > 0 && gate.right[0] == 'x')
}

/// The rules that a gate of a ripple-carry adder keeps.
#[derive(Debug, Clone, Copy, PartialEq, Eq, Structural)]
pub enum Rule {
    /// An exclusive-or of two input bits drives `z00` where it reads `x00`,
    /// and no `z` wire else.
    InputSum,
    /// An exclusive-or that reads no input bit drives a `z` wire.
    OutputSum,
    /// A `z` wire is driven by an exclusive-or; the highest by an or.
    OutputKind,
}

/// Whether a gate breaks a rule. `highest` is the name of the highest `z`
/// wire.
pub open spec fn breaks(rule: Rule, gate: GateModel, highest: Seq<char>) -> bool {
    let to_z = gate.output.len() > 0 && gate.output[0] == 'z';
    match rule {
        Rule::InputSum => direct(gate) && gate.kind == Kind::Xor && (if gate.left == "x00"@
            || gate.right == "x00"@ {
            gate.output != "z00"@
        } else if gate.output == "z00"@ {
            true
        } else {
            to_z
        }),
        Rule::OutputSum => !direct(gate) && gate.kind == Kind::Xor && !to_z,
        Rule::OutputKind => to_z && (if gate.output == highest {
            gate.kind != Kind::Or
        } else {
            gate.kind != Kind::Xor
        }),
    }
}

/// A list of names with one more, unless the list holds it.
pub open spec fn noted(list: Seq<Seq<char>>, name: Seq<char>) -> Seq<Seq<char>> {
    if list.contains(name) {
        list
    } else {
        list.push(name)
    }
}

/// The outputs of the gates from `i` on that break a rule, noted in `acc`.
pub open spec fn breaking_from(
    gates: Seq<GateModel>,
    rule: Rule,
    highest: Seq<char>,
    i: int,
    acc: Seq<Seq<char>>,
) -> Seq<Seq<char>>
    decreases gates.len() - i,
{
    if i < 0 || i >= gates.len() {
        acc
    } else if breaks(rule, gates[i], highest) {
        breaking_from(gates, rule, highest, i + 1, noted(acc, gates[i].output))
    } else {
        breaking_from(gates, rule, highest, i + 1, acc)
    }
}

/// Whether one of the gates from `i` on is an exclusive-or that reads no
/// input bit and reads the wire `name`.
pub open spec fn consumed_from(gates: Seq<GateModel>, name: Seq<char>, i: int) -> bool
    decreases gates.len() - i,
{
    if i < 0 || i >= gates.len() {
        false
    } else if !direct(gates[i]) && gates[i].kind == Kind::Xor && (gates[i].left == name
        || gates[i].right == name) {
        true
    } else {
        consumed_from(gates, name, i + 1)
    }
}

/// Whether a gate is an exclusive-or of two input bits whose output no
/// rule has flagged, is not `z00`, and is read by no exclusive-or that
/// makes an output bit.
pub open spec fn stray(gates: Seq<GateModel>, gate: GateModel, flagged: Seq<Seq<char>>) -> bool {
    direct(gate) && gate.kind == Kind::Xor && gate.output != "z00"@ && !flagged.contains(
        gate.output,
    ) && !consumed_from(gates, gate.output, 0)
}

/// The indices of the stray gates from `i` on, added to `acc`.
pub open spec fn strays_from(
    gates: Seq<GateModel>,
    flagged: Seq<Seq<char>>,
    i: int,
    acc: Seq<int>,
) -> Seq<int>
    decreases gates.len() - i,
{
    if i < 0 || i >= gates.len() {
        acc
    } else if stray(gates, gates[i], flagged) {
        strays_from(gates, flagged, i + 1, acc.push(i))
    } else {
        strays_from(gates, flagged, i + 1, acc)
    }
}

/// The first index at or after `from` of an exclusive-or that reads no
/// input bit and drives `output`, or the number of gates.
pub open spec fn sum_gate_at(gates: Seq<GateModel>, output: Seq<char>, from: int) -> int
    decreases gates.len() - from,
{
    if from < 0 || from >= gates.len() {
        gates.len() as int
    } else if !direct(gates[from]) && gates[from].kind == Kind::Xor && gates[from].output
        == output {
        from
    } else {
        sum_gate_at(gates, output, from + 1)
    }
}

/// The first index at or after `from` of an or gate that drives `first` or
/// `second`, or the number of gates.
pub open spec fn carry_gate_at(
    gates: Seq<GateModel>,
    first: Seq<char>,
    second: Seq<char>,
    from: int,
) -> int
    decreases gates.len() - from,
{
    if from < 0 || from >= gates.len() {
        gates.len() as int
    } else if gates[from].kind == Kind::Or && (gates[from].output == first || gates[from].output
        == second) {
        from
    } else {
        carry_gate_at(gates, first, second, from + 1)
    }
}

/// The wire that stands where the output of a stray gate belongs: of the
/// gate that makes the output bit of the stray gate's input bits, the
/// operand that is not the carry. `None` where that gate or its carry is
/// missing, or both operands are the carry.
pub open spec fn displaced(gates: Seq<GateModel>, gate: GateModel) -> Option<Seq<char>> {
    if gate.left.len() == 0 {
        None
    } else {
        let intended = "z"@ + gate.left.subrange(1, gate.left.len() as int);
        let sum = sum_gate_at(gates, intended, 0);
        if !(0 <= sum < gates.len()) {
            None
        } else {
            let carry = carry_gate_at(gates, gates[sum].left, gates[sum].right, 0);
            if !(0 <= carry < gates.len()) {
                None
            } else if gates[sum].left != gates[carry].output {
                Some(gates[sum].left)
            } else if gates[sum].right != gates[carry].output {
                Some(gates[sum].right)
            } else {
                None
            }
        }
    }
}

/// The outputs of the stray gates from `i` on, noted in `acc`.
pub open spec fn stray_outputs_from(
    gates: Seq<GateModel>,
    strays: Seq<int>,
    i: int,
    acc: Seq<Seq<char>>,
) -> Seq<Seq<char>>
    decreases strays.len() - i,
{
    if i < 0 || i >= strays.len() {
        acc
    } else {
        stray_outputs_from(gates, strays, i + 1, noted(acc, gates[strays[i]].output))
    }
}

/// The displaced wires of the stray gates from `i` on, noted in `acc`;
/// `None` where a stray gate has none.
pub open spec fn displaced_from(
    gates: Seq<GateModel>,
    strays: Seq<int>,
    i: int,
    acc: Seq<Seq<char>>,
) -> Option<Seq<Seq<char>>>
    decreases strays.len() - i,
{
    if i < 0 || i >= strays.len() {
        Some(acc)
    } else {
        match displaced(gates, gates[strays[i]]) {
            Some(name) => displaced_from(gates, strays, i + 1, noted(acc, name)),
            None => None,
        }
    }
}

/// The name of the highest output bit of an adder with the given wires.
pub open spec fn highest_output(circuit: CircuitModel) -> Seq<char> {
    "z"@ + decimal_digits(circuit.wires.len() / 2)
}

/// The wires that break the shape of a ripple-carry adder: the outputs of
/// the gates that break a rule, the outputs of the stray gates, and the
/// wires displaced by them.
pub open spec fn flagged_wires(circuit: CircuitModel) -> Option<Seq<Seq<char>>> {
    let gates = circuit.gates;
    let highest = highest_output(circuit);
    let first = breaking_from(gates, Rule::InputSum, highest, 0, Seq::empty());
    let second = breaking_from(gates, Rule::OutputSum, highest, 0, first);
    let third = breaking_from(gates, Rule::OutputKind, highest, 0, second);
    let strays = strays_from(gates, third, 0, Seq::empty());
    let fourth = stray_outputs_from(gates, strays, 0, third);
    displaced_from(gates, strays, 0, fourth)
}

/// The answer of a part: the number on the `z` wires, or the flagged wires
/// in the order of a dictionary with commas between them.
pub open spec fn solve(input: Seq<char>, part: Part) -> Option<Answer> {
    match parse_circuit(input) {
        None => None,
        Some(circuit) => match part {
            Part::One => match system_var(circuit, 'z') {
                Some(n) => Some(Answer::Number(n)),
                None => None,
            },
            Part::Two => match flagged_wires(circuit) {
                Some(names) => Some(Answer::Text(joined(sorted_texts(names), ","@))),
                None => None,
            },
        },
    }
}

impl LogicGate {
    /// Reads a gate from the text `left KIND right`.
    pub fn parse(gate: &Vec<char>, output: Vec<char>) -> (r: Option<LogicGate>)
        ensures
            match r {
                Some(g) => parse_gate(gate@, output@) == Some(g@),
                None => parse_gate(gate@, output@) is None,
            },
    {
        let parts = split_by(gate, " ");
        if parts.len() < 3 {
            return None;
        }
        assert(rows(parts@)[0] == parts@[0]@);
        assert(rows(parts@)[1] == parts@[1]@);
        assert(rows(parts@)[2] == parts@[2]@);
        let kind = if is_literal(&parts[1], "AND") {
            Kind::And
        } else if is_literal(&parts[1], "OR") {
            Kind::Or
        } else if is_literal(&parts[1], "XOR") {
            Kind::Xor
        } else {
            return None;
        };
        Some(LogicGate { kind, left: copy_text(&parts[0]), right: copy_text(&parts[2]), output })
    }

    /// The two operands.
    pub fn values(&self) -> (r: (Vec<char>, Vec<char>))
        ensures
            r.0@ == self@.left,
            r.1@ == self@.right,
    {
        (copy_text(&self.left), copy_text(&self.right))
    }

    /// Whether one of the operands is an `x` wire.
    pub fn is_direct(&self) -> (r: bool)
        ensures
            r == direct(self@),
    {
        starts_with_char(&self.left, 'x') || starts_with_char(&self.right, 'x')
    }

    /// The state of the output, computed of the states of the operands.
    pub fn eval(&self, wires: &Vec<Wire>, gates: &Vec<LogicGate>, fuel: usize) -> (r: Option<bool>)
        ensures
            r == gate_state(wire_models(wires@), gate_models(gates@), self@, fuel as nat),
        decreases fuel, 1nat,
    {
        let left = get_wire_state(wires, gates, &self.left, fuel);
        let right = get_wire_state(wires, gates, &self.right, fuel);
        match (left, right) {
            (Some(a), Some(b)) => Some(
                match self.kind {
                    Kind::And => a && b,
                    Kind::Or => a || b,
                    Kind::Xor => a != b,
                },
            ),
            _ => None,
        }
    }

    /// Whether this gate breaks a rule.
    pub fn breaks_rule(&self, rule: Rule, highest: &Vec<char>) -> (r: bool)
        ensures
            r == breaks(rule, self@, highest@),
    {
        let to_z = starts_with_char(&self.output, 'z');
        match rule {
            Rule::InputSum => self.is_direct() && self.kind == Kind::Xor && (if is_literal(
                &self.left,
                "x00",
            ) || is_literal(&self.right, "x00") {
                !is_literal(&self.output, "z00")
            } else if is_literal(&self.output, "z00") {
                true
            } else {
                to_z
            }),
            Rule::OutputSum => !self.is_direct() && self.kind == Kind::Xor && !to_z,
            Rule::OutputKind => to_z && (if same_text(&self.output, highest) {
                self.kind != Kind::Or
            } else {
                self.kind != Kind::Xor
            }),
        }
    }
}

fn find_wire(wires: &Vec<Wire>, name: &Vec<char>) -> (r: usize)
    ensures
        r == wire_at(wire_models(wires@), name@, 0),
        r <= wires.len(),
{
    let mut i: usize = 0;
    while i < wires.len()
        invariant
            i <= wires.len(),
            wire_at(wire_models(wires@), name@, 0) == wire_at(wire_models(wires@), name@, i as int),
        decreases wires.len() - i,
    {
        if same_text(&wires[i].name, name) {
            return i;
        }
        i += 1;
    }
    i
}

fn find_gate(gates: &Vec<LogicGate>, output: &Vec<char>) -> (r: usize)
    ensures
        r == gate_at(gate_models(gates@), output@, 0),
        r <= gates.len(),
{
    let mut i: usize = 0;
    while i < gates.len()
        invariant
            i <= gates.len(),
            gate_at(gate_models(gates@), output@, 0) == gate_at(
                gate_models(gates@),
                output@,
                i as int,
            ),
        decreases gates.len() - i,
    {
        if same_text(&gates[i].output, output) {
            return i;
        }
        i += 1;
    }
    i
}

/// The state of a wire, looked up or computed by its driving gate.
pub fn get_wire_state(wires: &Vec<Wire>, gates: &Vec<LogicGate>, wire: &Vec<char>, fuel: usize) -> (r:
    Option<bool>)
    ensures
        r == wire_state(wire_models(wires@), gate_models(gates@), wire@, fuel as nat),
    decreases fuel, 0nat,
{
    let w = find_wire(wires, wire);
    if w < wires.len() {
        return Some(wires[w].state);
    }
    if fuel == 0 {
        return None;
    }
    let g = find_gate(gates, wire);
    if g >= gates.len() {
        return None;
    }
    gates[g].eval(wires, gates, fuel - 1)
}

fn store_wire(wires: &mut Vec<Wire>, wire: Wire)
    ensures
        wire_models(final(wires)@) == put_wire(wire_models(old(wires)@), wire@),
{
    let at = find_wire(wires, &wire.name);
    if at < wires.len() {
        wires.set(at, wire);
        assert(wire_models(wires@) =~= put_wire(wire_models(old(wires)@), wire@));
    } else {
        wires.push(wire);
        assert(wire_models(wires@) =~= put_wire(wire_models(old(wires)@), wire@));
    }
}

fn store_gate(gates: &mut Vec<LogicGate>, gate: LogicGate)
    ensures
        gate_models(final(gates)@) == put_gate(gate_models(old(gates)@), gate@),
{
    let at = find_gate(gates, &gate.output);
    if at < gates.len() {
        gates.set(at, gate);
        assert(gate_models(gates@) =~= put_gate(gate_models(old(gates)@), gate@));
    } else {
        gates.push(gate);
        assert(gate_models(gates@) =~= put_gate(gate_models(old(gates)@), gate@));
    }
}

fn parse_wires(text: &Vec<char>) -> (r: Option<Vec<Wire>>)
    ensures
        match r {
            Some(wires) => wires_from(lines(text@), 0, Seq::empty()) == Some(wire_models(wires@)),
            None => wires_from(lines(text@), 0, Seq::empty()) is None,
        },
{
    let all = lines_of(text);
    let mut wires: Vec<Wire> = Vec::new();
    let mut i: usize = 0;
    assert(wire_models(wires@) =~= Seq::empty());
    while i < all.len()
        invariant
            i <= all.len(),
            rows(all@) == lines(text@),
            wires_from(lines(text@), 0, Seq::empty()) == wires_from(
                lines(text@),
                i as int,
                wire_models(wires@),
            ),
        decreases all.len() - i,
    {
        assert(rows(all@)[i as int] == all@[i as int]@);
        match split_once_at(&all[i], ": ") {
            Some((name, state)) => {
                let state = is_literal(&state, "1");
                store_wire(&mut wires, Wire { name, state });
            },
            None => {
                return None;
            },
        }
        i += 1;
    }
    Some(wires)
}

fn parse_gates(text: &Vec<char>) -> (r: Option<Vec<LogicGate>>)
    ensures
        match r {
            Some(gates) => gates_from(lines(text@), 0, Seq::empty()) == Some(gate_models(gates@)),
            None => gates_from(lines(text@), 0, Seq::empty()) is None,
        },
{
    let all = lines_of(text);
    let mut gates: Vec<LogicGate> = Vec::new();
    let mut i: usize = 0;
    assert(gate_models(gates@) =~= Seq::empty());
    while i < all.len()
        invariant
            i <= all.len(),
            rows(all@) == lines(text@),
            gates_from(lines(text@), 0, Seq::empty()) == gates_from(
                lines(text@),
                i as int,
                gate_models(gates@),
            ),
        decreases all.len() - i,
    {
        assert(rows(all@)[i as int] == all@[i as int]@);
        match split_once_at(&all[i], " -> ") {
            Some((gate, output)) => {
                match LogicGate::parse(&gate, output) {
                    Some(g) => {
                        store_gate(&mut gates, g);
                    },
                    None => {
                        return None;
                    },
                }
            },
            None => {
                return None;
            },
        }
        i += 1;
    }
    Some(gates)
}

/// Reads the wires and gates of a puzzle text.
pub fn parse_input(input: &Vec<char>) -> (r: Option<(Vec<Wire>, Vec<LogicGate>)>)
    ensures
        match r {
            Some((wires, gates)) => parse_circuit(input@) == Some(
                CircuitModel { wires: wire_models(wires@), gates: gate_models(gates@) },
            ),
            None => parse_circuit(input@) is None,
        },
{
    match split_once_at(input, "\n\n") {
        Some((first, second)) => {
            let wires = parse_wires(&first);
            let gates = parse_gates(&second);
            match (wires, gates) {
                (Some(w), Some(g)) => Some((w, g)),
                _ => None,
            }
        },
        None => None,
    }
}

/// The number that the wires beginning with `var` carry.
#[verifier::loop_isolation(false)]
pub fn get_system_var(wires: &Vec<Wire>, gates: &Vec<LogicGate>, var: char) -> (r: Option<usize>)
    ensures
        r == system_var(
            CircuitModel { wires: wire_models(wires@), gates: gate_models(gates@) },
            var,
        ),
{
    let ghost wm = wire_models(wires@);
    let ghost gm = gate_models(gates@);
    let mut names: Vec<Vec<char>> = Vec::new();
    let mut i: usize = 0;
    assert(rows(names@) =~= Seq::empty());
    while i < gates.len()
        invariant
            i <= gates.len(),
            gm == gate_models(gates@),
            gate_names_from(gm, var, 0, Seq::empty()) == gate_names_from(
                gm,
                var,
                i as int,
                rows(names@),
            ),
        decreases gates.len() - i,
    {
        if starts_with_char(&gates[i].output, var) {
            let ghost before = rows(names@);
            names.push(copy_text(&gates[i].output));
            assert(rows(names@) =~= before.push(gm[i as int].output));
        }
        i += 1;
    }
    let ghost from_gates = rows(names@);
    let mut i: usize = 0;
    while i < wires.len()
        invariant
            i <= wires.len(),
            wm == wire_models(wires@),
            wire_names_from(wm, var, 0, from_gates) == wire_names_from(
                wm,
                var,
                i as int,
                rows(names@),
            ),
        decreases wires.len() - i,
    {
        if starts_with_char(&wires[i].name, var) {
            let ghost before = rows(names@);
            names.push(copy_text(&wires[i].name));
            assert(rows(names@) =~= before.push(wm[i as int].name));
        }
        i += 1;
    }
    let sorted = sort_texts(&names);
    let mut value: u64 = 0;
    let mut i: usize = 0;
    while i < sorted.len()
        invariant
            i <= sorted.len(),
            wm == wire_models(wires@),
            gm == gate_models(gates@),
            bits_from(wm, gm, rows(sorted@), 0, 0) == bits_from(
                wm,
                gm,
                rows(sorted@),
                i as int,
                value,
            ),
        decreases sorted.len() - i,
    {
        assert(rows(sorted@)[i as int] == sorted@[i as int]@);
        match get_wire_state(wires, gates, &sorted[i], gates.len()) {
            None => {
                return None;
            },
            Some(false) => {},
            Some(true) => {
                if i >= 64 {
                    return None;
                }
                value = value | (1u64 << (i as u64));
            },
        }
        i += 1;
    }
    if value <= usize::MAX as u64 {
        Some(value as usize)
    } else {
        None
    }
}

fn note(list: &mut Vec<Vec<char>>, name: &Vec<char>)
    ensures
        rows(final(list)@) == noted(rows(old(list)@), name@),
{
    if !holds_text(list, name) {
        let ghost before = rows(list@);
        list.push(copy_text(name));
        assert(rows(list@) =~= before.push(name@));
    }
}

fn note_breaking(gates: &Vec<LogicGate>, rule: Rule, highest: &Vec<char>, flagged: &mut Vec<Vec<char>>)
    ensures
        rows(final(flagged)@) == breaking_from(
            gate_models(gates@),
            rule,
            highest@,
            0,
            rows(old(flagged)@),
        ),
{
    let ghost gm = gate_models(gates@);
    let mut i: usize = 0;
    while i < gates.len()
        invariant
            i <= gates.len(),
            gm == gate_models(gates@),
            breaking_from(gm, rule, highest@, 0, rows(old(flagged)@)) == breaking_from(
                gm,
                rule,
                highest@,
                i as int,
                rows(flagged@),
            ),
        decreases gates.len() - i,
    {
        if gates[i].breaks_rule(rule, highest) {
            note(flagged, &gates[i].output);
        }
        i += 1;
    }
}

fn is_consumed(gates: &Vec<LogicGate>, name: &Vec<char>) -> (r: bool)
    ensures
        r == consumed_from(gate_models(gates@), name@, 0),
{
    let ghost gm = gate_models(gates@);
    let mut i: usize = 0;
    while i < gates.len()
        invariant
            i <= gates.len(),
            gm == gate_models(gates@),
            consumed_from(gm, name@, 0) == consumed_from(gm, name@, i as int),
        decreases gates.len() - i,
    {
        let g = &gates[i];
        if !g.is_direct() && g.kind == Kind::Xor && (same_text(&g.left, name) || same_text(
            &g.right,
            name,
        )) {
            return true;
        }
        i += 1;
    }
    false
}

fn find_strays(gates: &Vec<LogicGate>, flagged: &Vec<Vec<char>>) -> (r: Vec<usize>)
    ensures
        r@.map_values(|i: usize| i as int) == strays_from(
            gate_models(gates@),
            rows(flagged@),
            0,
            Seq::empty(),
        ),
        forall|k: int| 0 <= k < r.len() ==> r@[k] < gates.len(),
{
    let ghost gm = gate_models(gates@);
    let mut r: Vec<usize> = Vec::new();
    let mut i: usize = 0;
    assert(r@.map_values(|i: usize| i as int) =~= Seq::empty());
    while i < gates.len()
        invariant
            i <= gates.len(),
            gm == gate_models(gates@),
            forall|k: int| 0 <= k < r.len() ==> r@[k] < gates.len(),
            strays_from(gm, rows(flagged@), 0, Seq::empty()) == strays_from(
                gm,
                rows(flagged@),
                i as int,
                r@.map_values(|i: usize| i as int),
            ),
        decreases gates.len() - i,
    {
        let g = &gates[i];
        if g.is_direct() && g.kind == Kind::Xor && !is_literal(&g.output, "z00") && !holds_text(
            flagged,
            &g.output,
        ) && !is_consumed(gates, &g.output) {
            let ghost before = r@.map_values(|i: usize| i as int);
            r.push(i);
            assert(r@.map_values(|i: usize| i as int) =~= before.push(i as int));
        }
        i += 1;
    }
    r
}

fn find_sum_gate(gates: &Vec<LogicGate>, output: &Vec<char>) -> (r: usize)
    ensures
        r == sum_gate_at(gate_models(gates@), output@, 0),
        r <= gates.len(),
{
    let ghost gm = gate_models(gates@);
    let mut i: usize = 0;
    while i < gates.len()
        invariant
            i <= gates.len(),
            gm == gate_models(gates@),
            sum_gate_at(gm, output@, 0) == sum_gate_at(gm, output@, i as int),
        decreases gates.len() - i,
    {
        let g = &gates[i];
        if !g.is_direct() && g.kind == Kind::Xor && same_text(&g.output, output) {
            return i;
        }
        i += 1;
    }
    i
}

fn find_carry_gate(gates: &Vec<LogicGate>, first: &Vec<char>, second: &Vec<char>) -> (r: usize)
    ensures
        r == carry_gate_at(gate_models(gates@), first@, second@, 0),
        r <= gates.len(),
{
    let ghost gm = gate_models(gates@);
    let mut i: usize = 0;
    while i < gates.len()
        invariant
            i <= gates.len(),
            gm == gate_models(gates@),
            carry_gate_at(gm, first@, second@, 0) == carry_gate_at(gm, first@, second@, i as int),
        decreases gates.len() - i,
    {
        let g = &gates[i];
        if g.kind == Kind::Or && (same_text(&g.output, first) || same_text(&g.output, second)) {
            return i;
        }
        i += 1;
    }
    i
}

fn find_displaced(gates: &Vec<LogicGate>, gate: &LogicGate) -> (r: Option<Vec<char>>)
    ensures
        match r {
            Some(name) => displaced(gate_models(gates@), gate@) == Some(name@),
            None => displaced(gate_models(gates@), gate@) is None,
        },
{
    if gate.left.len() == 0 {
        return None;
    }
    let mut intended = chars_of("z");
    let mut rest = crate::text::copy_range(&gate.left, 1, gate.left.len());
    intended.append(&mut rest);
    let sum = find_sum_gate(gates, &intended);
    if sum >= gates.len() {
        return None;
    }
    let matched = &gates[sum];
    let carry = find_carry_gate(gates, &matched.left, &matched.right);
    if carry >= gates.len() {
        return None;
    }
    let or_gate = &gates[carry];
    if !same_text(&matched.left, &or_gate.output) {
        Some(copy_text(&matched.left))
    } else if !same_text(&matched.right, &or_gate.output) {
        Some(copy_text(&matched.right))
    } else {
        None
    }
}

/// The wires that break the shape of a ripple-carry adder.
#[verifier::loop_isolation(false)]
pub fn find_flagged(wires: &Vec<Wire>, gates: &Vec<LogicGate>) -> (r: Option<Vec<Vec<char>>>)
    ensures
        match r {
            Some(names) => flagged_wires(
                CircuitModel { wires: wire_models(wires@), gates: gate_models(gates@) },
            ) == Some(rows(names@)),
            None => flagged_wires(
                CircuitModel { wires: wire_models(wires@), gates: gate_models(gates@) },
            ) is None,
        },
{
    let ghost gm = gate_models(gates@);
    let mut highest = chars_of("z");
    let mut digits = format_usize(wires.len() / 2);
    highest.append(&mut digits);
    let mut flagged: Vec<Vec<char>> = Vec::new();
    assert(rows(flagged@) =~= Seq::empty());
    note_breaking(gates, Rule::InputSum, &highest, &mut flagged);
    note_breaking(gates, Rule::OutputSum, &highest, &mut flagged);
    note_breaking(gates, Rule::OutputKind, &highest, &mut flagged);
    let strays = find_strays(gates, &flagged);
    let ghost stray_ints = strays@.map_values(|i: usize| i as int);
    let ghost third = rows(flagged@);
    let mut i: usize = 0;
    while i < strays.len()
        invariant
            i <= strays.len(),
            gm == gate_models(gates@),
            stray_ints == strays@.map_values(|i: usize| i as int),
            forall|k: int| 0 <= k < strays.len() ==> strays@[k] < gates.len(),
            stray_outputs_from(gm, stray_ints, 0, third) == stray_outputs_from(
                gm,
                stray_ints,
                i as int,
                rows(flagged@),
            ),
        decreases strays.len() - i,
    {
        assert(stray_ints[i as int] == strays@[i as int]);
        note(&mut flagged, &gates[strays[i]].output);
        i += 1;
    }
    let ghost fourth = rows(flagged@);
    let mut i: usize = 0;
    while i < strays.len()
        invariant
            i <= strays.len(),
            gm == gate_models(gates@),
            stray_ints == strays@.map_values(|i: usize| i as int),
            forall|k: int| 0 <= k < strays.len() ==> strays@[k] < gates.len(),
            displaced_from(gm, stray_ints, 0, fourth) == displaced_from(
                gm,
                stray_ints,
                i as int,
                rows(flagged@),
            ),
        decreases strays.len() - i,
    {
        assert(stray_ints[i as int] == strays@[i as int]);
        match find_displaced(gates, &gates[strays[i]]) {
            Some(name) => {
                note(&mut flagged, &name);
            },
            None => {
                return None;
            },
        }
        i += 1;
    }
    Some(flagged)
}

pub struct Day;

impl Solution for Day {
    open spec fn answer(&self, input: Seq<char>, part: Part) -> Option<Answer> {
        solve(input, part)
    }

    fn part1(&self, input: &str) -> (r: Option<SolvedValue>) {
        let chars = chars_of(input);
        match parse_input(&chars) {
            Some((wires, gates)) => match get_system_var(&wires, &gates, 'z') {
                Some(n) => Some(SolvedValue::Number(n)),
                None => None,
            },
            None => None,
        }
    }

    fn part2(&self, input: &str) -> (r: Option<SolvedValue>) {
        let chars = chars_of(input);
        match parse_input(&chars) {
            Some((wires, gates)) => match find_flagged(&wires, &gates) {
                Some(names) => {
                    let sorted = sort_texts(&names);
                    Some(SolvedValue::Text(string_of(&join(&sorted, ","))))
                },
                None => None,
            },
            None => None,
        }
    }
}

} // verus!
