//! Day 21: a code is typed on a keypad by a robot, whose own keypad of
//! arrows is worked by a robot, and so on. The answer is the sum, over the
//! codes, of the number in the code times the number of keys that the
//! first in the chain has to press.

use crate::solution::{answer_of, Answer, Part, Solution, SolvedValue};
use crate::text::{chars_of, lines, lines_of, parse_usize, parse_usize_spec, rows, split_once, split_once_at};
use vstd::prelude::*;

verus! {

/// A key of a keypad: its row and column.
pub type Position = (usize, usize);

/// The key of the keypad of numbers that a character names.
pub open spec fn key_of(c: char) -> Option<Position> {
    if c == 'A' {
        Some((3usize, 2usize))
    } else if c == '0' {
        Some((3usize, 1usize))
    } else if c == '1' {
        Some((2usize, 0usize))
    } else if c == '2' {
        Some((2usize, 1usize))
    } else if c == '3' {
        Some((2usize, 2usize))
    } else if c == '4' {
        Some((1usize, 0usize))
    } else if c == '5' {
        Some((1usize, 1usize))
    } else if c == '6' {
        Some((1usize, 2usize))
    } else if c == '7' {
        Some((0usize, 0usize))
    } else if c == '8' {
        Some((0usize, 1usize))
    } else if c == '9' {
        Some((0usize, 2usize))
    } else {
        None
    }
}

fn key_for(c: char) -> (r: Option<Position>)
    ensures
        r == key_of(c),
{
    if c == 'A' {
        Some((3, 2))
    } else if c == '0' {
        Some((3, 1))
    } else if c == '1' {
        Some((2, 0))
    } else if c == '2' {
        Some((2, 1))
    } else if c == '3' {
        Some((2, 2))
    } else if c == '4' {
        Some((1, 0))
    } else if c == '5' {
        Some((1, 1))
    } else if c == '6' {
        Some((1, 2))
    } else if c == '7' {
        Some((0, 0))
    } else if c == '8' {
        Some((0, 1))
    } else if c == '9' {
        Some((0, 2))
    } else {
        None
    }
}

/// The keys that the characters of a line from `i` on name, added to
/// `acc`; `None` where a character names no key.
pub open spec fn keys_from(line: Seq<char>, i: int, acc: Seq<Position>) -> Option<Seq<Position>>
    decreases line.len() - i,
{
    if i < 0 || i >= line.len() {
        Some(acc)
    } else {
        match key_of(line[i]) {
            Some(key) => keys_from(line, i + 1, acc.push(key)),
            None => None,
        }
    }
}

/// A code: the number written before its first `A`, and its keys.
pub open spec fn parse_code(line: Seq<char>) -> Option<(usize, Seq<Position>)> {
    match split_once(line, "A"@) {
        Some((number, _)) => match (parse_usize_spec(number), keys_from(line, 0, Seq::empty())) {
            (Some(n), Some(keys)) => Some((n, keys)),
            _ => None,
        },
        None => None,
    }
}

/// The codes of the lines from `i` on, added to `acc`.
pub open spec fn codes_from(lines: Seq<Seq<char>>, i: int, acc: Seq<(usize, Seq<Position>)>) -> Option<
    Seq<(usize, Seq<Position>)>,
>
    decreases lines.len() - i,
{
    if i < 0 || i >= lines.len() {
        Some(acc)
    } else {
        match parse_code(lines[i]) {
            Some(code) => codes_from(lines, i + 1, acc.push(code)),
            None => None,
        }
    }
}

/// The codes of a puzzle text, one on each line.
pub open spec fn parse_codes(input: Seq<char>) -> Option<Seq<(usize, Seq<Position>)>> {
    codes_from(lines(input), 0, Seq::empty())
}

pub open spec fn code_models(codes: Seq<(usize, Vec<Position>)>) -> Seq<(usize, Seq<Position>)> {
    Seq::new(codes.len(), |i: int| (codes[i].0, codes[i].1@))
}

/// Reads the codes of a puzzle text.
#[verifier::loop_isolation(false)]
pub fn parse_input(input: &Vec<char>) -> (r: Option<Vec<(usize, Vec<Position>)>>)
    ensures
        match r {
            Some(codes) => parse_codes(input@) == Some(code_models(codes@)),
            None => parse_codes(input@) is None,
        },
{
    let all = lines_of(input);
    let mut codes: Vec<(usize, Vec<Position>)> = Vec::new();
    let mut i: usize = 0;
    assert(code_models(codes@) =~= Seq::empty());
    while i < all.len()
        invariant
            i <= all.len(),
            rows(all@) == lines(input@),
            parse_codes(input@) == codes_from(lines(input@), i as int, code_models(codes@)),
        decreases all.len() - i,
    {
        let line = &all[i];
        assert(rows(all@)[i as int] == line@);
        let number = match split_once_at(line, "A") {
            Some((number, _)) => parse_usize(&number),
            None => {
                return None;
            },
        };
        let mut keys: Vec<Position> = Vec::new();
        let mut k: usize = 0;
        while k < line.len()
            invariant
                k <= line.len(),
                keys_from(line@, 0, Seq::empty()) == keys_from(line@, k as int, keys@),
            decreases line.len() - k,
        {
            match key_for(line[k]) {
                Some(key) => {
                    keys.push(key);
                },
                None => {
                    return None;
                },
            }
            k += 1;
        }
        match number {
            Some(n) => {
                let ghost before = code_models(codes@);
                let ghost model = keys@;
                codes.push((n, keys));
                assert(code_models(codes@) =~= before.push((n, model)));
            },
            None => {
                return None;
            },
        }
        i += 1;
    }
    Some(codes)
}

/// The distance between two rows or two columns.
pub open spec fn apart(a: usize, b: usize) -> nat {
    if a > b {
        (a - b) as nat
    } else {
        (b - a) as nat
    }
}

/// The arrow keys that move a finger from the key `pos` to the key
/// `target` and press it: the vertical arrows, the horizontal arrows, and
/// the key `A`. Going left, the horizontal arrows come first, else the
/// vertical; but where the way would pass the gap of the keypad at
/// `forbidden`, lying in a row and a column that the move touches, the
/// order is the other.
pub open spec fn moves(pos: Position, target: Position, forbidden: Position) -> Seq<Position> {
    let vertical = Seq::new(
        apart(target.0, pos.0),
        |i: int|
            if target.0 > pos.0 {
                (1usize, 1usize)
            } else {
                (0usize, 1usize)
            },
    );
    let horizontal = Seq::new(
        apart(target.1, pos.1),
        |i: int|
            if target.1 > pos.1 {
                (1usize, 2usize)
            } else {
                (1usize, 0usize)
            },
    );
    let none = Seq::<Position>::empty();
    let by_gap = ((pos.0 == forbidden.0 || target.0 == forbidden.0) && pos.0 != target.0) && ((pos.1
        == forbidden.1 || target.1 == forbidden.1) && pos.1 != target.1);
    let arrows = if by_gap {
        if target.1 < pos.1 {
            vertical + horizontal
        } else {
            horizontal + vertical
        }
    } else {
        (if target.1 < pos.1 {
            horizontal
        } else {
            none
        }) + (if target.0 != pos.0 {
            vertical
        } else {
            none
        }) + (if target.1 > pos.1 {
            horizontal
        } else {
            none
        })
    };
    arrows.push((0usize, 2usize))
}

/// The number of keys that the first of `count` keypads of arrows has to
/// press so that the last types the keys `key`, its finger starting on
/// `start`. With no keypad between, the keys are typed themselves. `None`
/// where the number does not fit the machine word.
pub open spec fn presses(key: Seq<Position>, start: Position, forbidden: Position, count: nat) -> Option<
    usize,
>
    decreases count, 1nat, 0nat,
{
    if count == 0 {
        if key.len() <= usize::MAX {
            Some(key.len() as usize)
        } else {
            None
        }
    } else {
        presses_from(key, 0, start, forbidden, count, 0)
    }
}

/// The presses for the keys from `i` on, the finger being on `pos`, added
/// to `acc`.
pub open spec fn presses_from(
    key: Seq<Position>,
    i: int,
    pos: Position,
    forbidden: Position,
    count: nat,
    acc: usize,
) -> Option<usize>
    decreases count, 0nat, key.len() - i,
{
    if i < 0 || i >= key.len() || count == 0 {
        Some(acc)
    } else {
        match presses(
            moves(pos, key[i], forbidden),
            (0usize, 2usize),
            (0usize, 0usize),
            (count - 1) as nat,
        ) {
            Some(n) => match acc.checked_add(n) {
                Some(more) => presses_from(key, i + 1, key[i], forbidden, count, more),
                None => None,
            },
            None => None,
        }
    }
}

/// A number of presses that was found before.
pub struct Known {
    pub key: Vec<Position>,
    pub start: Position,
    pub forbidden: Position,
    pub count: usize,
    pub presses: Option<usize>,
}

/// Whether all that a list of known numbers holds is right.
pub open spec fn all_right(cache: Seq<Known>) -> bool {
    forall|i: int|
        0 <= i < cache.len() ==> (#[trigger] cache[i]).presses == presses(
            cache[i].key@,
            cache[i].start,
            cache[i].forbidden,
            cache[i].count as nat,
        )
}

fn same_keys(a: &Vec<Position>, b: &Vec<Position>) -> (r: bool)
    ensures
        r == (a@ == b@),
{
    if a.len() != b.len() {
        return false;
    }
    let mut i: usize = 0;
    while i < a.len()
        invariant
            i <= a.len(),
            a.len() == b.len(),
            forall|k: int| 0 <= k < i ==> a@[k] == b@[k],
        decreases a.len() - i,
    {
        if a[i].0 != b[i].0 || a[i].1 != b[i].1 {
            return false;
        }
        i += 1;
    }
    assert(a@ =~= b@);
    true
}

fn look_up(cache: &Vec<Known>, key: &Vec<Position>, start: Position, forbidden: Position, count: usize) -> (r:
    Option<Option<usize>>)
    requires
        all_right(cache@),
    ensures
        match r {
            Some(found) => kept_at(cache@, key@, start, forbidden, count, 0) < cache.len() && found
                == presses(key@, start, forbidden, count as nat),
            None => kept_at(cache@, key@, start, forbidden, count, 0) == cache.len(),
        },
{
    let mut i: usize = 0;
    while i < cache.len()
        invariant
            i <= cache.len(),
            all_right(cache@),
            kept_at(cache@, key@, start, forbidden, count, 0) == kept_at(
                cache@,
                key@,
                start,
                forbidden,
                count,
                i as int,
            ),
        decreases cache.len() - i,
    {
        let known = &cache[i];
        if known.count == count && known.start.0 == start.0 && known.start.1 == start.1
            && known.forbidden.0 == forbidden.0 && known.forbidden.1 == forbidden.1 && same_keys(
            &known.key,
            key,
        ) {
            return Some(known.presses);
        }
        i += 1;
    }
    None
}

/// Whether a known number is that for the given keys, start, forbidden
/// position and count of keypads.
pub open spec fn is_for(known: Known, key: Seq<Position>, start: Position, forbidden: Position, count: usize) -> bool {
    known.count == count && known.start == start && known.forbidden == forbidden && known.key@ == key
}

/// The first index at or after `from` of the known number for the given
/// keys, start, forbidden position and count, or the length of the list
/// where it holds none.
pub open spec fn kept_at(
    cache: Seq<Known>,
    key: Seq<Position>,
    start: Position,
    forbidden: Position,
    count: usize,
    from: int,
) -> int
    decreases cache.len() - from,
{
    if from < 0 || from >= cache.len() {
        cache.len() as int
    } else if is_for(cache[from], key, start, forbidden, count) {
        from
    } else {
        kept_at(cache, key, start, forbidden, count, from + 1)
    }
}

fn push_copies(to: &mut Vec<Position>, key: Position, times: usize)
    ensures
        final(to)@ == old(to)@ + Seq::new(times as nat, |i: int| key),
{
    let mut i: usize = 0;
    assert(to@ =~= old(to)@ + Seq::new(0, |i: int| key));
    while i < times
        invariant
            i <= times,
            to@ == old(to)@ + Seq::new(i as nat, |i: int| key),
        decreases times - i,
    {
        to.push(key);
        i += 1;
        assert(to@ =~= old(to)@ + Seq::new(i as nat, |i: int| key));
    }
}

fn moves_between(pos: Position, target: Position, forbidden: Position) -> (r: Vec<Position>)
    ensures
        r@ == moves(pos, target, forbidden),
{
    let (ty, tx) = target;
    let v_key: Position = if ty > pos.0 {
        (1, 1)
    } else {
        (0, 1)
    };
    let v_count = if ty > pos.0 {
        ty - pos.0
    } else {
        pos.0 - ty
    };
    let h_key: Position = if tx > pos.1 {
        (1, 2)
    } else {
        (1, 0)
    };
    let h_count = if tx > pos.1 {
        tx - pos.1
    } else {
        pos.1 - tx
    };
    let mut key_res: Vec<Position> = Vec::new();
    if ((pos.0 == forbidden.0 || ty == forbidden.0) && pos.0 != ty) && ((pos.1 == forbidden.1 || tx
        == forbidden.1) && pos.1 != tx) {
        if tx < pos.1 {
            push_copies(&mut key_res, v_key, v_count);
            push_copies(&mut key_res, h_key, h_count);
        } else {
            push_copies(&mut key_res, h_key, h_count);
            push_copies(&mut key_res, v_key, v_count);
        }
    } else {
        if tx < pos.1 {
            push_copies(&mut key_res, h_key, h_count);
        }
        if ty != pos.0 {
            push_copies(&mut key_res, v_key, v_count);
        }
        if tx > pos.1 {
            push_copies(&mut key_res, h_key, h_count);
        }
    }
    key_res.push((0, 2));
    assert(key_res@ =~= moves(pos, target, forbidden));
    key_res
}

fn copy_keys(key: &Vec<Position>) -> (r: Vec<Position>)
    ensures
        r@ == key@,
{
    let mut r: Vec<Position> = Vec::new();
    let mut i: usize = 0;
    while i < key.len()
        invariant
            i <= key.len(),
            r@ == key@.take(i as int),
        decreases key.len() - i,
    {
        r.push(key[i]);
        i += 1;
    }
    assert(key@.take(i as int) =~= key@);
    r
}

/// The number of keys that the first of `recurse_count` keypads of arrows
/// has to press so that the last types `key`. What was found is kept in
/// `cache` and looked up there.
pub fn get_directional_keyboard_inputs_for(
    key: &Vec<Position>,
    start_pos: Position,
    forbidden: Position,
    recurse_count: usize,
    cache: &mut Vec<Known>,
) -> (r: Option<usize>)
    requires
        all_right(old(cache)@),
    ensures
        all_right(final(cache)@),
        r == presses(key@, start_pos, forbidden, recurse_count as nat),
    decreases recurse_count,
{
    if recurse_count == 0 {
        return Some(key.len());
    }
    if let Some(found) = look_up(cache, key, start_pos, forbidden, recurse_count) {
        return found;
    }
    let ghost goal = presses(key@, start_pos, forbidden, recurse_count as nat);
    let mut pos = start_pos;
    let mut res: Option<usize> = Some(0);
    let mut i: usize = 0;
    while i < key.len() && res.is_some()
        invariant
            i <= key.len(),
            recurse_count > 0,
            all_right(cache@),
            res matches Some(acc) ==> goal == presses_from(
                key@,
                i as int,
                pos,
                forbidden,
                recurse_count as nat,
                acc,
            ),
            res is None ==> goal is None,
        decreases key.len() - i + (if res is Some { 1int } else { 0int }),
    {
        let key_res = moves_between(pos, key[i], forbidden);
        let inner = get_directional_keyboard_inputs_for(
            &key_res,
            (0, 2),
            (0, 0),
            recurse_count - 1,
            cache,
        );
        res = match (res, inner) {
            (Some(acc), Some(n)) => acc.checked_add(n),
            _ => None,
        };
        if res.is_some() {
            pos = key[i];
            i += 1;
        }
    }
    let known = Known {
        key: copy_keys(key),
        start: start_pos,
        forbidden,
        count: recurse_count,
        presses: res,
    };
    let ghost before = cache@;
    cache.push(known);
    assert forall|i: int| 0 <= i < cache@.len() implies (#[trigger] cache@[i]).presses == presses(
        cache@[i].key@,
        cache@[i].start,
        cache@[i].forbidden,
        cache@[i].count as nat,
    ) by {
        if i < before.len() {
            assert(cache@[i] == before[i]);
        }
    }
    res
}

/// The presses for a code behind `dir_bot_count` robots with keypads of
/// arrows: the finger starts on the key `A` of the keypad of numbers, whose
/// gap is at its lower left.
pub open spec fn minimal_combination(key: Seq<Position>, dir_bot_count: usize) -> Option<usize> {
    if dir_bot_count == usize::MAX {
        None
    } else {
        presses(key, (3usize, 2usize), (3usize, 0usize), (dir_bot_count + 1) as nat)
    }
}

/// The presses for a code behind `dir_bot_count` robots.
pub fn get_minimal_combination_for(key: &Vec<Position>, dir_bot_count: usize) -> (r: Option<usize>)
    ensures
        r == minimal_combination(key@, dir_bot_count),
{
    if dir_bot_count == usize::MAX {
        return None;
    }
    let mut cache: Vec<Known> = Vec::new();
    get_directional_keyboard_inputs_for(key, (3, 2), (3, 0), dir_bot_count + 1, &mut cache)
}

/// The sum over the codes from `i` on of the number of the code times its
/// presses, added to `acc`.
pub open spec fn complexity_from(
    codes: Seq<(usize, Seq<Position>)>,
    robots: usize,
    i: int,
    acc: usize,
) -> Option<usize>
    decreases codes.len() - i,
{
    if i < 0 || i >= codes.len() {
        Some(acc)
    } else {
        match minimal_combination(codes[i].1, robots) {
            Some(n) => match codes[i].0.checked_mul(n) {
                Some(product) => match acc.checked_add(product) {
                    Some(more) => complexity_from(codes, robots, i + 1, more),
                    None => None,
                },
                None => None,
            },
            None => None,
        }
    }
}

/// The answer for a chain of robots with keypads of arrows: two in part
/// one, twenty-five in part two.
pub open spec fn solve(input: Seq<char>, part: Part) -> Option<Answer> {
    match parse_codes(input) {
        Some(codes) => match complexity_from(
            codes,
            if part == Part::One {
                2
            } else {
                25
            },
            0,
            0,
        ) {
            Some(n) => Some(Answer::Number(n)),
            None => None,
        },
        None => None,
    }
}

#[verifier::loop_isolation(false)]
fn complexity(input: &str, robots: usize) -> (r: Option<SolvedValue>)
    ensures
        answer_of(r) == (match parse_codes(input@) {
            Some(codes) => match complexity_from(codes, robots, 0, 0) {
                Some(n) => Some(Answer::Number(n)),
                None => None,
            },
            None => None,
        }),
{
    let chars = chars_of(input);
    let codes = match parse_input(&chars) {
        Some(codes) => codes,
        None => {
            return None;
        },
    };
    let ghost models = code_models(codes@);
    let mut total: usize = 0;
    let mut i: usize = 0;
    while i < codes.len()
        invariant
            i <= codes.len(),
            models == code_models(codes@),
            complexity_from(models, robots, 0, 0) == complexity_from(models, robots, i as int, total),
        decreases codes.len() - i,
    {
        assert(models[i as int] == (codes@[i as int].0, codes@[i as int].1@));
        match get_minimal_combination_for(&codes[i].1, robots) {
            Some(n) => match codes[i].0.checked_mul(n) {
                Some(product) => match total.checked_add(product) {
                    Some(more) => {
                        total = more;
                    },
                    None => {
                        return None;
                    },
                },
                None => {
                    return None;
                },
            },
            None => {
                return None;
            },
        }
        i += 1;
    }
    Some(SolvedValue::Number(total))
}

pub struct Day;

impl Solution for Day {
    open spec fn answer(&self, input: Seq<char>, part: Part) -> Option<Answer> {
        solve(input, part)
    }

    fn part1(&self, input: &str) -> (r: Option<SolvedValue>) {
        complexity(input, 2)
    }

    fn part2(&self, input: &str) -> (r: Option<SolvedValue>) {
        complexity(input, 25)
    }
}

} // verus!
