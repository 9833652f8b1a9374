//! Day 25: locks and keys, drawn as five columns of pins. A key fits a
//! lock where in no column the pins of both are longer than five together.
//! The answer is the number of pairs of a lock and a key that fit.

use crate::solution::{Answer, Part, Solution, SolvedValue};
use crate::text::{chars_of, lines, lines_of, rows, split, split_by, string_of};
use vstd::prelude::*;

verus! {

/// A lock: the heights of its five pins.
#[derive(Debug)]
pub struct Lock {
    pub pins: [usize; 5],
}

/// A key: the heights of its five pins.
#[derive(Debug)]
pub struct Key {
    pub pins: [usize; 5],
}

/// Whether pins of a lock and of a key fit: in each of the five columns
/// they are no longer than five together.
pub open spec fn pins_fit(lock: Seq<usize>, key: Seq<usize>) -> bool {
    forall|i: int| 0 <= i < 5 ==> lock[i] + key[i] <= 5
}

impl Lock {
    /// Whether a key fits the lock.
    pub fn fits(&self, key: &Key) -> (r: bool)
        ensures
            r == pins_fit(self.pins@, key.pins@),
    {
        let mut i: usize = 0;
        while i < 5
            invariant
                i <= 5,
                forall|k: int| 0 <= k < i ==> self.pins@[k] + key.pins@[k] <= 5,
            decreases 5 - i,
        {
            if self.pins[i] > 5 || key.pins[i] > 5 - self.pins[i] {
                return false;
            }
            i += 1;
        }
        true
    }
}

/// The pins of a drawing, read from the line at index `r`, column `c` on,
/// line by line: the height of a pin is the number of the last line, as
/// they are read, that has a `#` in its column. With `up` the lines are
/// read and counted from the last to the first. `None` where a `#` stands
/// beyond the fifth column.
pub open spec fn pins_from(lines: Seq<Seq<char>>, up: bool, r: int, c: int, acc: Seq<usize>) -> Option<
    Seq<usize>,
>
    decreases lines.len() - r, (if 0 <= r < lines.len() {
        (if up {
            lines[lines.len() - 1 - r]
        } else {
            lines[r]
        }).len() - c
    } else {
        0
    }),
{
    if r < 0 || r >= lines.len() || c < 0 {
        Some(acc)
    } else {
        let line = if up {
            lines[lines.len() - 1 - r]
        } else {
            lines[r]
        };
        if c >= line.len() {
            pins_from(lines, up, r + 1, 0, acc)
        } else if line[c] != '#' {
            pins_from(lines, up, r, c + 1, acc)
        } else if c >= 5 || acc.len() != 5 {
            None
        } else {
            pins_from(lines, up, r, c + 1, acc.update(c, r as usize))
        }
    }
}

/// What a puzzle text draws: the pins of the locks and of the keys.
pub struct Drawings {
    pub locks: Seq<Seq<usize>>,
    pub keys: Seq<Seq<usize>>,
}

/// The drawings of the items from `i` on, added to `acc`. An item whose
/// first line begins with `#` is a lock, any other a key. `None` for an
/// item without a line.
pub open spec fn drawings_from(items: Seq<Seq<char>>, i: int, acc: Drawings) -> Option<Drawings>
    decreases items.len() - i,
{
    if i < 0 || i >= items.len() {
        Some(acc)
    } else {
        let ls = lines(items[i]);
        if ls.len() == 0 {
            None
        } else {
            let lock = ls[0].len() > 0 && ls[0][0] == '#';
            match pins_from(ls, !lock, 0, 0, seq![0usize, 0usize, 0usize, 0usize, 0usize]) {
                Some(pins) => drawings_from(
                    items,
                    i + 1,
                    if lock {
                        Drawings { locks: acc.locks.push(pins), ..acc }
                    } else {
                        Drawings { keys: acc.keys.push(pins), ..acc }
                    },
                ),
                None => None,
            }
        }
    }
}

/// The drawings of a puzzle text, with an empty line between each two.
pub open spec fn parse_drawings(input: Seq<char>) -> Option<Drawings> {
    drawings_from(
        split(input, "\n\n"@),
        0,
        Drawings { locks: Seq::empty(), keys: Seq::empty() },
    )
}

pub open spec fn lock_pins(locks: Seq<Lock>) -> Seq<Seq<usize>> {
    Seq::new(locks.len(), |i: int| locks[i].pins@)
}

pub open spec fn key_pins(keys: Seq<Key>) -> Seq<Seq<usize>> {
    Seq::new(keys.len(), |i: int| keys[i].pins@)
}

#[verifier::loop_isolation(false)]
fn read_pins(all: &Vec<Vec<char>>, up: bool) -> (r: Option<[usize; 5]>)
    ensures
        match r {
            Some(pins) => pins_from(
                rows(all@),
                up,
                0,
                0,
                seq![0usize, 0usize, 0usize, 0usize, 0usize],
            ) == Some(pins@),
            None => pins_from(rows(all@), up, 0, 0, seq![0usize, 0usize, 0usize, 0usize, 0usize])
                is None,
        },
{
    let ghost ls = rows(all@);
    let ghost start = seq![0usize, 0usize, 0usize, 0usize, 0usize];
    let mut pins: [usize; 5] = [0, 0, 0, 0, 0];
    assert(pins@ =~= start);
    let mut r: usize = 0;
    while r < all.len()
        invariant
            r <= all.len(),
            pins_from(ls, up, 0, 0, start) == pins_from(ls, up, r as int, 0, pins@),
        decreases all.len() - r,
    {
        let line = if up {
            &all[all.len() - 1 - r]
        } else {
            &all[r]
        };
        assert(ls[all.len() - 1 - r] == all@[all.len() - 1 - r]@);
        assert(ls[r as int] == all@[r as int]@);
        let mut c: usize = 0;
        while c < line.len()
            invariant
                c <= line.len(),
                pins_from(ls, up, 0, 0, start) == pins_from(ls, up, r as int, c as int, pins@),
            decreases line.len() - c,
        {
            if line[c] == '#' {
                if c >= 5 {
                    return None;
                }
                pins[c] = r;
            }
            c += 1;
        }
        r += 1;
    }
    Some(pins)
}

/// Reads the locks and the keys of a puzzle text.
#[verifier::loop_isolation(false)]
pub fn parse_input(input: &Vec<char>) -> (r: Option<(Vec<Lock>, Vec<Key>)>)
    ensures
        match r {
            Some((locks, keys)) => parse_drawings(input@) == Some(
                Drawings { locks: lock_pins(locks@), keys: key_pins(keys@) },
            ),
            None => parse_drawings(input@) is None,
        },
{
    let items = split_by(input, "\n\n");
    let mut locks: Vec<Lock> = Vec::new();
    let mut keys: Vec<Key> = Vec::new();
    assert(lock_pins(locks@) =~= Seq::empty());
    assert(key_pins(keys@) =~= Seq::empty());
    let mut i: usize = 0;
    while i < items.len()
        invariant
            i <= items.len(),
            parse_drawings(input@) == drawings_from(
                rows(items@),
                i as int,
                Drawings { locks: lock_pins(locks@), keys: key_pins(keys@) },
            ),
        decreases items.len() - i,
    {
        assert(rows(items@)[i as int] == items@[i as int]@);
        let all = lines_of(&items[i]);
        if all.len() == 0 {
            return None;
        }
        assert(rows(all@)[0] == all@[0]@);
        let lock = all[0].len() > 0 && all[0][0] == '#';
        match read_pins(&all, !lock) {
            Some(pins) => {
                if lock {
                    let ghost before = lock_pins(locks@);
                    locks.push(Lock { pins });
                    assert(lock_pins(locks@) =~= before.push(pins@));
                } else {
                    let ghost before = key_pins(keys@);
                    keys.push(Key { pins });
                    assert(key_pins(keys@) =~= before.push(pins@));
                }
            },
            None => {
                return None;
            },
        }
        i += 1;
    }
    Some((locks, keys))
}

/// The number of keys among the first `count` that fit a lock.
pub open spec fn fitting_keys(lock: Seq<usize>, keys: Seq<Seq<usize>>, count: nat) -> nat
    decreases count,
{
    if count == 0 || count > keys.len() {
        0
    } else {
        fitting_keys(lock, keys, (count - 1) as nat) + (if pins_fit(lock, keys[count - 1]) {
            1nat
        } else {
            0nat
        })
    }
}

/// The number of pairs of one of the first `count` locks and a key that
/// fit.
pub open spec fn fitting_pairs(drawings: Drawings, count: nat) -> nat
    decreases count,
{
    if count == 0 || count > drawings.locks.len() {
        0
    } else {
        fitting_pairs(drawings, (count - 1) as nat) + fitting_keys(
            drawings.locks[count - 1],
            drawings.keys,
            drawings.keys.len(),
        )
    }
}

/// The answer of a part: the number of fitting pairs, where the machine
/// can count them; the second part is a gift.
pub open spec fn solve(input: Seq<char>, part: Part) -> Option<Answer> {
    match part {
        Part::One => match parse_drawings(input) {
            Some(drawings) => if fitting_pairs(drawings, drawings.locks.len()) <= usize::MAX {
                Some(Answer::Number(fitting_pairs(drawings, drawings.locks.len()) as usize))
            } else {
                None
            },
            None => None,
        },
        Part::Two => Some(Answer::Text("Day 25.2 was a gift!"@)),
    }
}

pub struct Day;

impl Solution for Day {
    open spec fn answer(&self, input: Seq<char>, part: Part) -> Option<Answer> {
        solve(input, part)
    }

    #[verifier::loop_isolation(false)]
    fn part1(&self, input: &str) -> (r: Option<SolvedValue>) {
        let chars = chars_of(input);
        let (locks, keys) = match parse_input(&chars) {
            Some(parsed) => parsed,
            None => {
                return None;
            },
        };
        let ghost drawings = Drawings { locks: lock_pins(locks@), keys: key_pins(keys@) };
        let mut total: usize = 0;
        let mut i: usize = 0;
        while i < locks.len()
            invariant
                i <= locks.len(),
                total == fitting_pairs(drawings, i as nat),
            decreases locks.len() - i,
        {
            let mut count: usize = 0;
            let mut k: usize = 0;
            while k < keys.len()
                invariant
                    k <= keys.len(),
                    count <= k,
                    count == fitting_keys(drawings.locks[i as int], drawings.keys, k as nat),
                decreases keys.len() - k,
            {
                if locks[i].fits(&keys[k]) {
                    count += 1;
                }
                k += 1;
            }
            total = match total.checked_add(count) {
                Some(more) => more,
                None => {
                    proof {
                        lemma_pairs_grow(drawings, (i + 1) as nat, locks.len() as nat);
                    }
                    return None;
                },
            };
            i += 1;
        }
        Some(SolvedValue::Number(total))
    }

    fn part2(&self, _input: &str) -> (r: Option<SolvedValue>) {
        let text = chars_of("Day 25.2 was a gift!");
        Some(SolvedValue::Text(string_of(&text)))
    }
}

/// More locks fit no fewer pairs.
proof fn lemma_pairs_grow(drawings: Drawings, few: nat, many: nat)
    requires
        few <= many <= drawings.locks.len(),
    ensures
        fitting_pairs(drawings, few) <= fitting_pairs(drawings, many),
    decreases many,
{
    if few < many {
        lemma_pairs_grow(drawings, few, (many - 1) as nat);
    }
}

} // verus!
