//! Day 18: bytes fall into a square of memory and block its cells. Part
//! one asks for the number of steps from one corner to the other after the
//! first bytes have fallen; part two for the byte that cuts the way.

use crate::counting::{grid_count, lemma_count_bound, lemma_count_more};
use crate::parallel::par_map;
use crate::solution::{Answer, Part, Solution, SolvedValue};
use std::collections::VecDeque;
use crate::text::{
    chars_of, decimal_digits, format_usize, lines, lines_of, parse_usize, parse_usize_spec, rows,
    split_once, split_once_at, string_of,
};
use vstd::prelude::*;

verus! {

/// A cell of the memory: its column and row.
pub type Position = (usize, usize);

/// The bytes that fall, in their order, and the largest column and row of
/// the square.
pub struct Maze {
    pub drop_list: Vec<Position>,
    pub size: usize,
}

/// The mathematical value of the falling bytes.
pub struct MazeModel {
    pub drop_list: Seq<Position>,
    pub size: usize,
}

impl View for Maze {
    type V = MazeModel;

    open spec fn view(&self) -> MazeModel {
        MazeModel { drop_list: self.drop_list@, size: self.size }
    }
}

/// The positions of the lines `x,y` from `i` on, added to `acc`.
pub open spec fn drops_from(lines: Seq<Seq<char>>, i: int, acc: Seq<Position>) -> Option<
    Seq<Position>,
>
    decreases lines.len() - i,
{
    if i < 0 || i >= lines.len() {
        Some(acc)
    } else {
        match split_once(lines[i], ","@) {
            Some((a, b)) => match (parse_usize_spec(a), parse_usize_spec(b)) {
                (Some(x), Some(y)) => drops_from(lines, i + 1, acc.push((x, y))),
                _ => None,
            },
            None => None,
        }
    }
}

/// Whether one of the first `count` bytes falls beyond column or row 6.
pub open spec fn beyond_small(drops: Seq<Position>, count: int) -> bool
    decreases count,
{
    if count <= 0 || count > drops.len() {
        false
    } else {
        drops[count - 1].0 > 6 || drops[count - 1].1 > 6 || beyond_small(drops, count - 1)
    }
}

/// The falling bytes of a puzzle text. The square reaches to column and
/// row 6 where no byte falls beyond, else to 70.
pub open spec fn parse_maze(input: Seq<char>) -> Option<MazeModel> {
    match drops_from(lines(input), 0, Seq::empty()) {
        Some(drops) => Some(
            MazeModel {
                drop_list: drops,
                size: if beyond_small(drops, drops.len() as int) {
                    70
                } else {
                    6
                },
            },
        ),
        None => None,
    }
}

/// Reads the falling bytes of a puzzle text.
#[verifier::loop_isolation(false)]
pub fn parse_input(input: &Vec<char>) -> (r: Option<Maze>)
    ensures
        match r {
            Some(maze) => parse_maze(input@) == Some(maze@),
            None => parse_maze(input@) is None,
        },
{
    let all = lines_of(input);
    let mut drop_list: Vec<Position> = Vec::new();
    let mut i: usize = 0;
    while i < all.len()
        invariant
            i <= all.len(),
            drops_from(lines(input@), 0, Seq::empty()) == drops_from(
                lines(input@),
                i as int,
                drop_list@,
            ),
        decreases all.len() - i,
    {
        assert(rows(all@)[i as int] == all@[i as int]@);
        match split_once_at(&all[i], ",") {
            Some((a, b)) => match (parse_usize(&a), parse_usize(&b)) {
                (Some(x), Some(y)) => {
                    drop_list.push((x, y));
                },
                _ => {
                    return None;
                },
            },
            None => {
                return None;
            },
        }
        i += 1;
    }
    let mut large = false;
    let mut k: usize = 0;
    while k < drop_list.len()
        invariant
            k <= drop_list.len(),
            large == beyond_small(drop_list@, k as int),
        decreases drop_list.len() - k,
    {
        if drop_list[k].0 > 6 || drop_list[k].1 > 6 {
            large = true;
        }
        k += 1;
    }
    Some(Maze { drop_list, size: if large { 70 } else { 6 } })
}

/// Whether a position is a cell of a table.
pub open spec fn on<T>(table: Seq<Seq<T>>, x: int, y: int) -> bool {
    0 <= y < table.len() && 0 <= x < table[y].len()
}

/// A table with one cell changed.
pub open spec fn with_cell<T>(table: Seq<Seq<T>>, x: int, y: int, value: T) -> Seq<Seq<T>> {
    table.update(y, table[y].update(x, value))
}

/// The blocked cells after the bytes from `i` on and before `bytes` have
/// fallen; `None` where a byte falls beside the square.
pub open spec fn corrupted_from(table: Seq<Seq<bool>>, drops: Seq<Position>, bytes: int, i: int) -> Option<
    Seq<Seq<bool>>,
>
    decreases drops.len() - i,
{
    if i < 0 || i >= drops.len() || i >= bytes {
        Some(table)
    } else if !on(table, drops[i].0 as int, drops[i].1 as int) {
        None
    } else {
        corrupted_from(
            with_cell(table, drops[i].0 as int, drops[i].1 as int, true),
            drops,
            bytes,
            i + 1,
        )
    }
}

/// A square table that holds one value in every cell.
pub open spec fn filled<T>(side: nat, value: T) -> Seq<Seq<T>> {
    Seq::new(side, |y: int| Seq::new(side, |x: int| value))
}

/// Whether a cell lies in the table and is not blocked.
pub open spec fn free(corrupted: Seq<Seq<bool>>, x: int, y: int) -> bool {
    on(corrupted, x, y) && !corrupted[y][x]
}

/// Whether the cell `(x, y)` is reached from the near corner in at most
/// `n` steps, each from a cell to a free cell beside it.
pub open spec fn near(corrupted: Seq<Seq<bool>>, x: int, y: int, n: nat) -> bool
    decreases n,
{
    if n == 0 {
        x == 0 && y == 0
    } else {
        let k = (n - 1) as nat;
        near(corrupted, x, y, k) || (free(corrupted, x, y) && (near(corrupted, x, y - 1, k) || near(
            corrupted,
            x - 1,
            y,
            k,
        ) || near(corrupted, x + 1, y, k) || near(corrupted, x, y + 1, k)))
    }
}

/// Whether a cell beside `(x, y)` is reached in at most `n` steps.
pub open spec fn around(corrupted: Seq<Seq<bool>>, x: int, y: int, n: nat) -> bool {
    near(corrupted, x, y - 1, n) || near(corrupted, x - 1, y, n) || near(corrupted, x + 1, y, n)
        || near(corrupted, x, y + 1, n)
}

/// The least number of steps, from `from` up to `most`, in which the cell
/// `(x, y)` is reached; `None` where it is not reached in so many.
pub open spec fn least_steps(corrupted: Seq<Seq<bool>>, x: int, y: int, from: nat, most: nat) -> Option<
    usize,
>
    decreases most + 1 - from,
{
    if from > most || from > usize::MAX {
        None
    } else if near(corrupted, x, y, from) {
        Some(from as usize)
    } else {
        least_steps(corrupted, x, y, from + 1, most)
    }
}

/// A cell that is reached lies in the table.
proof fn lemma_near_on(corrupted: Seq<Seq<bool>>, x: int, y: int, n: nat)
    requires
        near(corrupted, x, y, n),
        on(corrupted, 0, 0),
    ensures
        on(corrupted, x, y),
    decreases n,
{
    if n > 0 && near(corrupted, x, y, (n - 1) as nat) {
        lemma_near_on(corrupted, x, y, (n - 1) as nat);
    }
}

/// Once one more step reaches no new cell, no number of steps does.
proof fn lemma_settled(corrupted: Seq<Seq<bool>>, d: nat, n: nat)
    requires
        forall|x: int, y: int| #[trigger] near(corrupted, x, y, d + 1) == near(corrupted, x, y, d),
        d <= n,
    ensures
        forall|x: int, y: int| #[trigger] near(corrupted, x, y, n) == near(corrupted, x, y, d),
    decreases n,
{
    if d < n {
        let k = (n - 1) as nat;
        lemma_settled(corrupted, d, k);
        assert forall|x: int, y: int| #[trigger]
            near(corrupted, x, y, n) == near(corrupted, x, y, d) by {
            assert(near(corrupted, x, y, k) == near(corrupted, x, y, d));
            assert(near(corrupted, x, y - 1, k) == near(corrupted, x, y - 1, d));
            assert(near(corrupted, x - 1, y, k) == near(corrupted, x - 1, y, d));
            assert(near(corrupted, x + 1, y, k) == near(corrupted, x + 1, y, d));
            assert(near(corrupted, x, y + 1, k) == near(corrupted, x, y + 1, d));
            assert(near(corrupted, x, y, d + 1) == near(corrupted, x, y, d));
        }
    }
}

/// A cell that is not reached in any number of steps from `from` to
/// `most` has no least number of steps.
proof fn lemma_never(corrupted: Seq<Seq<bool>>, x: int, y: int, from: nat, most: nat)
    requires
        forall|n: nat| from <= n <= most ==> !#[trigger] near(corrupted, x, y, n),
    ensures
        least_steps(corrupted, x, y, from, most) is None,
    decreases most + 1 - from,
{
    if from <= most && from <= usize::MAX {
        lemma_never(corrupted, x, y, from + 1, most);
    }
}

/// By how many columns the direction `k` of four goes right.
pub open spec fn dir_x(k: int) -> int {
    if k == 1 {
        1
    } else if k == 3 {
        -1
    } else {
        0
    }
}

/// By how many rows the direction `k` of four goes down.
pub open spec fn dir_y(k: int) -> int {
    if k == 0 {
        1
    } else if k == 2 {
        -1
    } else {
        0
    }
}

/// Whether a list holds the cell `(x, y)`.
pub open spec fn holds(list: Seq<Position>, x: int, y: int) -> bool {
    exists|j: int| 0 <= j < list.len() && (#[trigger] list[j]).0 == x && list[j].1 == y
}

/// Whether `(x, y)` is one of the first `t` cells that are looked at from
/// the cells of a list, from each in the four directions.
pub open spec fn hit(list: Seq<Position>, t: int, x: int, y: int) -> bool
    decreases t,
{
    if t <= 0 {
        false
    } else {
        let j = (t - 1) / 4;
        let k = (t - 1) % 4;
        hit(list, t - 1, x, y) || (j < list.len() && x == list[j].0 + dir_x(k) && y == list[j].1
            + dir_y(k))
    }
}

proof fn lemma_hit_member(list: Seq<Position>, t: int, j: int, k: int, x: int, y: int)
    requires
        0 <= j < list.len(),
        0 <= k < 4,
        4 * j + k < t,
        x == list[j].0 + dir_x(k),
        y == list[j].1 + dir_y(k),
    ensures
        hit(list, t, x, y),
    decreases t,
{
    if t - 1 == 4 * j + k {
        assert((t - 1) / 4 == j && (t - 1) % 4 == k) by (nonlinear_arith)
            requires
                t - 1 == 4 * j + k,
                0 <= k < 4,
        ;
    } else {
        lemma_hit_member(list, t - 1, j, k, x, y);
    }
}

proof fn lemma_hit_near(corrupted: Seq<Seq<bool>>, list: Seq<Position>, t: int, x: int, y: int, d: nat)
    requires
        hit(list, t, x, y),
        forall|j: int| 0 <= j < list.len() ==> near(corrupted, (#[trigger] list[j]).0 as int, list[j].1 as int, d),
    ensures
        around(corrupted, x, y, d),
    decreases t,
{
    if t > 0 {
        if hit(list, t - 1, x, y) {
            lemma_hit_near(corrupted, list, t - 1, x, y, d);
        } else {
            let j = (t - 1) / 4;
            let k = (t - 1) % 4;
            assert(0 <= j && 0 <= k < 4) by (nonlinear_arith)
                requires
                    t > 0,
                    j == (t - 1) / 4,
                    k == (t - 1) % 4,
            ;
            assert(near(corrupted, list[j].0 as int, list[j].1 as int, d));
        }
    }
}

/// What a search knows after `d` rounds: `found` marks the cells that are
/// reached in at most `d` steps, and `edge` lists those that are not
/// reached in fewer.
pub open spec fn searched(
    found: Seq<Seq<bool>>,
    edge: Seq<Position>,
    corrupted: Seq<Seq<bool>>,
    side: int,
    d: nat,
) -> bool {
    &&& square(found, side)
    &&& forall|x: int, y: int|
        0 <= x < side && 0 <= y < side ==> found[y][x] == #[trigger] near(corrupted, x, y, d)
    &&& forall|j: int|
        0 <= j < edge.len() ==> (#[trigger] edge[j]).0 < side && edge[j].1 < side && near(
            corrupted,
            edge[j].0 as int,
            edge[j].1 as int,
            d,
        )
    &&& forall|x: int, y: int|
        0 <= x < side && 0 <= y < side && #[trigger] near(corrupted, x, y, d) && (d > 0 ==> !near(
            corrupted,
            x,
            y,
            (d - 1) as nat,
        )) ==> holds(edge, x, y)
}

/// What a round knows after it looked at `t` cells: `found` marks also the
/// free cells among them, and `next` lists those that were not marked
/// before.
pub open spec fn looking(
    found: Seq<Seq<bool>>,
    edge: Seq<Position>,
    next: Seq<Position>,
    corrupted: Seq<Seq<bool>>,
    side: int,
    d: nat,
    t: int,
) -> bool {
    &&& square(found, side)
    &&& forall|x: int, y: int|
        0 <= x < side && 0 <= y < side ==> found[y][x] == (#[trigger] near(corrupted, x, y, d) || (
        free(corrupted, x, y) && hit(edge, t, x, y)))
    &&& forall|j: int|
        0 <= j < next.len() ==> (#[trigger] next[j]).0 < side && next[j].1 < side
            && found[next[j].1 as int][next[j].0 as int] && !near(
            corrupted,
            next[j].0 as int,
            next[j].1 as int,
            d,
        )
    &&& forall|x: int, y: int|
        0 <= x < side && 0 <= y < side && !#[trigger] near(corrupted, x, y, d) && found[y][x]
            ==> holds(next, x, y)
}

impl MazeModel {
    /// More steps than the square has cells, but no more than the machine
    /// can count.
    pub open spec fn patience(self) -> nat {
        let most = (self.size + 1) * (self.size + 1) + 1;
        if most <= usize::MAX {
            most as nat
        } else {
            usize::MAX as nat
        }
    }

    /// The least number of steps from the near corner to the far corner
    /// after the first `bytes` bytes have fallen. `None` where the far
    /// corner is not reached in as many steps as the square has cells,
    /// which are enough where the machine can count them
    /// (`lemma_patience_is_enough`), where a byte falls beside the square,
    /// or where the square has more cells in a row than the machine can
    /// count.
    pub open spec fn distance_to_end(self, bytes: usize) -> Option<usize> {
        if self.size == usize::MAX {
            None
        } else {
            let side = (self.size + 1) as nat;
            match corrupted_from(filled(side, false), self.drop_list, bytes as int, 0) {
                Some(corrupted) => least_steps(
                    corrupted,
                    self.size as int,
                    self.size as int,
                    0,
                    self.patience(),
                ),
                None => None,
            }
        }
    }

    /// The first number of bytes from `from` on, and below the number of
    /// all bytes, after which there is no way.
    pub open spec fn first_cut(self, from: int) -> Option<usize>
        decreases self.drop_list.len() - from,
    {
        if from < 1 || from >= self.drop_list.len() {
            None
        } else if self.distance_to_end(from as usize) is None {
            Some(from as usize)
        } else {
            self.first_cut(from + 1)
        }
    }
}

fn fill<T: Copy>(side: usize, value: T) -> (r: Vec<Vec<T>>)
    ensures
        rows(r@) == filled(side as nat, value),
{
    let mut r: Vec<Vec<T>> = Vec::new();
    let mut y: usize = 0;
    while y < side
        invariant
            y <= side,
            r.len() == y,
            forall|k: int| 0 <= k < y ==> (#[trigger] r@[k])@ == Seq::new(side as nat, |x: int| value),
        decreases side - y,
    {
        let mut line: Vec<T> = Vec::new();
        let mut x: usize = 0;
        while x < side
            invariant
                x <= side,
                line.len() == x,
                forall|j: int| 0 <= j < x ==> #[trigger] line@[j] == value,
            decreases side - x,
        {
            line.push(value);
            x += 1;
        }
        assert(line@ =~= Seq::new(side as nat, |x: int| value));
        r.push(line);
        y += 1;
    }
    assert(rows(r@) =~= filled(side as nat, value));
    r
}

/// The cell one step from `(x, y)`, where it lies in a square of the given
/// side.
fn toward(x: usize, y: usize, dx: i8, dy: i8, side: usize) -> (n: Option<(usize, usize)>)
    requires
        -1 <= dx <= 1,
        -1 <= dy <= 1,
    ensures
        match n {
            Some((nx, ny)) => nx == x + dx && ny == y + dy && nx < side && ny < side,
            None => !(0 <= x + dx < side && 0 <= y + dy < side),
        },
{
    let nx = if dx < 0 {
        if x == 0 {
            return None;
        }
        x - 1
    } else if dx > 0 {
        if x == usize::MAX {
            return None;
        }
        x + 1
    } else {
        x
    };
    let ny = if dy < 0 {
        if y == 0 {
            return None;
        }
        y - 1
    } else if dy > 0 {
        if y == usize::MAX {
            return None;
        }
        y + 1
    } else {
        y
    };
    if nx < side && ny < side {
        Some((nx, ny))
    } else {
        None
    }
}

/// Whether a table is a square of the given side.
pub open spec fn square<T>(table: Seq<Seq<T>>, side: int) -> bool {
    table.len() == side && forall|y: int| 0 <= y < side ==> (#[trigger] table[y]).len() == side
}

/// Looks from a cell in the direction `k`: a free cell there that was not
/// found before is marked and added to the end of the queue.
fn look(
    found: &mut Vec<Vec<bool>>,
    next: &mut VecDeque<Position>,
    corrupted: &Vec<Vec<bool>>,
    from: Position,
    k: u8,
    side: usize,
)
    requires
        k < 4,
        square(rows(old(found)@), side as int),
        square(rows(corrupted@), side as int),
    ensures
        square(rows(final(found)@), side as int),
        ({
            let x = from.0 + dir_x(k as int);
            let y = from.1 + dir_y(k as int);
            if 0 <= x < side && 0 <= y < side && !rows(corrupted@)[y][x] && !rows(old(found)@)[y][x] {
                rows(final(found)@) == with_cell(rows(old(found)@), x, y, true) && final(next)@ == old(
                    next,
                )@.push((x as usize, y as usize))
            } else {
                rows(final(found)@) == rows(old(found)@) && final(next)@ == old(next)@
            }
        }),
{
    let dx: i8 = if k == 1 {
        1
    } else if k == 3 {
        -1
    } else {
        0
    };
    let dy: i8 = if k == 0 {
        1
    } else if k == 2 {
        -1
    } else {
        0
    };
    let ghost table = rows(found@);
    match toward(from.0, from.1, dx, dy, side) {
        Some((nx, ny)) => {
            assert(rows(corrupted@)[ny as int] == corrupted@[ny as int]@);
            assert(table[ny as int] == found@[ny as int]@);
            if corrupted[ny][nx] || found[ny][nx] {
                return ;
            }
            found[ny][nx] = true;
            next.push_back((nx, ny));
            assert(rows(found@) =~= with_cell(table, nx as int, ny as int, true));
            assert forall|j: int| 0 <= j < side implies (#[trigger] rows(found@)[j]).len() == side by {
                assert(table[j].len() == side);
            }
        },
        None => {},
    }
}

/// A round that knew what it should before it looked at one more cell
/// knows it after.
proof fn lemma_looked(
    before: Seq<Seq<bool>>,
    after: Seq<Seq<bool>>,
    edge: Seq<Position>,
    listed: Seq<Position>,
    next: Seq<Position>,
    c: Seq<Seq<bool>>,
    side: int,
    d: nat,
    i: int,
    k: int,
    t: int,
)
    requires
        0 <= i < edge.len(),
        0 <= k < 4,
        side <= usize::MAX,
        square(c, side),
        t == 4 * i + k,
        looking(before, edge, listed, c, side, d, t),
        square(after, side),
        ({
            let x = edge[i].0 + dir_x(k);
            let y = edge[i].1 + dir_y(k);
            if 0 <= x < side && 0 <= y < side && !c[y][x] && !before[y][x] {
                after == with_cell(before, x, y, true) && next == listed.push((x as usize, y as usize))
            } else {
                after == before && next == listed
            }
        }),
    ensures
        looking(after, edge, next, c, side, d, t + 1),
{
    let x = edge[i].0 + dir_x(k);
    let y = edge[i].1 + dir_y(k);
    assert forall|p: int, q: int| 0 <= p < side && 0 <= q < side implies before[q][p] == (near(c, p, q, d)
        || (free(c, p, q) && hit(edge, t, p, q))) by {}
    assert forall|j: int| 0 <= j < listed.len() implies (#[trigger] listed[j]).0 < side && listed[j].1
        < side && before[listed[j].1 as int][listed[j].0 as int] && !near(
        c,
        listed[j].0 as int,
        listed[j].1 as int,
        d,
    ) by {}
    assert forall|p: int, q: int|
        0 <= p < side && 0 <= q < side && !#[trigger] near(c, p, q, d) && before[q][p] implies holds(
        listed,
        p,
        q,
    ) by {}
    assert forall|q: int| 0 <= q < side implies (#[trigger] before[q]).len() == side by {}
    assert(t / 4 == i && t % 4 == k) by (nonlinear_arith)
        requires
            t == 4 * i + k,
            0 <= k < 4,
    ;
    let added = 0 <= x < side && 0 <= y < side && !c[y][x] && !before[y][x];
    if added {
        assert(before[y][x] == (near(c, x, y, d) || (free(c, x, y) && hit(edge, t, x, y))));
        assert(c[y].len() == side);
        assert(free(c, x, y));
        assert(!near(c, x, y, d));
        assert(after == with_cell(before, x, y, true));
        assert(next == listed.push((x as usize, y as usize)));
    } else {
        assert(after == before);
        assert(next == listed);
    }
    assert forall|p: int, q: int| hit(edge, t + 1, p, q) == (hit(edge, t, p, q) || (p == x && q == y)) by {}
    assert forall|p: int, q: int| 0 <= p < side && 0 <= q < side implies after[q][p] == (
    #[trigger] near(c, p, q, d) || (free(c, p, q) && hit(edge, t + 1, p, q))) by {
        assert(before[q][p] == (near(c, p, q, d) || (free(c, p, q) && hit(edge, t, p, q))));
        assert(before[q].len() == side);
    }
    assert forall|j: int| 0 <= j < next.len() implies (#[trigger] next[j]).0 < side && next[j].1 < side
        && after[next[j].1 as int][next[j].0 as int] && !near(c, next[j].0 as int, next[j].1 as int, d) by {
        if j < listed.len() {
            assert(next[j] == listed[j]);
            assert(before[listed[j].1 as int].len() == side);
        } else {
            assert(added);
        }
    }
    assert forall|p: int, q: int|
        0 <= p < side && 0 <= q < side && !#[trigger] near(c, p, q, d) && after[q][p] implies holds(
        next,
        p,
        q,
    ) by {
        assert(before[q].len() == side);
        if before[q][p] {
            assert(holds(listed, p, q));
            let j = choose|j: int| 0 <= j < listed.len() && (#[trigger] listed[j]).0 == p && listed[j].1 == q;
            assert(next[j] == listed[j]);
        } else {
            assert(next[listed.len() as int] == (p as usize, q as usize));
        }
    }
}

/// One round of the search: takes every cell of the edge from the front
/// of the queue, looks from it in the four directions, and leaves in the
/// queue the cells that were newly found.
fn expand(
    found: &mut Vec<Vec<bool>>,
    queue: &mut VecDeque<Position>,
    corrupted: &Vec<Vec<bool>>,
    side: usize,
    Ghost(d): Ghost<nat>,
)
    requires
        side > 0,
        square(rows(corrupted@), side as int),
        searched(rows(old(found)@), old(queue)@, rows(corrupted@), side as int, d),
    ensures
        searched(rows(final(found)@), final(queue)@, rows(corrupted@), side as int, d + 1),
{
    let ghost c = rows(corrupted@);
    let ghost edge = queue@;
    let ghost mut next: Seq<Position> = Seq::empty();
    let level = queue.len();
    let mut i: usize = 0;
    assert(queue@ =~= edge.subrange(0, edge.len() as int) + next);
    while i < level
        invariant
            i <= level,
            level == edge.len(),
            side > 0,
            c == rows(corrupted@),
            square(c, side as int),
            searched(rows(old(found)@), edge, c, side as int, d),
            looking(rows(found@), edge, next, c, side as int, d, 4 * i),
            queue@ == edge.subrange(i as int, edge.len() as int) + next,
        decreases level - i,
    {
        let from = queue.pop_front().unwrap();
        assert(from == edge[i as int]);
        assert(queue@ =~= edge.subrange(i + 1, edge.len() as int) + next);
        let mut k: u8 = 0;
        while k < 4
            invariant
                k <= 4,
                i < level,
                level == edge.len(),
                from == edge[i as int],
                side > 0,
                c == rows(corrupted@),
                square(c, side as int),
                looking(rows(found@), edge, next, c, side as int, d, 4 * i + k),
                queue@ == edge.subrange(i + 1, edge.len() as int) + next,
            decreases 4 - k,
        {
            let ghost before = rows(found@);
            let ghost listed = next;
            let ghost waiting = queue@;
            let ghost t = 4 * i + k;
            let ghost x = edge[i as int].0 + dir_x(k as int);
            let ghost y = edge[i as int].1 + dir_y(k as int);
            look(found, queue, corrupted, from, k, side);
            proof {
                let after = rows(found@);
                let added = 0 <= x < side && 0 <= y < side && !c[y][x] && !before[y][x];
                if added {
                    next = listed.push((x as usize, y as usize));
                    assert(queue@ == waiting.push((x as usize, y as usize)));
                    assert(queue@ =~= edge.subrange(i + 1, edge.len() as int) + next);
                }
                lemma_looked(before, after, edge, listed, next, c, side as int, d, i as int, k as int, t);
            }
            k += 1;
        }
        i += 1;
    }
    proof {
        assert(queue@ =~= next);
        let before = rows(old(found)@);
        let after = rows(found@);
        let t = 4 * (edge.len() as int);
        assert forall|x: int, y: int| 0 <= x < side && 0 <= y < side implies after[y][x]
            == #[trigger] near(c, x, y, d + 1) by {
            assert(after[y][x] == (near(c, x, y, d) || (free(c, x, y) && hit(edge, t, x, y))));
            assert(near(c, x, y, d + 1) == (near(c, x, y, d) || (free(c, x, y) && around(c, x, y, d))));
            if !near(c, x, y, d) && free(c, x, y) {
                if hit(edge, t, x, y) {
                    lemma_hit_near(c, edge, t, x, y, d);
                }
                if around(c, x, y, d) {
                    lemma_around_hit(c, edge, side as int, x, y, d);
                }
            }
        }
        assert forall|j: int| 0 <= j < next.len() implies (#[trigger] next[j]).0 < side && next[j].1
            < side && near(c, next[j].0 as int, next[j].1 as int, d + 1) by {
            assert(after[next[j].1 as int][next[j].0 as int] == near(
                c,
                next[j].0 as int,
                next[j].1 as int,
                d + 1,
            ));
        }
        assert forall|x: int, y: int|
            0 <= x < side && 0 <= y < side && #[trigger] near(c, x, y, d + 1) && !near(
                c,
                x,
                y,
                d,
            ) implies holds(next, x, y) by {
            assert(after[y][x] == near(c, x, y, d + 1));
        }
    }
}

/// A free cell that is not reached in `d` steps, beside one that is, is
/// looked at from a cell of the edge.
proof fn lemma_around_hit(c: Seq<Seq<bool>>, edge: Seq<Position>, side: int, x: int, y: int, d: nat)
    requires
        side > 0,
        square(c, side),
        forall|p: int, q: int|
            0 <= p < side && 0 <= q < side && #[trigger] near(c, p, q, d) && (d > 0 ==> !near(
                c,
                p,
                q,
                (d - 1) as nat,
            )) ==> holds(edge, p, q),
        free(c, x, y),
        !near(c, x, y, d),
        around(c, x, y, d),
    ensures
        hit(edge, 4 * (edge.len() as int), x, y),
{
    let k: int = if near(c, x, y - 1, d) {
        0
    } else if near(c, x - 1, y, d) {
        1
    } else if near(c, x, y + 1, d) {
        2
    } else {
        3
    };
    let p = x - dir_x(k);
    let q = y - dir_y(k);
    assert(near(c, p, q, d));
    assert(c[0].len() == side);
    lemma_near_on(c, p, q, d);
    assert(c[q].len() == side);
    if d > 0 && near(c, p, q, (d - 1) as nat) {
        assert(near(c, x, y, d));
    }
    assert(holds(edge, p, q));
    let j = choose|j: int| 0 <= j < edge.len() && (#[trigger] edge[j]).0 == p && edge[j].1 == q;
    lemma_hit_member(edge, 4 * (edge.len() as int), j, k, x, y);
}

impl Maze {
    /// The blocked cells after the first `bytes` bytes have fallen.
    #[verifier::loop_isolation(false)]
    pub fn get_corrupted_after_bytes(&self, bytes: usize) -> (r: Option<Vec<Vec<bool>>>)
        requires
            self.size < usize::MAX,
        ensures
            match r {
                Some(table) => corrupted_from(
                    filled((self.size + 1) as nat, false),
                    self.drop_list@,
                    bytes as int,
                    0,
                ) == Some(rows(table@)) && square(rows(table@), self.size + 1),
                None => corrupted_from(
                    filled((self.size + 1) as nat, false),
                    self.drop_list@,
                    bytes as int,
                    0,
                ) is None,
            },
    {
        let side = self.size + 1;
        let mut table = fill(side, false);
        let ghost start = rows(table@);
        let mut i: usize = 0;
        while i < self.drop_list.len() && i < bytes
            invariant
                i <= self.drop_list.len(),
                square(rows(table@), side as int),
                corrupted_from(start, self.drop_list@, bytes as int, 0) == corrupted_from(
                    rows(table@),
                    self.drop_list@,
                    bytes as int,
                    i as int,
                ),
            decreases self.drop_list.len() - i,
        {
            let (x, y) = self.drop_list[i];
            let ghost before = rows(table@);
            if x >= side || y >= side {
                assert(y < side ==> before[y as int].len() == side);
                return None;
            }
            assert(before[y as int] == table@[y as int]@);
            table[y][x] = true;
            assert(rows(table@) =~= with_cell(before, x as int, y as int, true));
            assert forall|k: int| 0 <= k < side implies (#[trigger] rows(table@)[k]).len()
                == side by {
                assert(before[k].len() == side);
            }
            i += 1;
        }
        Some(table)
    }

    fn patience(&self) -> (r: usize)
        requires
            self.size < usize::MAX,
        ensures
            r == self@.patience(),
    {
        let side = self.size + 1;
        match side.checked_mul(side) {
            Some(cells) => match cells.checked_add(1) {
                Some(most) => most,
                None => usize::MAX,
            },
            None => usize::MAX,
        }
    }

    /// The least number of steps from the near corner to the far corner
    /// after the first `bytes` bytes have fallen.
    pub fn find_distance_to_end(&self, bytes: usize) -> (r: Option<usize>)
        ensures
            r == self@.distance_to_end(bytes),
    {
        if self.size == usize::MAX {
            return None;
        }
        let side = self.size + 1;
        let corrupted = match self.get_corrupted_after_bytes(bytes) {
            Some(table) => table,
            None => {
                return None;
            },
        };
        let ghost c = rows(corrupted@);
        let most = self.patience();
        let mut found: Vec<Vec<bool>> = fill(side, false);
        let ghost empty = rows(found@);
        assert(empty[0] == found@[0]@);
        found[0][0] = true;
        let mut edge: VecDeque<Position> = VecDeque::new();
        edge.push_back((0, 0));
        let mut d: usize = 0;
        proof {
            assert(rows(found@) =~= with_cell(empty, 0, 0, true));
            assert forall|k: int| 0 <= k < side implies (#[trigger] rows(found@)[k]).len() == side by {
                assert(empty[k].len() == side);
            }
            assert(edge@[0] == (0usize, 0usize));
            assert(holds(edge@, 0, 0));
        }
        loop
            invariant
                self.size < usize::MAX,
                side == self.size + 1,
                c == rows(corrupted@),
                square(c, side as int),
                most == self@.patience(),
                d <= most,
                searched(rows(found@), edge@, c, side as int, d as nat),
                self@.distance_to_end(bytes) == least_steps(
                    c,
                    self.size as int,
                    self.size as int,
                    d as nat,
                    most as nat,
                ),
            decreases most - d,
        {
            let ghost end = self.size as int;
            assert(rows(found@)[end] == found@[end]@);
            assert(rows(found@)[end][end] == near(c, end, end, d as nat));
            if found[self.size][self.size] {
                return Some(d);
            }
            if d >= most {
                assert(least_steps(c, end, end, (d + 1) as nat, most as nat) is None);
                return None;
            }
            if edge.len() == 0 {
                proof {
                    lemma_stuck(rows(found@), edge@, c, side as int, d as nat, end, most as nat);
                }
                return None;
            }
            expand(&mut found, &mut edge, &corrupted, side, Ghost(d as nat));
            d += 1;
        }
    }
}

/// A search whose edge is empty has found all that can be reached: a cell
/// that it has not found is never reached.
proof fn lemma_stuck(
    found: Seq<Seq<bool>>,
    edge: Seq<Position>,
    c: Seq<Seq<bool>>,
    side: int,
    d: nat,
    end: int,
    most: nat,
)
    requires
        side > 0,
        square(c, side),
        searched(found, edge, c, side, d),
        edge.len() == 0,
        0 <= end < side,
        !near(c, end, end, d),
    ensures
        least_steps(c, end, end, d, most) is None,
{
    assert(c[0].len() == side);
    if d == 0 {
        assert(near(c, 0, 0, 0));
        assert(holds(edge, 0, 0));
    } else {
        let k = (d - 1) as nat;
        assert forall|x: int, y: int| #[trigger] near(c, x, y, k + 1) == near(c, x, y, k) by {
            if near(c, x, y, d) && !near(c, x, y, k) {
                lemma_near_on(c, x, y, d);
                assert(c[y].len() == side);
                assert(holds(edge, x, y));
            }
        }
        assert forall|n: nat| d <= n <= most implies !#[trigger] near(c, end, end, n) by {
            lemma_settled(c, k, n);
            lemma_settled(c, k, d);
            assert(near(c, end, end, n) == near(c, end, end, k));
            assert(near(c, end, end, d) == near(c, end, end, k));
        }
        lemma_never(c, end, end, d, most);
    }
}

/// The cells that are reached in at most `n` steps.
pub open spec fn reached(corrupted: Seq<Seq<bool>>, n: nat) -> spec_fn(int, int) -> bool {
    |x: int, y: int| near(corrupted, x, y, n)
}

/// Whether one more step than `n` reaches no new cell.
pub open spec fn settled(corrupted: Seq<Seq<bool>>, n: nat) -> bool {
    forall|x: int, y: int| #[trigger] near(corrupted, x, y, n + 1) == near(corrupted, x, y, n)
}

/// A cell that is reached in some steps is reached in more.
proof fn lemma_near_grows(corrupted: Seq<Seq<bool>>, x: int, y: int, n: nat, m: nat)
    requires
        near(corrupted, x, y, n),
        n <= m,
    ensures
        near(corrupted, x, y, m),
    decreases m,
{
    if n < m {
        lemma_near_grows(corrupted, x, y, n, (m - 1) as nat);
    }
}

/// As long as steps reach new cells, each reaches one more at least; so
/// there is a number of steps, no larger than the number of cells, after
/// which one more step reaches no new cell.
proof fn lemma_settles(c: Seq<Seq<bool>>, side: int, d: nat)
    requires
        side > 0,
        square(c, side),
        grid_count(reached(c, d), side, side) >= d,
    ensures
        exists|k: nat| d <= k <= side * side && settled(c, k),
    decreases side * side - d,
{
    lemma_count_bound(reached(c, d), side, side);
    if settled(c, d) {
    } else {
        let (x, y) = choose|x: int, y: int| #[trigger]
            near(c, x, y, d + 1) != near(c, x, y, d);
        let next = (d + 1) as nat;
        assert(near(c, x, y, next) && !near(c, x, y, d));
        assert(c[0].len() == side);
        lemma_near_on(c, x, y, next);
        assert(c[y].len() == side);
        assert(reached(c, next)(x, y) && !reached(c, d)(x, y));
        lemma_count_more(reached(c, d), reached(c, next), side, side, x, y);
        lemma_count_bound(reached(c, next), side, side);
        lemma_settles(c, side, next);
    }
}

/// A cell of a square that is reached at all is reached in no more steps
/// than the square has cells.
pub proof fn lemma_steps_enough(c: Seq<Seq<bool>>, side: int, x: int, y: int, n: nat)
    requires
        side > 0,
        square(c, side),
        near(c, x, y, n),
    ensures
        near(c, x, y, (side * side) as nat),
{
    lemma_settles(c, side, 0);
    let k = choose|k: nat| 0 <= k <= side * side && settled(c, k);
    if n <= side * side {
        lemma_near_grows(c, x, y, n, (side * side) as nat);
    } else {
        lemma_settled(c, k, n);
        assert(near(c, x, y, n) == near(c, x, y, k));
        lemma_near_grows(c, x, y, k, (side * side) as nat);
    }
}

/// The table of blocked cells stays a square.
proof fn lemma_corrupted_square(table: Seq<Seq<bool>>, drops: Seq<Position>, bytes: int, i: int, side: int)
    requires
        square(table, side),
    ensures
        corrupted_from(table, drops, bytes, i) matches Some(c) ==> square(c, side),
    decreases drops.len() - i,
{
    if !(i < 0 || i >= drops.len() || i >= bytes) && on(table, drops[i].0 as int, drops[i].1 as int) {
        let next = with_cell(table, drops[i].0 as int, drops[i].1 as int, true);
        assert forall|y: int| 0 <= y < side implies (#[trigger] next[y]).len() == side by {
            assert(table[y].len() == side);
        }
        lemma_corrupted_square(next, drops, bytes, i + 1, side);
    }
}

/// A cell that is reached in some number of steps from `from` to `most`
/// has a least number of steps.
proof fn lemma_found(c: Seq<Seq<bool>>, x: int, y: int, from: nat, most: nat, n: nat)
    requires
        from <= n <= most,
        most <= usize::MAX,
        near(c, x, y, n),
    ensures
        least_steps(c, x, y, from, most) is Some,
    decreases most + 1 - from,
{
    if !near(c, x, y, from) {
        lemma_found(c, x, y, from + 1, most, n);
    }
}

impl MazeModel {
    /// As many steps as the search allows are enough: where the far corner
    /// is reached over free cells at all, in whatever number of steps,
    /// there is a least number of steps to it. This holds of a square whose
    /// cells the machine can count.
    pub proof fn lemma_patience_is_enough(self, bytes: usize, n: nat)
        requires
            self.size < usize::MAX,
            (self.size + 1) * (self.size + 1) < usize::MAX,
            corrupted_from(
                filled((self.size + 1) as nat, false),
                self.drop_list,
                bytes as int,
                0,
            ) matches Some(c) && near(c, self.size as int, self.size as int, n),
        ensures
            self.distance_to_end(bytes) is Some,
    {
        let side = self.size + 1;
        let empty = filled(side as nat, false);
        let c = corrupted_from(empty, self.drop_list, bytes as int, 0).unwrap();
        lemma_corrupted_square(empty, self.drop_list, bytes as int, 0, side);
        lemma_steps_enough(c, side, self.size as int, self.size as int, n);
        lemma_found(
            c,
            self.size as int,
            self.size as int,
            0,
            self.patience(),
            (side * side) as nat,
        );
    }
}

/// The text `x,y` of a position.
pub open spec fn position_text(position: Position) -> Seq<char> {
    decimal_digits(position.0 as nat) + ","@ + decimal_digits(position.1 as nat)
}

/// The answer of a part: the steps after the first 12 bytes in the small
/// square or 1024 in the large; or the byte that cuts the way.
pub open spec fn solve(input: Seq<char>, part: Part) -> Option<Answer> {
    match parse_maze(input) {
        Some(maze) => match part {
            Part::One => match maze.distance_to_end(
                if maze.size == 6 {
                    12
                } else {
                    1024
                },
            ) {
                Some(steps) => Some(Answer::Number(steps)),
                None => None,
            },
            Part::Two => match maze.first_cut(1) {
                Some(i) => Some(Answer::Text(position_text(maze.drop_list[i - 1]))),
                None => None,
            },
        },
        None => None,
    }
}

pub struct Day;

impl Solution for Day {
    open spec fn answer(&self, input: Seq<char>, part: Part) -> Option<Answer> {
        solve(input, part)
    }

    fn part1(&self, input: &str) -> (r: Option<SolvedValue>) {
        let chars = chars_of(input);
        let maze = match parse_input(&chars) {
            Some(maze) => maze,
            None => {
                return None;
            },
        };
        let bytes_to_run = if maze.size == 6 {
            12
        } else {
            1024
        };
        match maze.find_distance_to_end(bytes_to_run) {
            Some(steps) => Some(SolvedValue::Number(steps)),
            None => None,
        }
    }

    #[verifier::loop_isolation(false)]
    fn part2(&self, input: &str) -> (r: Option<SolvedValue>) {
        let chars = chars_of(input);
        let maze = match parse_input(&chars) {
            Some(maze) => maze,
            None => {
                return None;
            },
        };
        let mut counts: Vec<usize> = Vec::new();
        let mut count: usize = 1;
        while count < maze.drop_list.len()
            invariant
                1 <= count,
                count <= maze.drop_list.len() || count == 1,
                counts.len() == count - 1,
                forall|k: int| 0 <= k < counts.len() ==> #[trigger] counts[k] == k + 1,
            decreases maze.drop_list.len() - count,
        {
            counts.push(count);
            count += 1;
        }
        let each = |bytes: &usize| -> (r: bool)
            ensures
                r == (maze@.distance_to_end(*bytes) is None),
            { maze.find_distance_to_end(*bytes).is_none() };
        let cuts = par_map(&counts, each);
        let mut i: usize = 0;
        while i < cuts.len()
            invariant
                i <= cuts.len(),
                cuts.len() < maze.drop_list.len() || cuts.len() == 0,
                maze@.first_cut(1) == maze@.first_cut(i + 1),
            decreases cuts.len() - i,
        {
            if cuts[i] {
                let (x, y) = maze.drop_list[i];
                let mut text = format_usize(x);
                let mut comma = chars_of(",");
                let mut second = format_usize(y);
                text.append(&mut comma);
                text.append(&mut second);
                return Some(SolvedValue::Text(string_of(&text)));
            }
            i += 1;
        }
        None
    }
}

} // verus!
