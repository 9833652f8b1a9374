//! Day 14: robots move over a floor whose edges wrap around. Part one
//! multiplies the numbers of robots in the four quarters of the floor after
//! a hundred seconds; part two looks for the first second at which many
//! robots stand side by side.

use crate::counting::{grid_count, lemma_count_le, lemma_count_step, row_count};
use crate::parallel::par_map;
use crate::solution::{Answer, Part, Solution, SolvedValue};
use crate::text::{
    chars_of, lines, lines_of, parse_i64, parse_i64_spec, rows, split, split_by, words, words_of,
};
use vstd::prelude::*;

verus! {

/// A robot: its position and how far it moves in a second.
#[derive(Debug, Clone, Copy, PartialEq, Eq, Hash, Structural)]
pub struct Robot {
    pub x: i64,
    pub y: i64,
    pub dx: i64,
    pub dy: i64,
}

/// The remainder of a division by a number that is not zero: it has the
/// sign of what is divided, and is smaller than the divisor without its
/// sign.
pub open spec fn remainder(a: int, b: int) -> int {
    let size = if b >= 0 {
        b
    } else {
        -b
    };
    if a >= 0 {
        a % size
    } else {
        -((-a) % size)
    }
}

/// Half of a number, rounded towards zero.
pub open spec fn half(n: int) -> int {
    if n >= 0 {
        n / 2
    } else {
        -((-n) / 2)
    }
}

fn rem(a: i64, b: i64) -> (r: i64)
    requires
        b != 0,
    ensures
        r == remainder(a as int, b as int),
{
    let size: i128 = if b >= 0 {
        b as i128
    } else {
        -(b as i128)
    };
    let wide = a as i128;
    if wide >= 0 {
        (wide % size) as i64
    } else {
        (-((-wide) % size)) as i64
    }
}

fn half_of(n: i64) -> (r: i64)
    ensures
        r == half(n as int),
{
    let wide = n as i128;
    if wide >= 0 {
        (wide / 2) as i64
    } else {
        (-((-wide) / 2)) as i64
    }
}

impl Robot {
    /// A coordinate `count` seconds later: the remainder of the coordinate
    /// plus `count` times the speed plus `count` times the size, by the
    /// size, which is not zero. `None` where a step of the sum or the
    /// quotient of the division does not fit 64 bits.
    pub open spec fn moved(at: i64, speed: i64, count: i64, size: i64) -> Option<i64> {
        match (speed.checked_mul(count), size.checked_mul(count)) {
            (Some(way), Some(turns)) => match at.checked_add(way) {
                Some(there) => match there.checked_add(turns) {
                    Some(sum) => if sum == i64::MIN && size == -1 {
                        None
                    } else {
                        Some(remainder(sum as int, size as int) as i64)
                    },
                    None => None,
                },
                None => None,
            },
            _ => None,
        }
    }

    /// The robot `count` seconds later on a floor of the given width and
    /// height.
    pub open spec fn spec_step(self, count: i64, size: (i64, i64)) -> Option<Robot> {
        match (
            Self::moved(self.x, self.dx, count, size.0),
            Self::moved(self.y, self.dy, count, size.1),
        ) {
            (Some(x), Some(y)) => Some(Robot { x, y, ..self }),
            _ => None,
        }
    }

    fn move_on(at: i64, speed: i64, count: i64, size: i64) -> (r: Option<i64>)
        requires
            size != 0,
        ensures
            r == Self::moved(at, speed, count, size),
    {
        match (speed.checked_mul(count), size.checked_mul(count)) {
            (Some(way), Some(turns)) => match at.checked_add(way) {
                Some(there) => match there.checked_add(turns) {
                    Some(sum) => if sum == i64::MIN && size == -1 {
                        None
                    } else {
                        Some(rem(sum, size))
                    },
                    None => None,
                },
                None => None,
            },
            _ => None,
        }
    }

    /// Moves the robot on by `count` seconds on a floor whose width and
    /// height are not zero. `false` where a number does not fit 64 bits;
    /// the robot is then as it was.
    pub fn step(&mut self, count: i64, size: (i64, i64)) -> (done: bool)
        requires
            size.0 != 0,
            size.1 != 0,
        ensures
            match old(self).spec_step(count, size) {
                Some(robot) => done && *final(self) == robot,
                None => !done && *final(self) == *old(self),
            },
    {
        match (
            Self::move_on(self.x, self.dx, count, size.0),
            Self::move_on(self.y, self.dy, count, size.1),
        ) {
            (Some(x), Some(y)) => {
                self.x = x;
                self.y = y;
                true
            },
            _ => false,
        }
    }

    /// The quarter of the floor in which the robot stands: 0 on the middle
    /// lines, 1 at the lower right, 2 at the lower left, 3 at the upper
    /// left and 4 at the upper right. The middle lines are at half the
    /// width and half the height, rounded towards zero.
    pub open spec fn spec_quadrant(self, size: (i64, i64)) -> usize {
        let across = half(size.0 as int);
        let down = half(size.1 as int);
        if self.x == across || self.y == down {
            0
        } else if self.x > across && self.y > down {
            1
        } else if self.x < across && self.y > down {
            2
        } else if self.x < across && self.y < down {
            3
        } else {
            4
        }
    }

    /// The quarter of the floor in which the robot stands.
    pub fn quadrant(&self, size: (i64, i64)) -> (r: usize)
        ensures
            r == self.spec_quadrant(size),
            r <= 4,
    {
        let across = half_of(size.0);
        let down = half_of(size.1);
        if self.x == across || self.y == down {
            0
        } else if self.x > across && self.y > down {
            1
        } else if self.x < across && self.y > down {
            2
        } else if self.x < across && self.y < down {
            3
        } else {
            4
        }
    }
}

/// The two numbers of a text `name=first,second`.
pub open spec fn parse_pair(part: Seq<char>) -> Option<(i64, i64)> {
    let sides = split(part, "="@);
    if sides.len() < 2 {
        None
    } else {
        let numbers = split(sides[1], ","@);
        if numbers.len() < 2 {
            None
        } else {
            match (parse_i64_spec(numbers[0]), parse_i64_spec(numbers[1])) {
                (Some(a), Some(b)) => Some((a, b)),
                _ => None,
            }
        }
    }
}

/// The robot of a line `p=x,y v=dx,dy`.
pub open spec fn parse_robot(line: Seq<char>) -> Option<Robot> {
    let parts = words(line);
    if parts.len() < 2 {
        None
    } else {
        match (parse_pair(parts[0]), parse_pair(parts[1])) {
            (Some(p), Some(v)) => Some(Robot { x: p.0, y: p.1, dx: v.0, dy: v.1 }),
            _ => None,
        }
    }
}

/// The robots of the lines from `i` on, added to `acc`.
pub open spec fn robots_from(lines: Seq<Seq<char>>, i: int, acc: Seq<Robot>) -> Option<Seq<Robot>>
    decreases lines.len() - i,
{
    if i < 0 || i >= lines.len() {
        Some(acc)
    } else {
        match parse_robot(lines[i]) {
            Some(robot) => robots_from(lines, i + 1, acc.push(robot)),
            None => None,
        }
    }
}

/// Whether a robot among the first `count` stands beyond column 11 or
/// row 7.
pub open spec fn beyond_small(robots: Seq<Robot>, count: int) -> bool
    decreases count,
{
    if count <= 0 || count > robots.len() {
        false
    } else {
        robots[count - 1].x > 11 || robots[count - 1].y > 7 || beyond_small(robots, count - 1)
    }
}

/// The robots of a puzzle text with the size of their floor: 11 by 7
/// where no robot stands beyond that, else 101 by 103. `None` where there
/// is no robot.
pub open spec fn parse_puzzle(input: Seq<char>) -> Option<((i64, i64), Seq<Robot>)> {
    match robots_from(lines(input), 0, Seq::empty()) {
        Some(robots) => if robots.len() == 0 {
            None
        } else if beyond_small(robots, robots.len() as int) {
            Some(((101i64, 103i64), robots))
        } else {
            Some(((11i64, 7i64), robots))
        },
        None => None,
    }
}

fn read_pair(part: &Vec<char>) -> (r: Option<(i64, i64)>)
    ensures
        r == parse_pair(part@),
{
    let sides = split_by(part, "=");
    if sides.len() < 2 {
        return None;
    }
    assert(rows(sides@)[1] == sides@[1]@);
    let numbers = split_by(&sides[1], ",");
    if numbers.len() < 2 {
        return None;
    }
    assert(rows(numbers@)[0] == numbers@[0]@);
    assert(rows(numbers@)[1] == numbers@[1]@);
    match (parse_i64(&numbers[0]), parse_i64(&numbers[1])) {
        (Some(a), Some(b)) => Some((a, b)),
        _ => None,
    }
}

fn read_robot(line: &Vec<char>) -> (r: Option<Robot>)
    ensures
        r == parse_robot(line@),
{
    let parts = words_of(line);
    if parts.len() < 2 {
        return None;
    }
    assert(rows(parts@)[0] == parts@[0]@);
    assert(rows(parts@)[1] == parts@[1]@);
    match (read_pair(&parts[0]), read_pair(&parts[1])) {
        (Some(p), Some(v)) => Some(Robot { x: p.0, y: p.1, dx: v.0, dy: v.1 }),
        _ => None,
    }
}

/// Reads the robots of a puzzle text and the size of their floor.
#[verifier::loop_isolation(false)]
pub fn parse_input(input: &Vec<char>) -> (r: Option<((i64, i64), Vec<Robot>)>)
    ensures
        match r {
            Some((size, robots)) => parse_puzzle(input@) == Some((size, robots@)) && size.0 > 0
                && size.1 > 0,
            None => parse_puzzle(input@) is None,
        },
{
    let all = lines_of(input);
    let mut robots: Vec<Robot> = Vec::new();
    let mut i: usize = 0;
    while i < all.len()
        invariant
            i <= all.len(),
            robots_from(lines(input@), 0, Seq::empty()) == robots_from(
                lines(input@),
                i as int,
                robots@,
            ),
        decreases all.len() - i,
    {
        assert(rows(all@)[i as int] == all@[i as int]@);
        match read_robot(&all[i]) {
            Some(robot) => {
                robots.push(robot);
            },
            None => {
                return None;
            },
        }
        i += 1;
    }
    if robots.len() == 0 {
        return None;
    }
    let mut large = false;
    let mut k: usize = 0;
    while k < robots.len()
        invariant
            k <= robots.len(),
            large == beyond_small(robots@, k as int),
        decreases robots.len() - k,
    {
        if robots[k].x > 11 || robots[k].y > 7 {
            large = true;
        }
        k += 1;
    }
    if large {
        Some(((101, 103), robots))
    } else {
        Some(((11, 7), robots))
    }
}

/// The numbers of robots in the five quarters, counted from robot `i` on,
/// each a hundred seconds later, added to `acc`.
pub open spec fn counted(robots: Seq<Robot>, size: (i64, i64), i: int, acc: Seq<usize>) -> Option<
    Seq<usize>,
>
    decreases robots.len() - i,
{
    if i < 0 || i >= robots.len() || acc.len() != 5 {
        Some(acc)
    } else {
        match robots[i].spec_step(100, size) {
            Some(robot) => {
                let q = robot.spec_quadrant(size) as int;
                counted(robots, size, i + 1, acc.update(q, (acc[q] + 1) as usize))
            },
            None => None,
        }
    }
}

/// The product of the numbers of robots in the four quarters beside the
/// middle lines, a hundred seconds on.
pub open spec fn safety_factor(robots: Seq<Robot>, size: (i64, i64)) -> Option<usize> {
    match counted(robots, size, 0, seq![0usize, 0usize, 0usize, 0usize, 0usize]) {
        Some(counts) => match counts[1].checked_mul(counts[2]) {
            Some(a) => match a.checked_mul(counts[3]) {
                Some(b) => b.checked_mul(counts[4]),
                None => None,
            },
            None => None,
        },
        None => None,
    }
}

/// Whether a position is a tile of a floor.
pub open spec fn on(floor: Seq<Seq<bool>>, x: int, y: int) -> bool {
    0 <= y < floor.len() && 0 <= x < floor[y].len()
}

/// The floor with a tile set or cleared.
pub open spec fn with_tile(floor: Seq<Seq<bool>>, x: int, y: int, value: bool) -> Seq<Seq<bool>> {
    floor.update(y, floor[y].update(x, value))
}

/// The floor with the tiles of the robots from `i` on set; `None` where a
/// robot stands beside the floor.
pub open spec fn marked(floor: Seq<Seq<bool>>, robots: Seq<Robot>, i: int) -> Option<Seq<Seq<bool>>>
    decreases robots.len() - i,
{
    if i < 0 || i >= robots.len() {
        Some(floor)
    } else if !on(floor, robots[i].x as int, robots[i].y as int) {
        None
    } else {
        marked(with_tile(floor, robots[i].x as int, robots[i].y as int, true), robots, i + 1)
    }
}

/// Whether a tile lies on the floor and is set.
pub open spec fn set_at(floor: Seq<Seq<bool>>, x: int, y: int) -> bool {
    on(floor, x, y) && floor[y][x]
}

/// Whether the tile `(qx, qy)` is reached from the tile `(px, py)` in at
/// most `n` steps, each from a set tile to a set tile beside it.
pub open spec fn linked(floor: Seq<Seq<bool>>, px: int, py: int, qx: int, qy: int, n: nat) -> bool
    decreases n,
{
    if n == 0 {
        px == qx && py == qy && set_at(floor, px, py)
    } else {
        let k = (n - 1) as nat;
        linked(floor, px, py, qx, qy, k) || (set_at(floor, qx, qy) && (linked(
            floor,
            px,
            py,
            qx - 1,
            qy,
            k,
        ) || linked(floor, px, py, qx + 1, qy, k) || linked(floor, px, py, qx, qy - 1, k) || linked(
            floor,
            px,
            py,
            qx,
            qy + 1,
            k,
        )))
    }
}

/// Whether the tile `(qx, qy)` is reached from the tile `(px, py)` over
/// set tiles side by side.
pub open spec fn reaches(floor: Seq<Seq<bool>>, px: int, py: int, qx: int, qy: int) -> bool {
    exists|n: nat| linked(floor, px, py, qx, qy, n)
}

/// The block of a tile: the tiles that are reached from it.
pub open spec fn block_of(floor: Seq<Seq<bool>>, px: int, py: int) -> spec_fn(int, int) -> bool {
    |x: int, y: int| reaches(floor, px, py, x, y)
}

/// The number of tiles of the block of a tile on a floor `w` wide and `h`
/// high.
pub open spec fn block_size(floor: Seq<Seq<bool>>, x: int, y: int, w: int, h: int) -> nat {
    grid_count(block_of(floor, x, y), w, h)
}

/// Whether one of the robots from `i` on stands in a block of more than
/// `size` tiles.
pub open spec fn block_among(
    floor: Seq<Seq<bool>>,
    robots: Seq<Robot>,
    i: int,
    size: usize,
    w: int,
    h: int,
) -> bool
    decreases robots.len() - i,
{
    if i < 0 || i >= robots.len() {
        false
    } else {
        block_size(floor, robots[i].x as int, robots[i].y as int, w, h) > size || block_among(
            floor,
            robots,
            i + 1,
            size,
            w,
            h,
        )
    }
}

/// Whether more than `size` tiles with robots lie side by side somewhere
/// on a floor of the given size: whether a robot stands in a block of so
/// many tiles. `None` where a robot stands beside the floor, or the floor
/// is wider or higher than the machine can count.
pub open spec fn robots_block(robots: Seq<Robot>, size_of_floor: (i64, i64), size: usize) -> Option<
    bool,
> {
    let (width, height) = size_of_floor;
    let empty = Seq::new(height as nat, |y: int| Seq::new(width as nat, |x: int| false));
    if width > usize::MAX || height > usize::MAX {
        None
    } else {
        match marked(empty, robots, 0) {
            Some(floor) => Some(block_among(floor, robots, 0, size, width as int, height as int)),
            None => None,
        }
    }
}

/// The tiles that were set on the floor `start` and are not on `cur`.
pub open spec fn gone(start: Seq<Seq<bool>>, cur: Seq<Seq<bool>>) -> spec_fn(int, int) -> bool {
    |x: int, y: int| set_at(start, x, y) && !set_at(cur, x, y)
}

/// The tiles that are set on a floor.
pub open spec fn set_in(cur: Seq<Seq<bool>>) -> spec_fn(int, int) -> bool {
    |x: int, y: int| set_at(cur, x, y)
}

/// Whether no tile beside `(x, y)` is set.
pub open spec fn lone(cur: Seq<Seq<bool>>, x: int, y: int) -> bool {
    !set_at(cur, x - 1, y) && !set_at(cur, x + 1, y) && !set_at(cur, x, y - 1) && !set_at(
        cur,
        x,
        y + 1,
    )
}

/// Whether two tiles lie side by side.
pub open spec fn side_by_side(ax: int, ay: int, bx: int, by: int) -> bool {
    (ay == by && (ax == bx + 1 || ax == bx - 1)) || (ax == bx && (ay == by + 1 || ay == by - 1))
}

/// What is known of a floor `cur` from which blocks of the floor `orig`
/// were cleared: no tile was added, no tile that is left lies beside one
/// that was cleared, and no tile that was cleared stands in a block of
/// more than `size` tiles.
pub open spec fn settled(orig: Seq<Seq<bool>>, cur: Seq<Seq<bool>>, size: usize, w: int, h: int) -> bool {
    &&& shaped(orig, w, h)
    &&& shaped(cur, w, h)
    &&& forall|x: int, y: int| 0 <= x < w && 0 <= y < h && #[trigger] cur[y][x] ==> orig[y][x]
    &&& forall|x: int, y: int|
        0 <= x < w && 0 <= y < h && orig[y][x] && !#[trigger] cur[y][x] ==> lone(cur, x, y)
            && block_size(orig, x, y, w, h) <= size
}

/// Whether a list holds the tile `(x, y)`.
pub open spec fn holds(list: Seq<(usize, usize)>, x: int, y: int) -> bool {
    exists|j: int| 0 <= j < list.len() && (#[trigger] list[j]).0 == x && list[j].1 == y
}

/// Whether a tile, if it is set, is held by a list.
pub open spec fn waits(cur: Seq<Seq<bool>>, list: Seq<(usize, usize)>, x: int, y: int) -> bool {
    set_at(cur, x, y) ==> holds(list, x, y)
}

/// What a search for the block of the tile `(px, py)` knows while it
/// clears the floor `start`: every tile that it cleared is reached from
/// that tile, every set tile that it holds is, and every set tile beside
/// a cleared one is held.
pub open spec fn searching(
    orig: Seq<Seq<bool>>,
    start: Seq<Seq<bool>>,
    cur: Seq<Seq<bool>>,
    stack: Seq<(usize, usize)>,
    px: int,
    py: int,
    w: int,
    h: int,
) -> bool {
    &&& shaped(cur, w, h)
    &&& forall|x: int, y: int| 0 <= x < w && 0 <= y < h && #[trigger] cur[y][x] ==> start[y][x]
    &&& forall|x: int, y: int|
        0 <= x < w && 0 <= y < h && start[y][x] && !#[trigger] cur[y][x] ==> reaches(
            orig,
            px,
            py,
            x,
            y,
        ) && waits(cur, stack, x - 1, y) && waits(cur, stack, x + 1, y) && waits(cur, stack, x, y - 1)
            && waits(cur, stack, x, y + 1)
    &&& forall|j: int|
        0 <= j < stack.len() ==> (#[trigger] stack[j]).0 < w && stack[j].1 < h && (cur[stack[j].1 as int][stack[j].0 as int]
            ==> reaches(orig, px, py, stack[j].0 as int, stack[j].1 as int))
}

/// A set tile beside one that is reached is reached with one step more.
proof fn lemma_link_step(floor: Seq<Seq<bool>>, px: int, py: int, cx: int, cy: int, tx: int, ty: int)
    requires
        reaches(floor, px, py, cx, cy),
        set_at(floor, tx, ty),
        side_by_side(tx, ty, cx, cy),
    ensures
        reaches(floor, px, py, tx, ty),
{
    let n = choose|n: nat| linked(floor, px, py, cx, cy, n);
    assert(linked(floor, px, py, tx, ty, n + 1));
}

/// From a tile that a finished search cleared, only tiles are reached
/// that it cleared.
proof fn lemma_block_within(
    orig: Seq<Seq<bool>>,
    start: Seq<Seq<bool>>,
    cur: Seq<Seq<bool>>,
    w: int,
    h: int,
    ax: int,
    ay: int,
    qx: int,
    qy: int,
    n: nat,
)
    requires
        shaped(orig, w, h),
        shaped(start, w, h),
        shaped(cur, w, h),
        forall|x: int, y: int| 0 <= x < w && 0 <= y < h && #[trigger] start[y][x] ==> orig[y][x],
        forall|x: int, y: int|
            0 <= x < w && 0 <= y < h && orig[y][x] && !#[trigger] start[y][x] ==> lone(start, x, y),
        forall|x: int, y: int|
            0 <= x < w && 0 <= y < h && start[y][x] && !#[trigger] cur[y][x] ==> lone(cur, x, y),
        set_at(start, ax, ay),
        !set_at(cur, ax, ay),
        linked(orig, ax, ay, qx, qy, n),
    ensures
        set_at(start, qx, qy),
        !set_at(cur, qx, qy),
    decreases n,
{
    if n > 0 {
        let k = (n - 1) as nat;
        if linked(orig, ax, ay, qx, qy, k) {
            lemma_block_within(orig, start, cur, w, h, ax, ay, qx, qy, k);
        } else {
            let (rx, ry) = if linked(orig, ax, ay, qx - 1, qy, k) {
                (qx - 1, qy)
            } else if linked(orig, ax, ay, qx + 1, qy, k) {
                (qx + 1, qy)
            } else if linked(orig, ax, ay, qx, qy - 1, k) {
                (qx, qy - 1)
            } else {
                (qx, qy + 1)
            };
            lemma_block_within(orig, start, cur, w, h, ax, ay, rx, ry, k);
            assert(start[ry].len() == w && cur[ry].len() == w && orig[qy].len() == w && start[qy].len()
                == w && cur[qy].len() == w);
            assert(start[ry][rx] && !cur[ry][rx]);
            if !start[qy][qx] {
                assert(lone(start, qx, qy));
            }
            assert(lone(cur, rx, ry));
        }
    }
}

/// Whether a floor has `h` rows of `w` tiles.
pub open spec fn shaped(floor: Seq<Seq<bool>>, w: int, h: int) -> bool {
    floor.len() == h && forall|y: int| 0 <= y < h ==> (#[trigger] floor[y]).len() == w
}

fn empty_floor(w: usize, h: usize) -> (r: Vec<Vec<bool>>)
    ensures
        rows(r@) == Seq::new(h as nat, |y: int| Seq::new(w as nat, |x: int| false)),
        shaped(rows(r@), w as int, h as int),
{
    let mut r: Vec<Vec<bool>> = Vec::new();
    let mut y: usize = 0;
    while y < h
        invariant
            y <= h,
            r.len() == y,
            forall|k: int| 0 <= k < y ==> (#[trigger] r@[k])@ == Seq::new(w as nat, |x: int| false),
        decreases h - y,
    {
        let mut line: Vec<bool> = Vec::new();
        let mut x: usize = 0;
        while x < w
            invariant
                x <= w,
                line.len() == x,
                forall|j: int| 0 <= j < x ==> #[trigger] line@[j] == false,
            decreases w - x,
        {
            line.push(false);
            x += 1;
        }
        assert(line@ =~= Seq::new(w as nat, |x: int| false));
        r.push(line);
        y += 1;
    }
    assert(rows(r@) =~= Seq::new(h as nat, |y: int| Seq::new(w as nat, |x: int| false)));
    r
}

fn set_tile(floor: &mut Vec<Vec<bool>>, x: usize, y: usize, value: bool, Ghost(w): Ghost<int>, Ghost(h): Ghost<int>)
    requires
        shaped(rows(old(floor)@), w, h),
        x < w,
        y < h,
    ensures
        shaped(rows(final(floor)@), w, h),
        rows(final(floor)@) == with_tile(rows(old(floor)@), x as int, y as int, value),
{
    let ghost before = rows(floor@);
    assert(before[y as int] == floor@[y as int]@);
    floor[y][x] = value;
    assert(rows(floor@) =~= with_tile(before, x as int, y as int, value));
    assert forall|k: int| 0 <= k < h implies (#[trigger] rows(floor@)[k]).len() == w by {
        assert(before[k].len() == w);
    }
}

fn get_tile(floor: &Vec<Vec<bool>>, x: usize, y: usize, Ghost(w): Ghost<int>, Ghost(h): Ghost<int>) -> (r: bool)
    requires
        shaped(rows(floor@), w, h),
        x < w,
        y < h,
    ensures
        r == rows(floor@)[y as int][x as int],
{
    assert(rows(floor@)[y as int] == floor@[y as int]@);
    floor[y][x]
}

/// Sets the tiles of the robots. `false` where a robot stands beside the
/// floor.
fn mark_robots(floor: &mut Vec<Vec<bool>>, robots: &Vec<Robot>, w: usize, h: usize) -> (done: bool)
    requires
        shaped(rows(old(floor)@), w as int, h as int),
    ensures
        shaped(rows(final(floor)@), w as int, h as int),
        match marked(rows(old(floor)@), robots@, 0) {
            Some(floor_after) => done && rows(final(floor)@) == floor_after,
            None => !done,
        },
        done ==> forall|j: int|
            0 <= j < robots.len() ==> 0 <= (#[trigger] robots[j]).x < w && 0 <= robots[j].y < h
                && rows(final(floor)@)[robots[j].y as int][robots[j].x as int],
{
    let ghost start = rows(floor@);
    let mut i: usize = 0;
    while i < robots.len()
        invariant
            i <= robots.len(),
            shaped(rows(floor@), w as int, h as int),
            start == rows(old(floor)@),
            marked(start, robots@, 0) == marked(rows(floor@), robots@, i as int),
            forall|j: int|
                0 <= j < i ==> 0 <= (#[trigger] robots[j]).x < w && 0 <= robots[j].y < h && rows(
                    floor@,
                )[robots[j].y as int][robots[j].x as int],
        decreases robots.len() - i,
    {
        let robot = robots[i];
        if robot.x < 0 || robot.y < 0 || robot.y as u64 >= h as u64 || robot.x as u64 >= w as u64 {
            return false;
        }
        let ghost before = rows(floor@);
        set_tile(floor, robot.x as usize, robot.y as usize, true, Ghost(w as int), Ghost(h as int));
        assert forall|j: int| 0 <= j < i + 1 implies 0 <= (#[trigger] robots[j]).x < w && 0
            <= robots[j].y < h && rows(floor@)[robots[j].y as int][robots[j].x as int] by {
            assert(before[robots[j].y as int].len() == w);
        }
        i += 1;
    }
    true
}

/// Adds the tiles beside a tile, as far as they lie on the floor.
fn push_beside(stack: &mut Vec<(usize, usize)>, cx: usize, cy: usize, w: usize, h: usize)
    requires
        cx < w,
        cy < h,
    ensures
        old(stack)@.len() <= final(stack)@.len() <= old(stack)@.len() + 4,
        forall|j: int| 0 <= j < old(stack)@.len() ==> #[trigger] final(stack)@[j] == old(stack)@[j],
        forall|j: int|
            old(stack)@.len() <= j < final(stack)@.len() ==> (#[trigger] final(stack)@[j]).0 < w
                && final(stack)@[j].1 < h && side_by_side(
                final(stack)@[j].0 as int,
                final(stack)@[j].1 as int,
                cx as int,
                cy as int,
            ),
        forall|x: int, y: int|
            0 <= x < w && 0 <= y < h && side_by_side(x, y, cx as int, cy as int) ==> #[trigger] holds(
                final(stack)@,
                x,
                y,
            ),
{
    let ghost n = stack@.len() as int;
    let ghost before = stack@;
    let ghost mut left = n;
    let ghost mut right = n;
    let ghost mut up = n;
    let ghost mut down = n;
    if cx > 0 {
        proof {
            left = stack@.len() as int;
        }
        stack.push((cx - 1, cy));
    }
    if cx < w - 1 {
        proof {
            right = stack@.len() as int;
        }
        stack.push((cx + 1, cy));
    }
    if cy > 0 {
        proof {
            up = stack@.len() as int;
        }
        stack.push((cx, cy - 1));
    }
    if cy < h - 1 {
        proof {
            down = stack@.len() as int;
        }
        stack.push((cx, cy + 1));
    }
    assert forall|x: int, y: int|
        0 <= x < w && 0 <= y < h && side_by_side(x, y, cx as int, cy as int) implies #[trigger] holds(
        stack@,
        x,
        y,
    ) by {
        let j = if x == cx - 1 {
            left
        } else if x == cx + 1 {
            right
        } else if y == cy - 1 {
            up
        } else {
            down
        };
        assert(stack@[j].0 == x && stack@[j].1 == y);
    }
}

/// Clears the block of set tiles around a set tile and says whether it
/// has more than `size` tiles; where it has, the block may be cleared in
/// part only.
fn clear_block(
    floor: &mut Vec<Vec<bool>>,
    x: usize,
    y: usize,
    size: usize,
    w: usize,
    h: usize,
    Ghost(orig): Ghost<Seq<Seq<bool>>>,
) -> (found: bool)
    requires
        settled(orig, rows(old(floor)@), size, w as int, h as int),
        x < w,
        y < h,
        rows(old(floor)@)[y as int][x as int],
    ensures
        shaped(rows(final(floor)@), w as int, h as int),
        found ==> block_size(orig, x as int, y as int, w as int, h as int) > size,
        !found ==> settled(orig, rows(final(floor)@), size, w as int, h as int) && !rows(
            final(floor)@,
        )[y as int][x as int],
{
    let ghost start = rows(floor@);
    let ghost px = x as int;
    let ghost py = y as int;
    let mut stack: Vec<(usize, usize)> = Vec::new();
    let mut count: usize = 0;
    stack.push((x, y));
    proof {
        assert(stack@[0] == (x, y));
        assert(start[py].len() == w && orig[py].len() == w);
        assert(orig[py][px]);
        assert(linked(orig, px, py, px, py, 0));
        assert(grid_count(gone(start, start), w as int, h as int) == 0) by {
            lemma_count_le(gone(start, start), set_in(Seq::empty()), w as int, h as int);
            lemma_none_counted(w as int, h as int);
        }
    }
    while stack.len() > 0
        invariant
            x < w,
            y < h,
            px == x,
            py == y,
            start == rows(old(floor)@),
            settled(orig, start, size, w as int, h as int),
            searching(orig, start, rows(floor@), stack@, px, py, w as int, h as int),
            count == grid_count(gone(start, rows(floor@)), w as int, h as int),
            count <= size,
            waits(rows(floor@), stack@, px, py),
        decreases 5 * grid_count(set_in(rows(floor@)), w as int, h as int) + stack.len(),
    {
        let ghost cur = rows(floor@);
        let ghost held = stack@;
        let (cx, cy) = stack.pop().unwrap();
        let ghost rest = stack@;
        assert(held[held.len() - 1] == (cx, cy));
        assert(cur[cy as int].len() == w && start[cy as int].len() == w && orig[cy as int].len() == w);
        if get_tile(floor, cx, cy, Ghost(w as int), Ghost(h as int)) {
            assert(reaches(orig, px, py, cx as int, cy as int));
            assert(start[cy as int][cx as int]);
            if count >= size {
                proof {
                    let f = gone(start, cur);
                    let g = |i: int, j: int| f(i, j) || (i == cx && j == cy);
                    lemma_count_step(f, g, w as int, h as int, cx as int, cy as int);
                    assert forall|i: int, j: int| 0 <= i < w && 0 <= j < h && #[trigger] g(i, j) implies block_of(
                        orig,
                        px,
                        py,
                    )(i, j) by {
                        assert(cur[j].len() == w && start[j].len() == w);
                        if !(i == cx && j == cy) {
                            assert(start[j][i] && !cur[j][i]);
                        }
                    }
                    lemma_count_le(g, block_of(orig, px, py), w as int, h as int);
                }
                return true;
            }
            set_tile(floor, cx, cy, false, Ghost(w as int), Ghost(h as int));
            count += 1;
            push_beside(&mut stack, cx, cy, w, h);
            proof {
                let now = rows(floor@);
                lemma_waits_kept(cur, now, held, stack@, cx as int, cy as int, px, py, w as int, h as int);
                lemma_count_step(gone(start, cur), gone(start, now), w as int, h as int, cx as int, cy as int);
                lemma_count_step(set_in(now), set_in(cur), w as int, h as int, cx as int, cy as int);
                assert forall|i: int, j: int| 0 <= i < w && 0 <= j < h && #[trigger] now[j][i] implies start[j][i] by {
                    assert(cur[j].len() == w);
                    assert(cur[j][i]);
                }
                assert forall|j: int| 0 <= j < stack@.len() implies (#[trigger] stack@[j]).0 < w
                    && stack@[j].1 < h && (now[stack@[j].1 as int][stack@[j].0 as int] ==> reaches(
                    orig,
                    px,
                    py,
                    stack@[j].0 as int,
                    stack@[j].1 as int,
                )) by {
                    let (sx, sy) = stack@[j];
                    if j < rest.len() {
                        assert(stack@[j] == rest[j]);
                        assert(rest[j] == held[j]);
                        assert(cur[sy as int].len() == w);
                    } else {
                        assert(cur[sy as int].len() == w && orig[sy as int].len() == w);
                        if now[sy as int][sx as int] {
                            assert(cur[sy as int][sx as int]);
                            assert(start[sy as int][sx as int]);
                            lemma_link_step(orig, px, py, cx as int, cy as int, sx as int, sy as int);
                        }
                    }
                }
                assert forall|i: int, j: int|
                    0 <= i < w && 0 <= j < h && start[j][i] && !#[trigger] now[j][i] implies reaches(
                    orig,
                    px,
                    py,
                    i,
                    j,
                ) && waits(now, stack@, i - 1, j) && waits(now, stack@, i + 1, j) && waits(
                    now,
                    stack@,
                    i,
                    j - 1,
                ) && waits(now, stack@, i, j + 1) by {
                    assert(cur[j].len() == w);
                    if i == cx && j == cy {
                        lemma_waits_beside(now, stack@, cx as int, cy as int, w as int, h as int);
                    } else {
                        assert(!cur[j][i]);
                        lemma_waits_kept(cur, now, held, stack@, cx as int, cy as int, i - 1, j, w as int, h as int);
                        lemma_waits_kept(cur, now, held, stack@, cx as int, cy as int, i + 1, j, w as int, h as int);
                        lemma_waits_kept(cur, now, held, stack@, cx as int, cy as int, i, j - 1, w as int, h as int);
                        lemma_waits_kept(cur, now, held, stack@, cx as int, cy as int, i, j + 1, w as int, h as int);
                    }
                }
            }
        } else {
            proof {
                assert forall|i: int, j: int|
                    0 <= i < w && 0 <= j < h && start[j][i] && !#[trigger] cur[j][i] implies waits(
                    cur,
                    rest,
                    i - 1,
                    j,
                ) && waits(cur, rest, i + 1, j) && waits(cur, rest, i, j - 1) && waits(
                    cur,
                    rest,
                    i,
                    j + 1,
                ) by {
                    lemma_waits_kept(cur, cur, held, rest, cx as int, cy as int, i - 1, j, w as int, h as int);
                    lemma_waits_kept(cur, cur, held, rest, cx as int, cy as int, i + 1, j, w as int, h as int);
                    lemma_waits_kept(cur, cur, held, rest, cx as int, cy as int, i, j - 1, w as int, h as int);
                    lemma_waits_kept(cur, cur, held, rest, cx as int, cy as int, i, j + 1, w as int, h as int);
                }
                assert forall|j: int| 0 <= j < rest.len() implies (#[trigger] rest[j]).0 < w && rest[j].1 < h
                    && (cur[rest[j].1 as int][rest[j].0 as int] ==> reaches(
                    orig,
                    px,
                    py,
                    rest[j].0 as int,
                    rest[j].1 as int,
                )) by {
                    assert(rest[j] == held[j]);
                }
                lemma_waits_kept(cur, cur, held, rest, cx as int, cy as int, px, py, w as int, h as int);
            }
        }
    }
    proof {
        let cur = rows(floor@);
        assert(cur[py].len() == w);
        assert forall|i: int, j: int| 0 <= i < w && 0 <= j < h && #[trigger] cur[j][i] implies orig[j][i] by {
            assert(start[j][i]);
        }
        assert forall|i: int, j: int| 0 <= i < w && 0 <= j < h && start[j][i] && !#[trigger] cur[j][i] implies lone(
            cur,
            i,
            j,
        ) by {
            assert(waits(cur, stack@, i - 1, j) && waits(cur, stack@, i + 1, j) && waits(cur, stack@, i, j - 1)
                && waits(cur, stack@, i, j + 1));
        }
        assert forall|i: int, j: int|
            0 <= i < w && 0 <= j < h && orig[j][i] && !#[trigger] cur[j][i] implies lone(cur, i, j)
            && block_size(orig, i, j, w as int, h as int) <= size by {
            assert(start[j].len() == w && cur[j].len() == w);
            if start[j][i] {
                assert forall|a: int, b: int| 0 <= a < w && 0 <= b < h && #[trigger] block_of(orig, i, j)(a, b) implies gone(
                    start,
                    cur,
                )(a, b) by {
                    let n = choose|n: nat| linked(orig, i, j, a, b, n);
                    lemma_block_within(orig, start, cur, w as int, h as int, i, j, a, b, n);
                }
                lemma_count_le(block_of(orig, i, j), gone(start, cur), w as int, h as int);
            } else {
                assert(lone(start, i, j));
                lemma_lone_kept(start, cur, i, j, w as int, h as int);
            }
        }
    }
    false
}

/// No tile is counted among none.
proof fn lemma_none_counted(w: int, y: int)
    ensures
        grid_count(set_in(Seq::empty()), w, y) == 0,
    decreases y,
{
    if y > 0 {
        lemma_none_counted(w, y - 1);
        lemma_none_in_row(y - 1, w);
    }
}

proof fn lemma_none_in_row(y: int, x: int)
    ensures
        row_count(set_in(Seq::empty()), y, x) == 0,
    decreases x,
{
    if x > 0 {
        lemma_none_in_row(y, x - 1);
    }
}

/// A tile without a set tile beside it has none on a floor with fewer set
/// tiles.
proof fn lemma_lone_kept(start: Seq<Seq<bool>>, cur: Seq<Seq<bool>>, x: int, y: int, w: int, h: int)
    requires
        shaped(start, w, h),
        shaped(cur, w, h),
        forall|i: int, j: int| 0 <= i < w && 0 <= j < h && #[trigger] cur[j][i] ==> start[j][i],
        lone(start, x, y),
    ensures
        lone(cur, x, y),
{
    if set_at(cur, x - 1, y) {
        assert(cur[y][x - 1]);
    }
    if set_at(cur, x + 1, y) {
        assert(cur[y][x + 1]);
    }
    if set_at(cur, x, y - 1) {
        assert(cur[y - 1][x]);
    }
    if set_at(cur, x, y + 1) {
        assert(cur[y + 1][x]);
    }
}

/// The tiles beside a tile whose neighbors were all added are held.
proof fn lemma_waits_beside(now: Seq<Seq<bool>>, stack: Seq<(usize, usize)>, cx: int, cy: int, w: int, h: int)
    requires
        shaped(now, w, h),
        forall|x: int, y: int|
            0 <= x < w && 0 <= y < h && side_by_side(x, y, cx, cy) ==> #[trigger] holds(stack, x, y),
    ensures
        waits(now, stack, cx - 1, cy),
        waits(now, stack, cx + 1, cy),
        waits(now, stack, cx, cy - 1),
        waits(now, stack, cx, cy + 1),
{
    if set_at(now, cx - 1, cy) {
        assert(holds(stack, cx - 1, cy));
    }
    if set_at(now, cx + 1, cy) {
        assert(holds(stack, cx + 1, cy));
    }
    if set_at(now, cx, cy - 1) {
        assert(holds(stack, cx, cy - 1));
    }
    if set_at(now, cx, cy + 1) {
        assert(holds(stack, cx, cy + 1));
    }
}

/// A tile that waited still waits after the last tile was taken from the
/// list, if that tile is not set any more, whatever was added then.
proof fn lemma_waits_kept(
    cur: Seq<Seq<bool>>,
    now: Seq<Seq<bool>>,
    held: Seq<(usize, usize)>,
    stack: Seq<(usize, usize)>,
    cx: int,
    cy: int,
    x: int,
    y: int,
    w: int,
    h: int,
)
    requires
        shaped(cur, w, h),
        shaped(now, w, h),
        held.len() > 0,
        held.last().0 == cx,
        held.last().1 == cy,
        !set_at(now, cx, cy),
        forall|i: int, j: int| 0 <= i < w && 0 <= j < h && #[trigger] now[j][i] ==> cur[j][i],
        stack.len() >= held.len() - 1,
        forall|j: int| 0 <= j < held.len() - 1 ==> #[trigger] stack[j] == held[j],
        waits(cur, held, x, y),
    ensures
        waits(now, stack, x, y),
{
    if set_at(now, x, y) {
        assert(now[y][x]);
        assert(set_at(cur, x, y));
        let j = choose|j: int| 0 <= j < held.len() && (#[trigger] held[j]).0 == x && held[j].1 == y;
        assert(stack[j] == held[j]);
    }
}

/// Whether more than `size` robots stand side by side somewhere.
pub fn has_robots_block(robots: &Vec<Robot>, size_of_floor: (i64, i64), size: usize) -> (r: Option<bool>)
    requires
        size_of_floor.0 >= 0,
        size_of_floor.1 >= 0,
    ensures
        r == robots_block(robots@, size_of_floor, size),
{
    let (width, height) = size_of_floor;
    if width as u64 > usize::MAX as u64 || height as u64 > usize::MAX as u64 {
        return None;
    }
    let w = width as usize;
    let h = height as usize;
    let mut robots_set = empty_floor(w, h);
    if !mark_robots(&mut robots_set, robots, w, h) {
        return None;
    }
    let ghost orig = rows(robots_set@);
    let mut i: usize = 0;
    while i < robots.len()
        invariant
            i <= robots.len(),
            w == width,
            h == height,
            settled(orig, rows(robots_set@), size, w as int, h as int),
            forall|j: int|
                0 <= j < robots.len() ==> 0 <= (#[trigger] robots[j]).x < w && 0 <= robots[j].y < h
                    && orig[robots[j].y as int][robots[j].x as int],
            robots_block(robots@, size_of_floor, size) == Some(
                block_among(orig, robots@, i as int, size, w as int, h as int),
            ),
        decreases robots.len() - i,
    {
        let robot = robots[i];
        assert(0 <= robots[i as int].x < w && 0 <= robots[i as int].y < h);
        assert(rows(robots_set@)[robot.y as int].len() == w);
        if get_tile(&robots_set, robot.x as usize, robot.y as usize, Ghost(w as int), Ghost(h as int)) {
            if clear_block(&mut robots_set, robot.x as usize, robot.y as usize, size, w, h, Ghost(orig)) {
                return Some(true);
            }
        }
        assert(!rows(robots_set@)[robot.y as int][robot.x as int]);
        i += 1;
    }
    Some(false)
}

/// The first of the seconds from `from` to 9999 at which more than twenty
/// robots stand side by side. `None` where there is none, a robot stands
/// beside the floor, or a number does not fit 64 bits.
pub open spec fn first_block(robots: Seq<Robot>, size: (i64, i64), from: int) -> Option<usize>
    decreases 10_000 - from,
{
    if from < 1 || from >= 10_000 {
        None
    } else {
        match block_after(robots, size, from as i64) {
            Some(true) => Some(from as usize),
            Some(false) => first_block(robots, size, from + 1),
            None => None,
        }
    }
}

/// Whether more than twenty robots stand side by side after `count`
/// seconds.
pub open spec fn block_after(robots: Seq<Robot>, size: (i64, i64), count: i64) -> Option<bool> {
    match later(robots, count, size, 0, Seq::empty()) {
        Some(there) => robots_block(there, size, 20),
        None => None,
    }
}

/// The robots from `i` on `count` seconds later, added to `acc`.
pub open spec fn later(robots: Seq<Robot>, count: i64, size: (i64, i64), i: int, acc: Seq<Robot>) -> Option<
    Seq<Robot>,
>
    decreases robots.len() - i,
{
    if i < 0 || i >= robots.len() {
        Some(acc)
    } else {
        match robots[i].spec_step(count, size) {
            Some(robot) => later(robots, count, size, i + 1, acc.push(robot)),
            None => None,
        }
    }
}

/// The answer of a part.
pub open spec fn solve(input: Seq<char>, part: Part) -> Option<Answer> {
    match parse_puzzle(input) {
        Some((size, robots)) => match (if part == Part::One {
            safety_factor(robots, size)
        } else {
            first_block(robots, size, 1)
        }) {
            Some(n) => Some(Answer::Number(n)),
            None => None,
        },
        None => None,
    }
}

fn move_all(robots: &Vec<Robot>, count: i64, size: (i64, i64)) -> (r: Option<Vec<Robot>>)
    requires
        robots.len() > 0 ==> size.0 != 0 && size.1 != 0,
    ensures
        match r {
            Some(there) => later(robots@, count, size, 0, Seq::empty()) == Some(there@),
            None => later(robots@, count, size, 0, Seq::empty()) is None,
        },
{
    let mut r: Vec<Robot> = Vec::new();
    let mut i: usize = 0;
    while i < robots.len()
        invariant
            i <= robots.len(),
            robots.len() > 0 ==> size.0 != 0 && size.1 != 0,
            later(robots@, count, size, 0, Seq::empty()) == later(robots@, count, size, i as int, r@),
        decreases robots.len() - i,
    {
        let mut robot = robots[i];
        if !robot.step(count, size) {
            return None;
        }
        r.push(robot);
        i += 1;
    }
    Some(r)
}

/// Whether more than twenty robots stand side by side after `count`
/// seconds.
pub fn has_block_after(robots: &Vec<Robot>, size: (i64, i64), count: i64) -> (r: Option<bool>)
    requires
        size.0 >= 0,
        size.1 >= 0,
        robots.len() > 0 ==> size.0 != 0 && size.1 != 0,
    ensures
        r == block_after(robots@, size, count),
{
    match move_all(robots, count, size) {
        Some(there) => has_robots_block(&there, size, 20),
        None => None,
    }
}

pub struct Day;

impl Solution for Day {
    open spec fn answer(&self, input: Seq<char>, part: Part) -> Option<Answer> {
        solve(input, part)
    }

    #[verifier::loop_isolation(false)]
    fn part1(&self, input: &str) -> (r: Option<SolvedValue>) {
        let chars = chars_of(input);
        let (size, robots) = match parse_input(&chars) {
            Some(parsed) => parsed,
            None => {
                return None;
            },
        };
        let mut acc: Vec<usize> = Vec::new();
        acc.push(0);
        acc.push(0);
        acc.push(0);
        acc.push(0);
        acc.push(0);
        assert(acc@ =~= seq![0usize, 0usize, 0usize, 0usize, 0usize]);
        let ghost start = acc@;
        let mut i: usize = 0;
        while i < robots.len()
            invariant
                i <= robots.len(),
                acc.len() == 5,
                forall|q: int| 0 <= q < 5 ==> #[trigger] acc@[q] <= i,
                counted(robots@, size, 0, start) == counted(robots@, size, i as int, acc@),
            decreases robots.len() - i,
        {
            let mut robot = robots[i];
            if !robot.step(100, size) {
                return None;
            }
            let q = robot.quadrant(size);
            let more = acc[q] + 1;
            acc.set(q, more);
            i += 1;
        }
        let product = match acc[1].checked_mul(acc[2]) {
            Some(a) => match a.checked_mul(acc[3]) {
                Some(b) => b.checked_mul(acc[4]),
                None => None,
            },
            None => None,
        };
        match product {
            Some(n) => Some(SolvedValue::Number(n)),
            None => None,
        }
    }

    #[verifier::loop_isolation(false)]
    fn part2(&self, input: &str) -> (r: Option<SolvedValue>) {
        let chars = chars_of(input);
        let (size, robots) = match parse_input(&chars) {
            Some(parsed) => parsed,
            None => {
                return None;
            },
        };
        let mut seconds: Vec<i64> = Vec::new();
        let mut second: i64 = 1;
        while second < 10_000
            invariant
                1 <= second <= 10_000,
                seconds.len() == second - 1,
                forall|k: int| 0 <= k < seconds.len() ==> #[trigger] seconds[k] == k + 1,
            decreases 10_000 - second,
        {
            seconds.push(second);
            second += 1;
        }
        let each = |count: &i64| -> (r: Option<bool>)
            ensures
                r == block_after(robots@, size, *count),
            { has_block_after(&robots, size, *count) };
        let blocks = par_map(&seconds, each);
        let mut i: usize = 0;
        while i < blocks.len()
            invariant
                i <= blocks.len(),
                first_block(robots@, size, 1) == first_block(robots@, size, i + 1),
            decreases blocks.len() - i,
        {
            match blocks[i] {
                Some(true) => {
                    return Some(SolvedValue::Number(i + 1));
                },
                Some(false) => {},
                None => {
                    return None;
                },
            }
            i += 1;
        }
        None
    }
}

} // verus!
