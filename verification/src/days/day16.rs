//! Day 16: a reindeer runs through a maze; a step costs one point and a
//! quarter turn with the step after it a thousand and one. Part one asks
//! for the least cost from start to end, part two for the number of tiles
//! on the ways of least cost.

use crate::counting::{grid_count, lemma_count_bound, lemma_count_more};
use crate::solution::{Answer, Part, Solution, SolvedValue};
use crate::text::{chars_of, lines, lines_of, rows, string_of};
use vstd::prelude::*;

verus! {

/// The four directions of the grid.
#[derive(Debug, Clone, Copy, PartialEq, Eq, Hash, Structural)]
pub enum Direction {
    North,
    East,
    South,
    West,
}

impl Direction {
    /// The direction after a quarter turn to the right.
    pub fn turn_right(self) -> (r: Self)
        ensures
            r == self.spec_turn_right(),
    {
        match self {
            Self::North => Self::East,
            Self::East => Self::South,
            Self::South => Self::West,
            Self::West => Self::North,
        }
    }

    pub open spec fn spec_turn_right(self) -> Self {
        match self {
            Self::North => Self::East,
            Self::East => Self::South,
            Self::South => Self::West,
            Self::West => Self::North,
        }
    }

    /// The direction after a quarter turn to the left.
    pub fn turn_left(self) -> (r: Self)
        ensures
            r == self.spec_turn_left(),
    {
        match self {
            Self::North => Self::West,
            Self::East => Self::North,
            Self::South => Self::East,
            Self::West => Self::South,
        }
    }

    pub open spec fn spec_turn_left(self) -> Self {
        match self {
            Self::North => Self::West,
            Self::East => Self::North,
            Self::South => Self::East,
            Self::West => Self::South,
        }
    }

    /// The place of the direction in a table of four.
    pub fn index(self) -> (r: usize)
        ensures
            r == self.spec_index(),
    {
        match self {
            Self::North => 0,
            Self::East => 1,
            Self::South => 2,
            Self::West => 3,
        }
    }

    pub open spec fn spec_index(self) -> int {
        match self {
            Self::North => 0,
            Self::East => 1,
            Self::South => 2,
            Self::West => 3,
        }
    }

    /// By how many rows a step in the direction moves.
    pub open spec fn rows(self) -> int {
        match self {
            Self::North => -1,
            Self::South => 1,
            _ => 0,
        }
    }

    /// By how many columns a step in the direction moves.
    pub open spec fn cols(self) -> int {
        match self {
            Self::West => -1,
            Self::East => 1,
            _ => 0,
        }
    }
}

/// The position one step from `pos` in a direction. Positions are rows and
/// columns counted from zero; a step off the grid to the north or west
/// wraps around to the largest index.
pub fn step(pos: (usize, usize), dir: Direction) -> (r: (usize, usize))
    ensures
        r.0 == (if dir == Direction::North {
            pos.0.wrapping_sub(1)
        } else if dir == Direction::South {
            pos.0.wrapping_add(1)
        } else {
            pos.0
        }),
        r.1 == (if dir == Direction::West {
            pos.1.wrapping_sub(1)
        } else if dir == Direction::East {
            pos.1.wrapping_add(1)
        } else {
            pos.1
        }),
{
    match dir {
        Direction::North => (pos.0.wrapping_sub(1), pos.1),
        Direction::East => (pos.0, pos.1.wrapping_add(1)),
        Direction::South => (pos.0.wrapping_add(1), pos.1),
        Direction::West => (pos.0, pos.1.wrapping_sub(1)),
    }
}

/// A maze: for each tile whether it is a wall, and the tiles of start and
/// end. All rows have one length.
pub struct Maze {
    pub walls: Vec<Vec<bool>>,
    pub start: (usize, usize),
    pub end: (usize, usize),
}

/// The mathematical value of a maze.
pub struct MazeModel {
    pub walls: Seq<Seq<bool>>,
    pub start: (int, int),
    pub end: (int, int),
}

impl View for Maze {
    type V = MazeModel;

    open spec fn view(&self) -> MazeModel {
        MazeModel {
            walls: rows(self.walls@),
            start: (self.start.0 as int, self.start.1 as int),
            end: (self.end.0 as int, self.end.1 as int),
        }
    }
}

impl MazeModel {
    /// The number of columns: the length of the first row.
    pub open spec fn width(self) -> int {
        if self.walls.len() == 0 {
            0
        } else {
            self.walls[0].len() as int
        }
    }

    /// Whether all rows have one length.
    pub open spec fn rectangular(self) -> bool {
        forall|r: int| 0 <= r < self.walls.len() ==> (#[trigger] self.walls[r]).len() == self.width()
    }

    /// Whether a position lies on the grid.
    pub open spec fn on_grid(self, row: int, col: int) -> bool {
        0 <= row < self.walls.len() && 0 <= col < self.width()
    }

    /// Whether a position is a tile of the grid that is no wall.
    pub open spec fn open(self, row: int, col: int) -> bool {
        self.on_grid(row, col) && col < self.walls[row].len() && !self.walls[row][col]
    }

    /// The number of poses on the grid: four for every tile.
    pub open spec fn poses(self) -> nat {
        (self.walls.len() * self.width() * 4) as nat
    }
}

impl MazeModel {
    /// The character that draws the tile in row `y` and column `x`: `S`
    /// where `(x, y)` is the pair of numbers of the start, `E` where it is
    /// that of the end, else `#` for a wall and `.` for a free tile.
    pub open spec fn sign(self, x: int, y: int) -> char {
        if (x, y) == self.start {
            'S'
        } else if (x, y) == self.end {
            'E'
        } else if self.walls[y][x] {
            '#'
        } else {
            '.'
        }
    }

    /// The characters that draw a row of the maze.
    pub open spec fn drawn_row(self, y: int) -> Seq<char> {
        Seq::new(self.walls[y].len(), |x: int| self.sign(x, y))
    }

    /// The drawing of the rows from `y` on, each on a line of its own.
    pub open spec fn drawn_from(self, y: int) -> Seq<char>
        decreases self.walls.len() - y,
    {
        if y < 0 || y >= self.walls.len() {
            Seq::empty()
        } else {
            self.drawn_row(y) + seq!['\n'] + self.drawn_from(y + 1)
        }
    }
}

/// Where the reindeer stands and in which direction it looks.
pub struct Pose {
    pub row: int,
    pub col: int,
    pub dir: Direction,
}

/// The lesser of two costs, where `None` is no way at all.
pub open spec fn least(a: Option<nat>, b: Option<nat>) -> Option<nat> {
    match (a, b) {
        (Some(x), Some(y)) => if x <= y {
            a
        } else {
            b
        },
        (Some(_), None) => a,
        _ => b,
    }
}

/// A cost with the cost of one more move, where the move is allowed.
pub open spec fn through(allowed: bool, cost: Option<nat>, weight: nat) -> Option<nat> {
    match cost {
        Some(c) => if allowed {
            Some(c + weight)
        } else {
            None
        },
        None => None,
    }
}

/// The cost of a move that ends, or begins, looking in `dir`, when `facing`
/// is the direction at its other end.
pub open spec fn weight(dir: Direction, facing: Direction) -> nat {
    if dir == facing {
        1
    } else {
        1001
    }
}

/// The pose next to `p` over one move. Looking forward from the start, it
/// is the pose from which a move leads to `p`: a step in the direction of
/// `p`, begun facing `facing`. Looking back from the end, it is the pose to
/// which a move leads from `p`: a step in the direction `facing`.
pub open spec fn neighbor(forward: bool, p: Pose, facing: Direction) -> Pose {
    if forward {
        Pose { row: p.row - p.dir.rows(), col: p.col - p.dir.cols(), dir: facing }
    } else {
        Pose { row: p.row + facing.rows(), col: p.col + facing.cols(), dir: facing }
    }
}

/// Whether the move between `p` and its neighbor exists: it leads to a tile
/// that is no wall, and does not begin at the end tile.
pub open spec fn allowed(m: MazeModel, forward: bool, p: Pose, facing: Direction) -> bool {
    let q = neighbor(forward, p, facing);
    if forward {
        m.open(p.row, p.col) && (q.row, q.col) != m.end
    } else {
        m.open(q.row, q.col) && (p.row, p.col) != m.end
    }
}

/// Whether a pose costs nothing: looking forward, the start tile facing
/// east; looking back, the end tile in any direction.
pub open spec fn seed(m: MazeModel, forward: bool, p: Pose) -> bool {
    if forward {
        (p.row, p.col) == m.start && p.dir == Direction::East
    } else {
        (p.row, p.col) == m.end
    }
}

/// The cost over one move to the neighbor that faces `facing`, whose own
/// cost is `cost`.
pub open spec fn over(m: MazeModel, forward: bool, p: Pose, facing: Direction, cost: Option<nat>) -> Option<
    nat,
> {
    through(allowed(m, forward, p, facing), cost, weight(p.dir, facing))
}

/// The least cost of a way of at most `n` moves: looking forward, from the
/// start to the pose `p`; looking back, from `p` to the end tile. `None`
/// where there is no such way. A move is a step ahead, or a quarter turn
/// with a step after it.
pub open spec fn cost(m: MazeModel, forward: bool, p: Pose, n: nat) -> Option<nat>
    decreases n,
{
    if !m.on_grid(p.row, p.col) {
        None
    } else if n == 0 {
        if seed(m, forward, p) {
            Some(0)
        } else {
            None
        }
    } else {
        let k = (n - 1) as nat;
        let left = p.dir.spec_turn_left();
        let right = p.dir.spec_turn_right();
        least(
            cost(m, forward, p, k),
            least(
                over(m, forward, p, p.dir, cost(m, forward, neighbor(forward, p, p.dir), k)),
                least(
                    over(m, forward, p, left, cost(m, forward, neighbor(forward, p, left), k)),
                    over(m, forward, p, right, cost(m, forward, neighbor(forward, p, right), k)),
                ),
            ),
        )
    }
}

/// A tile with the direction in which the reindeer looks on it.
pub type DirPos = ((usize, usize), Direction);

/// The neighbor of `p` that faces `facing`, where it lies next to `p` on
/// a way of least cost of at most `n` moves: the move between them is
/// allowed, and the least cost of the neighbor and the cost of the move add
/// up to the least cost of `p`. Looking forward it is a pose one move
/// before `p` on a cheapest way from the start; looking back, one move
/// after `p` on a cheapest way to the end.
pub open spec fn before_over(m: MazeModel, forward: bool, p: Pose, facing: Direction, n: nat) -> Option<
    DirPos,
> {
    let q = neighbor(forward, p, facing);
    match (over(m, forward, p, facing, cost(m, forward, q, n)), cost(m, forward, p, n)) {
        (Some(a), Some(b)) => if a == b {
            Some(((q.row as usize, q.col as usize), facing))
        } else {
            None
        },
        _ => None,
    }
}

/// A pose as a list: of one, or of none.
pub open spec fn listed(pose: Option<DirPos>) -> Seq<DirPos> {
    match pose {
        Some(p) => seq![p],
        None => Seq::empty(),
    }
}

/// The neighbors of `p` that lie next to it on a way of least cost of at
/// most `n` moves: of the one that faces as `p` does, the one that faces
/// left of it and the one that faces right of it, in this order, those
/// for which `before_over` holds.
pub open spec fn befores(m: MazeModel, forward: bool, p: Pose, n: nat) -> Seq<DirPos> {
    listed(before_over(m, forward, p, p.dir, n)) + listed(
        before_over(m, forward, p, p.dir.spec_turn_left(), n),
    ) + listed(before_over(m, forward, p, p.dir.spec_turn_right(), n))
}

/// A pose is listed among the neighbors on ways of least cost exactly
/// where it is a neighbor over an allowed move, and its least cost and the
/// cost of the move add up to the least cost of `p`.
pub proof fn lemma_befores(m: MazeModel, forward: bool, p: Pose, n: nat, q: DirPos)
    ensures
        befores(m, forward, p, n).contains(q) <==> (exists|facing: Direction|
            (facing == p.dir || facing == p.dir.spec_turn_left() || facing
                == p.dir.spec_turn_right()) && #[trigger] before_over(m, forward, p, facing, n)
                == Some(q)),
{
    let ahead = before_over(m, forward, p, p.dir, n);
    let left = before_over(m, forward, p, p.dir.spec_turn_left(), n);
    let right = before_over(m, forward, p, p.dir.spec_turn_right(), n);
    let list = befores(m, forward, p, n);
    if list.contains(q) {
        let i = choose|i: int| 0 <= i < list.len() && list[i] == q;
        assert(ahead == Some(q) || left == Some(q) || right == Some(q));
    }
    if ahead == Some(q) {
        assert(list[0] == q);
    } else if left == Some(q) {
        assert(list[listed(ahead).len() as int] == q);
    } else if right == Some(q) {
        assert(list[(listed(ahead).len() + listed(left).len()) as int] == q);
    }
}

/// The least cost of a way from the start to the end tile, in whatever
/// direction the reindeer arrives: of the ways of as many moves as there
/// are poses, which are enough (`lemma_poses_enough`).
pub open spec fn least_cost(m: MazeModel) -> Option<nat> {
    let n = m.poses();
    let at = |dir: Direction| cost(m, true, Pose { row: m.end.0, col: m.end.1, dir }, n);
    least(
        least(at(Direction::North), at(Direction::East)),
        least(at(Direction::South), at(Direction::West)),
    )
}

/// Whether a pose lies on a way of the given cost from start to end: the
/// least cost to reach it and the least cost to go on from it add up to it.
pub open spec fn tight(m: MazeModel, row: int, col: int, dir: Direction, best: nat) -> bool {
    let p = Pose { row, col, dir };
    match (cost(m, true, p, m.poses()), cost(m, false, p, m.poses())) {
        (Some(a), Some(b)) => a + b == best,
        _ => false,
    }
}

/// Whether a tile lies on a way of the given cost from start to end.
pub open spec fn on_best(m: MazeModel, row: int, col: int, best: nat) -> bool {
    tight(m, row, col, Direction::North, best) || tight(m, row, col, Direction::East, best)
        || tight(m, row, col, Direction::South, best) || tight(
        m,
        row,
        col,
        Direction::West,
        best,
    )
}

/// The number of tiles among the first `cols` of a row that lie on a way of
/// the given cost.
pub open spec fn tiles_in_row(m: MazeModel, best: nat, row: int, cols: nat) -> nat
    decreases cols,
{
    if cols == 0 {
        0
    } else {
        tiles_in_row(m, best, row, (cols - 1) as nat) + (if on_best(m, row, cols - 1, best) {
            1nat
        } else {
            0nat
        })
    }
}

/// The number of tiles in the first `rows` rows that lie on a way of the
/// given cost.
pub open spec fn tiles_in_rows(m: MazeModel, best: nat, rows: nat) -> nat
    decreases rows,
{
    if rows == 0 {
        0
    } else {
        tiles_in_rows(m, best, (rows - 1) as nat) + tiles_in_row(
            m,
            best,
            rows - 1,
            m.width() as nat,
        )
    }
}

/// The number of tiles on the ways of least cost; `None` where no way leads
/// to the end.
pub open spec fn best_tiles(m: MazeModel) -> Option<nat> {
    match least_cost(m) {
        Some(best) => Some(tiles_in_rows(m, best, m.walls.len())),
        None => None,
    }
}

/// The largest number of poses that a maze may have.
pub const MAX_POSES: usize = 0xffff_ffff;

/// Whether a character may stand in a maze.
pub open spec fn tile_char(c: char) -> bool {
    c == '#' || c == '.' || c == 'S' || c == 'E'
}

/// The length of the longest line.
pub open spec fn widest(lines: Seq<Seq<char>>) -> nat
    decreases lines.len(),
{
    if lines.len() == 0 {
        0
    } else {
        let rest = widest(lines.drop_last());
        if lines.last().len() > rest {
            lines.last().len()
        } else {
            rest
        }
    }
}

/// The position of the last `mark` in the first `cols` characters of a
/// line, or `acc` where there is none.
pub open spec fn mark_in_line(line: Seq<char>, mark: char, row: int, cols: int, acc: (int, int)) -> (
    int,
    int,
)
    decreases cols,
{
    if cols <= 0 || cols > line.len() {
        acc
    } else if line[cols - 1] == mark {
        (row, cols - 1)
    } else {
        mark_in_line(line, mark, row, cols - 1, acc)
    }
}

/// The position of the last `mark` in the first `count` lines, or the
/// first tile where there is none.
pub open spec fn mark_in_lines(lines: Seq<Seq<char>>, mark: char, count: int) -> (int, int)
    decreases count,
{
    if count <= 0 || count > lines.len() {
        (0, 0)
    } else {
        mark_in_line(
            lines[count - 1],
            mark,
            count - 1,
            lines[count - 1].len() as int,
            mark_in_lines(lines, mark, count - 1),
        )
    }
}

/// Whether every character of the lines may stand in a maze.
pub open spec fn all_tiles(lines: Seq<Seq<char>>) -> bool {
    forall|r: int, c: int|
        0 <= r < lines.len() && 0 <= c < lines[r].len() ==> tile_char(#[trigger] lines[r][c])
}

/// The maze that a puzzle text draws: `#` is a wall, `.` a free tile, `S`
/// the start and `E` the end. Lines shorter than the longest are filled up
/// with walls. `None` where another character occurs.
pub open spec fn parse_maze(input: Seq<char>) -> Option<MazeModel> {
    let ls = lines(input);
    let width = widest(ls);
    if all_tiles(ls) {
        Some(
            MazeModel {
                walls: Seq::new(
                    ls.len(),
                    |r: int|
                        Seq::new(
                            width,
                            |c: int|
                                if c < ls[r].len() {
                                    ls[r][c] == '#'
                                } else {
                                    true
                                },
                        ),
                ),
                start: mark_in_lines(ls, 'S', ls.len() as int),
                end: mark_in_lines(ls, 'E', ls.len() as int),
            },
        )
    } else {
        None
    }
}

/// The answer of a part for a maze with at most `MAX_POSES` poses.
pub open spec fn solve(input: Seq<char>, part: Part) -> Option<Answer> {
    match parse_maze(input) {
        None => None,
        Some(m) => if m.poses() > MAX_POSES {
            None
        } else {
            let found = match part {
                Part::One => least_cost(m),
                Part::Two => best_tiles(m),
            };
            match found {
                Some(n) => if n <= usize::MAX {
                    Some(Answer::Number(n as usize))
                } else {
                    None
                },
                None => None,
            }
        },
    }
}

/// A longer line makes the widest no narrower.
proof fn lemma_widest(lines: Seq<Seq<char>>, r: int)
    requires
        0 <= r < lines.len(),
    ensures
        lines[r].len() <= widest(lines),
    decreases lines.len(),
{
    if r < lines.len() - 1 {
        lemma_widest(lines.drop_last(), r);
    }
}

fn find_mark(all: &Vec<Vec<char>>, mark: char) -> (r: (usize, usize))
    ensures
        (r.0 as int, r.1 as int) == mark_in_lines(rows(all@), mark, all.len() as int),
{
    let ghost ls = rows(all@);
    let mut at: (usize, usize) = (0, 0);
    let mut row: usize = 0;
    while row < all.len()
        invariant
            row <= all.len(),
            ls == rows(all@),
            (at.0 as int, at.1 as int) == mark_in_lines(ls, mark, row as int),
        decreases all.len() - row,
    {
        let line = &all[row];
        assert(ls[row as int] == line@);
        let ghost before = (at.0 as int, at.1 as int);
        let mut col: usize = line.len();
        let mut found = false;
        while col > 0 && !found
            invariant
                col <= line.len(),
                !found ==> mark_in_line(line@, mark, row as int, line.len() as int, before)
                    == mark_in_line(line@, mark, row as int, col as int, before),
                !found ==> (at.0 as int, at.1 as int) == before,
                found ==> (at.0 as int, at.1 as int) == mark_in_line(
                    line@,
                    mark,
                    row as int,
                    line.len() as int,
                    before,
                ),
            decreases col + (if found { 0int } else { 1int }),
        {
            if line[col - 1] == mark {
                at = (row, col - 1);
                found = true;
            } else {
                col -= 1;
            }
        }
        row += 1;
    }
    at
}

/// Reads the maze that a puzzle text draws.
#[verifier::loop_isolation(false)]
pub fn parse_input(input: &Vec<char>) -> (r: Option<Maze>)
    ensures
        match r {
            Some(maze) => parse_maze(input@) == Some(maze@) && maze@.rectangular(),
            None => parse_maze(input@) is None,
        },
{
    let all = lines_of(input);
    let ghost ls = rows(all@);
    let mut width: usize = 0;
    let mut i: usize = 0;
    assert(ls.take(0) =~= Seq::<Seq<char>>::empty());
    while i < all.len()
        invariant
            i <= all.len(),
            ls == rows(all@),
            width == widest(ls.take(i as int)),
        decreases all.len() - i,
    {
        assert(ls.take(i + 1).drop_last() =~= ls.take(i as int));
        assert(ls.take(i + 1).last() == all@[i as int]@);
        if all[i].len() > width {
            width = all[i].len();
        }
        i += 1;
    }
    assert(ls.take(i as int) =~= ls);
    let mut walls: Vec<Vec<bool>> = Vec::new();
    let mut r: usize = 0;
    while r < all.len()
        invariant
            r <= all.len(),
            ls == rows(all@),
            width == widest(ls),
            walls.len() == r,
            forall|k: int, c: int|
                0 <= k < r && 0 <= c < ls[k].len() ==> tile_char(#[trigger] ls[k][c]),
            forall|k: int|
                0 <= k < r ==> (#[trigger] walls@[k])@ == Seq::new(
                    width as nat,
                    |c: int|
                        if c < ls[k].len() {
                            ls[k][c] == '#'
                        } else {
                            true
                        },
                ),
        decreases all.len() - r,
    {
        let line = &all[r];
        assert(ls[r as int] == line@);
        proof {
            lemma_widest(ls, r as int);
        }
        let mut row: Vec<bool> = Vec::new();
        let mut c: usize = 0;
        while c < width
            invariant
                c <= width,
                line@.len() <= width,
                row.len() == c,
                forall|j: int| 0 <= j < c && j < line@.len() ==> tile_char(#[trigger] line@[j]),
                forall|j: int|
                    0 <= j < c ==> #[trigger] row@[j] == (if j < line@.len() {
                        line@[j] == '#'
                    } else {
                        true
                    }),
            decreases width - c,
        {
            if c < line.len() {
                let ch = line[c];
                if !(ch == '#' || ch == '.' || ch == 'S' || ch == 'E') {
                    assert(!tile_char(ls[r as int][c as int]));
                    return None;
                }
                row.push(ch == '#');
            } else {
                row.push(true);
            }
            c += 1;
        }
        assert(row@ =~= Seq::new(
            width as nat,
            |c: int|
                if c < ls[r as int].len() {
                    ls[r as int][c] == '#'
                } else {
                    true
                },
        ));
        walls.push(row);
        r += 1;
    }
    let start = find_mark(&all, 'S');
    let end = find_mark(&all, 'E');
    let maze = Maze { walls, start, end };
    proof {
        let model = parse_maze(input@).unwrap();
        assert(all_tiles(ls));
        assert(maze@.walls =~= model.walls);
        assert forall|k: int| 0 <= k < maze@.walls.len() implies (#[trigger] maze@.walls[k]).len()
            == maze@.width() by {
            assert(maze@.walls[k] == walls@[k]@);
            assert(maze@.walls[0] == walls@[0]@);
        }
    }
    Some(maze)
}

/// The costs of all poses of a grid: for every row, every column and each
/// of the four directions.
pub struct Costs {
    pub cells: Vec<Vec<Vec<Option<u64>>>>,
}

impl Costs {
    /// Whether the table has a place for every pose of the maze.
    pub open spec fn shaped(&self, m: MazeModel) -> bool {
        &&& self.cells.len() == m.walls.len()
        &&& forall|r: int|
            0 <= r < self.cells.len() ==> (#[trigger] self.cells@[r]).len() == m.width()
        &&& forall|r: int, c: int|
            0 <= r < self.cells.len() && 0 <= c < m.width() ==> (#[trigger] self.cells@[r]@[c]).len()
                == 4
    }

    /// The cost that the table holds for a pose.
    pub open spec fn at(&self, row: int, col: int, dir: Direction) -> Option<nat> {
        match self.cells@[row]@[col]@[dir.spec_index()] {
            Some(c) => Some(c as nat),
            None => None,
        }
    }

    /// Whether the table holds, for every pose, the least cost of a way of
    /// at most `n` moves.
    pub open spec fn holds(&self, m: MazeModel, forward: bool, n: nat) -> bool {
        &&& self.shaped(m)
        &&& forall|r: int, c: int, d: Direction|
            0 <= r < m.walls.len() && 0 <= c < m.width() ==> #[trigger] self.at(r, c, d) == cost(
                m,
                forward,
                Pose { row: r, col: c, dir: d },
                n,
            )
    }

    fn get(&self, row: usize, col: usize, dir: Direction, Ghost(m): Ghost<MazeModel>) -> (r: Option<
        u64,
    >)
        requires
            self.shaped(m),
            row < m.walls.len(),
            col < m.width(),
        ensures
            match r {
                Some(c) => self.at(row as int, col as int, dir) == Some(c as nat),
                None => self.at(row as int, col as int, dir) is None,
            },
    {
        self.cells[row][col][dir.index()]
    }
}

/// What the search finds: the least costs of all poses, and for every
/// pose its neighbors on the ways of least cost.
pub struct Ways {
    pub costs: Costs,
    pub before: Vec<Vec<Vec<Vec<DirPos>>>>,
}

impl Ways {
    /// Whether the table of neighbors has a list for every pose of the
    /// maze, and each holds the neighbors of its pose on the ways of least
    /// cost of at most `n` moves.
    pub open spec fn traced(&self, m: MazeModel, forward: bool, n: nat) -> bool {
        &&& self.before.len() == m.walls.len()
        &&& forall|r: int|
            0 <= r < self.before.len() ==> (#[trigger] self.before@[r]).len() == m.width()
        &&& forall|r: int, c: int|
            0 <= r < self.before.len() && 0 <= c < m.width() ==> (#[trigger] self.before@[r]@[c]).len()
                == 4
        &&& forall|r: int, c: int, d: Direction|
            0 <= r < m.walls.len() && 0 <= c < m.width() ==> #[trigger] self.neighbors_at(r, c, d)
                == befores(m, forward, Pose { row: r, col: c, dir: d }, n)
    }

    /// The list that the table holds for a pose.
    pub open spec fn neighbors_at(&self, row: int, col: int, dir: Direction) -> Seq<DirPos> {
        self.before@[row]@[col]@[dir.spec_index()]@
    }
}

/// No way of at most `n` moves costs more than `1001 * n`.
proof fn lemma_cost_bound(m: MazeModel, forward: bool, p: Pose, n: nat)
    ensures
        cost(m, forward, p, n) matches Some(c) ==> c <= 1001 * n,
    decreases n,
{
    if n > 0 && m.on_grid(p.row, p.col) {
        let k = (n - 1) as nat;
        lemma_cost_bound(m, forward, p, k);
        lemma_cost_bound(m, forward, neighbor(forward, p, p.dir), k);
        lemma_cost_bound(m, forward, neighbor(forward, p, p.dir.spec_turn_left()), k);
        lemma_cost_bound(m, forward, neighbor(forward, p, p.dir.spec_turn_right()), k);
    }
}

/// Once one more move changes no cost, no number of further moves does.
proof fn lemma_settled(m: MazeModel, forward: bool, n: nat, more: nat)
    requires
        forall|p: Pose| #[trigger] cost(m, forward, p, n + 1) == cost(m, forward, p, n),
    ensures
        forall|p: Pose| #[trigger] cost(m, forward, p, n + more) == cost(m, forward, p, n),
    decreases more,
{
    if more > 0 {
        lemma_settled(m, forward, n, (more - 1) as nat);
        assert forall|p: Pose| #[trigger]
            cost(m, forward, p, n + more) == cost(m, forward, p, n) by {
            let k = (n + more - 1) as nat;
            assert(cost(m, forward, p, k) == cost(m, forward, p, n));
            assert(cost(m, forward, neighbor(forward, p, p.dir), k) == cost(
                m,
                forward,
                neighbor(forward, p, p.dir),
                n,
            ));
            assert(cost(m, forward, neighbor(forward, p, p.dir.spec_turn_left()), k) == cost(
                m,
                forward,
                neighbor(forward, p, p.dir.spec_turn_left()),
                n,
            ));
            assert(cost(m, forward, neighbor(forward, p, p.dir.spec_turn_right()), k) == cost(
                m,
                forward,
                neighbor(forward, p, p.dir.spec_turn_right()),
                n,
            ));
            assert(cost(m, forward, p, n + 1) == cost(m, forward, p, n));
        }
    }
}

/// Whether a cost is no more than another, where `None` is no way at all.
pub open spec fn no_more(a: Option<nat>, b: Option<nat>) -> bool {
    match (a, b) {
        (_, None) => true,
        (Some(x), Some(y)) => x <= y,
        (None, Some(_)) => false,
    }
}

/// Whether more than `n` moves do not change the least cost of a pose.
pub open spec fn final_at(m: MazeModel, forward: bool, p: Pose, n: nat) -> bool {
    forall|k: nat| k >= n ==> #[trigger] cost(m, forward, p, k) == cost(m, forward, p, n)
}

/// Whether more than `n` moves change the least cost of no pose.
pub open spec fn all_final(m: MazeModel, forward: bool, n: nat) -> bool {
    forall|p: Pose| #[trigger] final_at(m, forward, p, n)
}

/// Whether `k` moves, more than `n`, make the least cost of a pose `v`,
/// less than it is with `n` moves.
pub open spec fn improves(m: MazeModel, forward: bool, p: Pose, n: nat, k: nat, v: nat) -> bool {
    k > n && cost(m, forward, p, k) == Some(v) && !no_more(cost(m, forward, p, n), Some(v))
}

/// The direction at a place in a table of four.
pub open spec fn dir_at(i: int) -> Direction {
    if i == 0 {
        Direction::North
    } else if i == 1 {
        Direction::East
    } else if i == 2 {
        Direction::South
    } else {
        Direction::West
    }
}

/// The poses whose least cost more than `n` moves do not change, each at
/// four times its column plus the place of its direction, and its row.
pub open spec fn finals(m: MazeModel, forward: bool, n: nat) -> spec_fn(int, int) -> bool {
    |x: int, y: int| final_at(m, forward, Pose { row: y, col: x / 4, dir: dir_at(x % 4) }, n)
}

/// More moves make no least cost larger.
proof fn lemma_cost_falls(m: MazeModel, forward: bool, p: Pose, n: nat, k: nat)
    requires
        n <= k,
    ensures
        no_more(cost(m, forward, p, k), cost(m, forward, p, n)),
    decreases k,
{
    if n < k {
        lemma_cost_falls(m, forward, p, n, (k - 1) as nat);
    }
}

/// The first number of moves after `n`, and no more than `k`, with which
/// a pose costs no more than `v`.
proof fn lemma_first_drop(m: MazeModel, forward: bool, p: Pose, n: nat, k: nat, v: nat) -> (first: nat)
    requires
        n < k,
        no_more(cost(m, forward, p, k), Some(v)),
        !no_more(cost(m, forward, p, n), Some(v)),
    ensures
        n < first <= k,
        no_more(cost(m, forward, p, first), Some(v)),
        !no_more(cost(m, forward, p, (first - 1) as nat), Some(v)),
    decreases k,
{
    let before = (k - 1) as nat;
    if no_more(cost(m, forward, p, before), Some(v)) {
        lemma_first_drop(m, forward, p, n, before, v)
    } else {
        k
    }
}

/// Of the costs that more moves than `n` improve to, the least, with a
/// pose and a number of moves that have it.
proof fn lemma_least_improvement(m: MazeModel, forward: bool, n: nat, p0: Pose, k0: nat, v0: nat) -> (r: (
    Pose,
    nat,
    nat,
))
    requires
        improves(m, forward, p0, n, k0, v0),
    ensures
        improves(m, forward, r.0, n, r.1, r.2),
        least_improved(m, forward, n, r.2),
    decreases v0,
{
    if exists|p: Pose, k: nat, v: nat| #[trigger] improves(m, forward, p, n, k, v) && v < v0 {
        let (p, k, v) = choose|p: Pose, k: nat, v: nat| #[trigger]
            improves(m, forward, p, n, k, v) && v < v0;
        lemma_least_improvement(m, forward, n, p, k, v)
    } else {
        (p0, k0, v0)
    }
}

/// Whether `facing` is the direction of a pose, or that to its left or
/// right.
pub open spec fn turned(p: Pose, facing: Direction) -> bool {
    facing == p.dir || facing == p.dir.spec_turn_left() || facing == p.dir.spec_turn_right()
}

/// A least cost that one more move brings comes over a move from a
/// neighbor.
proof fn lemma_source(m: MazeModel, forward: bool, p: Pose, k: nat, v: nat) -> (facing: Direction)
    requires
        k > 0,
        cost(m, forward, p, k) == Some(v),
        !no_more(cost(m, forward, p, (k - 1) as nat), Some(v)),
    ensures
        turned(p, facing),
        over(m, forward, p, facing, cost(m, forward, neighbor(forward, p, facing), (k - 1) as nat))
            == Some(v),
{
    let back = (k - 1) as nat;
    let left = p.dir.spec_turn_left();
    let right = p.dir.spec_turn_right();
    if over(m, forward, p, p.dir, cost(m, forward, neighbor(forward, p, p.dir), back)) == Some(v) {
        p.dir
    } else if over(m, forward, p, left, cost(m, forward, neighbor(forward, p, left), back)) == Some(
        v,
    ) {
        left
    } else {
        right
    }
}

/// A move from a neighbor bounds the least cost with one more move.
proof fn lemma_relax(m: MazeModel, forward: bool, p: Pose, facing: Direction, n: nat, a: nat)
    requires
        m.on_grid(p.row, p.col),
        turned(p, facing),
        allowed(m, forward, p, facing),
        no_more(cost(m, forward, neighbor(forward, p, facing), n), Some(a)),
    ensures
        no_more(cost(m, forward, p, n + 1), Some(a + weight(p.dir, facing))),
{
    let q = neighbor(forward, p, facing);
    assert(no_more(over(m, forward, p, facing, cost(m, forward, q, n)), Some(a + weight(p.dir, facing))));
}

/// Whether no cost that more moves than `n` improve to is less than `v`.
pub open spec fn least_improved(m: MazeModel, forward: bool, n: nat, v: nat) -> bool {
    forall|p: Pose, k: nat, c: nat| #[trigger] improves(m, forward, p, n, k, c) ==> v <= c
}

proof fn lemma_not_less(m: MazeModel, forward: bool, n: nat, v: nat, p: Pose, k: nat)
    requires
        least_improved(m, forward, n, v),
        k > n,
    ensures
        cost(m, forward, p, k) matches Some(c) ==> no_more(cost(m, forward, p, n), Some(c)) || v <= c,
{
    if cost(m, forward, p, k) is Some {
        let c = cost(m, forward, p, k).unwrap();
        if !no_more(cost(m, forward, p, n), Some(c)) {
            assert(improves(m, forward, p, n, k, c));
        }
    }
}

/// A pose whose least cost improves to the least of all improved costs
/// has this cost with one more move, and keeps it.
proof fn lemma_settles_next(m: MazeModel, forward: bool, n: nat, p: Pose, k: nat, v: nat)
    requires
        improves(m, forward, p, n, k, v),
        least_improved(m, forward, n, v),
    ensures
        final_at(m, forward, p, n + 1),
{
    let first = lemma_first_drop(m, forward, p, n, k, v);
    lemma_not_less(m, forward, n, v, p, first);
    assert(cost(m, forward, p, first) == Some(v));
    let facing = lemma_source(m, forward, p, first, v);
    let back = (first - 1) as nat;
    let q = neighbor(forward, p, facing);
    let w = weight(p.dir, facing);
    let a = cost(m, forward, q, back).unwrap();
    assert(a + w == v && allowed(m, forward, p, facing));
    if back <= n {
        lemma_cost_falls(m, forward, q, back, n);
    } else {
        lemma_not_less(m, forward, n, v, q, back);
    }
    assert(no_more(cost(m, forward, q, n), Some(a)));
    lemma_relax(m, forward, p, facing, n, a);
    let next = (n + 1) as nat;
    let b = cost(m, forward, p, next).unwrap();
    assert(b <= v);
    assert forall|j: nat| j >= next implies #[trigger] cost(m, forward, p, j) == cost(
        m,
        forward,
        p,
        next,
    ) by {
        lemma_cost_falls(m, forward, p, next, j);
        lemma_not_less(m, forward, n, v, p, j);
    }
}

/// While more moves change a least cost, one more move makes the least
/// cost of one more pose final.
proof fn lemma_one_more_final(m: MazeModel, forward: bool, n: nat, p0: Pose) -> (p: Pose)
    requires
        !final_at(m, forward, p0, n),
    ensures
        m.on_grid(p.row, p.col),
        !final_at(m, forward, p, n),
        final_at(m, forward, p, n + 1),
{
    let k0 = choose|k: nat| k >= n && #[trigger] cost(m, forward, p0, k) != cost(m, forward, p0, n);
    lemma_cost_falls(m, forward, p0, n, k0);
    let v0 = cost(m, forward, p0, k0).unwrap();
    assert(improves(m, forward, p0, n, k0, v0));
    let (p, k, v) = lemma_least_improvement(m, forward, n, p0, k0, v0);
    lemma_settles_next(m, forward, n, p, k, v);
    assert(cost(m, forward, p, k) != cost(m, forward, p, n));
    p
}

/// As long as more moves change a least cost, each move makes the least
/// cost of one more pose final; so there is a number of moves, no larger
/// than the number of poses, after which more moves change no least cost.
proof fn lemma_all_final(m: MazeModel, forward: bool, d: nat)
    requires
        grid_count(finals(m, forward, d), 4 * m.width(), m.walls.len() as int) >= d,
    ensures
        exists|k: nat| d <= k <= m.poses() && all_final(m, forward, k),
    decreases m.poses() - d,
{
    let w = 4 * m.width();
    let h = m.walls.len() as int;
    lemma_count_bound(finals(m, forward, d), w, h);
    assert(w * h == m.poses()) by (nonlinear_arith)
        requires
            w == 4 * m.width(),
            h == m.walls.len(),
            m.poses() == m.walls.len() * m.width() * 4,
    ;
    if all_final(m, forward, d) {
    } else {
        let p0 = choose|p: Pose| !#[trigger] final_at(m, forward, p, d);
        let p = lemma_one_more_final(m, forward, d, p0);
        let next = (d + 1) as nat;
        let x = 4 * p.col + p.dir.spec_index();
        assert(x / 4 == p.col && x % 4 == p.dir.spec_index());
        assert(Pose { row: p.row, col: x / 4, dir: dir_at(x % 4) } == p);
        assert(finals(m, forward, next)(x, p.row) && !finals(m, forward, d)(x, p.row));
        assert forall|i: int, j: int|
            0 <= i < w && 0 <= j < h && #[trigger] finals(m, forward, d)(i, j) implies finals(
            m,
            forward,
            next,
        )(i, j) by {
            let at = Pose { row: j, col: i / 4, dir: dir_at(i % 4) };
            assert(final_at(m, forward, at, d));
            assert(cost(m, forward, at, next) == cost(m, forward, at, d));
            assert(final_at(m, forward, at, next));
        }
        lemma_count_more(finals(m, forward, d), finals(m, forward, next), w, h, x, p.row);
        lemma_count_bound(finals(m, forward, next), w, h);
        lemma_all_final(m, forward, next);
    }
}

/// As many moves as a maze has poses are enough: more moves change the
/// least cost of no pose, so `cost` with so many moves is the least cost
/// of a way of any number of moves.
pub proof fn lemma_poses_enough(m: MazeModel, forward: bool, p: Pose, n: nat)
    requires
        n >= m.poses(),
    ensures
        cost(m, forward, p, n) == cost(m, forward, p, m.poses()),
{
    lemma_all_final(m, forward, 0);
    let k = choose|k: nat| 0 <= k <= m.poses() && all_final(m, forward, k);
    assert(final_at(m, forward, p, k));
    assert(cost(m, forward, p, n) == cost(m, forward, p, k));
    assert(cost(m, forward, p, m.poses()) == cost(m, forward, p, k));
}

fn lesser(a: Option<u64>, b: Option<u64>) -> (r: Option<u64>)
    ensures
        r == (match (a, b) {
            (Some(x), Some(y)) => if x <= y {
                a
            } else {
                b
            },
            (Some(_), None) => a,
            _ => b,
        }),
{
    match (a, b) {
        (Some(x), Some(y)) => if x <= y {
            a
        } else {
            b
        },
        (Some(_), None) => a,
        _ => b,
    }
}

impl Maze {
    /// Whether a position is a tile of the grid that is no wall.
    pub fn is_open(&self, row: usize, col: usize) -> (r: bool)
        ensures
            r == self@.open(row as int, col as int),
    {
        if row < self.walls.len() {
            assert(self@.walls[row as int] == self.walls@[row as int]@);
            assert(self@.walls[0] == self.walls@[0]@);
            col < self.walls[0].len() && col < self.walls[row].len() && !self.walls[row][col]
        } else {
            false
        }
    }

    /// Draws the maze, a line for every row.
    pub fn to_text(&self) -> (r: String)
        ensures
            r@ == self@.drawn_from(0),
    {
        let ghost m = self@;
        let mut text: Vec<char> = Vec::new();
        let mut y: usize = 0;
        assert(text@ + m.drawn_from(0) =~= m.drawn_from(0));
        while y < self.walls.len()
            invariant
                y <= self.walls.len(),
                m == self@,
                m.drawn_from(0) == text@ + m.drawn_from(y as int),
            decreases self.walls.len() - y,
        {
            let ghost before = text@;
            let ghost line = m.drawn_row(y as int);
            assert(m.walls[y as int] == self.walls@[y as int]@);
            let mut x: usize = 0;
            assert(before + line.take(0) =~= before);
            while x < self.walls[y].len()
                invariant
                    y < self.walls.len(),
                    x <= self.walls[y as int].len(),
                    m == self@,
                    m.walls[y as int] == self.walls@[y as int]@,
                    line == m.drawn_row(y as int),
                    line.len() == self.walls[y as int].len(),
                    text@ == before + line.take(x as int),
                decreases self.walls[y as int].len() - x,
            {
                let sign = if x == self.start.0 && y == self.start.1 {
                    'S'
                } else if x == self.end.0 && y == self.end.1 {
                    'E'
                } else if self.walls[y][x] {
                    '#'
                } else {
                    '.'
                };
                text.push(sign);
                assert(line.take(x + 1) =~= line.take(x as int).push(line[x as int]));
                assert(text@ =~= before + line.take(x + 1));
                x += 1;
            }
            text.push('\n');
            assert(line.take(x as int) =~= line);
            assert(text@ + m.drawn_from(y + 1) =~= before + (line + seq!['\n'] + m.drawn_from(y + 1)));
            y += 1;
        }
        assert(text@ + m.drawn_from(y as int) =~= text@);
        string_of(&text)
    }

    /// The number of columns.
    pub fn width(&self) -> (r: usize)
        ensures
            r == self@.width(),
    {
        if self.walls.len() == 0 {
            0
        } else {
            assert(self@.walls[0] == self.walls@[0]@);
            self.walls[0].len()
        }
    }

    /// The tile of the neighbor of a pose that faces `facing`, and
    /// whether it lies on the grid.
    fn next_to(&self, forward: bool, row: usize, col: usize, dir: Direction, facing: Direction) -> (r: (
        usize,
        usize,
        bool,
    ))
        requires
            self@.rectangular(),
            row < self.walls.len(),
            col < self@.width(),
        ensures
            ({
                let q = neighbor(forward, Pose { row: row as int, col: col as int, dir }, facing);
                r.2 == self@.on_grid(q.row, q.col) && (r.2 ==> r.0 == q.row && r.1 == q.col)
            }),
    {
        let moving = if forward {
            dir
        } else {
            facing
        };
        let height = self.walls.len();
        let width = self.width();
        match (moving, forward) {
            (Direction::North, true) | (Direction::South, false) => (
                row.wrapping_add(1),
                col,
                row + 1 < height,
            ),
            (Direction::South, true) | (Direction::North, false) => (
                row.wrapping_sub(1),
                col,
                row > 0,
            ),
            (Direction::West, true) | (Direction::East, false) => (
                row,
                col.wrapping_add(1),
                col + 1 < width,
            ),
            (Direction::East, true) | (Direction::West, false) => (
                row,
                col.wrapping_sub(1),
                col > 0,
            ),
        }
    }

    /// The cost over one move to the neighbor of a pose that faces `facing`.
    fn over_move(
        &self,
        prev: &Costs,
        forward: bool,
        row: usize,
        col: usize,
        dir: Direction,
        facing: Direction,
        Ghost(k): Ghost<nat>,
    ) -> (r: Option<u64>)
        requires
            prev.holds(self@, forward, k),
            self@.rectangular(),
            row < self.walls.len(),
            col < self@.width(),
            1001 * (k + 1) <= u64::MAX,
        ensures
            ({
                let p = Pose { row: row as int, col: col as int, dir };
                let via = over(
                    self@,
                    forward,
                    p,
                    facing,
                    cost(self@, forward, neighbor(forward, p, facing), k),
                );
                match r {
                    Some(c) => via == Some(c as nat),
                    None => via is None,
                }
            }),
    {
        let ghost p = Pose { row: row as int, col: col as int, dir };
        let ghost q = neighbor(forward, p, facing);
        let (near_row, near_col, inside) = self.next_to(forward, row, col, dir, facing);
        assert(inside == self@.on_grid(q.row, q.col));
        assert(inside ==> near_row == q.row && near_col == q.col);
        if !inside {
            return None;
        }
        let ok = if forward {
            self.is_open(row, col) && !(near_row == self.end.0 && near_col == self.end.1)
        } else {
            self.is_open(near_row, near_col) && !(row == self.end.0 && col == self.end.1)
        };
        assert(ok == allowed(self@, forward, p, facing));
        if !ok {
            return None;
        }
        let w: u64 = if dir == facing {
            1
        } else {
            1001
        };
        match prev.get(near_row, near_col, facing, Ghost(self@)) {
            Some(c) => {
                proof {
                    assert(prev.at(near_row as int, near_col as int, facing) == cost(
                        self@,
                        forward,
                        q,
                        k,
                    ));
                    lemma_cost_bound(self@, forward, q, k);
                }
                Some(c + w)
            },
            None => {
                assert(prev.at(near_row as int, near_col as int, facing) == cost(
                    self@,
                    forward,
                    q,
                    k,
                ));
                None
            },
        }
    }

    /// The least cost of a pose over ways of one more move than `prev`
    /// holds.
    fn relaxed(
        &self,
        prev: &Costs,
        forward: bool,
        row: usize,
        col: usize,
        dir: Direction,
        Ghost(k): Ghost<nat>,
    ) -> (r: Option<u64>)
        requires
            prev.holds(self@, forward, k),
            self@.rectangular(),
            row < self.walls.len(),
            col < self@.width(),
            1001 * (k + 1) <= u64::MAX,
        ensures
            ({
                let found = cost(
                    self@,
                    forward,
                    Pose { row: row as int, col: col as int, dir },
                    k + 1,
                );
                match r {
                    Some(c) => found == Some(c as nat),
                    None => found is None,
                }
            }),
    {
        let same = prev.get(row, col, dir, Ghost(self@));
        let ahead = self.over_move(prev, forward, row, col, dir, dir, Ghost(k));
        let left = self.over_move(prev, forward, row, col, dir, dir.turn_left(), Ghost(k));
        let right = self.over_move(prev, forward, row, col, dir, dir.turn_right(), Ghost(k));
        assert(prev.at(row as int, col as int, dir) == cost(
            self@,
            forward,
            Pose { row: row as int, col: col as int, dir },
            k,
        ));
        lesser(same, lesser(ahead, lesser(left, right)))
    }

    /// The table of the ways of no move at all.
    fn seeds(&self, forward: bool) -> (r: Costs)
        requires
            self@.rectangular(),
        ensures
            r.holds(self@, forward, 0),
    {
        let width = self.width();
        let mut cells: Vec<Vec<Vec<Option<u64>>>> = Vec::new();
        let mut row: usize = 0;
        while row < self.walls.len()
            invariant
                row <= self.walls.len(),
                width == self@.width(),
                cells.len() == row,
                forall|r: int| 0 <= r < row ==> (#[trigger] cells@[r]).len() == width,
                forall|r: int, c: int|
                    0 <= r < row && 0 <= c < width ==> (#[trigger] cells@[r]@[c]).len() == 4,
                forall|r: int, c: int, d: Direction|
                    0 <= r < row && 0 <= c < width ==> #[trigger] (Costs { cells }).at(r, c, d)
                        == cost(self@, forward, Pose { row: r, col: c, dir: d }, 0),
            decreases self.walls.len() - row,
        {
            let mut line: Vec<Vec<Option<u64>>> = Vec::new();
            let mut col: usize = 0;
            while col < width
                invariant
                    col <= width,
                    row < self.walls.len(),
                    width == self@.width(),
                    line.len() == col,
                    forall|c: int| 0 <= c < col ==> (#[trigger] line@[c]).len() == 4,
                    forall|c: int, d: Direction|
                        0 <= c < col ==> (match #[trigger] line@[c]@[d.spec_index()] {
                            Some(x) => Some(x as nat),
                            None => None,
                        }) == cost(self@, forward, Pose { row: row as int, col: c, dir: d }, 0),
                decreases width - col,
            {
                let here = if forward {
                    row == self.start.0 && col == self.start.1
                } else {
                    row == self.end.0 && col == self.end.1
                };
                let zero: Option<u64> = Some(0);
                let mut four: Vec<Option<u64>> = Vec::new();
                four.push(if here && !forward { zero } else { None });
                four.push(if here { zero } else { None });
                four.push(if here && !forward { zero } else { None });
                four.push(if here && !forward { zero } else { None });
                line.push(four);
                col += 1;
            }
            let ghost before = Costs { cells };
            cells.push(line);
            proof {
                let after = Costs { cells };
                assert forall|r: int, c: int, d: Direction|
                    0 <= r < row + 1 && 0 <= c < width implies #[trigger] after.at(r, c, d) == cost(
                    self@,
                    forward,
                    Pose { row: r, col: c, dir: d },
                    0,
                ) by {
                    if r < row {
                        assert(after.cells@[r] == before.cells@[r]);
                        assert(before.at(r, c, d) == after.at(r, c, d));
                    }
                }
            }
            row += 1;
        }
        Costs { cells }
    }

    /// The table of the ways of one more move, and whether it differs from
    /// `prev`.
    fn sweep(&self, prev: &Costs, forward: bool, Ghost(k): Ghost<nat>) -> (r: (Costs, bool))
        requires
            prev.holds(self@, forward, k),
            self@.rectangular(),
            1001 * (k + 1) <= u64::MAX,
        ensures
            r.0.holds(self@, forward, k + 1),
            !r.1 ==> forall|p: Pose| #[trigger]
                cost(self@, forward, p, k + 1) == cost(self@, forward, p, k),
    {
        let width = self.width();
        let mut changed = false;
        let mut cells: Vec<Vec<Vec<Option<u64>>>> = Vec::new();
        let mut row: usize = 0;
        while row < self.walls.len()
            invariant
                row <= self.walls.len(),
                width == self@.width(),
                prev.holds(self@, forward, k),
                self@.rectangular(),
                1001 * (k + 1) <= u64::MAX,
                cells.len() == row,
                forall|r: int| 0 <= r < row ==> (#[trigger] cells@[r]).len() == width,
                forall|r: int, c: int|
                    0 <= r < row && 0 <= c < width ==> (#[trigger] cells@[r]@[c]).len() == 4,
                forall|r: int, c: int, d: Direction|
                    0 <= r < row && 0 <= c < width ==> #[trigger] (Costs { cells }).at(r, c, d)
                        == cost(self@, forward, Pose { row: r, col: c, dir: d }, k + 1),
                !changed ==> forall|r: int, c: int, d: Direction|
                    0 <= r < row && 0 <= c < width ==> #[trigger] cost(
                        self@,
                        forward,
                        Pose { row: r, col: c, dir: d },
                        k + 1,
                    ) == cost(self@, forward, Pose { row: r, col: c, dir: d }, k),
            decreases self.walls.len() - row,
        {
            let mut line: Vec<Vec<Option<u64>>> = Vec::new();
            let mut col: usize = 0;
            while col < width
                invariant
                    col <= width,
                    row < self.walls.len(),
                    width == self@.width(),
                    prev.holds(self@, forward, k),
                    self@.rectangular(),
                    1001 * (k + 1) <= u64::MAX,
                    line.len() == col,
                    forall|c: int| 0 <= c < col ==> (#[trigger] line@[c]).len() == 4,
                    forall|c: int, d: Direction|
                        0 <= c < col ==> (match #[trigger] line@[c]@[d.spec_index()] {
                            Some(x) => Some(x as nat),
                            None => None,
                        }) == cost(
                            self@,
                            forward,
                            Pose { row: row as int, col: c, dir: d },
                            k + 1,
                        ),
                    !changed ==> forall|r: int, c: int, d: Direction|
                        0 <= r < row && 0 <= c < width ==> #[trigger] cost(
                            self@,
                            forward,
                            Pose { row: r, col: c, dir: d },
                            k + 1,
                        ) == cost(self@, forward, Pose { row: r, col: c, dir: d }, k),
                    !changed ==> forall|c: int, d: Direction|
                        0 <= c < col ==> #[trigger] cost(
                            self@,
                            forward,
                            Pose { row: row as int, col: c, dir: d },
                            k + 1,
                        ) == cost(self@, forward, Pose { row: row as int, col: c, dir: d }, k),
                decreases width - col,
            {
                let north = self.relaxed(prev, forward, row, col, Direction::North, Ghost(k));
                let east = self.relaxed(prev, forward, row, col, Direction::East, Ghost(k));
                let south = self.relaxed(prev, forward, row, col, Direction::South, Ghost(k));
                let west = self.relaxed(prev, forward, row, col, Direction::West, Ghost(k));
                let old_north = prev.get(row, col, Direction::North, Ghost(self@));
                let old_east = prev.get(row, col, Direction::East, Ghost(self@));
                let old_south = prev.get(row, col, Direction::South, Ghost(self@));
                let old_west = prev.get(row, col, Direction::West, Ghost(self@));
                proof {
                    assert(prev.at(row as int, col as int, Direction::North) == cost(
                        self@,
                        forward,
                        Pose { row: row as int, col: col as int, dir: Direction::North },
                        k,
                    ));
                    assert(prev.at(row as int, col as int, Direction::East) == cost(
                        self@,
                        forward,
                        Pose { row: row as int, col: col as int, dir: Direction::East },
                        k,
                    ));
                    assert(prev.at(row as int, col as int, Direction::South) == cost(
                        self@,
                        forward,
                        Pose { row: row as int, col: col as int, dir: Direction::South },
                        k,
                    ));
                    assert(prev.at(row as int, col as int, Direction::West) == cost(
                        self@,
                        forward,
                        Pose { row: row as int, col: col as int, dir: Direction::West },
                        k,
                    ));
                }
                if north != old_north || east != old_east || south != old_south || west
                    != old_west {
                    changed = true;
                }
                let mut four: Vec<Option<u64>> = Vec::new();
                four.push(north);
                four.push(east);
                four.push(south);
                four.push(west);
                line.push(four);
                col += 1;
            }
            let ghost before = Costs { cells };
            cells.push(line);
            proof {
                let after = Costs { cells };
                assert forall|r: int, c: int, d: Direction|
                    0 <= r < row + 1 && 0 <= c < width implies #[trigger] after.at(r, c, d) == cost(
                    self@,
                    forward,
                    Pose { row: r, col: c, dir: d },
                    k + 1,
                ) by {
                    if r < row {
                        assert(after.cells@[r] == before.cells@[r]);
                        assert(before.at(r, c, d) == after.at(r, c, d));
                    }
                }
            }
            row += 1;
        }
        proof {
            if !changed {
                assert forall|p: Pose| #[trigger]
                    cost(self@, forward, p, k + 1) == cost(self@, forward, p, k) by {
                    if self@.on_grid(p.row, p.col) {
                        assert(cost(
                            self@,
                            forward,
                            Pose { row: p.row, col: p.col, dir: p.dir },
                            k + 1,
                        ) == cost(self@, forward, Pose { row: p.row, col: p.col, dir: p.dir }, k));
                    }
                }
            }
        }
        (Costs { cells }, changed)
    }

    /// The neighbor of a pose that faces `facing`, where it lies next to
    /// the pose on a way of least cost.
    fn before_of(
        &self,
        table: &Costs,
        forward: bool,
        row: usize,
        col: usize,
        dir: Direction,
        facing: Direction,
        Ghost(n): Ghost<nat>,
    ) -> (r: Option<DirPos>)
        requires
            table.holds(self@, forward, n),
            self@.rectangular(),
            row < self.walls.len(),
            col < self@.width(),
            1001 * (n + 1) <= u64::MAX,
        ensures
            r == before_over(self@, forward, Pose { row: row as int, col: col as int, dir }, facing, n),
    {
        let ghost p = Pose { row: row as int, col: col as int, dir };
        let ghost q = neighbor(forward, p, facing);
        let via = self.over_move(table, forward, row, col, dir, facing, Ghost(n));
        let own = table.get(row, col, dir, Ghost(self@));
        assert(table.at(row as int, col as int, dir) == cost(self@, forward, p, n));
        match (via, own) {
            (Some(a), Some(b)) => {
                if a == b {
                    let (near_row, near_col, inside) = self.next_to(forward, row, col, dir, facing);
                    assert(cost(self@, forward, q, n) is Some);
                    assert(inside);
                    Some(((near_row, near_col), facing))
                } else {
                    None
                }
            },
            _ => None,
        }
    }

    /// The neighbors of a pose on the ways of least cost.
    fn befores_of(&self, table: &Costs, forward: bool, row: usize, col: usize, dir: Direction, Ghost(n): Ghost<
        nat,
    >) -> (r: Vec<DirPos>)
        requires
            table.holds(self@, forward, n),
            self@.rectangular(),
            row < self.walls.len(),
            col < self@.width(),
            1001 * (n + 1) <= u64::MAX,
        ensures
            r@ == befores(self@, forward, Pose { row: row as int, col: col as int, dir }, n),
    {
        let mut list: Vec<DirPos> = Vec::new();
        if let Some(pose) = self.before_of(table, forward, row, col, dir, dir, Ghost(n)) {
            list.push(pose);
        }
        if let Some(pose) = self.before_of(table, forward, row, col, dir, dir.turn_left(), Ghost(n)) {
            list.push(pose);
        }
        if let Some(pose) = self.before_of(table, forward, row, col, dir, dir.turn_right(), Ghost(n)) {
            list.push(pose);
        }
        assert(list@ =~= befores(self@, forward, Pose { row: row as int, col: col as int, dir }, n));
        list
    }

    /// For every pose its neighbors on the ways of least cost.
    fn trace(&self, costs: Costs, forward: bool, Ghost(n): Ghost<nat>) -> (r: Ways)
        requires
            costs.holds(self@, forward, n),
            self@.rectangular(),
            1001 * (n + 1) <= u64::MAX,
        ensures
            r.costs == costs,
            r.traced(self@, forward, n),
    {
        let ghost m = self@;
        let width = self.width();
        let mut before: Vec<Vec<Vec<Vec<DirPos>>>> = Vec::new();
        let mut row: usize = 0;
        while row < self.walls.len()
            invariant
                row <= self.walls.len(),
                m == self@,
                width == m.width(),
                costs.holds(m, forward, n),
                m.rectangular(),
                1001 * (n + 1) <= u64::MAX,
                before.len() == row,
                forall|r: int| 0 <= r < row ==> (#[trigger] before@[r]).len() == width,
                forall|r: int, c: int|
                    0 <= r < row && 0 <= c < width ==> (#[trigger] before@[r]@[c]).len() == 4,
                forall|r: int, c: int, d: Direction|
                    0 <= r < row && 0 <= c < width ==> (#[trigger] before@[r]@[c]@[d.spec_index()])@
                        == befores(m, forward, Pose { row: r, col: c, dir: d }, n),
            decreases self.walls.len() - row,
        {
            let mut line: Vec<Vec<Vec<DirPos>>> = Vec::new();
            let mut col: usize = 0;
            while col < width
                invariant
                    col <= width,
                    row < self.walls.len(),
                    m == self@,
                    width == m.width(),
                    costs.holds(m, forward, n),
                    m.rectangular(),
                    1001 * (n + 1) <= u64::MAX,
                    line.len() == col,
                    forall|c: int| 0 <= c < col ==> (#[trigger] line@[c]).len() == 4,
                    forall|c: int, d: Direction|
                        0 <= c < col ==> (#[trigger] line@[c]@[d.spec_index()])@ == befores(
                            m,
                            forward,
                            Pose { row: row as int, col: c, dir: d },
                            n,
                        ),
                decreases width - col,
            {
                let mut four: Vec<Vec<DirPos>> = Vec::new();
                four.push(self.befores_of(&costs, forward, row, col, Direction::North, Ghost(n)));
                four.push(self.befores_of(&costs, forward, row, col, Direction::East, Ghost(n)));
                four.push(self.befores_of(&costs, forward, row, col, Direction::South, Ghost(n)));
                four.push(self.befores_of(&costs, forward, row, col, Direction::West, Ghost(n)));
                assert forall|d: Direction| (#[trigger] four@[d.spec_index()])@ == befores(
                    m,
                    forward,
                    Pose { row: row as int, col: col as int, dir: d },
                    n,
                ) by {
                    match d {
                        Direction::North => {},
                        Direction::East => {},
                        Direction::South => {},
                        Direction::West => {},
                    }
                }
                line.push(four);
                col += 1;
            }
            before.push(line);
            row += 1;
        }
        Ways { costs, before }
    }

    /// The least costs of all poses, and for every pose its neighbors on
    /// the ways of least cost: looking forward, the costs from the start
    /// and the poses one move before; looking back, the costs to the end
    /// and the poses one move after.
    pub fn dijkstra_to_end(&self, forward: bool) -> (r: Ways)
        requires
            self@.rectangular(),
            self@.poses() <= MAX_POSES,
        ensures
            r.costs.holds(self@, forward, self@.poses()),
            r.traced(self@, forward, self@.poses()),
    {
        let width = self.width();
        let height = self.walls.len();
        assert(height * width * 4 <= 0xffff_ffff);
        assert(height * width <= 0xffff_ffff) by (nonlinear_arith)
            requires
                height * width * 4 <= 0xffff_ffff,
        ;
        let poses: usize = height * width * 4;
        let mut table = self.seeds(forward);
        let mut n: usize = 0;
        let mut changed = true;
        while n < poses && changed
            invariant
                n <= poses,
                poses == self@.poses(),
                poses <= 0xffff_ffff,
                self@.rectangular(),
                table.holds(self@, forward, n as nat),
                !changed ==> forall|p: Pose| #[trigger]
                    cost(self@, forward, p, (n + 1) as nat) == cost(self@, forward, p, n as nat),
            decreases poses - n + (if changed { 1int } else { 0int }),
        {
            let (next, differs) = self.sweep(&table, forward, Ghost(n as nat));
            if differs {
                table = next;
                n += 1;
            } else {
                changed = false;
            }
        }
        proof {
            if n < poses {
                lemma_settled(self@, forward, n as nat, (poses - n) as nat);
                assert forall|r: int, c: int, d: Direction|
                    0 <= r < self@.walls.len() && 0 <= c < self@.width() implies #[trigger] table.at(
                    r,
                    c,
                    d,
                ) == cost(self@, forward, Pose { row: r, col: c, dir: d }, self@.poses()) by {
                    assert(cost(
                        self@,
                        forward,
                        Pose { row: r, col: c, dir: d },
                        (n + (poses - n)) as nat,
                    ) == cost(self@, forward, Pose { row: r, col: c, dir: d }, n as nat));
                }
            }
        }
        assert(table.holds(self@, forward, self@.poses()));
        self.trace(table, forward, Ghost(self@.poses()))
    }

    /// The least cost at the end tile in a table of costs from the start.
    fn cost_at_end(&self, costs: &Costs) -> (r: Option<u64>)
        requires
            self@.rectangular(),
            costs.holds(self@, true, self@.poses()),
        ensures
            match r {
                Some(c) => least_cost(self@) == Some(c as nat),
                None => least_cost(self@) is None,
            },
    {
        let ghost m = self@;
        let ghost n = m.poses();
        let ghost at = |dir: Direction| cost(m, true, Pose { row: m.end.0, col: m.end.1, dir }, n);
        if self.end.0 < self.walls.len() && self.end.1 < self.width() {
            let north = costs.get(self.end.0, self.end.1, Direction::North, Ghost(m));
            let east = costs.get(self.end.0, self.end.1, Direction::East, Ghost(m));
            let south = costs.get(self.end.0, self.end.1, Direction::South, Ghost(m));
            let west = costs.get(self.end.0, self.end.1, Direction::West, Ghost(m));
            proof {
                assert(costs.at(m.end.0, m.end.1, Direction::North) == at(Direction::North));
                assert(costs.at(m.end.0, m.end.1, Direction::East) == at(Direction::East));
                assert(costs.at(m.end.0, m.end.1, Direction::South) == at(Direction::South));
                assert(costs.at(m.end.0, m.end.1, Direction::West) == at(Direction::West));
            }
            lesser(lesser(north, east), lesser(south, west))
        } else {
            proof {
                assert(at(Direction::North) is None);
                assert(at(Direction::East) is None);
                assert(at(Direction::South) is None);
                assert(at(Direction::West) is None);
            }
            None
        }
    }

    /// The least cost of a way from the start to the end.
    pub fn min_cost(&self) -> (r: Option<u64>)
        requires
            self@.rectangular(),
            self@.poses() <= MAX_POSES,
        ensures
            match r {
                Some(c) => least_cost(self@) == Some(c as nat),
                None => least_cost(self@) is None,
            },
    {
        let ways = self.dijkstra_to_end(true);
        self.cost_at_end(&ways.costs)
    }

    /// The number of tiles on the ways of least cost from start to end.
    pub fn pos_on_best_paths(&self) -> (r: Option<usize>)
        requires
            self@.rectangular(),
            self@.poses() <= MAX_POSES,
        ensures
            match r {
                Some(n) => best_tiles(self@) == Some(n as nat),
                None => best_tiles(self@) is None,
            },
    {
        let ghost m = self@;
        let from_start = self.dijkstra_to_end(true).costs;
        let best = match self.cost_at_end(&from_start) {
            Some(best) => best,
            None => {
                return None;
            },
        };
        let to_end = self.dijkstra_to_end(false).costs;
        let width = self.width();
        let height = self.walls.len();
        assert(height * width <= 0xffff_ffff) by (nonlinear_arith)
            requires
                height * width * 4 <= 0xffff_ffff,
        ;
        let mut count: usize = 0;
        let mut row: usize = 0;
        while row < height
            invariant
                row <= height,
                m == self@,
                height == m.walls.len(),
                width == m.width(),
                height * width <= 0xffff_ffff,
                from_start.holds(m, true, m.poses()),
                to_end.holds(m, false, m.poses()),
                count == tiles_in_rows(m, best as nat, row as nat),
                count <= row * width,
            decreases height - row,
        {
            let mut col: usize = 0;
            let ghost before = count;
            assert(row * width + width <= height * width) by (nonlinear_arith)
                requires
                    row < height,
            ;
            while col < width
                invariant
                    col <= width,
                    row < height,
                    m == self@,
                    height == m.walls.len(),
                    width == m.width(),
                    from_start.holds(m, true, m.poses()),
                    to_end.holds(m, false, m.poses()),
                    count == before + tiles_in_row(m, best as nat, row as int, col as nat),
                    count <= before + col,
                    before + width <= 0xffff_ffff,
                decreases width - col,
            {
                let mut on = false;
                let mut d = Direction::North;
                let mut turns: usize = 0;
                while turns < 4
                    invariant
                        turns <= 4,
                        row < height,
                        col < width,
                        m == self@,
                        height == m.walls.len(),
                        width == m.width(),
                        from_start.holds(m, true, m.poses()),
                        to_end.holds(m, false, m.poses()),
                        d.spec_index() == turns % 4,
                        on == ((turns > 0 && tight(m, row as int, col as int, Direction::North, best as nat))
                            || (turns > 1 && tight(m, row as int, col as int, Direction::East, best as nat))
                            || (turns > 2 && tight(m, row as int, col as int, Direction::South, best as nat))
                            || (turns > 3 && tight(m, row as int, col as int, Direction::West, best as nat))),
                    decreases 4 - turns,
                {
                    let a = from_start.get(row, col, d, Ghost(m));
                    let b = to_end.get(row, col, d, Ghost(m));
                    proof {
                        assert(from_start.at(row as int, col as int, d) == cost(
                            m,
                            true,
                            Pose { row: row as int, col: col as int, dir: d },
                            m.poses(),
                        ));
                        assert(to_end.at(row as int, col as int, d) == cost(
                            m,
                            false,
                            Pose { row: row as int, col: col as int, dir: d },
                            m.poses(),
                        ));
                    }
                    match (a, b) {
                        (Some(x), Some(y)) => {
                            if x <= best && y == best - x {
                                on = true;
                            }
                        },
                        _ => {},
                    }
                    d = d.turn_right();
                    turns += 1;
                }
                if on {
                    count += 1;
                }
                col += 1;
            }
            assert((row + 1) * width == row * width + width) by (nonlinear_arith);
            row += 1;
        }
        Some(count)
    }
}

pub struct Day;

impl Solution for Day {
    open spec fn answer(&self, input: Seq<char>, part: Part) -> Option<Answer> {
        solve(input, part)
    }

    fn part1(&self, input: &str) -> (r: Option<SolvedValue>) {
        let chars = chars_of(input);
        let maze = match parse_input(&chars) {
            Some(maze) => maze,
            None => {
                return None;
            },
        };
        if !maze.small() {
            return None;
        }
        match maze.min_cost() {
            Some(c) => if c <= usize::MAX as u64 {
                Some(SolvedValue::Number(c as usize))
            } else {
                None
            },
            None => None,
        }
    }

    fn part2(&self, input: &str) -> (r: Option<SolvedValue>) {
        let chars = chars_of(input);
        let maze = match parse_input(&chars) {
            Some(maze) => maze,
            None => {
                return None;
            },
        };
        if !maze.small() {
            return None;
        }
        match maze.pos_on_best_paths() {
            Some(n) => Some(SolvedValue::Number(n)),
            None => None,
        }
    }
}

impl Maze {
    /// Whether the maze has at most `MAX_POSES` poses.
    pub fn small(&self) -> (r: bool)
        ensures
            r == (self@.poses() <= MAX_POSES),
    {
        let width = self.width();
        let height = self.walls.len();
        if height == 0 || width == 0 {
            assert(height * width * 4 == 0) by (nonlinear_arith)
                requires
                    height == 0 || width == 0,
            ;
            return true;
        }
        if height > 0xffff_ffff || width > 0xffff_ffff {
            assert(height * width * 4 > 0xffff_ffff) by (nonlinear_arith)
                requires
                    height >= 1,
                    width >= 1,
                    height > 0xffff_ffff || width > 0xffff_ffff,
            ;
            return false;
        }
        assert(height * width <= 0xffff_ffff * 0xffff_ffff) by (nonlinear_arith)
            requires
                height <= 0xffff_ffff,
                width <= 0xffff_ffff,
        ;
        let tiles: u64 = (height as u64) * (width as u64);
        tiles <= 0x3fff_ffff
    }
}

} // verus!
