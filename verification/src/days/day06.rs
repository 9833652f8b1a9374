//! Day 6: a guard walks through a lab, turning right before every
//! obstacle. Part one counts the positions it visits before it leaves;
//! part two counts the visited positions where one more obstacle would
//! keep it walking in a circle for ever.

use crate::parallel::par_map;
use crate::solution::{Answer, Part, Solution, SolvedValue};
use crate::text::{chars_of, lines, lines_of, rows};
use vstd::prelude::*;

verus! {

/// The four directions of a step.
#[derive(Debug, Clone, Copy, PartialEq, Eq, Structural)]
pub enum Direction {
    Up,
    Down,
    Left,
    Right,
}

impl Direction {
    /// By how many rows and columns a step in the direction moves.
    pub open spec fn vector(self) -> (int, int) {
        match self {
            Direction::Up => (-1, 0),
            Direction::Down => (1, 0),
            Direction::Left => (0, -1),
            Direction::Right => (0, 1),
        }
    }

    /// The direction after a quarter turn to the right.
    pub fn turn_right(self) -> (r: Self)
        ensures
            r == self.spec_turn_right(),
    {
        match self {
            Direction::Up => Direction::Right,
            Direction::Down => Direction::Left,
            Direction::Left => Direction::Up,
            Direction::Right => Direction::Down,
        }
    }

    pub open spec fn spec_turn_right(self) -> Self {
        match self {
            Direction::Up => Direction::Right,
            Direction::Down => Direction::Left,
            Direction::Left => Direction::Up,
            Direction::Right => Direction::Down,
        }
    }
}

/// What a position of the lab holds.
#[derive(Debug, Clone, Copy, PartialEq, Eq, Structural)]
pub enum GridCell {
    Open,
    Obstacle,
    Visited,
}

/// The lab with the guard in it: the cells, the position of the guard
/// while it is inside, the direction it faces, the positions it visited in
/// the order of their first visit, and for every position the direction in
/// which the guard last set out from it.
pub struct Field {
    pub grid: Vec<Vec<GridCell>>,
    pub guard_pos: Option<(usize, usize)>,
    pub guard_dir: Direction,
    pub visited: Vec<(usize, usize)>,
    pub visited_with_dir: Vec<Vec<Option<Direction>>>,
    pub rows: usize,
    pub cols: usize,
}

/// The mathematical value of a lab with its guard.
pub struct FieldModel {
    pub grid: Seq<Seq<GridCell>>,
    pub guard_pos: Option<(usize, usize)>,
    pub guard_dir: Direction,
    pub visited: Seq<(usize, usize)>,
    pub marks: Seq<Seq<Option<Direction>>>,
    pub rows: usize,
    pub cols: usize,
}

impl View for Field {
    type V = FieldModel;

    open spec fn view(&self) -> FieldModel {
        FieldModel {
            grid: rows(self.grid@),
            guard_pos: self.guard_pos,
            guard_dir: self.guard_dir,
            visited: self.visited@,
            marks: rows(self.visited_with_dir@),
            rows: self.rows,
            cols: self.cols,
        }
    }
}

impl FieldModel {
    /// Whether the cells and the marks have `rows` rows of `cols` columns,
    /// the guard, while inside, stands on a cell, and every visited
    /// position is a cell.
    pub open spec fn well_formed(self) -> bool {
        &&& self.grid.len() == self.rows
        &&& self.marks.len() == self.rows
        &&& forall|r: int| 0 <= r < self.rows ==> (#[trigger] self.grid[r]).len() == self.cols
        &&& forall|r: int| 0 <= r < self.rows ==> (#[trigger] self.marks[r]).len() == self.cols
        &&& self.guard_pos matches Some(pos) ==> pos.0 < self.rows && pos.1 < self.cols
        &&& forall|i: int|
            0 <= i < self.visited.len() ==> (#[trigger] self.visited[i]).0 < self.rows
                && self.visited[i].1 < self.cols
    }

    /// Whether a position is a cell of the lab.
    pub open spec fn inside(self, r: int, c: int) -> bool {
        0 <= r < self.rows && 0 <= c < self.cols
    }

    /// Whether the guard at `pos` cannot step in a direction: an obstacle
    /// stands there. A step out of the lab is never blocked.
    pub open spec fn blocked(self, pos: (usize, usize), dir: Direction) -> bool {
        let r = pos.0 + dir.vector().0;
        let c = pos.1 + dir.vector().1;
        self.inside(r, c) && self.grid[r][c] == GridCell::Obstacle
    }

    /// The direction in which the guard at `pos` steps: the first of its
    /// own direction and those after one, two and three turns to the right
    /// that is not blocked. `None` where all four are blocked.
    pub open spec fn heading(self, pos: (usize, usize)) -> Option<Direction> {
        let first = self.guard_dir;
        let second = first.spec_turn_right();
        let third = second.spec_turn_right();
        let fourth = third.spec_turn_right();
        if !self.blocked(pos, first) {
            Some(first)
        } else if !self.blocked(pos, second) {
            Some(second)
        } else if !self.blocked(pos, third) {
            Some(third)
        } else if !self.blocked(pos, fourth) {
            Some(fourth)
        } else {
            None
        }
    }

    /// The lab after one step of the guard, which is inside: it turns to
    /// its heading, its cell becomes visited, and it steps ahead, maybe out
    /// of the lab. Where `record` is set and the cell was open, its position
    /// is added to the visited ones. `None` where the guard is shut in.
    pub open spec fn stepped(self, record: bool) -> Option<FieldModel> {
        match self.guard_pos {
            Some(pos) => match self.heading(pos) {
                Some(dir) => {
                    let r = pos.0 + dir.vector().0;
                    let c = pos.1 + dir.vector().1;
                    Some(
                        FieldModel {
                            grid: self.grid.update(
                                pos.0 as int,
                                self.grid[pos.0 as int].update(pos.1 as int, GridCell::Visited),
                            ),
                            guard_pos: if self.inside(r, c) {
                                Some((r as usize, c as usize))
                            } else {
                                None
                            },
                            guard_dir: dir,
                            visited: if record && self.grid[pos.0 as int][pos.1 as int]
                                == GridCell::Open {
                                self.visited.push(pos)
                            } else {
                                self.visited
                            },
                            ..self
                        },
                    )
                },
                None => None,
            },
            None => None,
        }
    }

    /// The lab when the guard has left it, after at most `fuel` steps.
    /// `None` where the guard is shut in or has not left by then.
    pub open spec fn walked_out(self, fuel: nat) -> Option<FieldModel>
        decreases fuel,
    {
        if self.guard_pos is None {
            Some(self)
        } else if fuel == 0 {
            None
        } else {
            match self.stepped(true) {
                Some(next) => next.walked_out((fuel - 1) as nat),
                None => None,
            }
        }
    }

    /// Whether the guard stays in the lab: it comes to a position from
    /// which it last set out in the direction it faces now, is shut in, or
    /// is still inside after `fuel` steps.
    pub open spec fn circles(self, fuel: nat) -> bool
        decreases fuel,
    {
        match self.guard_pos {
            None => false,
            Some(pos) => if self.marks[pos.0 as int][pos.1 as int] == Some(self.guard_dir) {
                true
            } else if fuel == 0 {
                true
            } else {
                let marked = FieldModel {
                    marks: self.marks.update(
                        pos.0 as int,
                        self.marks[pos.0 as int].update(pos.1 as int, Some(self.guard_dir)),
                    ),
                    ..self
                };
                match marked.stepped(false) {
                    Some(next) => next.circles((fuel - 1) as nat),
                    None => true,
                }
            },
        }
    }

    /// More steps than a walk out of the lab can take: four for every cell,
    /// and one; but no more than the machine can count.
    pub open spec fn patience(self) -> nat {
        let most = 4 * self.rows * self.cols + 1;
        if most <= usize::MAX {
            most as nat
        } else {
            usize::MAX as nat
        }
    }

    /// The lab, with an obstacle on a cell where one is given.
    pub open spec fn with_spot(self, spot: Option<(usize, usize)>) -> FieldModel {
        match spot {
            Some(pos) => self.with_obstacle(pos),
            None => self,
        }
    }

    /// The lab with an obstacle on a cell.
    pub open spec fn with_obstacle(self, pos: (usize, usize)) -> FieldModel {
        FieldModel {
            grid: self.grid.update(
                pos.0 as int,
                self.grid[pos.0 as int].update(pos.1 as int, GridCell::Obstacle),
            ),
            ..self
        }
    }

    /// The number of positions from `i` on where an obstacle makes the
    /// guard circle, added to `acc`.
    pub open spec fn traps_from(self, spots: Seq<(usize, usize)>, i: int, acc: nat) -> nat
        decreases spots.len() - i,
    {
        if i < 0 || i >= spots.len() {
            acc
        } else {
            self.traps_from(
                spots,
                i + 1,
                if self.with_obstacle(spots[i]).circles(self.patience()) {
                    acc + 1
                } else {
                    acc
                },
            )
        }
    }
}

/// The position one step in a direction, where it is a cell of a lab with
/// `rows` rows and `cols` columns.
fn toward(pos: (usize, usize), d: Direction, rows: usize, cols: usize) -> (n: Option<(usize, usize)>)
    ensures
        match n {
            Some((r, c)) => r == pos.0 + d.vector().0 && c == pos.1 + d.vector().1 && r < rows && c
                < cols,
            None => !(0 <= pos.0 + d.vector().0 < rows && 0 <= pos.1 + d.vector().1 < cols),
        },
{
    match d {
        Direction::Up => if pos.0 > 0 && pos.0 - 1 < rows && pos.1 < cols {
            Some((pos.0 - 1, pos.1))
        } else {
            None
        },
        Direction::Down => if pos.0 < usize::MAX && pos.0 + 1 < rows && pos.1 < cols {
            Some((pos.0 + 1, pos.1))
        } else {
            None
        },
        Direction::Left => if pos.1 > 0 && pos.1 - 1 < cols && pos.0 < rows {
            Some((pos.0, pos.1 - 1))
        } else {
            None
        },
        Direction::Right => if pos.1 < usize::MAX && pos.1 + 1 < cols && pos.0 < rows {
            Some((pos.0, pos.1 + 1))
        } else {
            None
        },
    }
}

impl Field {
    /// Whether the guard at `pos` cannot step in a direction.
    fn is_blocked(&self, pos: (usize, usize), dir: Direction) -> (b: bool)
        requires
            self@.well_formed(),
        ensures
            b == self@.blocked(pos, dir),
    {
        match toward(pos, dir, self.rows, self.cols) {
            Some((r, c)) => {
                assert(self@.grid[r as int] == self.grid@[r as int]@);
                self.grid[r][c] == GridCell::Obstacle
            },
            None => false,
        }
    }

    /// Whether the guard can step in the direction it faces.
    pub fn is_step_possible(&self) -> (b: bool)
        requires
            self@.well_formed(),
            self.guard_pos is Some,
        ensures
            b == !self@.blocked(self.guard_pos.unwrap(), self.guard_dir),
    {
        !self.is_blocked(self.guard_pos.unwrap(), self.guard_dir)
    }

    /// Whether the guard is inside the lab.
    pub fn is_guard_inside(&self) -> (b: bool)
        ensures
            b == self.guard_pos is Some,
    {
        self.guard_pos.is_some()
    }

    /// Lets the guard take one step. `false` where the guard is shut in;
    /// the lab is then as it was.
    pub fn guard_step(&mut self, record_visited: bool) -> (done: bool)
        requires
            old(self)@.well_formed(),
            old(self).guard_pos is Some,
        ensures
            final(self)@.well_formed(),
            match old(self)@.stepped(record_visited) {
                Some(next) => done && final(self)@ == next,
                None => !done && final(self)@ == old(self)@,
            },
    {
        let pos = self.guard_pos.unwrap();
        let first = self.guard_dir;
        let second = first.turn_right();
        let third = second.turn_right();
        let fourth = third.turn_right();
        let dir = if !self.is_blocked(pos, first) {
            first
        } else if !self.is_blocked(pos, second) {
            second
        } else if !self.is_blocked(pos, third) {
            third
        } else if !self.is_blocked(pos, fourth) {
            fourth
        } else {
            return false;
        };
        assert(self@.grid[pos.0 as int] == self.grid@[pos.0 as int]@);
        if record_visited && self.grid[pos.0][pos.1] == GridCell::Open {
            self.visited.push(pos);
        }
        self.grid[pos.0][pos.1] = GridCell::Visited;
        self.guard_dir = dir;
        self.guard_pos = toward(pos, dir, self.rows, self.cols);
        proof {
            let next = old(self)@.stepped(record_visited).unwrap();
            assert(self@.grid =~= next.grid);
            assert(self@.marks =~= next.marks);
            assert forall|r: int| 0 <= r < self@.rows implies (#[trigger] self@.grid[r]).len()
                == self@.cols by {
                assert(old(self)@.grid[r].len() == self@.cols);
            }
        }
        true
    }

    /// More steps than a walk out of the lab can take.
    fn patience(&self) -> (r: usize)
        ensures
            r == self@.patience(),
    {
        let cells = match self.rows.checked_mul(self.cols) {
            Some(cells) => cells,
            None => {
                assert(4 * self.rows * self.cols >= self.rows * self.cols) by (nonlinear_arith);
                return usize::MAX;
            },
        };
        assert(4 * self.rows * self.cols == 4 * cells) by (nonlinear_arith)
            requires
                cells == self.rows * self.cols,
        ;
        match cells.checked_mul(4) {
            Some(four) => match four.checked_add(1) {
                Some(most) => most,
                None => usize::MAX,
            },
            None => usize::MAX,
        }
    }

    /// Lets the guard walk until it leaves the lab. `false` where it is
    /// shut in or walks in a circle.
    #[verifier::loop_isolation(false)]
    pub fn simulate_to_exit(&mut self) -> (done: bool)
        requires
            old(self)@.well_formed(),
        ensures
            final(self)@.well_formed(),
            final(self).rows == old(self).rows,
            final(self).cols == old(self).cols,
            match old(self)@.walked_out(old(self)@.patience()) {
                Some(end) => done && final(self)@ == end,
                None => !done,
            },
    {
        let mut fuel = self.patience();
        let ghost goal = old(self)@.walked_out(old(self)@.patience());
        while self.is_guard_inside()
            invariant
                self@.well_formed(),
                self.rows == old(self).rows,
                self.cols == old(self).cols,
                goal == self@.walked_out(fuel as nat),
            decreases fuel,
        {
            if fuel == 0 {
                return false;
            }
            if !self.guard_step(true) {
                return false;
            }
            fuel -= 1;
        }
        true
    }

    /// Whether the guard stays in the lab for ever.
    #[verifier::loop_isolation(false)]
    pub fn is_looping(&mut self) -> (r: bool)
        requires
            old(self)@.well_formed(),
        ensures
            final(self)@.well_formed(),
            r == old(self)@.circles(old(self)@.patience()),
    {
        let mut fuel = self.patience();
        let ghost goal = old(self)@.circles(old(self)@.patience());
        loop
            invariant
                self@.well_formed(),
                goal == self@.circles(fuel as nat),
            decreases fuel,
        {
            let pos = match self.guard_pos {
                Some(pos) => pos,
                None => {
                    return false;
                },
            };
            assert(self@.marks[pos.0 as int] == self.visited_with_dir@[pos.0 as int]@);
            let seen = match self.visited_with_dir[pos.0][pos.1] {
                Some(d) => d == self.guard_dir,
                None => false,
            };
            if seen || fuel == 0 {
                return true;
            }
            let ghost before = self@;
            self.visited_with_dir[pos.0][pos.1] = Some(self.guard_dir);
            proof {
                let marked = FieldModel {
                    marks: before.marks.update(
                        pos.0 as int,
                        before.marks[pos.0 as int].update(pos.1 as int, Some(before.guard_dir)),
                    ),
                    ..before
                };
                assert(self@.marks =~= marked.marks);
                assert(self@.grid =~= marked.grid);
                assert(self@ == marked);
                assert forall|r: int| 0 <= r < self@.rows implies (#[trigger] self@.marks[r]).len()
                    == self@.cols by {
                    assert(before.marks[r].len() == self@.cols);
                }
            }
            if !self.guard_step(false) {
                return true;
            }
            fuel -= 1;
        }
    }

    /// Whether one more obstacle on a cell keeps the guard in the lab for
    /// ever.
    pub fn loops_with(&self, spot: (usize, usize)) -> (r: bool)
        requires
            self@.well_formed(),
            spot.0 < self.rows,
            spot.1 < self.cols,
        ensures
            r == self@.with_obstacle(spot).circles(self@.patience()),
    {
        let mut trial = self.copy_with(Some(spot));
        trial.is_looping()
    }

    /// A copy of the lab, with one more obstacle where a position is given.
    #[verifier::loop_isolation(false)]
    pub fn copy_with(&self, spot: Option<(usize, usize)>) -> (r: Field)
        requires
            self@.well_formed(),
            spot matches Some(pos) ==> pos.0 < self.rows && pos.1 < self.cols,
        ensures
            r@ == self@.with_spot(spot),
            r@.well_formed(),
    {
        let ghost m = self@;
        let mut grid: Vec<Vec<GridCell>> = Vec::new();
        let mut marks: Vec<Vec<Option<Direction>>> = Vec::new();
        let mut r: usize = 0;
        while r < self.rows
            invariant
                r <= self.rows,
                grid.len() == r,
                marks.len() == r,
                forall|k: int| 0 <= k < r ==> (#[trigger] grid@[k])@ == m.with_spot(spot).grid[k],
                forall|k: int| 0 <= k < r ==> (#[trigger] marks@[k])@ == m.marks[k],
            decreases self.rows - r,
        {
            assert(m.grid[r as int] == self.grid@[r as int]@);
            assert(m.marks[r as int] == self.visited_with_dir@[r as int]@);
            let mut line: Vec<GridCell> = Vec::new();
            let mut mark_line: Vec<Option<Direction>> = Vec::new();
            let mut c: usize = 0;
            while c < self.cols
                invariant
                    c <= self.cols,
                    line.len() == c,
                    mark_line.len() == c,
                    forall|j: int|
                        0 <= j < c ==> #[trigger] line@[j] == m.with_spot(spot).grid[r as int][j],
                    forall|j: int| 0 <= j < c ==> #[trigger] mark_line@[j] == m.marks[r as int][j],
                decreases self.cols - c,
            {
                let here = match spot {
                    Some(pos) => r == pos.0 && c == pos.1,
                    None => false,
                };
                if here {
                    line.push(GridCell::Obstacle);
                } else {
                    line.push(self.grid[r][c]);
                }
                mark_line.push(self.visited_with_dir[r][c]);
                c += 1;
            }
            assert(line@ =~= m.with_spot(spot).grid[r as int]);
            assert(mark_line@ =~= m.marks[r as int]);
            grid.push(line);
            marks.push(mark_line);
            r += 1;
        }
        let mut visited: Vec<(usize, usize)> = Vec::new();
        let mut i: usize = 0;
        while i < self.visited.len()
            invariant
                i <= self.visited.len(),
                visited@ == self.visited@.take(i as int),
            decreases self.visited.len() - i,
        {
            visited.push(self.visited[i]);
            i += 1;
        }
        assert(self.visited@.take(i as int) =~= self.visited@);
        let copy = Field {
            grid,
            guard_pos: self.guard_pos,
            guard_dir: self.guard_dir,
            visited,
            visited_with_dir: marks,
            rows: self.rows,
            cols: self.cols,
        };
        assert(copy@.grid =~= m.with_spot(spot).grid);
        assert(copy@.marks =~= m.marks);
        copy
    }
}

/// The position of the last `^` in the first `cols` characters of a line,
/// or `acc` where there is none.
pub open spec fn guard_in_line(line: Seq<char>, row: usize, cols: int, acc: Option<(usize, usize)>) -> Option<
    (usize, usize),
>
    decreases cols,
{
    if cols <= 0 || cols > line.len() {
        acc
    } else if line[cols - 1] == '^' {
        Some((row, (cols - 1) as usize))
    } else {
        guard_in_line(line, row, cols - 1, acc)
    }
}

/// The position of the last `^` in the first `count` lines.
pub open spec fn guard_in_lines(lines: Seq<Seq<char>>, count: int) -> Option<(usize, usize)>
    decreases count,
{
    if count <= 0 || count > lines.len() {
        None
    } else {
        guard_in_line(
            lines[count - 1],
            (count - 1) as usize,
            lines[count - 1].len() as int,
            guard_in_lines(lines, count - 1),
        )
    }
}

/// The lab that a puzzle text draws: `#` is an obstacle, `^` the guard,
/// facing up, and every other character an open cell. `None` where there
/// is no guard or the lines differ in length.
pub open spec fn parse_field(input: Seq<char>) -> Option<FieldModel> {
    let ls = lines(input);
    let cols = if ls.len() == 0 {
        0
    } else {
        ls[0].len()
    };
    if (forall|r: int| 0 <= r < ls.len() ==> (#[trigger] ls[r]).len() == cols) && guard_in_lines(
        ls,
        ls.len() as int,
    ) is Some {
        Some(
            FieldModel {
                grid: Seq::new(
                    ls.len(),
                    |r: int|
                        Seq::new(
                            cols,
                            |c: int|
                                if ls[r][c] == '#' {
                                    GridCell::Obstacle
                                } else {
                                    GridCell::Open
                                },
                        ),
                ),
                guard_pos: guard_in_lines(ls, ls.len() as int),
                guard_dir: Direction::Up,
                visited: Seq::empty(),
                marks: Seq::new(ls.len(), |r: int| Seq::new(cols, |c: int| None)),
                rows: ls.len() as usize,
                cols: cols as usize,
            },
        )
    } else {
        None
    }
}

/// Reads the lab that a puzzle text draws.
#[verifier::loop_isolation(false)]
pub fn parse_input(input: &Vec<char>) -> (r: Option<Field>)
    ensures
        match r {
            Some(field) => parse_field(input@) == Some(field@) && field@.well_formed(),
            None => parse_field(input@) is None,
        },
{
    let all = lines_of(input);
    let ghost ls = rows(all@);
    let cols = if all.len() == 0 {
        0
    } else {
        assert(ls[0] == all@[0]@);
        all[0].len()
    };
    let mut grid: Vec<Vec<GridCell>> = Vec::new();
    let mut marks: Vec<Vec<Option<Direction>>> = Vec::new();
    let mut guard: Option<(usize, usize)> = None;
    let mut r: usize = 0;
    while r < all.len()
        invariant
            r <= all.len(),
            grid.len() == r,
            marks.len() == r,
            guard == guard_in_lines(ls, r as int),
            guard matches Some(pos) ==> pos.0 < r && pos.1 < cols,
            forall|k: int| 0 <= k < r ==> (#[trigger] ls[k]).len() == cols,
            forall|k: int|
                0 <= k < r ==> (#[trigger] grid@[k])@ == Seq::new(
                    cols as nat,
                    |c: int|
                        if ls[k][c] == '#' {
                            GridCell::Obstacle
                        } else {
                            GridCell::Open
                        },
                ),
            forall|k: int|
                0 <= k < r ==> (#[trigger] marks@[k])@ == Seq::new(
                    cols as nat,
                    |c: int| None::<Direction>,
                ),
        decreases all.len() - r,
    {
        let line = &all[r];
        assert(ls[r as int] == line@);
        if line.len() != cols {
            return None;
        }
        let mut row: Vec<GridCell> = Vec::new();
        let mut mark_row: Vec<Option<Direction>> = Vec::new();
        let ghost before = guard;
        let mut c: usize = 0;
        while c < cols
            invariant
                c <= cols,
                row.len() == c,
                mark_row.len() == c,
                guard == guard_in_line(line@, r, c as int, before),
                guard matches Some(pos) ==> pos.0 <= r && pos.1 < cols,
                forall|j: int|
                    0 <= j < c ==> #[trigger] row@[j] == (if line@[j] == '#' {
                        GridCell::Obstacle
                    } else {
                        GridCell::Open
                    }),
                forall|j: int| 0 <= j < c ==> #[trigger] mark_row@[j] == None::<Direction>,
            decreases cols - c,
        {
            let ch = line[c];
            if ch == '^' {
                guard = Some((r, c));
            }
            row.push(if ch == '#' {
                GridCell::Obstacle
            } else {
                GridCell::Open
            });
            mark_row.push(None);
            c += 1;
        }
        assert(row@ =~= Seq::new(
            cols as nat,
            |c: int|
                if ls[r as int][c] == '#' {
                    GridCell::Obstacle
                } else {
                    GridCell::Open
                },
        ));
        assert(mark_row@ =~= Seq::new(cols as nat, |c: int| None::<Direction>));
        grid.push(row);
        marks.push(mark_row);
        r += 1;
    }
    if guard.is_none() {
        return None;
    }
    let field = Field {
        grid,
        guard_pos: guard,
        guard_dir: Direction::Up,
        visited: Vec::new(),
        visited_with_dir: marks,
        rows: all.len(),
        cols,
    };
    proof {
        let model = parse_field(input@).unwrap();
        assert(field@.grid =~= model.grid);
        assert(field@.marks =~= model.marks);
        assert forall|k: int| 0 <= k < field@.rows implies (#[trigger] field@.grid[k]).len()
            == field@.cols by {
            assert(field@.grid[k] == grid@[k]@);
        }
        assert forall|k: int| 0 <= k < field@.rows implies (#[trigger] field@.marks[k]).len()
            == field@.cols by {
            assert(field@.marks[k] == marks@[k]@);
        }
    }
    Some(field)
}

/// The answer of a part. `None` where the guard does not leave the lab as
/// it is drawn.
pub open spec fn solve(input: Seq<char>, part: Part) -> Option<Answer> {
    match parse_field(input) {
        Some(field) => match field.walked_out(field.patience()) {
            Some(end) => {
                let count = if part == Part::One {
                    end.visited.len()
                } else {
                    field.traps_from(end.visited, 0, 0)
                };
                if count <= usize::MAX {
                    Some(Answer::Number(count as usize))
                } else {
                    None
                }
            },
            None => None,
        },
        None => None,
    }
}

pub struct Day;

impl Solution for Day {
    open spec fn answer(&self, input: Seq<char>, part: Part) -> Option<Answer> {
        solve(input, part)
    }

    fn part1(&self, input: &str) -> (r: Option<SolvedValue>) {
        let chars = chars_of(input);
        let mut field = match parse_input(&chars) {
            Some(field) => field,
            None => {
                return None;
            },
        };
        if !field.simulate_to_exit() {
            return None;
        }
        Some(SolvedValue::Number(field.visited.len()))
    }

    #[verifier::loop_isolation(false)]
    fn part2(&self, input: &str) -> (r: Option<SolvedValue>) {
        let chars = chars_of(input);
        let field = match parse_input(&chars) {
            Some(field) => field,
            None => {
                return None;
            },
        };
        let mut cloned = field.copy_with(None);
        if !cloned.simulate_to_exit() {
            return None;
        }
        let ghost m = field@;
        let ghost spots = cloned.visited@;
        assert forall|i: int| 0 <= i < spots.len() implies (#[trigger] spots[i]).0 < field.rows
            && spots[i].1 < field.cols by {
            assert(cloned@.visited[i].0 < cloned.rows);
        }
        let each = |spot: &(usize, usize)| -> (r: bool)
            requires
                spot.0 < field.rows,
                spot.1 < field.cols,
            ensures
                r == field@.with_obstacle(*spot).circles(field@.patience()),
            { field.loops_with(*spot) };
        let looping = par_map(&cloned.visited, each);
        let mut count: usize = 0;
        let mut i: usize = 0;
        while i < looping.len()
            invariant
                i <= looping.len(),
                count <= i,
                m.traps_from(spots, 0, 0) == m.traps_from(spots, i as int, count as nat),
            decreases looping.len() - i,
        {
            if looping[i] {
                count += 1;
            }
            i += 1;
        }
        Some(SolvedValue::Number(count))
    }
}

} // verus!
