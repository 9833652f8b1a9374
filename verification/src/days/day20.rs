//! Day 20: a race along the single track of a maze, in which one may cheat
//! once and pass through walls for a few steps. The answer is the number
//! of cheats that save at least a hundred steps, with at most two steps
//! through walls in part one and twenty in part two.

use crate::parallel::par_map;
use crate::solution::{answer_of, Answer, Part, Solution, SolvedValue};
use crate::text::{chars_of, lines, lines_of, rows};
use vstd::prelude::*;

verus! {

/// A position of the maze: its row and column.
pub type Position = (usize, usize);

/// A tile of the maze: a wall, or a piece of the track with its distance
/// from the start once that is known.
#[derive(Debug, Clone, Copy, PartialEq, Eq)]
pub enum Block {
    Wall,
    Path(Option<usize>),
}

/// The maze: its tiles, the start and the end of the track, and the
/// positions of the track in their order once it was followed.
#[derive(Debug)]
pub struct Maze {
    pub tiles: Vec<Vec<Block>>,
    pub start: Position,
    pub end: Position,
    pub path: Vec<Position>,
}

/// The mathematical value of a maze.
pub struct MazeModel {
    pub tiles: Seq<Seq<Block>>,
    pub start: Position,
    pub end: Position,
    pub path: Seq<Position>,
}

impl View for Maze {
    type V = MazeModel;

    open spec fn view(&self) -> MazeModel {
        MazeModel {
            tiles: rows(self.tiles@),
            start: self.start,
            end: self.end,
            path: self.path@,
        }
    }
}

/// Whether a position is a tile.
pub open spec fn on(tiles: Seq<Seq<Block>>, r: int, c: int) -> bool {
    0 <= r < tiles.len() && 0 <= c < tiles[r].len()
}

/// Whether a position is a piece of the track that was not yet passed.
pub open spec fn fresh(tiles: Seq<Seq<Block>>, r: int, c: int) -> bool {
    on(tiles, r, c) && tiles[r][c] == Block::Path(None)
}

/// The tiles with one tile changed.
pub open spec fn with_tile(tiles: Seq<Seq<Block>>, r: int, c: int, block: Block) -> Seq<Seq<Block>> {
    tiles.update(r, tiles[r].update(c, block))
}

impl MazeModel {
    /// The next position of the track after `current`: the first of the
    /// positions below, right, above and left of it that is a piece of the
    /// track not yet passed.
    pub open spec fn next_position(self, current: Position) -> Option<Position> {
        let (r, c) = (current.0 as int, current.1 as int);
        if fresh(self.tiles, r + 1, c) {
            Some(((r + 1) as usize, c as usize))
        } else if fresh(self.tiles, r, c + 1) {
            Some((r as usize, (c + 1) as usize))
        } else if fresh(self.tiles, r - 1, c) {
            Some(((r - 1) as usize, c as usize))
        } else if fresh(self.tiles, r, c - 1) {
            Some((r as usize, (c - 1) as usize))
        } else {
            None
        }
    }

    /// The maze after the track was followed from `current`, which lies
    /// `distance` steps from the start, to the end: every position passed
    /// holds its distance and stands in the path. `None` where the track
    /// breaks off, leaves the tiles, or is longer than `fuel` steps.
    pub open spec fn followed(self, current: Position, distance: usize, fuel: nat) -> Option<
        MazeModel,
    >
        decreases fuel,
    {
        if !on(self.tiles, current.0 as int, current.1 as int) {
            None
        } else {
            let marked = MazeModel {
                tiles: with_tile(
                    self.tiles,
                    current.0 as int,
                    current.1 as int,
                    Block::Path(Some(distance)),
                ),
                path: self.path.push(current),
                ..self
            };
            if current == self.end {
                Some(marked)
            } else if fuel == 0 || distance == usize::MAX {
                None
            } else {
                match marked.next_position(current) {
                    Some(next) => marked.followed(next, (distance + 1) as usize, (fuel - 1) as nat),
                    None => None,
                }
            }
        }
    }

    /// Whether going from a position of the track at distance `from` to
    /// the position `rows` rows and `cols` columns away saves at least
    /// `min_save` steps: that position is a piece of the track, no more
    /// than `max_distance` steps away, and its distance is larger by that
    /// many steps and the steps between.
    pub open spec fn saves(
        self,
        current: Position,
        from: usize,
        rows: int,
        cols: int,
        max_distance: int,
        min_save: usize,
    ) -> bool {
        let far = (if rows < 0 {
            -rows
        } else {
            rows
        }) + (if cols < 0 {
            -cols
        } else {
            cols
        });
        let y = current.0 + rows;
        let x = current.1 + cols;
        far <= max_distance && on(self.tiles, y, x) && (match self.tiles[y][x] {
            Block::Path(Some(d)) => (if d - from - far > 0 {
                d - from - far
            } else {
                0
            }) >= min_save,
            _ => false,
        })
    }

    /// The number of cheats from a position that save enough, counted over
    /// the positions from `rows` rows and `cols` columns away on, row by
    /// row, each no more than `max_distance` rows and columns away.
    pub open spec fn cheats_from(
        self,
        current: Position,
        from: usize,
        max_distance: int,
        min_save: usize,
        rows: int,
        cols: int,
    ) -> nat
        decreases max_distance - rows + 1, max_distance - cols + 1,
    {
        if rows > max_distance || max_distance < 0 || rows < -max_distance {
            0
        } else if cols > max_distance || cols < -max_distance {
            self.cheats_from(current, from, max_distance, min_save, rows + 1, -max_distance)
        } else {
            (if self.saves(current, from, rows, cols, max_distance, min_save) {
                1nat
            } else {
                0nat
            }) + self.cheats_from(current, from, max_distance, min_save, rows, cols + 1)
        }
    }

    /// The number of cheats that save enough from the positions of the
    /// path from `i` on; `None` where a position of the path is no piece of
    /// the track with a distance.
    pub open spec fn shortcuts_from(self, max_distance: int, min_save: usize, i: int) -> Option<nat>
        decreases self.path.len() - i,
    {
        if i < 0 || i >= self.path.len() {
            Some(0)
        } else {
            let p = self.path[i];
            if !on(self.tiles, p.0 as int, p.1 as int) {
                None
            } else {
                match (
                    self.tiles[p.0 as int][p.1 as int],
                    self.shortcuts_from(max_distance, min_save, i + 1),
                ) {
                    (Block::Path(Some(d)), Some(rest)) => Some(
                        self.cheats_from(p, d, max_distance, min_save, -max_distance, -max_distance)
                            + rest,
                    ),
                    _ => None,
                }
            }
        }
    }

    /// More steps than the track can have, but no more than the machine
    /// can count.
    pub open spec fn patience(self) -> nat {
        let most = self.tiles.len() * (if self.tiles.len() > 0 {
            self.tiles[0].len()
        } else {
            0
        }) + 1;
        if most <= usize::MAX {
            most as nat
        } else {
            usize::MAX as nat
        }
    }
}

/// The position of the last `mark` in the first `cols` characters of a
/// line, or `acc` where there is none.
pub open spec fn mark_in_line(line: Seq<char>, mark: char, row: usize, cols: int, acc: Position) -> Position
    decreases cols,
{
    if cols <= 0 || cols > line.len() {
        acc
    } else if line[cols - 1] == mark {
        (row, (cols - 1) as usize)
    } else {
        mark_in_line(line, mark, row, cols - 1, acc)
    }
}

/// The position of the last `mark` in the first `count` lines, or the
/// first position where there is none.
pub open spec fn mark_in_lines(lines: Seq<Seq<char>>, mark: char, count: int) -> Position
    decreases count,
{
    if count <= 0 || count > lines.len() {
        (0, 0)
    } else {
        mark_in_line(
            lines[count - 1],
            mark,
            (count - 1) as usize,
            lines[count - 1].len() as int,
            mark_in_lines(lines, mark, count - 1),
        )
    }
}

/// The tile that a character draws.
pub open spec fn block_of(c: char) -> Option<Block> {
    if c == '#' {
        Some(Block::Wall)
    } else if c == '.' || c == 'S' || c == 'E' {
        Some(Block::Path(None))
    } else {
        None
    }
}

/// The maze that a puzzle text draws: `#` is a wall, `.` a piece of the
/// track, `S` its start and `E` its end.
pub open spec fn parse_maze(input: Seq<char>) -> Option<MazeModel> {
    let ls = lines(input);
    if forall|r: int, c: int| 0 <= r < ls.len() && 0 <= c < ls[r].len() ==> block_of(#[trigger] ls[r][c]) is Some {
        Some(
            MazeModel {
                tiles: Seq::new(
                    ls.len(),
                    |r: int| Seq::new(ls[r].len(), |c: int| block_of(ls[r][c]).unwrap()),
                ),
                start: mark_in_lines(ls, 'S', ls.len() as int),
                end: mark_in_lines(ls, 'E', ls.len() as int),
                path: Seq::empty(),
            },
        )
    } else {
        None
    }
}

#[verifier::loop_isolation(false)]
fn find_mark(all: &Vec<Vec<char>>, mark: char) -> (r: Position)
    ensures
        r == mark_in_lines(rows(all@), mark, all.len() as int),
{
    let ghost ls = rows(all@);
    let mut at: Position = (0, 0);
    let mut row: usize = 0;
    while row < all.len()
        invariant
            row <= all.len(),
            at == mark_in_lines(ls, mark, row as int),
        decreases all.len() - row,
    {
        let line = &all[row];
        assert(ls[row as int] == line@);
        let ghost before = at;
        let mut col: usize = line.len();
        let mut found = false;
        while col > 0 && !found
            invariant
                col <= line.len(),
                !found ==> mark_in_line(line@, mark, row, line.len() as int, before)
                    == mark_in_line(line@, mark, row, col as int, before),
                !found ==> at == before,
                found ==> at == mark_in_line(line@, mark, row, line.len() as int, before),
            decreases col + (if found { 0int } else { 1int }),
        {
            if line[col - 1] == mark {
                at = (row, col - 1);
                found = true;
            } else {
                col -= 1;
            }
        }
        row += 1;
    }
    at
}

/// Reads the maze that a puzzle text draws.
#[verifier::loop_isolation(false)]
pub fn parse_input(input: &Vec<char>) -> (r: Option<Maze>)
    ensures
        match r {
            Some(maze) => parse_maze(input@) == Some(maze@),
            None => parse_maze(input@) is None,
        },
{
    let all = lines_of(input);
    let ghost ls = rows(all@);
    let mut tiles: Vec<Vec<Block>> = Vec::new();
    let mut r: usize = 0;
    while r < all.len()
        invariant
            r <= all.len(),
            tiles.len() == r,
            forall|k: int, c: int|
                0 <= k < r && 0 <= c < ls[k].len() ==> block_of(#[trigger] ls[k][c]) is Some,
            forall|k: int|
                0 <= k < r ==> (#[trigger] tiles@[k])@ == Seq::new(
                    ls[k].len(),
                    |c: int| block_of(ls[k][c]).unwrap(),
                ),
        decreases all.len() - r,
    {
        let line = &all[r];
        assert(ls[r as int] == line@);
        let mut row: Vec<Block> = Vec::new();
        let mut c: usize = 0;
        while c < line.len()
            invariant
                c <= line.len(),
                row.len() == c,
                forall|j: int| 0 <= j < c ==> block_of(#[trigger] line@[j]) is Some,
                forall|j: int| 0 <= j < c ==> #[trigger] row@[j] == block_of(line@[j]).unwrap(),
            decreases line.len() - c,
        {
            let ch = line[c];
            if ch == '#' {
                row.push(Block::Wall);
            } else if ch == '.' || ch == 'S' || ch == 'E' {
                row.push(Block::Path(None));
            } else {
                assert(block_of(ls[r as int][c as int]) is None);
                return None;
            }
            c += 1;
        }
        assert(row@ =~= Seq::new(ls[r as int].len(), |c: int| block_of(ls[r as int][c]).unwrap()));
        tiles.push(row);
        r += 1;
    }
    let maze = Maze { tiles, start: find_mark(&all, 'S'), end: find_mark(&all, 'E'), path: Vec::new() };
    assert(maze@.tiles =~= parse_maze(input@).unwrap().tiles);
    Some(maze)
}

impl Maze {
    fn is_fresh(&self, r: usize, c: usize) -> (b: bool)
        ensures
            b == fresh(self@.tiles, r as int, c as int),
    {
        if r < self.tiles.len() {
            assert(self@.tiles[r as int] == self.tiles@[r as int]@);
            if c < self.tiles[r].len() {
                match self.tiles[r][c] {
                    Block::Path(None) => true,
                    _ => false,
                }
            } else {
                false
            }
        } else {
            false
        }
    }

    /// No position beyond what the machine can count is a tile.
    proof fn lemma_off(&self, r: int, c: int)
        requires
            !(0 <= r <= usize::MAX && 0 <= c <= usize::MAX),
        ensures
            !on(self@.tiles, r, c),
    {
        assert(self.tiles.len() == self.tiles@.len());
        if 0 <= r < self@.tiles.len() {
            assert(self@.tiles[r] == self.tiles@[r]@);
            assert(self.tiles@[r].len() == self.tiles@[r]@.len());
        }
    }

    /// The next position of the track after `current`.
    pub fn next_position(&self, current: Position) -> (r: Option<Position>)
        ensures
            r == self@.next_position(current),
    {
        let (r, c) = current;
        proof {
            if r == usize::MAX {
                self.lemma_off(r + 1, c as int);
            }
            if c == usize::MAX {
                self.lemma_off(r as int, c + 1);
            }
            if r == 0 {
                self.lemma_off(r - 1, c as int);
            }
            if c == 0 {
                self.lemma_off(r as int, c - 1);
            }
        }
        if r < usize::MAX && self.is_fresh(r + 1, c) {
            Some((r + 1, c))
        } else if c < usize::MAX && self.is_fresh(r, c + 1) {
            Some((r, c + 1))
        } else if r > 0 && self.is_fresh(r - 1, c) {
            Some((r - 1, c))
        } else if c > 0 && self.is_fresh(r, c - 1) {
            Some((r, c - 1))
        } else {
            None
        }
    }

    fn patience(&self) -> (r: usize)
        ensures
            r == self@.patience(),
    {
        let width = if self.tiles.len() > 0 {
            assert(self@.tiles[0] == self.tiles@[0]@);
            self.tiles[0].len()
        } else {
            0
        };
        match self.tiles.len().checked_mul(width) {
            Some(cells) => match cells.checked_add(1) {
                Some(most) => most,
                None => usize::MAX,
            },
            None => usize::MAX,
        }
    }

    /// Follows the track from the start to the end and writes the distance
    /// from the start into every position. `false` where the track breaks
    /// off.
    #[verifier::loop_isolation(false)]
    pub fn calculate_distances(&mut self) -> (done: bool)
        ensures
            match old(self)@.followed(old(self).start, 0, old(self)@.patience()) {
                Some(maze) => done && final(self)@ == maze,
                None => !done,
            },
    {
        let mut fuel = self.patience();
        let ghost goal = old(self)@.followed(old(self).start, 0, old(self)@.patience());
        let mut distance: usize = 0;
        let mut current = self.start;
        loop
            invariant
                self.start == old(self).start,
                self.end == old(self).end,
                goal == self@.followed(current, distance, fuel as nat),
            decreases fuel,
        {
            let ghost before = self@;
            if current.0 >= self.tiles.len() {
                return false;
            }
            assert(before.tiles[current.0 as int] == self.tiles@[current.0 as int]@);
            if current.1 >= self.tiles[current.0].len() {
                return false;
            }
            self.tiles[current.0][current.1] = Block::Path(Some(distance));
            self.path.push(current);
            assert(self@.tiles =~= with_tile(
                before.tiles,
                current.0 as int,
                current.1 as int,
                Block::Path(Some(distance)),
            ));
            if current.0 == self.end.0 && current.1 == self.end.1 {
                return true;
            }
            if fuel == 0 || distance == usize::MAX {
                return false;
            }
            current = match self.next_position(current) {
                Some(next) => next,
                None => {
                    return false;
                },
            };
            distance += 1;
            fuel -= 1;
        }
    }

    /// The number of cheats from a position of the track, as a number of
    /// the machine. `None` where the position is no piece of the track
    /// with a distance.
    pub open spec fn cheats_of(&self, current: Position, max_distance: u8, min_save: usize) -> Option<
        usize,
    > {
        if on(self@.tiles, current.0 as int, current.1 as int) {
            match self@.tiles[current.0 as int][current.1 as int] {
                Block::Path(Some(d)) => Some(
                    self@.cheats_from(
                        current,
                        d,
                        max_distance as int,
                        min_save,
                        -(max_distance as int),
                        -(max_distance as int),
                    ) as usize,
                ),
                _ => None,
            }
        } else {
            None
        }
    }

    /// Whether the machine can count the cheats from a position.
    pub open spec fn cheats_known(&self, current: Position, max_distance: u8, min_save: usize) -> bool {
        on(self@.tiles, current.0 as int, current.1 as int) ==> (match self@.tiles[current.0 as int][current.1 as int] {
            Block::Path(Some(d)) => self@.cheats_from(
                current,
                d,
                max_distance as int,
                min_save,
                -(max_distance as int),
                -(max_distance as int),
            ) <= usize::MAX,
            _ => true,
        })
    }

    /// The number of cheats from a position of the track that save at
    /// least `min_save` steps with at most `max_distance` steps through
    /// walls. `None` where the position is no piece of the track with a
    /// distance.
    #[verifier::loop_isolation(false)]
    pub fn get_cheat_neighbors(&self, current: Position, max_distance: u8, min_save: usize) -> (r:
        Option<usize>)
        ensures
            r == self.cheats_of(current, max_distance, min_save),
            self.cheats_known(current, max_distance, min_save),
    {
        if current.0 >= self.tiles.len() {
            return None;
        }
        assert(self@.tiles[current.0 as int] == self.tiles@[current.0 as int]@);
        if current.1 >= self.tiles[current.0].len() {
            return None;
        }
        let current_distance = match self.tiles[current.0][current.1] {
            Block::Path(Some(d)) => d,
            _ => {
                return None;
            },
        };
        let max = max_distance as i64;
        let ghost m = self@;
        let ghost total = m.cheats_from(current, current_distance, max as int, min_save, -max, -max);
        let mut candidates: usize = 0;
        let mut i: i64 = -max;
        while i <= max
            invariant
                -max <= i <= max + 1,
                0 <= max <= 0xff,
                candidates <= (i + max) * (2 * max + 1),
                total == candidates + m.cheats_from(
                    current,
                    current_distance,
                    max as int,
                    min_save,
                    i as int,
                    -max,
                ),
            decreases max - i + 1,
        {
            let mut j: i64 = -max;
            let ghost before = candidates;
            while j <= max
                invariant
                    -max <= j <= max + 1,
                    -max <= i <= max,
                    0 <= max <= 0xff,
                    before <= (i + max) * (2 * max + 1),
                    candidates <= before + (j + max),
                    total == candidates + m.cheats_from(
                        current,
                        current_distance,
                        max as int,
                        min_save,
                        i as int,
                        j as int,
                    ),
                decreases max - j + 1,
            {
                assert((i + max) * (2 * max + 1) <= 0x1ff * 0x1ff) by (nonlinear_arith)
                    requires
                        0 <= i + max <= 0x1fe,
                        0 <= max <= 0xff,
                ;
                if self.does_save(current, current_distance, i, j, max, min_save) {
                    candidates += 1;
                }
                j += 1;
            }
            assert((i + 1 + max) * (2 * max + 1) == (i + max) * (2 * max + 1) + (2 * max + 1))
                by (nonlinear_arith);
            i += 1;
        }
        Some(candidates)
    }

    fn does_save(
        &self,
        current: Position,
        from: usize,
        rows: i64,
        cols: i64,
        max_distance: i64,
        min_save: usize,
    ) -> (b: bool)
        requires
            -0xff <= rows <= 0xff,
            -0xff <= cols <= 0xff,
            0 <= max_distance <= 0xff,
        ensures
            b == self@.saves(current, from, rows as int, cols as int, max_distance as int, min_save),
    {
        let far = (if rows < 0 {
            -rows
        } else {
            rows
        }) + (if cols < 0 {
            -cols
        } else {
            cols
        });
        if far > max_distance {
            return false;
        }
        let y = current.0 as i128 + rows as i128;
        let x = current.1 as i128 + cols as i128;
        if y < 0 || x < 0 || y >= self.tiles.len() as i128 {
            proof {
                if !(0 <= x <= usize::MAX) || !(0 <= y <= usize::MAX) {
                    self.lemma_off(y as int, x as int);
                }
            }
            return false;
        }
        let y = y as usize;
        assert(self@.tiles[y as int] == self.tiles@[y as int]@);
        if x >= self.tiles[y].len() as i128 {
            return false;
        }
        let x = x as usize;
        match self.tiles[y][x] {
            Block::Path(Some(d)) => d.saturating_sub(from).saturating_sub(far as usize) >= min_save,
            _ => false,
        }
    }

    /// The number of cheats along the whole track that save at least
    /// `min_save` steps.
    #[verifier::loop_isolation(false)]
    pub fn find_shortcuts_count(&self, max_distance: u8, min_save: usize) -> (r: Option<usize>)
        ensures
            r == (match self@.shortcuts_from(max_distance as int, min_save, 0) {
                Some(n) => if n <= usize::MAX {
                    Some(n as usize)
                } else {
                    None
                },
                None => None,
            }),
    {
        let ghost m = self@;
        let each = |entry: &Position| -> (r: Option<usize>)
            ensures
                r == self.cheats_of(*entry, max_distance, min_save),
                self.cheats_known(*entry, max_distance, min_save),
            { self.get_cheat_neighbors(*entry, max_distance, min_save) };
        let cheats = par_map(&self.path, each);
        let mut total: Option<usize> = Some(0);
        let mut i: usize = self.path.len();
        let mut broken = false;
        while i > 0 && !broken
            invariant
                i <= self.path.len(),
                !broken ==> match (total, m.shortcuts_from(max_distance as int, min_save, i as int)) {
                    (Some(n), Some(rest)) => n == rest,
                    (None, Some(rest)) => rest > usize::MAX,
                    _ => false,
                },
                broken ==> m.shortcuts_from(max_distance as int, min_save, i as int) is None,
            decreases i + (if broken { 0int } else { 1int }),
        {
            let p = self.path[i - 1];
            match cheats[i - 1] {
                Some(n) => {
                    total = match total {
                        Some(sum) => sum.checked_add(n),
                        None => None,
                    };
                    i -= 1;
                },
                None => {
                    broken = true;
                    i -= 1;
                },
            }
        }
        proof {
            if broken {
                lemma_broken(m, max_distance as int, min_save, i as int);
            }
        }
        if broken {
            None
        } else {
            total
        }
    }
}

/// A position of the path that is no piece of the track with a distance
/// leaves the count of all before it without a number.
proof fn lemma_broken(m: MazeModel, max_distance: int, min_save: usize, i: int)
    requires
        0 <= i <= m.path.len(),
        m.shortcuts_from(max_distance, min_save, i) is None,
    ensures
        m.shortcuts_from(max_distance, min_save, 0) is None,
    decreases i,
{
    if i > 0 {
        lemma_broken(m, max_distance, min_save, i - 1);
    }
}

/// The answer of a part.
pub open spec fn solve(input: Seq<char>, part: Part) -> Option<Answer> {
    match parse_maze(input) {
        Some(maze) => match maze.followed(maze.start, 0, maze.patience()) {
            Some(known) => match known.shortcuts_from(
                if part == Part::One {
                    2
                } else {
                    20
                },
                100,
                0,
            ) {
                Some(n) => if n <= usize::MAX {
                    Some(Answer::Number(n as usize))
                } else {
                    None
                },
                None => None,
            },
            None => None,
        },
        None => None,
    }
}

fn count(input: &str, max_distance: u8) -> (r: Option<SolvedValue>)
    ensures
        answer_of(r) == (match parse_maze(input@) {
            Some(maze) => match maze.followed(maze.start, 0, maze.patience()) {
                Some(known) => match known.shortcuts_from(max_distance as int, 100, 0) {
                    Some(n) => if n <= usize::MAX {
                        Some(Answer::Number(n as usize))
                    } else {
                        None
                    },
                    None => None,
                },
                None => None,
            },
            None => None,
        }),
{
    let chars = chars_of(input);
    let mut maze = match parse_input(&chars) {
        Some(maze) => maze,
        None => {
            return None;
        },
    };
    if !maze.calculate_distances() {
        return None;
    }
    match maze.find_shortcuts_count(max_distance, 100) {
        Some(n) => Some(SolvedValue::Number(n)),
        None => None,
    }
}

pub struct Day;

impl Solution for Day {
    open spec fn answer(&self, input: Seq<char>, part: Part) -> Option<Answer> {
        solve(input, part)
    }

    fn part1(&self, input: &str) -> (r: Option<SolvedValue>) {
        count(input, 2)
    }

    fn part2(&self, input: &str) -> (r: Option<SolvedValue>) {
        count(input, 20)
    }
}

} // verus!
