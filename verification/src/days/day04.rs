//! Day 4: a word search. Part one counts how often `XMAS` stands in the
//! grid of letters, in any of eight directions; part two counts the
//! crosses of two `MAS` around an `A`.

use crate::solution::{Answer, Part, Solution, SolvedValue};
use crate::text::{chars_of, lines, lines_of, rows};
use vstd::prelude::*;

verus! {

/// The eight directions in which a word can stand.
#[derive(Debug, Clone, Copy, PartialEq, Eq, Structural)]
pub enum Direction {
    Up,
    UpRight,
    Right,
    DownRight,
    Down,
    DownLeft,
    Left,
    UpLeft,
}

impl Direction {
    /// All directions, clockwise from `Up`.
    pub fn all() -> (r: Vec<Direction>)
        ensures
            r@ == Self::spec_all(),
    {
        let mut r: Vec<Direction> = Vec::new();
        r.push(Direction::Up);
        r.push(Direction::UpRight);
        r.push(Direction::Right);
        r.push(Direction::DownRight);
        r.push(Direction::Down);
        r.push(Direction::DownLeft);
        r.push(Direction::Left);
        r.push(Direction::UpLeft);
        assert(r@ =~= Self::spec_all());
        r
    }

    pub open spec fn spec_all() -> Seq<Direction> {
        seq![
            Direction::Up,
            Direction::UpRight,
            Direction::Right,
            Direction::DownRight,
            Direction::Down,
            Direction::DownLeft,
            Direction::Left,
            Direction::UpLeft,
        ]
    }

    /// By how many columns and rows a step in the direction moves.
    pub fn get_vector(self) -> (r: (i32, i32))
        ensures
            r == self.spec_vector(),
    {
        match self {
            Direction::Up => (0, -1),
            Direction::UpRight => (1, -1),
            Direction::Right => (1, 0),
            Direction::DownRight => (1, 1),
            Direction::Down => (0, 1),
            Direction::DownLeft => (-1, 1),
            Direction::Left => (-1, 0),
            Direction::UpLeft => (-1, -1),
        }
    }

    pub open spec fn spec_vector(self) -> (i32, i32) {
        match self {
            Direction::Up => (0i32, -1i32),
            Direction::UpRight => (1i32, -1i32),
            Direction::Right => (1i32, 0i32),
            Direction::DownRight => (1i32, 1i32),
            Direction::Down => (0i32, 1i32),
            Direction::DownLeft => (-1i32, 1i32),
            Direction::Left => (-1i32, 0i32),
            Direction::UpLeft => (-1i32, -1i32),
        }
    }
}

/// Whether a position holds a letter.
pub open spec fn letter_at(grid: Seq<Seq<char>>, x: int, y: int, letter: char) -> bool {
    0 <= y < grid.len() && 0 <= x < grid[y].len() && grid[y][x] == letter
}

/// Whether the letters of `search` from index `k` on stand in the grid
/// from the position `(x, y)` on in a direction.
pub open spec fn stands(grid: Seq<Seq<char>>, x: int, y: int, dir: Direction, search: Seq<char>, k: int) -> bool
    decreases search.len() - k,
{
    if k < 0 || k >= search.len() {
        true
    } else {
        letter_at(grid, x, y, search[k]) && stands(
            grid,
            x + dir.spec_vector().0,
            y + dir.spec_vector().1,
            dir,
            search,
            k + 1,
        )
    }
}

/// Whether a word stands in the grid from a position on in a direction.
#[verifier::loop_isolation(false)]
pub fn search_in_dir(grid: &Vec<Vec<char>>, start_x: usize, start_y: usize, dir: Direction, search: &Vec<char>) -> (r:
    bool)
    ensures
        r == stands(rows(grid@), start_x as int, start_y as int, dir, search@, 0),
{
    let ghost g = rows(grid@);
    let (dx, dy) = dir.get_vector();
    let mut x: i128 = start_x as i128;
    let mut y: i128 = start_y as i128;
    let mut k: usize = 0;
    while k < search.len()
        invariant
            k <= search.len(),
            -1 <= dx <= 1,
            -1 <= dy <= 1,
            -(k as int) <= x <= usize::MAX + k,
            -(k as int) <= y <= usize::MAX + k,
            stands(g, start_x as int, start_y as int, dir, search@, 0) == stands(
                g,
                x as int,
                y as int,
                dir,
                search@,
                k as int,
            ),
        decreases search.len() - k,
    {
        if x < 0 || y < 0 || y >= grid.len() as i128 {
            return false;
        }
        assert(g[y as int] == grid@[y as int]@);
        let row = &grid[y as usize];
        if x >= row.len() as i128 {
            return false;
        }
        if row[x as usize] != search[k] {
            return false;
        }
        x += dx as i128;
        y += dy as i128;
        k += 1;
    }
    true
}

/// Whether two `MAS` cross at a position: the letters at both ends of
/// each diagonal are an `M` and an `S`.
pub open spec fn crossed(grid: Seq<Seq<char>>, x: int, y: int) -> bool {
    ((letter_at(grid, x - 1, y - 1, 'M') && letter_at(grid, x + 1, y + 1, 'S')) || (letter_at(
        grid,
        x - 1,
        y - 1,
        'S',
    ) && letter_at(grid, x + 1, y + 1, 'M'))) && ((letter_at(grid, x + 1, y - 1, 'M') && letter_at(
        grid,
        x - 1,
        y + 1,
        'S',
    )) || (letter_at(grid, x + 1, y - 1, 'S') && letter_at(grid, x - 1, y + 1, 'M')))
}

fn is_letter(grid: &Vec<Vec<char>>, x: usize, y: usize, letter: char) -> (r: bool)
    ensures
        r == letter_at(rows(grid@), x as int, y as int, letter),
{
    if y < grid.len() {
        assert(rows(grid@)[y as int] == grid@[y as int]@);
        x < grid[y].len() && grid[y][x] == letter
    } else {
        false
    }
}

/// Whether two `MAS` cross at a position that is not on the edge of the
/// grid.
pub fn check_x_mas(grid: &Vec<Vec<char>>, x: usize, y: usize) -> (r: bool)
    requires
        0 < x < usize::MAX,
        0 < y < usize::MAX,
    ensures
        r == crossed(rows(grid@), x as int, y as int),
{
    ((is_letter(grid, x - 1, y - 1, 'M') && is_letter(grid, x + 1, y + 1, 'S')) || (is_letter(
        grid,
        x - 1,
        y - 1,
        'S',
    ) && is_letter(grid, x + 1, y + 1, 'M'))) && ((is_letter(grid, x + 1, y - 1, 'M') && is_letter(
        grid,
        x - 1,
        y + 1,
        'S',
    )) || (is_letter(grid, x + 1, y - 1, 'S') && is_letter(grid, x - 1, y + 1, 'M')))
}

/// The number of directions among the first `count` in which `XMAS`
/// stands from a position on.
pub open spec fn words_at(grid: Seq<Seq<char>>, x: int, y: int, count: nat) -> nat
    decreases count,
{
    if count == 0 || count > 8 {
        0
    } else {
        words_at(grid, x, y, (count - 1) as nat) + (if stands(
            grid,
            x,
            y,
            Direction::spec_all()[count - 1],
            "XMAS"@,
            0,
        ) {
            1nat
        } else {
            0nat
        })
    }
}

/// What a position counts: with `cross` unset the number of `XMAS` that
/// begin on it; with `cross` set, one for a cross around an `A` that is
/// not on the edge of the grid.
pub open spec fn worth(grid: Seq<Seq<char>>, x: int, y: int, cross: bool) -> nat {
    let width = if grid.len() > 0 {
        grid[0].len()
    } else {
        0
    };
    if cross {
        if 1 <= y < grid.len() - 1 && 1 <= x < width - 1 && letter_at(grid, x, y, 'A') && crossed(
            grid,
            x,
            y,
        ) {
            1
        } else {
            0
        }
    } else if x < width && letter_at(grid, x, y, 'X') {
        words_at(grid, x, y, 8)
    } else {
        0
    }
}

/// The sum of what the first `cols` positions of a row count.
pub open spec fn row_count(grid: Seq<Seq<char>>, y: int, cross: bool, cols: nat) -> nat
    decreases cols,
{
    if cols == 0 {
        0
    } else {
        row_count(grid, y, cross, (cols - 1) as nat) + worth(grid, cols - 1, y, cross)
    }
}

/// The sum of what the positions of the first `count` rows count, each
/// row as far as the first row is long.
pub open spec fn grid_count(grid: Seq<Seq<char>>, cross: bool, count: nat) -> nat
    decreases count,
{
    if count == 0 || count > grid.len() {
        0
    } else {
        grid_count(grid, cross, (count - 1) as nat) + row_count(
            grid,
            count - 1,
            cross,
            grid[0].len(),
        )
    }
}

/// The answer of a part. The second part has none for a text without a
/// line.
pub open spec fn solve(input: Seq<char>, part: Part) -> Option<Answer> {
    let grid = lines(input);
    let count = grid_count(grid, part == Part::Two, grid.len());
    if (part == Part::Two && grid.len() == 0) || count > usize::MAX {
        None
    } else {
        Some(Answer::Number(count as usize))
    }
}

/// Counting further adds nothing that was counted.
proof fn lemma_row_grows(grid: Seq<Seq<char>>, y: int, cross: bool, few: nat, many: nat)
    requires
        few <= many,
    ensures
        row_count(grid, y, cross, few) <= row_count(grid, y, cross, many),
    decreases many,
{
    if few < many {
        lemma_row_grows(grid, y, cross, few, (many - 1) as nat);
    }
}

proof fn lemma_grid_grows(grid: Seq<Seq<char>>, cross: bool, few: nat, many: nat)
    requires
        few <= many <= grid.len(),
    ensures
        grid_count(grid, cross, few) <= grid_count(grid, cross, many),
    decreases many,
{
    if few < many {
        lemma_grid_grows(grid, cross, few, (many - 1) as nat);
    }
}

#[verifier::loop_isolation(false)]
fn count(input: &str, cross: bool) -> (r: Option<usize>)
    ensures
        r == (if grid_count(lines(input@), cross, lines(input@).len()) <= usize::MAX {
            Some(grid_count(lines(input@), cross, lines(input@).len()) as usize)
        } else {
            None
        }),
{
    let chars = chars_of(input);
    let grid = lines_of(&chars);
    let ghost g = rows(grid@);
    let mut search: Vec<char> = Vec::new();
    search.push('X');
    search.push('M');
    search.push('A');
    search.push('S');
    proof {
        reveal_strlit("XMAS");
        assert(search@ =~= "XMAS"@);
    }
    let dirs = Direction::all();
    let mut res: usize = 0;
    let mut y: usize = 0;
    while y < grid.len()
        invariant
            y <= grid.len(),
            res == grid_count(g, cross, y as nat),
        decreases grid.len() - y,
    {
        assert(g[0] == grid@[0]@);
        assert(g[y as int] == grid@[y as int]@);
        let width = grid[0].len();
        let ghost before = res;
        let mut x: usize = 0;
        while x < width
            invariant
                x <= width,
                res == before + row_count(g, y as int, cross, x as nat),
            decreases width - x,
        {
            let mut here: usize = 0;
            if cross {
                if 1 <= y && y < grid.len() - 1 && 1 <= x && x < width - 1 && is_letter(&grid, x, y, 'A')
                    && check_x_mas(&grid, x, y) {
                    here = 1;
                }
            } else if is_letter(&grid, x, y, 'X') {
                let mut d: usize = 0;
                while d < 8
                    invariant
                        d <= 8,
                        here == words_at(g, x as int, y as int, d as nat),
                        here <= d,
                    decreases 8 - d,
                {
                    if search_in_dir(&grid, x, y, dirs[d], &search) {
                        here += 1;
                    }
                    d += 1;
                }
            }
            res = match res.checked_add(here) {
                Some(more) => more,
                None => {
                    proof {
                        lemma_row_grows(g, y as int, cross, (x + 1) as nat, width as nat);
                        lemma_grid_grows(g, cross, (y + 1) as nat, grid.len() as nat);
                    }
                    return None;
                },
            };
            x += 1;
        }
        y += 1;
    }
    Some(res)
}

pub struct Day;

impl Solution for Day {
    open spec fn answer(&self, input: Seq<char>, part: Part) -> Option<Answer> {
        solve(input, part)
    }

    fn part1(&self, input: &str) -> (r: Option<SolvedValue>) {
        match count(input, false) {
            Some(n) => Some(SolvedValue::Number(n)),
            None => None,
        }
    }

    fn part2(&self, input: &str) -> (r: Option<SolvedValue>) {
        let chars = chars_of(input);
        if lines_of(&chars).len() == 0 {
            return None;
        }
        match count(input, true) {
            Some(n) => Some(SolvedValue::Number(n)),
            None => None,
        }
    }
}

} // verus!
