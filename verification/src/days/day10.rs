//! Day 10: hiking trails on a map of heights. A trail climbs from height 0
//! to height 9, one step and one height at a time. Part one adds up, for
//! every start, the number of tops that a trail reaches; part two the
//! number of trails.

use crate::parallel::par_map;
use crate::solution::{Answer, Part, Solution, SolvedValue};
use crate::text::{chars_of, lines, lines_of, rows};
use vstd::prelude::*;

verus! {

/// A map of heights, all rows of one length.
pub struct TopMap {
    pub map: Vec<Vec<u8>>,
    pub width: usize,
    pub height: usize,
}

/// The mathematical value of a map of heights.
pub struct TopModel {
    pub map: Seq<Seq<u8>>,
    pub width: usize,
    pub height: usize,
}

impl View for TopMap {
    type V = TopModel;

    open spec fn view(&self) -> TopModel {
        TopModel { map: rows(self.map@), width: self.width, height: self.height }
    }
}

/// The height that a digit writes.
pub open spec fn height_of(c: char) -> Option<u8> {
    if 0x30 <= c as u32 <= 0x39 {
        Some((c as u32 - 0x30) as u8)
    } else {
        None
    }
}

/// The map that a puzzle text draws, one digit for every position. `None`
/// where the text has no line, a character is no digit, or the lines
/// differ in length.
pub open spec fn parse_map(input: Seq<char>) -> Option<TopModel> {
    let ls = lines(input);
    if ls.len() > 0 && (forall|r: int| 0 <= r < ls.len() ==> (#[trigger] ls[r]).len() == ls[0].len())
        && (forall|r: int, c: int|
        0 <= r < ls.len() && 0 <= c < ls[r].len() ==> height_of(#[trigger] ls[r][c]) is Some) {
        Some(
            TopModel {
                map: Seq::new(
                    ls.len(),
                    |r: int| Seq::new(ls[0].len(), |c: int| height_of(ls[r][c]).unwrap()),
                ),
                width: ls[0].len() as usize,
                height: ls.len() as usize,
            },
        )
    } else {
        None
    }
}

impl TopModel {
    /// Whether the map has `height` rows of `width` columns.
    pub open spec fn well_formed(self) -> bool {
        self.map.len() == self.height && forall|r: int|
            0 <= r < self.height ==> (#[trigger] self.map[r]).len() == self.width
    }

    /// The positions next to a position: left, right, above and below it,
    /// as far as they lie on the map.
    pub open spec fn move_options(self, x: usize, y: usize) -> Seq<(usize, usize)> {
        let none = Seq::<(usize, usize)>::empty();
        (if x > 0 {
            seq![((x - 1) as usize, y)]
        } else {
            none
        }) + (if x + 1 < self.width {
            seq![((x + 1) as usize, y)]
        } else {
            none
        }) + (if y > 0 {
            seq![(x, (y - 1) as usize)]
        } else {
            none
        }) + (if y + 1 < self.height {
            seq![(x, (y + 1) as usize)]
        } else {
            none
        })
    }

    /// Whether a position has a height.
    pub open spec fn has_height(self, at: (usize, usize), height: u8) -> bool {
        at.1 < self.map.len() && at.0 < self.map[at.1 as int].len() && self.map[at.1 as int][at.0 as int]
            == height
    }

    /// The number of ways to climb from a position to a top, the next
    /// step leading to a position of the given height.
    pub open spec fn trails(self, x: usize, y: usize, height: u8) -> Option<usize>
        decreases 256 - height, 1nat, 0nat,
    {
        self.trails_over(self.move_options(x, y), 0, height, 0)
    }

    /// The number of such ways over the neighbors from `i` on, added to
    /// `acc`.
    pub open spec fn trails_over(self, options: Seq<(usize, usize)>, i: int, height: u8, acc: usize) -> Option<
        usize,
    >
        decreases 256 - height, 0nat, options.len() - i,
    {
        if i < 0 || i >= options.len() {
            Some(acc)
        } else if !self.has_height(options[i], height) {
            self.trails_over(options, i + 1, height, acc)
        } else {
            let here = if height == 9 {
                Some(1usize)
            } else if height == 255 {
                Some(0usize)
            } else {
                self.trails(options[i].0, options[i].1, (height + 1) as u8)
            };
            match here {
                Some(n) => match acc.checked_add(n) {
                    Some(more) => self.trails_over(options, i + 1, height, more),
                    None => None,
                },
                None => None,
            }
        }
    }

    /// The tops that can be reached from a position, the next step
    /// leading to a position of the given height, noted in `acc` in the
    /// order in which they are found.
    pub open spec fn tops(self, x: usize, y: usize, height: u8, acc: Seq<(usize, usize)>) -> Seq<
        (usize, usize),
    >
        decreases 256 - height, 1nat, 0nat,
    {
        self.tops_over(self.move_options(x, y), 0, height, acc)
    }

    /// The tops reached over the neighbors from `i` on.
    pub open spec fn tops_over(
        self,
        options: Seq<(usize, usize)>,
        i: int,
        height: u8,
        acc: Seq<(usize, usize)>,
    ) -> Seq<(usize, usize)>
        decreases 256 - height, 0nat, options.len() - i,
    {
        if i < 0 || i >= options.len() {
            acc
        } else if !self.has_height(options[i], height) {
            self.tops_over(options, i + 1, height, acc)
        } else {
            self.tops_over(
                options,
                i + 1,
                height,
                if height == 9 {
                    if acc.contains(options[i]) {
                        acc
                    } else {
                        acc.push(options[i])
                    }
                } else if height == 255 {
                    acc
                } else {
                    self.tops(options[i].0, options[i].1, (height + 1) as u8, acc)
                },
            )
        }
    }

    /// What a start is worth: the number of tops that it reaches, or with
    /// `rating` the number of its trails.
    pub open spec fn worth(self, x: usize, y: usize, rating: bool) -> Option<usize> {
        if rating {
            self.trails(x, y, 1)
        } else {
            Some(self.tops(x, y, 1, Seq::empty()).len() as usize)
        }
    }

    /// The sum of what the starts of a row are worth from column `c` on,
    /// added to `acc`. A start is a position of height 0.
    pub open spec fn row_sum(self, rating: bool, r: int, c: int, acc: usize) -> Option<usize>
        decreases (if 0 <= r < self.map.len() { self.map[r].len() - c } else { 0 }),
    {
        if r < 0 || r >= self.map.len() || c < 0 || c >= self.map[r].len() {
            Some(acc)
        } else if self.map[r][c] != 0 {
            self.row_sum(rating, r, c + 1, acc)
        } else {
            match self.worth(c as usize, r as usize, rating) {
                Some(n) => match acc.checked_add(n) {
                    Some(more) => self.row_sum(rating, r, c + 1, more),
                    None => None,
                },
                None => None,
            }
        }
    }

    /// The sum of what the rows from `r` on are worth, added to `acc`.
    pub open spec fn sum_from(self, rating: bool, r: int, acc: usize) -> Option<usize>
        decreases self.map.len() - r,
    {
        if r < 0 || r >= self.map.len() {
            Some(acc)
        } else {
            match self.row_sum(rating, r, 0, 0) {
                Some(n) => match acc.checked_add(n) {
                    Some(more) => self.sum_from(rating, r + 1, more),
                    None => None,
                },
                None => None,
            }
        }
    }
}

/// Reads the map that a puzzle text draws.
#[verifier::loop_isolation(false)]
pub fn parse_input(input: &Vec<char>) -> (r: Option<TopMap>)
    ensures
        match r {
            Some(map) => parse_map(input@) == Some(map@) && map@.well_formed(),
            None => parse_map(input@) is None,
        },
{
    let all = lines_of(input);
    let ghost ls = rows(all@);
    if all.len() == 0 {
        return None;
    }
    assert(ls[0] == all@[0]@);
    let width = all[0].len();
    let mut map: Vec<Vec<u8>> = Vec::new();
    let mut r: usize = 0;
    while r < all.len()
        invariant
            r <= all.len(),
            map.len() == r,
            forall|k: int, c: int|
                0 <= k < r && 0 <= c < ls[k].len() ==> height_of(#[trigger] ls[k][c]) is Some,
            forall|k: int| 0 <= k < r ==> (#[trigger] ls[k]).len() == width,
            forall|k: int|
                0 <= k < r ==> (#[trigger] map@[k])@ == Seq::new(
                    width as nat,
                    |c: int| height_of(ls[k][c]).unwrap(),
                ),
        decreases all.len() - r,
    {
        let line = &all[r];
        assert(ls[r as int] == line@);
        if line.len() != width {
            return None;
        }
        let mut row: Vec<u8> = Vec::new();
        let mut c: usize = 0;
        while c < width
            invariant
                c <= width,
                row.len() == c,
                forall|j: int| 0 <= j < c ==> height_of(#[trigger] line@[j]) is Some,
                forall|j: int| 0 <= j < c ==> #[trigger] row@[j] == height_of(line@[j]).unwrap(),
            decreases width - c,
        {
            let n = line[c] as u32;
            if n < 0x30 || n > 0x39 {
                assert(height_of(ls[r as int][c as int]) is None);
                return None;
            }
            row.push((n - 0x30) as u8);
            c += 1;
        }
        assert(row@ =~= Seq::new(width as nat, |c: int| height_of(ls[r as int][c]).unwrap()));
        map.push(row);
        r += 1;
    }
    let top = TopMap { map, width, height: all.len() };
    proof {
        assert(top@.map =~= parse_map(input@).unwrap().map);
        assert forall|k: int| 0 <= k < top@.height implies (#[trigger] top@.map[k]).len()
            == top@.width by {
            assert(top@.map[k] == top.map@[k]@);
        }
    }
    Some(top)
}

impl TopMap {
    /// The positions next to a position.
    pub fn get_move_options(&self, x: usize, y: usize) -> (options: Vec<(usize, usize)>)
        ensures
            options@ == self@.move_options(x, y),
    {
        let mut options: Vec<(usize, usize)> = Vec::new();
        if x > 0 {
            options.push((x - 1, y));
        }
        if x < usize::MAX && x + 1 < self.width {
            options.push((x + 1, y));
        }
        if y > 0 {
            options.push((x, y - 1));
        }
        if y < usize::MAX && y + 1 < self.height {
            options.push((x, y + 1));
        }
        assert(options@ =~= self@.move_options(x, y));
        options
    }

    fn is_height(&self, at: (usize, usize), height: u8) -> (b: bool)
        ensures
            b == self@.has_height(at, height),
    {
        if at.1 < self.map.len() {
            assert(self@.map[at.1 as int] == self.map@[at.1 as int]@);
            at.0 < self.map[at.1].len() && self.map[at.1][at.0] == height
        } else {
            false
        }
    }

    /// The tops that can be reached from a position, added to `found`.
    #[verifier::loop_isolation(false)]
    pub fn search_paths(&self, start_x: usize, start_y: usize, height: u8, found: &mut Vec<(usize, usize)>)
        ensures
            final(found)@ == self@.tops(start_x, start_y, height, old(found)@),
        decreases 256 - height,
    {
        let options = self.get_move_options(start_x, start_y);
        let mut i: usize = 0;
        while i < options.len()
            invariant
                i <= options.len(),
                self@.tops(start_x, start_y, height, old(found)@) == self@.tops_over(
                    options@,
                    i as int,
                    height,
                    found@,
                ),
            decreases options.len() - i,
        {
            let (x, y) = options[i];
            if self.is_height((x, y), height) {
                if height == 9 {
                    let mut seen = false;
                    let mut k: usize = 0;
                    while k < found.len() && !seen
                        invariant
                            k <= found.len(),
                            !seen ==> forall|n: int| 0 <= n < k ==> found@[n] != (x, y),
                            seen ==> found@.contains((x, y)),
                        decreases found.len() - k + (if seen { 0int } else { 1int }),
                    {
                        if found[k].0 == x && found[k].1 == y {
                            seen = true;
                        } else {
                            k += 1;
                        }
                    }
                    if !seen {
                        found.push((x, y));
                    }
                } else if height < 255 {
                    self.search_paths(x, y, height + 1, found);
                }
            }
            i += 1;
        }
    }

    /// The number of ways to climb from a position to a top.
    #[verifier::loop_isolation(false)]
    pub fn count_paths_to_nine(&self, start_x: usize, start_y: usize, height: u8) -> (r: Option<usize>)
        ensures
            r == self@.trails(start_x, start_y, height),
        decreases 256 - height,
    {
        let options = self.get_move_options(start_x, start_y);
        let mut result: usize = 0;
        let mut i: usize = 0;
        while i < options.len()
            invariant
                i <= options.len(),
                self@.trails(start_x, start_y, height) == self@.trails_over(
                    options@,
                    i as int,
                    height,
                    result,
                ),
            decreases options.len() - i,
        {
            let (x, y) = options[i];
            if self.is_height((x, y), height) {
                let here = if height == 9 {
                    Some(1)
                } else if height == 255 {
                    Some(0)
                } else {
                    self.count_paths_to_nine(x, y, height + 1)
                };
                let more = match here {
                    Some(n) => result.checked_add(n),
                    None => None,
                };
                match more {
                    Some(more) => {
                        result = more;
                    },
                    None => {
                        return None;
                    },
                }
            }
            i += 1;
        }
        Some(result)
    }

    /// The sum of what the starts of a row are worth.
    #[verifier::loop_isolation(false)]
    pub fn row_worth(&self, row: usize, rating: bool) -> (r: Option<usize>)
        ensures
            r == self@.row_sum(rating, row as int, 0, 0),
    {
        let ghost m = self@;
        if row >= self.map.len() {
            return Some(0);
        }
        assert(m.map[row as int] == self.map@[row as int]@);
        let mut total: usize = 0;
        let mut col: usize = 0;
        while col < self.map[row].len()
            invariant
                col <= self.map@[row as int].len(),
                m.row_sum(rating, row as int, 0, 0) == m.row_sum(rating, row as int, col as int, total),
            decreases self.map@[row as int].len() - col,
        {
            if self.map[row][col] == 0 {
                let worth = if rating {
                    self.count_paths_to_nine(col, row, 1)
                } else {
                    let mut found: Vec<(usize, usize)> = Vec::new();
                    self.search_paths(col, row, 1, &mut found);
                    Some(found.len())
                };
                let more = match worth {
                    Some(n) => total.checked_add(n),
                    None => None,
                };
                match more {
                    Some(more) => {
                        total = more;
                    },
                    None => {
                        return None;
                    },
                }
            }
            col += 1;
        }
        Some(total)
    }

    /// The sum of what the starts are worth, the rows handed out to
    /// several threads.
    #[verifier::loop_isolation(false)]
    fn sum(&self, rating: bool) -> (r: Option<usize>)
        ensures
            r == self@.sum_from(rating, 0, 0),
    {
        let ghost m = self@;
        let mut rows: Vec<usize> = Vec::new();
        while rows.len() < self.map.len()
            invariant
                rows.len() <= self.map.len(),
                forall|k: int| 0 <= k < rows.len() ==> #[trigger] rows@[k] == k,
            decreases self.map.len() - rows.len(),
        {
            rows.push(rows.len());
        }
        let each = |row: &usize| -> (r: Option<usize>)
            ensures
                r == self@.row_sum(rating, *row as int, 0, 0),
            { self.row_worth(*row, rating) };
        let worths = par_map(&rows, each);
        let mut total: usize = 0;
        let mut row: usize = 0;
        while row < worths.len()
            invariant
                row <= worths.len(),
                m.sum_from(rating, 0, 0) == m.sum_from(rating, row as int, total),
            decreases worths.len() - row,
        {
            let more = match worths[row] {
                Some(n) => total.checked_add(n),
                None => None,
            };
            total = match more {
                Some(more) => more,
                None => {
                    return None;
                },
            };
            row += 1;
        }
        Some(total)
    }

    /// The sum over the starts of the number of tops that each reaches.
    pub fn get_scores_sum(&self) -> (r: Option<usize>)
        ensures
            r == self@.sum_from(false, 0, 0),
    {
        self.sum(false)
    }

    /// The sum over the starts of the number of trails of each.
    pub fn get_paths_sum(&self) -> (r: Option<usize>)
        ensures
            r == self@.sum_from(true, 0, 0),
    {
        self.sum(true)
    }
}

/// The answer of a part.
pub open spec fn solve(input: Seq<char>, part: Part) -> Option<Answer> {
    match parse_map(input) {
        Some(map) => match map.sum_from(part == Part::Two, 0, 0) {
            Some(n) => Some(Answer::Number(n)),
            None => None,
        },
        None => None,
    }
}

pub struct Day;

impl Solution for Day {
    open spec fn answer(&self, input: Seq<char>, part: Part) -> Option<Answer> {
        solve(input, part)
    }

    fn part1(&self, input: &str) -> (r: Option<SolvedValue>) {
        let chars = chars_of(input);
        match parse_input(&chars) {
            Some(map) => match map.get_scores_sum() {
                Some(n) => Some(SolvedValue::Number(n)),
                None => None,
            },
            None => None,
        }
    }

    fn part2(&self, input: &str) -> (r: Option<SolvedValue>) {
        let chars = chars_of(input);
        match parse_input(&chars) {
            Some(map) => match map.get_paths_sum() {
                Some(n) => Some(SolvedValue::Number(n)),
                None => None,
            },
            None => None,
        }
    }
}

} // verus!
