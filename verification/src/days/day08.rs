//! Day 8: antennas on a map, each with a frequency. Two antennas of one
//! frequency make antinodes in line with them. Part one counts the
//! positions one step beyond each of the two; part two those on the whole
//! line through them.

use crate::solution::{answer_of, Answer, Part, Solution, SolvedValue};
use crate::text::{chars_of, lines, lines_of, rows};
use vstd::prelude::*;

verus! {

/// A position of the map. Positions beside the map have coordinates that
/// are negative or too large.
#[derive(Debug, Clone, Copy, PartialEq, Eq, Hash, Structural)]
pub struct Position {
    pub col: i128,
    pub row: i128,
}

/// The antennas of one frequency.
pub struct Band {
    pub frequency: char,
    pub positions: Vec<Position>,
}

/// The mathematical value of the antennas of one frequency.
pub struct BandModel {
    pub frequency: char,
    pub positions: Seq<Position>,
}

impl View for Band {
    type V = BandModel;

    open spec fn view(&self) -> BandModel {
        BandModel { frequency: self.frequency, positions: self.positions@ }
    }
}

/// The antennas of a map by their frequencies, in the order in which the
/// frequencies first occur, and the size of the map.
pub struct AntennaGrid {
    pub antennas: Vec<Band>,
    pub width: usize,
    pub height: usize,
}

/// The mathematical value of a map of antennas.
pub struct GridModel {
    pub antennas: Seq<BandModel>,
    pub width: usize,
    pub height: usize,
}

impl View for AntennaGrid {
    type V = GridModel;

    open spec fn view(&self) -> GridModel {
        GridModel {
            antennas: band_models(self.antennas@),
            width: self.width,
            height: self.height,
        }
    }
}

/// The first index at or after `from` of the band of a frequency, or the
/// number of bands.
pub open spec fn band_at(bands: Seq<BandModel>, frequency: char, from: int) -> int
    decreases bands.len() - from,
{
    if from < 0 || from >= bands.len() {
        bands.len() as int
    } else if bands[from].frequency == frequency {
        from
    } else {
        band_at(bands, frequency, from + 1)
    }
}

/// The bands with one more antenna: it is added to the band of its
/// frequency, or to a new band at the end.
pub open spec fn with_antenna(bands: Seq<BandModel>, frequency: char, position: Position) -> Seq<
    BandModel,
> {
    let at = band_at(bands, frequency, 0);
    if 0 <= at < bands.len() {
        bands.update(
            at,
            BandModel { frequency, positions: bands[at].positions.push(position) },
        )
    } else {
        bands.push(BandModel { frequency, positions: seq![position] })
    }
}

/// The bands with the antennas of the lines from row `r`, column `c` on,
/// row by row: every character but `.` is an antenna.
pub open spec fn antennas_from(lines: Seq<Seq<char>>, r: int, c: int, acc: Seq<BandModel>) -> Seq<
    BandModel,
>
    decreases lines.len() - r, (if 0 <= r < lines.len() { lines[r].len() - c } else { 0 }),
{
    if r < 0 || r >= lines.len() || c < 0 {
        acc
    } else if c >= lines[r].len() {
        antennas_from(lines, r + 1, 0, acc)
    } else if lines[r][c] == '.' {
        antennas_from(lines, r, c + 1, acc)
    } else {
        antennas_from(
            lines,
            r,
            c + 1,
            with_antenna(acc, lines[r][c], Position { col: c as i128, row: r as i128 }),
        )
    }
}

/// The map of antennas that a puzzle text draws; it is as wide as its
/// first line is long. `None` for a text without a line.
pub open spec fn parse_grid(input: Seq<char>) -> Option<GridModel> {
    let ls = lines(input);
    if ls.len() == 0 {
        None
    } else {
        Some(
            GridModel {
                antennas: antennas_from(ls, 0, 0, Seq::empty()),
                width: ls[0].len() as usize,
                height: ls.len() as usize,
            },
        )
    }
}

/// Whether the coordinates of a position are numbers that the machine can
/// count.
pub open spec fn tame(position: Position) -> bool {
    0 <= position.col <= usize::MAX && 0 <= position.row <= usize::MAX
}

/// Whether the coordinates of all antennas are numbers that the machine
/// can count.
pub open spec fn all_tame(bands: Seq<BandModel>) -> bool {
    forall|k: int, i: int|
        0 <= k < bands.len() && 0 <= i < bands[k].positions.len() ==> tame(
            #[trigger] bands[k].positions[i],
        )
}

pub open spec fn band_models(bands: Seq<Band>) -> Seq<BandModel> {
    Seq::new(bands.len(), |i: int| bands[i]@)
}

#[verifier::loop_isolation(false)]
fn find_band(bands: &Vec<Band>, frequency: char) -> (r: usize)
    ensures
        r == band_at(band_models(bands@), frequency, 0),
        r <= bands.len(),
        r < bands.len() ==> bands@[r as int].frequency == frequency,
{
    let mut at: usize = 0;
    while at < bands.len()
        invariant
            at <= bands.len(),
            band_at(band_models(bands@), frequency, 0) == band_at(
                band_models(bands@),
                frequency,
                at as int,
            ),
        decreases bands.len() - at,
    {
        if bands[at].frequency == frequency {
            return at;
        }
        at += 1;
    }
    at
}

fn add_antenna(bands: &mut Vec<Band>, frequency: char, position: Position)
    requires
        all_tame(band_models(old(bands)@)),
        tame(position),
    ensures
        band_models(final(bands)@) == with_antenna(band_models(old(bands)@), frequency, position),
        all_tame(band_models(final(bands)@)),
{
    let ghost before = band_models(bands@);
    let at = find_band(bands, frequency);
    if at < bands.len() {
        assert(before[at as int] == bands@[at as int]@);
        bands[at].positions.push(position);
        assert(band_models(bands@)[at as int].positions =~= before[at as int].positions.push(
            position,
        ));
        assert(band_models(bands@)[at as int] == (BandModel {
            frequency,
            positions: before[at as int].positions.push(position),
        }));
        assert forall|k: int| 0 <= k < before.len() && k != at implies band_models(bands@)[k]
            == before[k] by {
            assert(bands@[k] == old(bands)@[k]);
        }
    } else {
        let mut positions: Vec<Position> = Vec::new();
        positions.push(position);
        bands.push(Band { frequency, positions });
        assert(band_models(bands@)[before.len() as int].positions =~= seq![position]);
        assert forall|k: int| 0 <= k < before.len() implies band_models(bands@)[k] == before[k] by {
            assert(bands@[k] == old(bands)@[k]);
        }
    }
    let ghost after = band_models(bands@);
    assert(after =~= with_antenna(before, frequency, position));
    assert forall|k: int, i: int|
        0 <= k < after.len() && 0 <= i < after[k].positions.len() implies tame(
        #[trigger] after[k].positions[i],
    ) by {
        if k < before.len() && i < before[k].positions.len() {
            assert(after[k].positions[i] == before[k].positions[i]);
        }
    }
}

/// Reads the map of antennas that a puzzle text draws.
#[verifier::loop_isolation(false)]
pub fn parse_input(input: &Vec<char>) -> (r: Option<AntennaGrid>)
    ensures
        match r {
            Some(grid) => parse_grid(input@) == Some(grid@) && all_tame(grid@.antennas),
            None => parse_grid(input@) is None,
        },
{
    let all = lines_of(input);
    let ghost ls = rows(all@);
    if all.len() == 0 {
        return None;
    }
    let mut antennas: Vec<Band> = Vec::new();
    let ghost empty = band_models(antennas@);
    assert(empty =~= Seq::empty());
    let mut r: usize = 0;
    while r < all.len()
        invariant
            r <= all.len(),
            all_tame(band_models(antennas@)),
            antennas_from(ls, 0, 0, Seq::empty()) == antennas_from(
                ls,
                r as int,
                0,
                band_models(antennas@),
            ),
        decreases all.len() - r,
    {
        let line = &all[r];
        assert(ls[r as int] == line@);
        let mut c: usize = 0;
        while c < line.len()
            invariant
                c <= line.len(),
                all_tame(band_models(antennas@)),
                antennas_from(ls, 0, 0, Seq::empty()) == antennas_from(
                    ls,
                    r as int,
                    c as int,
                    band_models(antennas@),
                ),
            decreases line.len() - c,
        {
            if line[c] != '.' {
                add_antenna(&mut antennas, line[c], Position { col: c as i128, row: r as i128 });
            }
            c += 1;
        }
        r += 1;
    }
    assert(ls[0] == all@[0]@);
    Some(AntennaGrid { antennas, width: all[0].len(), height: all.len() })
}

impl GridModel {
    /// Whether a position lies on the map.
    pub open spec fn in_bounds(self, pos: Position) -> bool {
        0 <= pos.col < self.width && 0 <= pos.row < self.height
    }

    /// The positions on the map from `pos` on in steps of `rows` rows and
    /// `cols` columns, as far as the first beside the map, but no more than
    /// `fuel`.
    pub open spec fn line_from(self, pos: Position, rows: int, cols: int, fuel: nat) -> Seq<Position>
        decreases fuel,
    {
        if !self.in_bounds(pos) || fuel == 0 {
            Seq::empty()
        } else {
            seq![pos] + self.line_from(
                Position { col: (pos.col + cols) as i128, row: (pos.row + rows) as i128 },
                rows,
                cols,
                (fuel - 1) as nat,
            )
        }
    }

    /// The most positions of a line: no more than the map has rows and
    /// columns, and no more than the machine can count.
    pub open spec fn patience(self) -> nat {
        if self.width + self.height + 1 <= usize::MAX {
            (self.width + self.height + 1) as nat
        } else {
            usize::MAX as nat
        }
    }

    /// The antinodes of two antennas, some of them more than once: the
    /// position as far beyond each as they are apart, where it lies on the
    /// map; and with `resonants` the two antennas and every position on
    /// the map in line with them at that distance beyond.
    pub open spec fn pair_antinodes(self, a: Position, b: Position, resonants: bool) -> Seq<Position> {
        let rows = b.row - a.row;
        let cols = b.col - a.col;
        let na = Position { col: (a.col - cols) as i128, row: (a.row - rows) as i128 };
        let nb = Position { col: (b.col + cols) as i128, row: (b.row + rows) as i128 };
        let none = Seq::<Position>::empty();
        (if resonants {
            seq![a, b]
        } else {
            none
        }) + (if self.in_bounds(na) {
            seq![na]
        } else {
            none
        }) + (if self.in_bounds(nb) {
            seq![nb]
        } else {
            none
        }) + (if resonants {
            self.line_from(na, -rows, -cols, self.patience()) + self.line_from(
                nb,
                rows,
                cols,
                self.patience(),
            )
        } else {
            none
        })
    }
}

/// A list of positions with those of another list that it does not hold,
/// from index `i` on.
pub open spec fn noted(list: Seq<Position>, more: Seq<Position>, i: int) -> Seq<Position>
    decreases more.len() - i,
{
    if i < 0 || i >= more.len() {
        list
    } else if list.contains(more[i]) {
        noted(list, more, i + 1)
    } else {
        noted(list.push(more[i]), more, i + 1)
    }
}

impl GridModel {
    /// The antinodes of the pairs of antennas of one band, the first of
    /// the pair from index `i` on and, for `i`, the second from `j` on,
    /// noted in `acc`.
    pub open spec fn band_antinodes(
        self,
        positions: Seq<Position>,
        resonants: bool,
        i: int,
        j: int,
        acc: Seq<Position>,
    ) -> Seq<Position>
        decreases positions.len() - i, positions.len() - j + 1,
    {
        if i < 0 || i >= positions.len() || j <= i {
            acc
        } else if j >= positions.len() {
            self.band_antinodes(positions, resonants, i + 1, i + 2, acc)
        } else {
            self.band_antinodes(
                positions,
                resonants,
                i,
                j + 1,
                noted(acc, self.pair_antinodes(positions[i], positions[j], resonants), 0),
            )
        }
    }

    /// The antinodes of the bands from `k` on, noted in `acc`.
    pub open spec fn antinodes_from(self, resonants: bool, k: int, acc: Seq<Position>) -> Seq<Position>
        decreases self.antennas.len() - k,
    {
        if k < 0 || k >= self.antennas.len() {
            acc
        } else {
            self.antinodes_from(
                resonants,
                k + 1,
                self.band_antinodes(self.antennas[k].positions, resonants, 0, 1, acc),
            )
        }
    }
}

fn note_all(list: &mut Vec<Position>, more: &Vec<Position>)
    ensures
        final(list)@ == noted(old(list)@, more@, 0),
{
    let mut i: usize = 0;
    while i < more.len()
        invariant
            i <= more.len(),
            noted(old(list)@, more@, 0) == noted(list@, more@, i as int),
        decreases more.len() - i,
    {
        let p = more[i];
        let mut found = false;
        let mut k: usize = 0;
        while k < list.len() && !found
            invariant
                k <= list.len(),
                !found ==> forall|n: int| 0 <= n < k ==> list@[n] != p,
                found ==> list@.contains(p),
            decreases list.len() - k + (if found { 0int } else { 1int }),
        {
            if list[k] == p {
                found = true;
            } else {
                k += 1;
            }
        }
        if !found {
            list.push(p);
        }
        i += 1;
    }
}

impl AntennaGrid {
    /// Whether a position lies on the map.
    pub fn pos_in_bounds(&self, pos: Position) -> (r: bool)
        ensures
            r == self@.in_bounds(pos),
    {
        0 <= pos.col && pos.col < self.width as i128 && 0 <= pos.row && pos.row < self.height as i128
    }

    fn patience(&self) -> (r: usize)
        ensures
            r == self@.patience(),
    {
        match self.width.checked_add(self.height) {
            Some(sum) => match sum.checked_add(1) {
                Some(most) => most,
                None => usize::MAX,
            },
            None => usize::MAX,
        }
    }

    fn push_line(&self, to: &mut Vec<Position>, from: Position, rows: i128, cols: i128)
        requires
            -0x1_0000_0000_0000_0000 <= rows <= 0x1_0000_0000_0000_0000,
            -0x1_0000_0000_0000_0000 <= cols <= 0x1_0000_0000_0000_0000,
        ensures
            final(to)@ == old(to)@ + self@.line_from(from, rows as int, cols as int, self@.patience()),
    {
        let mut fuel = self.patience();
        let mut pos = from;
        let ghost whole = self@.line_from(from, rows as int, cols as int, self@.patience());
        assert(to@ =~= old(to)@ + Seq::<Position>::empty());
        let ghost mut done = Seq::<Position>::empty();
        while self.pos_in_bounds(pos) && fuel > 0
            invariant
                -0x1_0000_0000_0000_0000 <= rows <= 0x1_0000_0000_0000_0000,
                -0x1_0000_0000_0000_0000 <= cols <= 0x1_0000_0000_0000_0000,
                to@ == old(to)@ + done,
                whole == done + self@.line_from(pos, rows as int, cols as int, fuel as nat),
            decreases fuel,
        {
            to.push(pos);
            proof {
                let rest = self@.line_from(
                    Position { col: (pos.col + cols) as i128, row: (pos.row + rows) as i128 },
                    rows as int,
                    cols as int,
                    (fuel - 1) as nat,
                );
                assert(done + (seq![pos] + rest) =~= done.push(pos) + rest);
                done = done.push(pos);
                assert(to@ =~= old(to)@ + done);
            }
            pos = Position { col: pos.col + cols, row: pos.row + rows };
            fuel -= 1;
        }
        assert(whole =~= done);
    }

    /// The antinodes of two antennas.
    pub fn get_pos_antinodes(&self, a: Position, b: Position, resonants: bool) -> (antinodes: Vec<
        Position,
    >)
        requires
            tame(a),
            tame(b),
        ensures
            antinodes@ == self@.pair_antinodes(a, b, resonants),
    {
        let mut antinodes: Vec<Position> = Vec::new();
        if resonants {
            antinodes.push(a);
            antinodes.push(b);
        }
        let rows = b.row - a.row;
        let cols = b.col - a.col;
        let na = Position { col: a.col - cols, row: a.row - rows };
        if self.pos_in_bounds(na) {
            antinodes.push(na);
        }
        let nb = Position { col: b.col + cols, row: b.row + rows };
        if self.pos_in_bounds(nb) {
            antinodes.push(nb);
        }
        if resonants {
            self.push_line(&mut antinodes, na, -rows, -cols);
            self.push_line(&mut antinodes, nb, rows, cols);
        }
        assert(antinodes@ =~= self@.pair_antinodes(a, b, resonants));
        antinodes
    }

    /// The antinodes of all pairs of antennas of one frequency, each once.
    pub fn get_antinodes(&self, resonants: bool) -> (antinodes: Vec<Position>)
        requires
            all_tame(self@.antennas),
        ensures
            antinodes@ == self@.antinodes_from(resonants, 0, Seq::empty()),
    {
        let ghost m = self@;
        let mut antinodes: Vec<Position> = Vec::new();
        let mut k: usize = 0;
        while k < self.antennas.len()
            invariant
                k <= self.antennas.len(),
                m == self@,
                all_tame(m.antennas),
                m.antinodes_from(resonants, 0, Seq::empty()) == m.antinodes_from(
                    resonants,
                    k as int,
                    antinodes@,
                ),
            decreases self.antennas.len() - k,
        {
            let positions = &self.antennas[k].positions;
            assert(m.antennas[k as int] == self.antennas@[k as int]@);
            let ghost start = antinodes@;
            let mut i: usize = 0;
            while i < positions.len()
                invariant
                    i <= positions.len(),
                    m == self@,
                    all_tame(m.antennas),
                    k < self.antennas.len(),
                    positions == &self.antennas@[k as int].positions,
                    m.band_antinodes(positions@, resonants, 0, 1, start) == m.band_antinodes(
                        positions@,
                        resonants,
                        i as int,
                        i + 1,
                        antinodes@,
                    ),
                decreases positions.len() - i,
            {
                let mut j: usize = i + 1;
                while j < positions.len()
                    invariant
                        i < j <= positions.len(),
                        m == self@,
                        all_tame(m.antennas),
                        k < self.antennas.len(),
                        positions == &self.antennas@[k as int].positions,
                        m.band_antinodes(positions@, resonants, 0, 1, start) == m.band_antinodes(
                            positions@,
                            resonants,
                            i as int,
                            j as int,
                            antinodes@,
                        ),
                    decreases positions.len() - j,
                {
                    assert(tame(m.antennas[k as int].positions[i as int]));
                    assert(tame(m.antennas[k as int].positions[j as int]));
                    let found = self.get_pos_antinodes(positions[i], positions[j], resonants);
                    note_all(&mut antinodes, &found);
                    j += 1;
                }
                i += 1;
            }
            k += 1;
        }
        antinodes
    }
}

/// The answer of a part: the number of antinodes.
pub open spec fn solve(input: Seq<char>, part: Part) -> Option<Answer> {
    match parse_grid(input) {
        Some(grid) => {
            let count = grid.antinodes_from(part == Part::Two, 0, Seq::empty()).len();
            if count <= usize::MAX {
                Some(Answer::Number(count as usize))
            } else {
                None
            }
        },
        None => None,
    }
}

fn count(input: &str, resonants: bool) -> (r: Option<SolvedValue>)
    ensures
        answer_of(r) == (match parse_grid(input@) {
            Some(grid) => {
                let count = grid.antinodes_from(resonants, 0, Seq::empty()).len();
                if count <= usize::MAX {
                    Some(Answer::Number(count as usize))
                } else {
                    None
                }
            },
            None => None,
        }),
{
    let chars = chars_of(input);
    match parse_input(&chars) {
        Some(grid) => Some(SolvedValue::Number(grid.get_antinodes(resonants).len())),
        None => None,
    }
}

pub struct Day;

impl Solution for Day {
    open spec fn answer(&self, input: Seq<char>, part: Part) -> Option<Answer> {
        solve(input, part)
    }

    fn part1(&self, input: &str) -> (r: Option<SolvedValue>) {
        count(input, false)
    }

    fn part2(&self, input: &str) -> (r: Option<SolvedValue>) {
        count(input, true)
    }
}

} // verus!
