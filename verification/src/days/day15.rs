//! Day 15: a robot pushes boxes through a warehouse. Part one follows
//! its moves in the warehouse as drawn; part two in a warehouse twice as
//! wide, where a box fills two tiles. The answer is the sum of the
//! coordinates of the boxes afterwards.

use crate::solution::{Answer, Part, Solution, SolvedValue};
use crate::text::{
    chars_of, decimal_digits, format_usize, lines, lines_of, rows, split_once, split_once_at,
    string_of,
};
use vstd::prelude::*;

verus! {

/// What stands on a position of the warehouse. In a widened warehouse `Box`
/// is the left half of a box and `Box2` its right half.
#[derive(Debug, Clone, Copy, PartialEq, Eq, Structural)]
pub enum State {
    Robot,
    Box,
    Box2,
    Wall,
    Empty,
}

impl State {
    /// The character that draws the state.
    pub fn to_string(self, widened: bool) -> (c: char)
        ensures
            c == self.spec_char(widened),
    {
        match self {
            State::Robot => '@',
            State::Box => {
                if widened {
                    '['
                } else {
                    'O'
                }
            },
            State::Box2 => ']',
            State::Wall => '#',
            State::Empty => '.',
        }
    }

    pub open spec fn spec_char(self, widened: bool) -> char {
        match self {
            State::Robot => '@',
            State::Box => if widened {
                '['
            } else {
                'O'
            },
            State::Box2 => ']',
            State::Wall => '#',
            State::Empty => '.',
        }
    }

    /// The state that a character of the map draws.
    pub open spec fn of_char(c: char) -> Option<State> {
        if c == '@' {
            Some(State::Robot)
        } else if c == 'O' {
            Some(State::Box)
        } else if c == '#' {
            Some(State::Wall)
        } else if c == '.' {
            Some(State::Empty)
        } else {
            None
        }
    }

    /// The state that a character of the map draws.
    pub fn from_char(c: char) -> (r: Option<State>)
        ensures
            r == Self::of_char(c),
    {
        if c == '@' {
            Some(State::Robot)
        } else if c == 'O' {
            Some(State::Box)
        } else if c == '#' {
            Some(State::Wall)
        } else if c == '.' {
            Some(State::Empty)
        } else {
            None
        }
    }
}

/// The four directions of a move.
#[derive(Debug, Clone, Copy, PartialEq, Eq, Structural)]
pub enum Direction {
    Up,
    Down,
    Left,
    Right,
}

impl Direction {
    /// The direction that a character of the moves names.
    pub open spec fn of_char(c: char) -> Option<Direction> {
        if c == '^' {
            Some(Direction::Up)
        } else if c == 'v' {
            Some(Direction::Down)
        } else if c == '<' {
            Some(Direction::Left)
        } else if c == '>' {
            Some(Direction::Right)
        } else {
            None
        }
    }

    /// The direction that a character of the moves names.
    pub fn from_char(c: char) -> (r: Option<Direction>)
        ensures
            r == Self::of_char(c),
    {
        if c == '^' {
            Some(Direction::Up)
        } else if c == 'v' {
            Some(Direction::Down)
        } else if c == '<' {
            Some(Direction::Left)
        } else if c == '>' {
            Some(Direction::Right)
        } else {
            None
        }
    }

    /// By how many rows a move in the direction goes down.
    pub open spec fn rows(self) -> int {
        match self {
            Self::Up => -1,
            Self::Down => 1,
            _ => 0,
        }
    }

    /// By how many columns a move in the direction goes right.
    pub open spec fn cols(self) -> int {
        match self {
            Self::Left => -1,
            Self::Right => 1,
            _ => 0,
        }
    }
}

/// What a tile of the floor holds.
#[derive(Debug, Clone, Copy, PartialEq, Eq, Structural)]
pub enum Tile {
    Free,
    Wall,
    Box,
}

/// A warehouse: its tiles, the position of the robot, and whether it was
/// widened. In a widened warehouse a wall or a box on a tile also fills
/// the tile to its right.
pub struct Warehouse {
    pub tiles: Vec<Vec<Tile>>,
    pub robot: (usize, usize),
    pub widened: bool,
}

/// The mathematical value of a warehouse.
pub struct WarehouseModel {
    pub tiles: Seq<Seq<Tile>>,
    pub robot: (int, int),
    pub widened: bool,
}

impl View for Warehouse {
    type V = WarehouseModel;

    open spec fn view(&self) -> WarehouseModel {
        WarehouseModel {
            tiles: rows(self.tiles@),
            robot: (self.robot.0 as int, self.robot.1 as int),
            widened: self.widened,
        }
    }
}

/// Whether a position is a tile.
pub open spec fn on(tiles: Seq<Seq<Tile>>, r: int, c: int) -> bool {
    0 <= r < tiles.len() && 0 <= c < tiles[r].len()
}

/// Whether a tile holds the given thing.
pub open spec fn holds(tiles: Seq<Seq<Tile>>, r: int, c: int, what: Tile) -> bool {
    on(tiles, r, c) && tiles[r][c] == what
}

impl WarehouseModel {
    /// What stands on a position. Beyond the tiles there is wall.
    pub open spec fn state(self, r: int, c: int) -> State {
        if !on(self.tiles, r, c) {
            State::Wall
        } else if self.widened && holds(self.tiles, r, c - 1, Tile::Box) {
            State::Box2
        } else if self.widened && holds(self.tiles, r, c - 1, Tile::Wall) {
            State::Wall
        } else if self.robot == (r, c) {
            State::Robot
        } else if self.tiles[r][c] == Tile::Box {
            State::Box
        } else if self.tiles[r][c] == Tile::Wall {
            State::Wall
        } else {
            State::Empty
        }
    }

    /// The positions that move when something on `start` is pushed in a
    /// direction: `start` itself and all that stands in the way, as far as
    /// the first free position. In a widened warehouse a push up or down
    /// moves both halves of a box, and each half pushes on. `None` where a
    /// wall stands in the way, or more than `fuel` things stand in a row.
    pub open spec fn pushed(self, start: (int, int), dir: Direction, fuel: nat) -> Option<
        Seq<(int, int)>,
    >
        decreases fuel,
    {
        let next = (start.0 + dir.rows(), start.1 + dir.cols());
        let state = self.state(next.0, next.1);
        if state == State::Wall {
            None
        } else if state == State::Empty {
            Some(seq![start])
        } else if fuel == 0 {
            None
        } else if !self.widened || dir == Direction::Left || dir == Direction::Right {
            match self.pushed(next, dir, (fuel - 1) as nat) {
                Some(rest) => Some(seq![start] + rest),
                None => None,
            }
        } else if state == State::Box2 || state == State::Box {
            let left = if state == State::Box2 {
                (next.0, next.1 - 1)
            } else {
                next
            };
            match (
                self.pushed(left, dir, (fuel - 1) as nat),
                self.pushed((left.0, left.1 + 1), dir, (fuel - 1) as nat),
            ) {
                (Some(a), Some(b)) => Some(seq![start] + a + b),
                _ => None,
            }
        } else {
            None
        }
    }

    /// How many things may stand in a row: no more than there are rows and
    /// tiles in the first row, and no more than the machine can count.
    pub open spec fn reach(self) -> nat {
        let most = (self.tiles.len() + (if self.tiles.len() > 0 {
            self.tiles[0].len()
        } else {
            0
        }) + 2) as nat;
        if most <= usize::MAX {
            most
        } else {
            usize::MAX as nat
        }
    }
}

/// The tiles with one tile changed.
pub open spec fn with_tile(tiles: Seq<Seq<Tile>>, r: int, c: int, what: Tile) -> Seq<Seq<Tile>> {
    if on(tiles, r, c) {
        tiles.update(r, tiles[r].update(c, what))
    } else {
        tiles
    }
}

/// The tiles after the boxes on the positions from `i` on were taken up,
/// and those positions, added to `acc`.
pub open spec fn taken_up(
    tiles: Seq<Seq<Tile>>,
    moving: Seq<(int, int)>,
    i: int,
    acc: Seq<(int, int)>,
) -> (Seq<Seq<Tile>>, Seq<(int, int)>)
    decreases moving.len() - i,
{
    if i < 0 || i >= moving.len() {
        (tiles, acc)
    } else if holds(tiles, moving[i].0, moving[i].1, Tile::Box) {
        taken_up(
            with_tile(tiles, moving[i].0, moving[i].1, Tile::Free),
            moving,
            i + 1,
            acc.push(moving[i]),
        )
    } else {
        taken_up(tiles, moving, i + 1, acc)
    }
}

/// The tiles after a box was put down one step in a direction from each of
/// the positions from `i` on.
pub open spec fn put_down(tiles: Seq<Seq<Tile>>, boxes: Seq<(int, int)>, dir: Direction, i: int) -> Seq<
    Seq<Tile>,
>
    decreases boxes.len() - i,
{
    if i < 0 || i >= boxes.len() {
        tiles
    } else {
        put_down(
            with_tile(tiles, boxes[i].0 + dir.rows(), boxes[i].1 + dir.cols(), Tile::Box),
            boxes,
            dir,
            i + 1,
        )
    }
}

impl WarehouseModel {
    /// The warehouse after the robot tried a move: where no wall stands in
    /// the way, the boxes in the way move a step and the robot after them.
    pub open spec fn after_move(self, dir: Direction) -> WarehouseModel {
        match self.pushed(self.robot, dir, self.reach()) {
            Some(moving) => {
                let (cleared, boxes) = taken_up(self.tiles, moving, 0, Seq::empty());
                WarehouseModel {
                    tiles: put_down(cleared, boxes, dir, 0),
                    robot: (self.robot.0 + dir.rows(), self.robot.1 + dir.cols()),
                    widened: self.widened,
                }
            },
            None => self,
        }
    }

    /// The warehouse after the moves from `i` on.
    pub open spec fn after_moves(self, dirs: Seq<Direction>, i: int) -> WarehouseModel
        decreases dirs.len() - i,
    {
        if i < 0 || i >= dirs.len() {
            self
        } else {
            self.after_move(dirs[i]).after_moves(dirs, i + 1)
        }
    }

    /// The sum of the coordinates of the boxes from row `r`, column `c` on,
    /// row by row, added to `acc`: a hundred times the row of a box plus its
    /// column.
    pub open spec fn gps_from(self, r: int, c: int, acc: usize) -> Option<usize>
        decreases self.tiles.len() - r, (if 0 <= r < self.tiles.len() {
            self.tiles[r].len() - c
        } else {
            0
        }),
    {
        if r < 0 || r >= self.tiles.len() || c < 0 {
            Some(acc)
        } else if c >= self.tiles[r].len() {
            self.gps_from(r + 1, 0, acc)
        } else if self.tiles[r][c] != Tile::Box {
            self.gps_from(r, c + 1, acc)
        } else if r * 100 + c > usize::MAX || acc + r * 100 + c > usize::MAX {
            None
        } else {
            self.gps_from(r, c + 1, (acc + r * 100 + c) as usize)
        }
    }

    /// Whether the machine can count the tiles of the warehouse twice as
    /// wide.
    pub open spec fn can_widen(self) -> bool {
        2 * self.robot.1 <= usize::MAX && forall|r: int|
            0 <= r < self.tiles.len() ==> 2 * (#[trigger] self.tiles[r]).len() <= usize::MAX
    }

    /// The warehouse twice as wide: every tile becomes two, of which the
    /// left holds what the tile held.
    pub open spec fn widened(self) -> WarehouseModel {
        WarehouseModel {
            tiles: Seq::new(
                self.tiles.len(),
                |r: int|
                    Seq::new(
                        2 * self.tiles[r].len(),
                        |c: int|
                            if c % 2 == 0 {
                                self.tiles[r][c / 2]
                            } else {
                                Tile::Free
                            },
                    ),
            ),
            robot: (self.robot.0, 2 * self.robot.1),
            widened: true,
        }
    }
}

impl WarehouseModel {
    /// The characters that draw a row of the warehouse.
    pub open spec fn drawn_row(self, r: int) -> Seq<char> {
        Seq::new(self.tiles[r].len(), |c: int| self.state(r, c).spec_char(self.widened))
    }

    /// The text that names the position of the robot.
    pub open spec fn robot_text(self) -> Seq<char> {
        "Robot: ("@ + decimal_digits(self.robot.0 as nat) + ", "@ + decimal_digits(
            self.robot.1 as nat,
        ) + ")"@
    }

    /// The drawing of the rows from `r` on, each on a line of its own, and
    /// after the last the position of the robot.
    pub open spec fn drawn_from(self, r: int) -> Seq<char>
        decreases self.tiles.len() - r,
    {
        if r < 0 || r >= self.tiles.len() {
            self.robot_text()
        } else {
            self.drawn_row(r) + seq!['\n'] + self.drawn_from(r + 1)
        }
    }
}

/// The position one step in a direction, where its row and column are
/// numbers of the machine.
fn toward(pos: (usize, usize), d: Direction) -> (n: Option<(usize, usize)>)
    ensures
        match n {
            Some((r2, c2)) => r2 == pos.0 + d.rows() && c2 == pos.1 + d.cols(),
            None => !(0 <= pos.0 + d.rows() <= usize::MAX && 0 <= pos.1 + d.cols() <= usize::MAX),
        },
{
    match d {
        Direction::Up => if pos.0 > 0 {
            Some((pos.0 - 1, pos.1))
        } else {
            None
        },
        Direction::Down => if pos.0 < usize::MAX {
            Some((pos.0 + 1, pos.1))
        } else {
            None
        },
        Direction::Left => if pos.1 > 0 {
            Some((pos.0, pos.1 - 1))
        } else {
            None
        },
        Direction::Right => if pos.1 < usize::MAX {
            Some((pos.0, pos.1 + 1))
        } else {
            None
        },
    }
}

pub open spec fn as_ints(list: Seq<(usize, usize)>) -> Seq<(int, int)> {
    Seq::new(list.len(), |i: int| (list[i].0 as int, list[i].1 as int))
}

impl Warehouse {
    /// No position beyond what the machine can count is a tile.
    proof fn lemma_off(&self, r: int, c: int)
        requires
            !(0 <= r <= usize::MAX && 0 <= c <= usize::MAX),
        ensures
            !on(self@.tiles, r, c),
    {
        assert(self.tiles.len() == self.tiles@.len());
        if 0 <= r < self@.tiles.len() {
            assert(self@.tiles[r] == self.tiles@[r]@);
            assert(self.tiles@[r].len() == self.tiles@[r]@.len());
        }
    }

    fn tile_is(&self, r: usize, c: usize, what: Tile) -> (b: bool)
        ensures
            b == holds(self@.tiles, r as int, c as int, what),
    {
        if r < self.tiles.len() {
            assert(self@.tiles[r as int] == self.tiles@[r as int]@);
            c < self.tiles[r].len() && self.tiles[r][c] == what
        } else {
            false
        }
    }

    /// What stands on a position.
    pub fn get_state(&self, pos: (usize, usize)) -> (s: State)
        ensures
            s == self@.state(pos.0 as int, pos.1 as int),
    {
        let (r, c) = pos;
        if r >= self.tiles.len() {
            return State::Wall;
        }
        assert(self@.tiles[r as int] == self.tiles@[r as int]@);
        if c >= self.tiles[r].len() {
            return State::Wall;
        }
        if self.widened && c > 0 {
            if self.tile_is(r, c - 1, Tile::Box) {
                return State::Box2;
            } else if self.tile_is(r, c - 1, Tile::Wall) {
                return State::Wall;
            }
        }
        if self.robot.0 == r && self.robot.1 == c {
            State::Robot
        } else if self.tiles[r][c] == Tile::Box {
            State::Box
        } else if self.tiles[r][c] == Tile::Wall {
            State::Wall
        } else {
            State::Empty
        }
    }

    /// The positions that move when something on `start_pos` is pushed in
    /// a direction, or `None` where a wall stands in the way.
    pub fn can_move_in_dir(&self, start_pos: (usize, usize), direction: Direction, fuel: usize) -> (r:
        Option<Vec<(usize, usize)>>)
        ensures
            match r {
                Some(moving) => self@.pushed(
                    (start_pos.0 as int, start_pos.1 as int),
                    direction,
                    fuel as nat,
                ) == Some(as_ints(moving@)),
                None => self@.pushed(
                    (start_pos.0 as int, start_pos.1 as int),
                    direction,
                    fuel as nat,
                ) is None,
            },
            r matches Some(moving) ==> moving.len() > 0 && moving@[0] == start_pos && forall|j: int|
                0 <= j < moving.len() ==> on(
                    self@.tiles,
                    (#[trigger] moving@[j]).0 + direction.rows(),
                    moving@[j].1 + direction.cols(),
                ),
        decreases fuel,
    {
        let ghost start = (start_pos.0 as int, start_pos.1 as int);
        let new_pos = match toward(start_pos, direction) {
            Some(new_pos) => new_pos,
            None => {
                proof {
                    self.lemma_off(start.0 + direction.rows(), start.1 + direction.cols());
                }
                return None;
            },
        };
        let state = self.get_state(new_pos);
        if state == State::Wall {
            return None;
        }
        let mut changes: Vec<(usize, usize)> = Vec::new();
        changes.push(start_pos);
        if state == State::Empty {
            assert(as_ints(changes@) =~= seq![start]);
            return Some(changes);
        }
        if fuel == 0 {
            return None;
        }
        if !self.widened || direction == Direction::Left || direction == Direction::Right {
            match self.can_move_in_dir(new_pos, direction, fuel - 1) {
                Some(mut rest) => {
                    let ghost tail = as_ints(rest@);
                    let ghost list = rest@;
                    changes.append(&mut rest);
                    assert(as_ints(changes@) =~= seq![start] + tail);
                    assert forall|j: int| 0 <= j < changes.len() implies on(
                        self@.tiles,
                        (#[trigger] changes@[j]).0 + direction.rows(),
                        changes@[j].1 + direction.cols(),
                    ) by {
                        if j > 0 {
                            assert(changes@[j] == list[j - 1]);
                        }
                    }
                    Some(changes)
                },
                None => None,
            }
        } else if state == State::Box2 || state == State::Box {
            assert(on(self@.tiles, new_pos.0 as int, new_pos.1 as int));
            assert(self@.tiles[new_pos.0 as int] == self.tiles@[new_pos.0 as int]@);
            assert(new_pos.1 < self.tiles@[new_pos.0 as int].len());
            let left = if state == State::Box2 {
                (new_pos.0, new_pos.1 - 1)
            } else {
                new_pos
            };
            let right = (left.0, left.1 + 1);
            let first = self.can_move_in_dir(left, direction, fuel - 1);
            let second = self.can_move_in_dir(right, direction, fuel - 1);
            match (first, second) {
                (Some(mut a), Some(mut b)) => {
                    let ghost one = as_ints(a@);
                    let ghost two = as_ints(b@);
                    let ghost list_a = a@;
                    let ghost list_b = b@;
                    changes.append(&mut a);
                    changes.append(&mut b);
                    assert(as_ints(changes@) =~= seq![start] + one + two);
                    assert forall|j: int| 0 <= j < changes.len() implies on(
                        self@.tiles,
                        (#[trigger] changes@[j]).0 + direction.rows(),
                        changes@[j].1 + direction.cols(),
                    ) by {
                        if j > list_a.len() {
                            assert(changes@[j] == list_b[j - 1 - list_a.len()]);
                        } else if j > 0 {
                            assert(changes@[j] == list_a[j - 1]);
                        }
                    }
                    Some(changes)
                },
                _ => None,
            }
        } else {
            None
        }
    }

    fn set_tile(&mut self, r: usize, c: usize, what: Tile)
        ensures
            final(self)@.tiles == with_tile(old(self)@.tiles, r as int, c as int, what),
            final(self).robot == old(self).robot,
            final(self).widened == old(self).widened,
    {
        if r < self.tiles.len() {
            assert(self@.tiles[r as int] == self.tiles@[r as int]@);
            if c < self.tiles[r].len() {
                self.tiles[r][c] = what;
                assert(self@.tiles =~= with_tile(old(self)@.tiles, r as int, c as int, what));
                return ;
            }
        }
        assert(self@.tiles =~= old(self)@.tiles);
    }

    /// How many things may stand in a row.
    fn reach(&self) -> (r: usize)
        ensures
            r == self@.reach(),
    {
        let width = if self.tiles.len() > 0 {
            assert(self@.tiles[0] == self.tiles@[0]@);
            self.tiles[0].len()
        } else {
            0
        };
        match self.tiles.len().checked_add(width) {
            Some(sum) => match sum.checked_add(2) {
                Some(reach) => reach,
                None => usize::MAX,
            },
            None => usize::MAX,
        }
    }

    /// Lets the robot try a move in a direction.
    #[verifier::loop_isolation(false)]
    pub fn move_robot(&mut self, direction: Direction)
        ensures
            final(self)@ == old(self)@.after_move(direction),
    {
        let fuel = self.reach();
        let moving = match self.can_move_in_dir(self.robot, direction, fuel) {
            Some(moving) => moving,
            None => {
                return ;
            },
        };
        let ghost start = old(self)@;
        let ghost ints = as_ints(moving@);
        let next_robot = match toward(self.robot, direction) {
            Some(pos) => pos,
            None => {
                proof {
                    assert(on(
                        start.tiles,
                        moving@[0].0 + direction.rows(),
                        moving@[0].1 + direction.cols(),
                    ));
                    self.lemma_off(
                        moving@[0].0 + direction.rows(),
                        moving@[0].1 + direction.cols(),
                    );
                    assert(false);
                }
                return ;
            },
        };
        let mut boxes: Vec<(usize, usize)> = Vec::new();
        let mut i: usize = 0;
        assert(as_ints(boxes@) =~= Seq::empty());
        while i < moving.len()
            invariant
                i <= moving.len(),
                self.robot == old(self).robot,
                self.widened == old(self).widened,
                self.tiles.len() == old(self).tiles.len(),
                forall|k: int|
                    0 <= k < self.tiles.len() ==> (#[trigger] self.tiles@[k]).len() == old(
                        self,
                    ).tiles@[k].len(),
                forall|j: int|
                    0 <= j < boxes.len() ==> on(
                        start.tiles,
                        (#[trigger] boxes@[j]).0 + direction.rows(),
                        boxes@[j].1 + direction.cols(),
                    ),
                taken_up(start.tiles, ints, 0, Seq::empty()) == taken_up(
                    self@.tiles,
                    ints,
                    i as int,
                    as_ints(boxes@),
                ),
            decreases moving.len() - i,
        {
            let (r, c) = moving[i];
            assert(ints[i as int] == (r as int, c as int));
            if self.tile_is(r, c, Tile::Box) {
                let ghost tiles_before = self.tiles@;
                self.set_tile(r, c, Tile::Free);
                let ghost before = as_ints(boxes@);
                boxes.push((r, c));
                assert(as_ints(boxes@) =~= before.push((r as int, c as int)));
                assert(self.tiles.len() == old(self).tiles.len() && forall|k: int|
                    0 <= k < self.tiles.len() ==> (#[trigger] self.tiles@[k]).len() == old(
                        self,
                    ).tiles@[k].len()) by {
                    assert(self@.tiles.len() == rows(tiles_before).len());
                    assert forall|k: int| 0 <= k < self.tiles.len() implies (#[trigger] self.tiles@[k]).len()
                        == old(self).tiles@[k].len() by {
                        assert(self@.tiles[k] == self.tiles@[k]@);
                        assert(rows(tiles_before)[k] == tiles_before[k]@);
                    }
                }
            }
            i += 1;
        }
        let ghost cleared = self@.tiles;
        let ghost box_ints = as_ints(boxes@);
        let mut i: usize = 0;
        while i < boxes.len()
            invariant
                i <= boxes.len(),
                self.robot == old(self).robot,
                self.widened == old(self).widened,
                put_down(cleared, box_ints, direction, 0) == put_down(
                    self@.tiles,
                    box_ints,
                    direction,
                    i as int,
                ),
            decreases boxes.len() - i,
        {
            assert(box_ints[i as int] == (boxes@[i as int].0 as int, boxes@[i as int].1 as int));
            match toward(boxes[i], direction) {
                Some((r, c)) => {
                    self.set_tile(r, c, Tile::Box);
                },
                None => {
                    proof {
                        let r2 = boxes@[i as int].0 + direction.rows();
                        let c2 = boxes@[i as int].1 + direction.cols();
                        assert(on(start.tiles, r2, c2));
                        old(self).lemma_off(r2, c2);
                        assert(false);
                    }
                },
            }
            i += 1;
        }
        self.robot = next_robot;
    }

    /// Lets the robot try the moves one after the other.
    pub fn apply_directions(&mut self, direction: &Vec<Direction>)
        ensures
            final(self)@ == old(self)@.after_moves(direction@, 0),
    {
        let mut i: usize = 0;
        while i < direction.len()
            invariant
                i <= direction.len(),
                old(self)@.after_moves(direction@, 0) == self@.after_moves(direction@, i as int),
            decreases direction.len() - i,
        {
            self.move_robot(direction[i]);
            i += 1;
        }
    }

    /// Draws the warehouse: a line for every row, and the position of the
    /// robot after them.
    pub fn to_text(&self) -> (r: String)
        ensures
            r@ == self@.drawn_from(0),
    {
        let ghost m = self@;
        let mut text: Vec<char> = Vec::new();
        let mut row: usize = 0;
        assert(text@ + m.drawn_from(0) =~= m.drawn_from(0));
        while row < self.tiles.len()
            invariant
                row <= self.tiles.len(),
                m == self@,
                m.drawn_from(0) == text@ + m.drawn_from(row as int),
            decreases self.tiles.len() - row,
        {
            let ghost before = text@;
            let ghost line = m.drawn_row(row as int);
            assert(m.tiles[row as int] == self.tiles@[row as int]@);
            let mut col: usize = 0;
            assert(before + line.take(0) =~= before);
            while col < self.tiles[row].len()
                invariant
                    row < self.tiles.len(),
                    col <= self.tiles[row as int].len(),
                    m == self@,
                    line == m.drawn_row(row as int),
                    line.len() == self.tiles[row as int].len(),
                    text@ == before + line.take(col as int),
                decreases self.tiles[row as int].len() - col,
            {
                let sign = self.get_state((row, col)).to_string(self.widened);
                text.push(sign);
                assert(line.take(col + 1) =~= line.take(col as int).push(line[col as int]));
                assert(text@ =~= before + line.take(col + 1));
                col += 1;
            }
            text.push('\n');
            assert(line.take(col as int) =~= line);
            assert(text@ + m.drawn_from(row + 1) =~= before + (line + seq!['\n'] + m.drawn_from(row + 1)));
            row += 1;
        }
        let ghost drawn = text@;
        let mut head = chars_of("Robot: (");
        let mut first = format_usize(self.robot.0);
        let mut between = chars_of(", ");
        let mut second = format_usize(self.robot.1);
        let mut tail = chars_of(")");
        text.append(&mut head);
        text.append(&mut first);
        text.append(&mut between);
        text.append(&mut second);
        text.append(&mut tail);
        assert(text@ =~= drawn + m.robot_text());
        string_of(&text)
    }

    /// The sum of the coordinates of the boxes.
    pub fn gps_sum(&self) -> (r: Option<usize>)
        ensures
            r == self@.gps_from(0, 0, 0),
    {
        let ghost m = self@;
        let mut total: usize = 0;
        let mut row: usize = 0;
        while row < self.tiles.len()
            invariant
                row <= self.tiles.len(),
                m == self@,
                m.gps_from(0, 0, 0) == m.gps_from(row as int, 0, total),
            decreases self.tiles.len() - row,
        {
            assert(m.tiles[row as int] == self.tiles@[row as int]@);
            let mut col: usize = 0;
            while col < self.tiles[row].len()
                invariant
                    row < self.tiles.len(),
                    col <= self.tiles@[row as int].len(),
                    m == self@,
                    m.tiles[row as int] == self.tiles@[row as int]@,
                    m.gps_from(0, 0, 0) == m.gps_from(row as int, col as int, total),
                decreases self.tiles@[row as int].len() - col,
            {
                if self.tiles[row][col] == Tile::Box {
                    let place = match row.checked_mul(100) {
                        Some(hundreds) => hundreds.checked_add(col),
                        None => None,
                    };
                    let more = match place {
                        Some(place) => total.checked_add(place),
                        None => None,
                    };
                    match more {
                        Some(more) => {
                            total = more;
                        },
                        None => {
                            return None;
                        },
                    }
                }
                col += 1;
            }
            row += 1;
        }
        Some(total)
    }

    /// Makes the warehouse twice as wide. `false` where the machine cannot
    /// count its tiles then; the warehouse is then as it was.
    #[verifier::loop_isolation(false)]
    pub fn widen(&mut self) -> (done: bool)
        ensures
            done == old(self)@.can_widen(),
            done ==> final(self)@ == old(self)@.widened(),
            !done ==> final(self)@ == old(self)@,
    {
        let ghost m = self@;
        let robot_col = match self.robot.1.checked_mul(2) {
            Some(col) => col,
            None => {
                return false;
            },
        };
        let mut wide: Vec<Vec<Tile>> = Vec::new();
        let mut r: usize = 0;
        while r < self.tiles.len()
            invariant
                r <= self.tiles.len(),
                self@ == m,
                wide.len() == r,
                forall|k: int| 0 <= k < r ==> 2 * (#[trigger] m.tiles[k]).len() <= usize::MAX,
                forall|k: int|
                    0 <= k < r ==> (#[trigger] wide@[k])@ == Seq::new(
                        2 * m.tiles[k].len(),
                        |c: int|
                            if c % 2 == 0 {
                                m.tiles[k][c / 2]
                            } else {
                                Tile::Free
                            },
                    ),
            decreases self.tiles.len() - r,
        {
            assert(m.tiles[r as int] == self.tiles@[r as int]@);
            if self.tiles[r].len() > usize::MAX / 2 {
                return false;
            }
            let mut row: Vec<Tile> = Vec::new();
            let mut c: usize = 0;
            while c < self.tiles[r].len()
                invariant
                    c <= self.tiles@[r as int].len(),
                    row.len() == 2 * c,
                    forall|j: int|
                        0 <= j < 2 * c ==> #[trigger] row@[j] == (if j % 2 == 0 {
                            m.tiles[r as int][j / 2]
                        } else {
                            Tile::Free
                        }),
                decreases self.tiles@[r as int].len() - c,
            {
                row.push(self.tiles[r][c]);
                row.push(Tile::Free);
                c += 1;
            }
            assert(row@ =~= Seq::new(
                2 * m.tiles[r as int].len(),
                |c: int|
                    if c % 2 == 0 {
                        m.tiles[r as int][c / 2]
                    } else {
                        Tile::Free
                    },
            ));
            wide.push(row);
            r += 1;
        }
        self.tiles = wide;
        self.robot = (self.robot.0, robot_col);
        self.widened = true;
        assert(self@.tiles =~= m.widened().tiles);
        true
    }
}

/// The position of the last `@` in the first `cols` characters of a line,
/// or `acc` where there is none.
pub open spec fn robot_in_line(line: Seq<char>, row: int, cols: int, acc: (int, int)) -> (int, int)
    decreases cols,
{
    if cols <= 0 || cols > line.len() {
        acc
    } else if line[cols - 1] == '@' {
        (row, cols - 1)
    } else {
        robot_in_line(line, row, cols - 1, acc)
    }
}

/// The position of the last `@` in the first `count` lines, or the first
/// position where there is none.
pub open spec fn robot_in_lines(lines: Seq<Seq<char>>, count: int) -> (int, int)
    decreases count,
{
    if count <= 0 || count > lines.len() {
        (0, 0)
    } else {
        robot_in_line(
            lines[count - 1],
            count - 1,
            lines[count - 1].len() as int,
            robot_in_lines(lines, count - 1),
        )
    }
}

/// The tile that a character of the map draws.
pub open spec fn tile_of(c: char) -> Option<Tile> {
    match State::of_char(c) {
        Some(State::Box) => Some(Tile::Box),
        Some(State::Wall) => Some(Tile::Wall),
        Some(_) => Some(Tile::Free),
        None => None,
    }
}

/// The warehouse that a map draws: `#` is a wall, `O` a box, `@` the robot
/// and `.` free floor. `None` where another character occurs.
pub open spec fn parse_warehouse(map: Seq<char>) -> Option<WarehouseModel> {
    let ls = lines(map);
    if forall|r: int, c: int| 0 <= r < ls.len() && 0 <= c < ls[r].len() ==> tile_of(#[trigger] ls[r][c]) is Some {
        Some(
            WarehouseModel {
                tiles: Seq::new(
                    ls.len(),
                    |r: int| Seq::new(ls[r].len(), |c: int| tile_of(ls[r][c]).unwrap()),
                ),
                robot: robot_in_lines(ls, ls.len() as int),
                widened: false,
            },
        )
    } else {
        None
    }
}

/// The directions that the characters from `i` on name, added to `acc`;
/// other characters are passed over.
pub open spec fn directions_from(text: Seq<char>, i: int, acc: Seq<Direction>) -> Seq<Direction>
    decreases text.len() - i,
{
    if i < 0 || i >= text.len() {
        acc
    } else {
        directions_from(
            text,
            i + 1,
            match Direction::of_char(text[i]) {
                Some(d) => acc.push(d),
                None => acc,
            },
        )
    }
}

/// The warehouse and the moves of a puzzle text: the map, an empty line,
/// and the moves.
pub open spec fn parse_puzzle(input: Seq<char>) -> Option<(WarehouseModel, Seq<Direction>)> {
    match split_once(input, "\n\n"@) {
        Some((map, moves)) => match parse_warehouse(map) {
            Some(warehouse) => Some((warehouse, directions_from(moves, 0, Seq::empty()))),
            None => None,
        },
        None => None,
    }
}

#[verifier::loop_isolation(false)]
fn parse_map(map: &Vec<char>) -> (r: Option<Warehouse>)
    ensures
        match r {
            Some(warehouse) => parse_warehouse(map@) == Some(warehouse@),
            None => parse_warehouse(map@) is None,
        },
{
    let all = lines_of(map);
    let ghost ls = rows(all@);
    let mut tiles: Vec<Vec<Tile>> = Vec::new();
    let mut robot: (usize, usize) = (0, 0);
    let mut r: usize = 0;
    while r < all.len()
        invariant
            r <= all.len(),
            tiles.len() == r,
            (robot.0 as int, robot.1 as int) == robot_in_lines(ls, r as int),
            forall|k: int, c: int|
                0 <= k < r && 0 <= c < ls[k].len() ==> tile_of(#[trigger] ls[k][c]) is Some,
            forall|k: int|
                0 <= k < r ==> (#[trigger] tiles@[k])@ == Seq::new(
                    ls[k].len(),
                    |c: int| tile_of(ls[k][c]).unwrap(),
                ),
        decreases all.len() - r,
    {
        let line = &all[r];
        assert(ls[r as int] == line@);
        let mut row: Vec<Tile> = Vec::new();
        let mut c: usize = 0;
        while c < line.len()
            invariant
                c <= line.len(),
                row.len() == c,
                forall|j: int| 0 <= j < c ==> tile_of(#[trigger] line@[j]) is Some,
                forall|j: int| 0 <= j < c ==> #[trigger] row@[j] == tile_of(line@[j]).unwrap(),
            decreases line.len() - c,
        {
            match State::from_char(line[c]) {
                Some(State::Box) => {
                    row.push(Tile::Box);
                },
                Some(State::Wall) => {
                    row.push(Tile::Wall);
                },
                Some(_) => {
                    row.push(Tile::Free);
                },
                None => {
                    assert(tile_of(ls[r as int][c as int]) is None);
                    return None;
                },
            }
            c += 1;
        }
        assert(row@ =~= Seq::new(ls[r as int].len(), |c: int| tile_of(ls[r as int][c]).unwrap()));
        tiles.push(row);
        let ghost before = (robot.0 as int, robot.1 as int);
        let mut col: usize = line.len();
        let mut found = false;
        while col > 0 && !found
            invariant
                col <= line.len(),
                !found ==> robot_in_line(line@, r as int, line.len() as int, before)
                    == robot_in_line(line@, r as int, col as int, before),
                !found ==> (robot.0 as int, robot.1 as int) == before,
                found ==> (robot.0 as int, robot.1 as int) == robot_in_line(
                    line@,
                    r as int,
                    line.len() as int,
                    before,
                ),
            decreases col + (if found { 0int } else { 1int }),
        {
            if line[col - 1] == '@' {
                robot = (r, col - 1);
                found = true;
            } else {
                col -= 1;
            }
        }
        r += 1;
    }
    let warehouse = Warehouse { tiles, robot, widened: false };
    assert(warehouse@.tiles =~= parse_warehouse(map@).unwrap().tiles);
    Some(warehouse)
}

/// Reads the warehouse and the moves of a puzzle text.
pub fn parse_input(input: &Vec<char>) -> (r: Option<(Warehouse, Vec<Direction>)>)
    ensures
        match r {
            Some((warehouse, directions)) => parse_puzzle(input@) == Some(
                (warehouse@, directions@),
            ),
            None => parse_puzzle(input@) is None,
        },
{
    let (map, moves) = match split_once_at(input, "\n\n") {
        Some(parts) => parts,
        None => {
            return None;
        },
    };
    let warehouse = match parse_map(&map) {
        Some(warehouse) => warehouse,
        None => {
            return None;
        },
    };
    let mut directions: Vec<Direction> = Vec::new();
    let mut i: usize = 0;
    while i < moves.len()
        invariant
            i <= moves.len(),
            directions_from(moves@, 0, Seq::empty()) == directions_from(
                moves@,
                i as int,
                directions@,
            ),
        decreases moves.len() - i,
    {
        if let Some(d) = Direction::from_char(moves[i]) {
            directions.push(d);
        }
        i += 1;
    }
    Some((warehouse, directions))
}

/// The answer of a part.
pub open spec fn solve(input: Seq<char>, part: Part) -> Option<Answer> {
    match parse_puzzle(input) {
        Some((warehouse, directions)) => if part == Part::Two && !warehouse.can_widen() {
            None
        } else {
            let first = if part == Part::Two {
                warehouse.widened()
            } else {
                warehouse
            };
            match first.after_moves(directions, 0).gps_from(0, 0, 0) {
                Some(n) => Some(Answer::Number(n)),
                None => None,
            }
        },
        None => None,
    }
}

pub struct Day;

impl Solution for Day {
    open spec fn answer(&self, input: Seq<char>, part: Part) -> Option<Answer> {
        solve(input, part)
    }

    fn part1(&self, input: &str) -> (r: Option<SolvedValue>) {
        let chars = chars_of(input);
        let (mut warehouse, directions) = match parse_input(&chars) {
            Some(parsed) => parsed,
            None => {
                return None;
            },
        };
        warehouse.apply_directions(&directions);
        match warehouse.gps_sum() {
            Some(n) => Some(SolvedValue::Number(n)),
            None => None,
        }
    }

    fn part2(&self, input: &str) -> (r: Option<SolvedValue>) {
        let chars = chars_of(input);
        let (mut warehouse, directions) = match parse_input(&chars) {
            Some(parsed) => parsed,
            None => {
                return None;
            },
        };
        if !warehouse.widen() {
            return None;
        }
        warehouse.apply_directions(&directions);
        match warehouse.gps_sum() {
            Some(n) => Some(SolvedValue::Number(n)),
            None => None,
        }
    }
}

} // verus!
