use rustvent::days::{day10, day11, day12, day14, day15, day16, day17, day18, day19};
use rustvent::solution::Solution;

const DAY10: &str = "89010123
78121874
87430965
96549874
45678903
32019012
01329801
10456732
";

const DAY11: &str = "125 17";

const DAY12: &str = "AAAA
BBCD
BBCC
EEEC
";

const DAY14: &str = "p=0,4 v=3,-3
p=6,3 v=-1,-3
p=10,3 v=-1,2
p=2,0 v=2,-1
p=0,0 v=1,3
p=3,0 v=-2,-2
p=7,6 v=-1,-3
p=3,0 v=-1,-2
p=9,3 v=2,3
p=7,3 v=-1,2
p=2,4 v=2,-3
p=9,5 v=-3,-3
";

const DAY15: &str = "##########
#..O..O.O#
#......O.#
#.OO..O.O#
#..O@..O.#
#O#..O...#
#O..O..O.#
#.OO.O.OO#
#....O...#
##########

<vv>^<v^>v>^vv^v>v<>v^v<v<^vv<<<^><<><>>v<vvv<>^v^>^<<<><<v<<<v^vv^v>^
vvv<<^>^v^^><<>>><>^<<><^vv^^<>vvv<>><^^v>^>vv<>v<<<<v<^v>^<^^>>>^<v<v
><>vv>v^v^<>><>>>><^^>vv>v<^^^>>v^v^<^^>v^^>v^<^v>v<>>v^v^<v>v^^<^^vv<
<<v<^>>^^^^>>>v^<>vvv^><v<<<>^^^vv^<vvv>^>v<^^^^v<>^>vvvv><>>v^<<^^^^^
^><^><>>><>^^<<^^v>>><^<v>^<vv>>v>>>^v><>^v><<<<v>>v<v<v>vvv>^<><<>^><
^>><>^v<><^vvv<^^<><v<<<<<><^v<<<><<<^^<v<^^^><^>>^<v^><<<^>>^v<v^v<v^
>^>>^v>vv>^<<^v<>><<><<v<<v><>v<^vv<<<>^^v^>^^>>><<^v>>v^v><^^>>^<>vv^
<><^^>^^^<><vvvvv^v<v<<>^v<v>v<<^><<><<><<<^^<<<^<<>><<><^^^>^^<>^>v<>
^^>vv<^v^v<vv>^<><v<^v>^^^>>>^^vvv^>vvv<>>>^<^>>>>>^<<^v>^vvv<>^<><<v>
v^^>>><<^^<>>^v^<v^vv<>v^<<>^<^v^v><^<<<><<^<v><v<>vv>>v><v^<vv<>v^<<^
";

const DAY16: &str = "###############
#.......#....E#
#.#.###.#.###.#
#.....#.#...#.#
#.###.#####.#.#
#.#.#.......#.#
#.#.#####.###.#
#...........#.#
###.#.#####.#.#
#...#.....#.#.#
#.#.#.###.#.#.#
#.....#...#.#.#
#.###.#.#.#.#.#
#S..#.....#...#
###############
";

const DAY17: &str = "Register A: 729
Register B: 0
Register C: 0

Program: 0,1,5,4,3,0";

const DAY18: &str = "5,4
4,2
4,5
3,0
2,1
6,3
2,4
1,5
0,6
3,3
2,6
5,1
1,2
5,5
2,5
6,5
1,4
0,4
6,4
1,1
6,1
1,0
0,5
1,6
2,0
";

const DAY19: &str = "r, wr, b, g, bwu, rb, gb, br

brwrr
bggr
gbbr
rrbgbr
ubwu
bwurrg
brgr
bbrgwb
";

#[test]
fn day10_test_part1_example() {
    assert_eq!(day10::Day.part1(DAY10), Some(36.into()));
}

#[test]
fn day10_test_part2_example() {
    assert_eq!(day10::Day.part2(DAY10), Some(81.into()));
}

#[test]
fn day11_test_part1_example() {
    assert_eq!(day11::Day.part1(DAY11), Some(55_312.into()));
}

#[test]
fn day11_test_part2_example() {
    assert_eq!(day11::Day.part2(DAY11), Some(65_601_038_650_482.into()));
}

#[test]
fn day12_test_part1_example() {
    assert_eq!(day12::Day.part1(DAY12), Some(140.into()));
}

#[test]
fn day12_test_part2_example() {
    assert_eq!(day12::Day.part2(DAY12), Some(80.into()));
}

#[test]
fn day14_test_part1_example() {
    assert_eq!(day14::Day.part1(DAY14), Some(12.into()));
}

#[test]
fn day15_test_part1_example() {
    assert_eq!(day15::Day.part1(DAY15), Some(10_092.into()));
}

#[test]
fn day15_test_part2_example() {
    assert_eq!(day15::Day.part2(DAY15), Some(9_021.into()));
}

#[test]
fn day16_test_part1_example() {
    assert_eq!(day16::Day.part1(DAY16), Some(7_036.into()));
}

#[test]
fn day16_test_part2_example() {
    assert_eq!(day16::Day.part2(DAY16), Some(45.into()));
}

#[test]
fn direction_adds() {
    assert_eq!(day16::step((5, 5), day16::Direction::North), (4, 5));
    assert_eq!(day16::step((5, 5), day16::Direction::East), (5, 6));
    assert_eq!(day16::step((5, 5), day16::Direction::South), (6, 5));
    assert_eq!(day16::step((5, 5), day16::Direction::West), (5, 4));
}

#[test]
fn day17_test_part1_example() {
    assert_eq!(day17::Day.part1(DAY17), Some("4,6,3,5,6,3,5,2,1,0".into()));
}

#[test]
fn day18_test_part1_example() {
    assert_eq!(day18::Day.part1(DAY18), Some(22.into()));
}

#[test]
fn day18_test_part2_example() {
    assert_eq!(day18::Day.part2(DAY18), Some("6,1".into()));
}

#[test]
fn day19_test_part1_example() {
    assert_eq!(day19::Day.part1(DAY19), Some(6.into()));
}

#[test]
fn day19_test_part2_example() {
    assert_eq!(day19::Day.part2(DAY19), Some(16.into()));
}
