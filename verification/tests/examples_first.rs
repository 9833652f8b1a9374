use rustvent::days::{day00, day01, day02, day03, day04, day05, day06, day07, day08, day09};
use rustvent::solution::Solution;

const DAY01: &str = "3   4
4   3
2   5
1   3
3   9
3   3
";

const DAY02: &str = "7 6 4 2 1
1 2 7 8 9
9 7 6 2 1
1 3 2 4 5
8 6 4 4 1
1 3 6 7 9
";

const DAY03_FIRST: &str = "xmul(2,4)%&mul[3,7]!@^do_not_mul(5,5)+mul(32,64]then(mul(11,8)mul(8,5))";

const DAY03_SECOND: &str =
    "xmul(2,4)&mul[3,7]!^don't()_mul(5,5)+mul(32,64](mul(11,8)undo()?mul(8,5))";

const DAY04: &str = "MMMSXXMASM
MSAMXMSMSA
AMXSXMAAMM
MSAMASMSMX
XMASAMXAMM
XXAMMXXAMA
SMSMSASXSS
SAXAMASAAA
MAMMMXMMMM
MXMXAXMASX
";

const DAY05: &str = "47|53
97|13
97|61
97|47
75|29
61|13
75|53
29|13
97|29
53|29
61|53
97|53
61|29
47|13
75|47
97|75
47|61
75|61
47|29
75|13
53|13

75,47,61,53,29
97,61,53,29,13
75,29,13
75,97,47,61,53
61,13,29
97,13,75,29,47
";

const DAY06: &str = "....#.....
.........#
..........
..#.......
.......#..
..........
.#..^.....
........#.
#.........
......#...
";

const DAY07: &str = "190: 10 19
3267: 81 40 27
83: 17 5
156: 15 6
7290: 6 8 6 15
161011: 16 10 13
192: 17 8 14
21037: 9 7 18 13
292: 11 6 16 20
";

const DAY08: &str = "............
........0...
.....0......
.......0....
....0.......
......A.....
............
............
........A...
.........A..
............
............
";

const DAY09: &str = "2333133121414131402";

#[test]
fn day00_test_part1_example() {
    assert_eq!(day00::Day.part1(""), None);
}

#[test]
fn day00_test_part2_example() {
    assert_eq!(day00::Day.part2(""), None);
}

#[test]
fn day01_test_part1_example() {
    assert_eq!(day01::Day.part1(DAY01), Some(11.into()));
}

#[test]
fn day01_test_part2_example() {
    assert_eq!(day01::Day.part2(DAY01), Some(31.into()));
}

#[test]
fn day02_test_part1_example() {
    assert_eq!(day02::Day.part1(DAY02), Some(2.into()));
}

#[test]
fn day02_test_part2_example() {
    assert_eq!(day02::Day.part2(DAY02), Some(4.into()));
}

#[test]
fn test_part2_custom1() {
    let input = "12 7 9 7 5 3";
    assert_eq!(day02::Day.part2(&input), Some(1.into()));
}

#[test]
fn day03_test_part1_example() {
    assert_eq!(day03::Day.part1(DAY03_FIRST), Some(161.into()));
}

#[test]
fn day03_test_part2_example() {
    assert_eq!(day03::Day.part2(DAY03_SECOND), Some(48.into()));
}

#[test]
fn day04_test_part1_example() {
    assert_eq!(day04::Day.part1(DAY04), Some(18.into()));
}

#[test]
fn day04_test_part2_example() {
    assert_eq!(day04::Day.part2(DAY04), Some(9.into()));
}

#[test]
fn day05_test_part1_example() {
    assert_eq!(day05::Day.part1(DAY05), Some(143.into()));
}

#[test]
fn day05_test_part2_example() {
    assert_eq!(day05::Day.part2(DAY05), Some(123.into()));
}

#[test]
fn day06_test_part1_example() {
    assert_eq!(day06::Day.part1(DAY06), Some(41.into()));
}

#[test]
fn day06_test_part2_example() {
    assert_eq!(day06::Day.part2(DAY06), Some(6.into()));
}

#[test]
fn day07_test_part1_example() {
    assert_eq!(day07::Day.part1(DAY07), Some(3749.into()));
}

#[test]
fn day07_test_part2_example() {
    assert_eq!(day07::Day.part2(DAY07), Some(11387.into()));
}

#[test]
fn day08_test_part1_example() {
    assert_eq!(day08::Day.part1(DAY08), Some(14.into()));
}

#[test]
fn day08_test_part2_example() {
    assert_eq!(day08::Day.part2(DAY08), Some(34.into()));
}

#[test]
fn day09_test_part1_example() {
    assert_eq!(day09::Day.part1(DAY09), Some(1928.into()));
}

#[test]
fn day09_test_part2_example() {
    assert_eq!(day09::Day.part2(DAY09), Some(2858.into()));
}
