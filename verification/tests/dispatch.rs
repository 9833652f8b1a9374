use rustvent::days::{day01, day03, day09, day17, day22, get_day, LAST_DAY};
use rustvent::solution::{Part, Solution, SolvedValue};

const LISTS: &str = "3   4\n4   3\n2   5\n1   3\n3   9\n3   3\n";
const DISK: &str = "2333133121414131402";
const PROGRAM: &str = "Register A: 729\nRegister B: 0\nRegister C: 0\n\nProgram: 0,1,5,4,3,0";

#[test]
fn every_registered_day_has_a_solver() {
    assert_eq!(LAST_DAY, 20);
    for day in 0..=LAST_DAY {
        assert!(get_day(day).is_some(), "day {day}");
    }
}

#[test]
fn days_beyond_the_last_have_no_solver() {
    for day in [21, 22, 23, 24, 25, 26, 99, 1000, usize::MAX] {
        assert!(get_day(day).is_none(), "day {day}");
    }
}

#[test]
fn dispatched_solver_is_the_solver_of_its_day() {
    let solver = get_day(1).unwrap();
    assert_eq!(solver.part1(LISTS), day01::Day.part1(LISTS));
    assert_eq!(solver.part2(LISTS), day01::Day.part2(LISTS));
    assert_eq!(solver.part1(LISTS), Some(SolvedValue::Number(11)));
    let solver = get_day(9).unwrap();
    assert_eq!(solver.part1(DISK), Some(SolvedValue::Number(1928)));
    assert_eq!(solver.part2(DISK), Some(SolvedValue::Number(2858)));
    let solver = get_day(17).unwrap();
    assert_eq!(
        solver.part1(PROGRAM),
        Some(SolvedValue::Text("4,6,3,5,6,3,5,2,1,0".to_string()))
    );
}

#[test]
fn placeholder_day_answers_nothing() {
    let solver = get_day(0).unwrap();
    assert_eq!(solver.part1(LISTS), None);
    assert_eq!(solver.part2(LISTS), None);
    assert_eq!(solver.run("", Part::One), None);
}

#[test]
fn run_picks_the_part() {
    assert_eq!(day01::Day.run(LISTS, Part::One), Some(SolvedValue::Number(11)));
    assert_eq!(day01::Day.run(LISTS, Part::Two), Some(SolvedValue::Number(31)));
    assert_eq!(day09::Day.run(DISK, Part::One), day09::Day.part1(DISK));
    assert_eq!(day09::Day.run(DISK, Part::Two), day09::Day.part2(DISK));
}

#[test]
fn solving_the_same_input_twice_gives_the_same_answer() {
    let secrets = "1\n10\n100\n2024\n";
    let memory = "xmul(2,4)%&mul[3,7]!@^do_not_mul(5,5)+mul(32,64]then(mul(11,8)mul(8,5))";
    for (day, input) in [(1, LISTS), (3, memory), (9, DISK), (11, "125 17"), (17, PROGRAM), (0, ""), (5, "")] {
        for part in [Part::One, Part::Two] {
            let first = get_day(day).unwrap().run(input, part);
            let second = get_day(day).unwrap().run(&input.to_string(), part);
            assert_eq!(first, second, "day {day}");
        }
    }
    assert_eq!(day03::Day.part1(memory), day03::Day.part1(memory));
    assert_eq!(day22::Day.part1(secrets), day22::Day.part1(secrets));
    assert_eq!(day22::Day.part2(secrets), day22::Day.part2(secrets));
    assert_eq!(day17::Day.part1(PROGRAM), day17::Day.part1(PROGRAM));
}

#[test]
fn parts_have_their_numbers() {
    assert_eq!(Part::One.number(), 1);
    assert_eq!(Part::Two.number(), 2);
    assert_eq!(u8::from(Part::One), 1);
    assert_eq!(u8::from(Part::Two), 2);
    assert_eq!(Part::One.to_text(), "1");
    assert_eq!(Part::Two.to_text(), "2");
    assert_ne!(Part::One, Part::Two);
}

#[test]
fn answers_are_numbers_or_texts() {
    assert_eq!(SolvedValue::from(42usize), SolvedValue::Number(42));
    assert_eq!(SolvedValue::from("6,1"), SolvedValue::Text("6,1".to_string()));
    assert_eq!(SolvedValue::from("6,1".to_string()), SolvedValue::Text("6,1".to_string()));
    assert_ne!(SolvedValue::Number(61), SolvedValue::Text("61".to_string()));
    assert_ne!(SolvedValue::Number(1), SolvedValue::Number(2));
    assert_ne!(SolvedValue::Text("a".to_string()), SolvedValue::Text("b".to_string()));
    assert_eq!(SolvedValue::Number(0).to_text(), "0");
    assert_eq!(SolvedValue::Number(65601038650482).to_text(), "65601038650482");
    assert_eq!(SolvedValue::Text("co,de,ka,ta".to_string()).to_text(), "co,de,ka,ta");
    assert_eq!(SolvedValue::Number(7).clone(), SolvedValue::Number(7));
}
