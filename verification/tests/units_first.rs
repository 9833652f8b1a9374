use rustvent::days::{day01, day02, day03, day04, day05, day06, day07};
use rustvent::solution::{Solution, SolvedValue};
use rustvent::text::chars_of;

fn grid(lines: &[&str]) -> Vec<Vec<char>> {
    lines.iter().map(|line| line.chars().collect()).collect()
}

#[test]
fn location_lists_are_read_and_sorted() {
    let (left, right) = day01::get_left_right_lists(&chars_of("3   4\n4   3\n2   5\n")).unwrap();
    assert_eq!(left, vec![3, 4, 2]);
    assert_eq!(right, vec![4, 3, 5]);
    assert_eq!(day01::sort(&vec![3, 4, 2, 1, 3, 3]), vec![1, 2, 3, 3, 3, 4]);
    assert_eq!(day01::sort(&vec![]), Vec::<i64>::new());
    assert_eq!(day01::sort(&vec![5, -1, 5, i64::MIN, i64::MAX]), vec![i64::MIN, -1, 5, 5, i64::MAX]);
    assert!(day01::get_left_right_lists(&chars_of("3   x\n")).is_none());
    assert!(day01::get_left_right_lists(&chars_of("3\n")).is_none());
}

#[test]
fn location_lists_of_one_line() {
    assert_eq!(day01::Day.part1("1 5\n"), Some(SolvedValue::Number(4)));
    assert_eq!(day01::Day.part1("5 1\n"), Some(SolvedValue::Number(4)));
    assert_eq!(day01::Day.part2("5 1\n"), Some(SolvedValue::Number(0)));
    assert_eq!(day01::Day.part2("5 5\n5 5\n"), Some(SolvedValue::Number(20)));
    assert_eq!(day01::Day.part1(""), Some(SolvedValue::Number(0)));
    assert_eq!(day01::Day.part1("one two\n"), None);
    assert_eq!(day01::Day.part2("1 2\n3\n"), None);
}

#[test]
fn reports_are_judged() {
    assert_eq!(day02::report_okay(&vec![7, 6, 4, 2, 1]), None);
    assert_eq!(day02::report_okay(&vec![1, 3, 6, 7, 9]), None);
    assert!(day02::report_okay(&vec![1, 2, 7, 8, 9]).is_some());
    assert!(day02::report_okay(&vec![9, 7, 6, 2, 1]).is_some());
    assert!(day02::report_okay(&vec![1, 3, 2, 4, 5]).is_some());
    assert!(day02::report_okay(&vec![8, 6, 4, 4, 1]).is_some());
    assert!(day02::check_is_save_part2(&vec![7, 6, 4, 2, 1], false));
    assert!(!day02::check_is_save_part2(&vec![1, 2, 7, 8, 9], false));
    assert!(!day02::check_is_save_part2(&vec![9, 7, 6, 2, 1], false));
    assert!(day02::check_is_save_part2(&vec![1, 3, 2, 4, 5], false));
    assert!(day02::check_is_save_part2(&vec![8, 6, 4, 4, 1], false));
    assert!(day02::check_is_save_part2(&vec![1, 3, 6, 7, 9], false));
    assert!(!day02::check_is_save_part2(&vec![1, 3, 2, 4, 5], true));
    assert!(day02::check_is_save_part2(&vec![1, 3, 6, 7, 9], true));
    assert_eq!(
        day02::get_reports(&chars_of("7 6 4\n1 2\n")),
        Some(vec![vec![7, 6, 4], vec![1, 2]])
    );
    assert_eq!(day02::get_reports(&chars_of("7 six 4\n")), None);
    assert_eq!(day02::Day.part1("7 six 4\n"), None);
}

#[test]
fn multiplications_are_found() {
    assert_eq!(day03::nom_multiplication(&chars_of("mul(2,4)"), 0), Some((2, 4, 8)));
    assert_eq!(day03::nom_multiplication(&chars_of("xmul(2,4)"), 0), None);
    assert_eq!(day03::nom_multiplication(&chars_of("xmul(2,4)"), 1), Some((2, 4, 9)));
    assert_eq!(day03::nom_multiplication(&chars_of("mul(32,64]"), 0), None);
    assert_eq!(day03::nom_multiplication(&chars_of("mul ( 2 , 4 )"), 0), None);
    assert_eq!(day03::nom_multiplication(&chars_of("mul(4*"), 0), None);
    assert_eq!(day03::nom_multiplication(&chars_of("mul(6,9!"), 0), None);
    assert_eq!(day03::nom_multiplication(&chars_of("mul(2,4)"), 8), None);
    assert_eq!(day03::nom_muls(&chars_of("mul(11,8)mul(8,5)")), Some(128));
    assert_eq!(day03::nom_muls(&chars_of("nothing here")), Some(0));
    assert_eq!(day03::Day.part1(""), Some(SolvedValue::Number(0)));
    assert_eq!(day03::Day.part2("don't()mul(2,3)do()mul(3,3)"), Some(SolvedValue::Number(9)));
    assert_eq!(day03::Day.part2("mul(2,3)don't()mul(3,3)"), Some(SolvedValue::Number(6)));
}

#[test]
fn words_are_searched_in_eight_directions() {
    let all = day04::Direction::all();
    assert_eq!(all.len(), 8);
    assert_eq!(all[0], day04::Direction::Up);
    assert_eq!(all[7], day04::Direction::UpLeft);
    assert_eq!(day04::Direction::Up.get_vector(), (0, -1));
    assert_eq!(day04::Direction::DownRight.get_vector(), (1, 1));
    assert_eq!(day04::Direction::Left.get_vector(), (-1, 0));
    let mut sum = (0, 0);
    for direction in all {
        let vector = direction.get_vector();
        assert_ne!(vector, (0, 0));
        sum = (sum.0 + vector.0, sum.1 + vector.1);
    }
    assert_eq!(sum, (0, 0));
    let letters = grid(&["XMAS", "M...", "A...", "S..X"]);
    let word = chars_of("XMAS");
    assert!(day04::search_in_dir(&letters, 0, 0, day04::Direction::Right, &word));
    assert!(day04::search_in_dir(&letters, 0, 0, day04::Direction::Down, &word));
    assert!(!day04::search_in_dir(&letters, 0, 0, day04::Direction::DownRight, &word));
    assert!(!day04::search_in_dir(&letters, 0, 0, day04::Direction::Left, &word));
    assert!(!day04::search_in_dir(&letters, 3, 3, day04::Direction::Right, &word));
    assert!(day04::search_in_dir(&letters, 3, 0, day04::Direction::Left, &chars_of("SAMX")));
    assert!(day04::search_in_dir(&letters, 0, 3, day04::Direction::Up, &chars_of("SAMX")));
    assert_eq!(day04::Day.part1("XMAS\nM...\nA...\nS..X\n"), Some(SolvedValue::Number(2)));
}

#[test]
fn crossed_words_are_found() {
    let cross = grid(&["M.S", ".A.", "M.S"]);
    assert!(day04::check_x_mas(&cross, 1, 1));
    let cross = grid(&["S.S", ".A.", "M.M"]);
    assert!(day04::check_x_mas(&cross, 1, 1));
    let plus = grid(&[".M.", "MAS", ".S."]);
    assert!(!day04::check_x_mas(&plus, 1, 1));
    let broken = grid(&["M.S", ".A.", "S.M"]);
    assert!(!day04::check_x_mas(&broken, 1, 1));
    assert_eq!(day04::Day.part2("M.S\n.A.\nM.S\n"), Some(SolvedValue::Number(1)));
    assert_eq!(day04::Day.part2("M.S\n.A.\n"), Some(SolvedValue::Number(0)));
    assert_eq!(day04::Day.part2(""), None);
}

const RULES: &str = "47|53\n97|13\n97|61\n97|47\n75|29\n61|13\n75|53\n29|13\n97|29\n53|29\n61|53\n97|53\n61|29\n47|13\n75|47\n97|75\n47|61\n75|61\n47|29\n75|13\n53|13\n\n75,47,61,53,29\n97,61,53,29,13\n75,29,13\n75,97,47,61,53\n61,13,29\n97,13,75,29,47\n";

#[test]
fn updates_are_put_in_order() {
    let (raw, updates) = day05::parse_input(&chars_of(RULES)).unwrap();
    assert_eq!(raw.len(), 21);
    assert_eq!(raw[0], (47, 53));
    assert_eq!(raw[20], (53, 13));
    assert_eq!(updates.len(), 6);
    assert_eq!(updates[2], vec![75, 29, 13]);
    let rules = day05::get_rules_map(&raw);
    let sorted: Vec<bool> = updates.iter().map(|u| day05::is_pages_sorted(u, &rules)).collect();
    assert_eq!(sorted, vec![true, true, true, false, false, false]);
    assert_eq!(day05::sorted_pages(&updates[3], &rules), vec![97, 75, 47, 61, 53]);
    assert_eq!(day05::sorted_pages(&updates[4], &rules), vec![61, 29, 13]);
    assert_eq!(day05::sorted_pages(&updates[5], &rules), vec![97, 75, 47, 29, 13]);
    assert_eq!(day05::sorted_pages(&updates[0], &rules), updates[0]);
    assert_eq!(day05::middle_page(&vec![75, 47, 61, 53, 29]), Some(61));
    assert_eq!(day05::middle_page(&vec![75, 29, 13]), Some(29));
    assert_eq!(day05::middle_page(&vec![7]), Some(7));
    assert_eq!(day05::middle_page(&vec![]), None);
}

#[test]
fn updates_without_rules_are_refused() {
    assert_eq!(day05::Day.part1("47|53\n75,47\n"), None);
    assert_eq!(day05::Day.part1("47-53\n\n75,47\n"), None);
    assert_eq!(day05::Day.part1("47|53\n\n75;47\n"), None);
    assert_eq!(day05::Day.part2(""), None);
}

const LAB: &str = "....#.....\n.........#\n..........\n..#.......\n.......#..\n..........\n.#..^.....\n........#.\n#.........\n......#...\n";

#[test]
fn the_guard_walks_out_of_the_lab() {
    let mut field = day06::parse_input(&chars_of(LAB)).unwrap();
    assert_eq!(field.rows, 10);
    assert_eq!(field.cols, 10);
    assert_eq!(field.guard_pos, Some((6, 4)));
    assert_eq!(field.guard_dir, day06::Direction::Up);
    assert!(field.is_guard_inside());
    assert!(field.is_step_possible());
    assert!(field.simulate_to_exit());
    assert!(!field.is_guard_inside());
    assert_eq!(field.visited.len(), 41);
    assert_eq!(field.visited[0], (6, 4));
    assert_eq!(field.visited[1], (5, 4));
}

#[test]
fn an_obstacle_keeps_the_guard_inside() {
    let field = day06::parse_input(&chars_of(LAB)).unwrap();
    for spot in [(6, 3), (7, 6), (7, 7), (8, 1), (8, 3), (9, 7)] {
        assert!(field.loops_with(spot), "{spot:?}");
    }
    for spot in [(0, 0), (5, 4), (1, 4), (9, 9)] {
        assert!(!field.loops_with(spot), "{spot:?}");
    }
    let mut walled = day06::parse_input(&chars_of(".#.\n#^#\n.#.\n")).unwrap();
    assert!(walled.is_looping());
    let mut open = day06::parse_input(&chars_of("...\n.^.\n...\n")).unwrap();
    assert!(!open.is_looping());
}

#[test]
fn directions_turn_right() {
    assert_eq!(day06::Direction::Up.turn_right(), day06::Direction::Right);
    assert_eq!(day06::Direction::Right.turn_right(), day06::Direction::Down);
    assert_eq!(day06::Direction::Down.turn_right(), day06::Direction::Left);
    assert_eq!(day06::Direction::Left.turn_right(), day06::Direction::Up);
}

#[test]
fn a_lab_without_a_guard_is_refused() {
    assert!(day06::parse_input(&chars_of("...\n...\n")).is_none());
    assert!(day06::parse_input(&chars_of("..x\n.^.\n")).is_some());
    assert_eq!(day06::Day.part1("...\n...\n"), None);
    assert_eq!(day06::Day.part1("^\n"), Some(SolvedValue::Number(1)));
    assert_eq!(day06::Day.part2("^\n"), Some(SolvedValue::Number(0)));
}

#[test]
fn operators_are_applied() {
    assert_eq!(day07::Operator::Add.apply(2, 3), Some(5));
    assert_eq!(day07::Operator::Multiply.apply(2, 3), Some(6));
    assert_eq!(day07::Operator::Concat.apply(12, 345), Some(12345));
    assert_eq!(day07::Operator::Concat.apply(15, 6), Some(156));
    assert_eq!(day07::Operator::Concat.apply(1, 0), None);
    assert_eq!(day07::Operator::Concat.apply(0, 7), Some(7));
    assert_eq!(day07::Operator::Concat.apply(7, 100), Some(7100));
    assert_eq!(day07::Operator::Add.apply(usize::MAX, 1), None);
    assert_eq!(day07::Operator::Multiply.apply(usize::MAX, 2), None);
    assert_eq!(day07::Operator::Concat.apply(usize::MAX, 1), None);
}

#[test]
fn equations_are_tried_with_every_operator() {
    let plain = vec![day07::Operator::Add, day07::Operator::Multiply];
    let all = vec![day07::Operator::Add, day07::Operator::Multiply, day07::Operator::Concat];
    assert_eq!(day07::is_solvable(&(190, vec![10, 19]), &plain), Some(true));
    assert_eq!(day07::is_solvable(&(3267, vec![81, 40, 27]), &plain), Some(true));
    assert_eq!(day07::is_solvable(&(83, vec![17, 5]), &plain), Some(false));
    assert_eq!(day07::is_solvable(&(156, vec![15, 6]), &plain), Some(false));
    assert_eq!(day07::is_solvable(&(156, vec![15, 6]), &all), Some(true));
    assert_eq!(day07::is_solvable(&(7290, vec![6, 8, 6, 15]), &plain), Some(false));
    assert_eq!(day07::is_solvable(&(7290, vec![6, 8, 6, 15]), &all), Some(true));
    assert_eq!(day07::is_solvable(&(192, vec![17, 8, 14]), &all), Some(true));
    assert_eq!(day07::is_solvable(&(21037, vec![9, 7, 18, 13]), &all), Some(false));
    assert_eq!(day07::is_solvable(&(5, vec![5]), &plain), Some(true));
    assert_eq!(day07::is_solvable(&(5, vec![6]), &plain), Some(false));
    assert_eq!(
        day07::parse_equations(&chars_of("190: 10 19\n83: 17 5\n")),
        Some(vec![(190, vec![10, 19]), (83, vec![17, 5])])
    );
    assert_eq!(day07::parse_equations(&chars_of("190 10 19\n")), None);
    assert_eq!(day07::parse_equations(&chars_of("190: 10 x\n")), None);
    assert_eq!(day07::Day.part1("190 10 19\n"), None);
}
