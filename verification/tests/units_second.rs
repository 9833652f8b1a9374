use rustvent::days::{day08, day09, day10, day11, day12};
use rustvent::solution::{Solution, SolvedValue};
use rustvent::text::chars_of;
use std::collections::HashMap;

const TWO_ANTENNAS: &str = "..........\n..........\n..........\n....a.....\n..........\n.....a....\n..........\n..........\n..........\n..........\n";

const THREE_ANTENNAS: &str = "..........\n..........\n..........\n....a.....\n........a.\n.....a....\n..........\n..........\n..........\n..........\n";

const TOWERS: &str = "T.........\n...T......\n.T........\n..........\n..........\n..........\n..........\n..........\n..........\n..........\n";

#[test]
fn two_antennas_have_two_antinodes() {
    let grid = day08::parse_input(&chars_of(TWO_ANTENNAS)).unwrap();
    assert_eq!(grid.width, 10);
    assert_eq!(grid.height, 10);
    assert_eq!(grid.antennas.len(), 1);
    assert_eq!(grid.antennas[0].frequency, 'a');
    let a = day08::Position { col: 4, row: 3 };
    let b = day08::Position { col: 5, row: 5 };
    assert_eq!(grid.antennas[0].positions, vec![a, b]);
    assert_eq!(
        grid.get_pos_antinodes(a, b, false),
        vec![day08::Position { col: 3, row: 1 }, day08::Position { col: 6, row: 7 }]
    );
    let mut found = grid.get_antinodes(false);
    found.sort_by_key(|p| (p.row, p.col));
    assert_eq!(found, vec![day08::Position { col: 3, row: 1 }, day08::Position { col: 6, row: 7 }]);
    assert_eq!(day08::Day.part1(TWO_ANTENNAS), Some(SolvedValue::Number(2)));
    assert_eq!(day08::Day.part2(TWO_ANTENNAS), Some(SolvedValue::Number(5)));
}

#[test]
fn antinodes_beside_the_grid_do_not_count() {
    assert_eq!(day08::Day.part1(THREE_ANTENNAS), Some(SolvedValue::Number(4)));
    assert_eq!(day08::Day.part2(TOWERS), Some(SolvedValue::Number(9)));
    assert_eq!(day08::Day.part1("a\n"), Some(SolvedValue::Number(0)));
    assert_eq!(day08::Day.part1("aa\n"), Some(SolvedValue::Number(0)));
    assert_eq!(day08::Day.part2("aa\n"), Some(SolvedValue::Number(2)));
    assert_eq!(day08::Day.part1(".aa.\n"), Some(SolvedValue::Number(2)));
    assert_eq!(day08::Day.part1(".ab.\n"), Some(SolvedValue::Number(0)));
    let grid = day08::parse_input(&chars_of(".aa.\n")).unwrap();
    assert!(grid.pos_in_bounds(day08::Position { col: 0, row: 0 }));
    assert!(grid.pos_in_bounds(day08::Position { col: 3, row: 0 }));
    assert!(!grid.pos_in_bounds(day08::Position { col: 4, row: 0 }));
    assert!(!grid.pos_in_bounds(day08::Position { col: 0, row: 1 }));
    assert!(!grid.pos_in_bounds(day08::Position { col: -1, row: 0 }));
    assert!(!grid.pos_in_bounds(day08::Position { col: 0, row: -1 }));
}

#[test]
fn resonant_antinodes_are_listed_in_the_order_found() {
    let grid = day08::parse_input(&chars_of(TWO_ANTENNAS)).unwrap();
    let a = day08::Position { col: 4, row: 3 };
    let b = day08::Position { col: 5, row: 5 };
    let before = day08::Position { col: 3, row: 1 };
    let after = day08::Position { col: 6, row: 7 };
    let last = day08::Position { col: 7, row: 9 };
    assert_eq!(
        grid.get_pos_antinodes(a, b, true),
        vec![a, b, before, after, before, after, last]
    );
}

#[test]
fn a_disk_map_is_read() {
    let (size, used, available) = day09::parse_input(&chars_of("12345")).unwrap();
    assert_eq!(size, 15);
    assert_eq!(used, vec![1, 3, 5]);
    assert_eq!(available, vec![2, 4]);
    let (size, used, available) = day09::parse_input(&chars_of("9090")).unwrap();
    assert_eq!(size, 18);
    assert_eq!(used, vec![9, 9]);
    assert_eq!(available, vec![0, 0]);
    assert!(day09::parse_input(&chars_of("12a45")).is_none());
    assert!(day09::parse_input(&chars_of("12345\n")).is_none());
    assert_eq!(day09::parse_input(&chars_of("")), Some((0, vec![], vec![])));
}

#[test]
fn a_small_disk_is_compacted() {
    assert_eq!(day09::marge_chunked(&vec![1, 3, 5], &vec![2, 4]), Some(60));
    assert_eq!(day09::merge_blocks(&vec![1, 3, 5], &vec![2, 4]), Some(132));
    assert_eq!(day09::Day.part1("12345"), Some(SolvedValue::Number(60)));
    assert_eq!(day09::Day.part2("12345"), Some(SolvedValue::Number(132)));
    assert_eq!(day09::Day.part1("1"), Some(SolvedValue::Number(0)));
    assert_eq!(day09::Day.part1("101"), Some(SolvedValue::Number(1)));
    assert_eq!(day09::Day.part2("101"), Some(SolvedValue::Number(1)));
    assert_eq!(day09::Day.part1("111"), Some(SolvedValue::Number(1)));
    assert_eq!(day09::Day.part2("111"), Some(SolvedValue::Number(1)));
    assert_eq!(day09::Day.part1("131"), Some(SolvedValue::Number(1)));
    assert_eq!(day09::Day.part1("12a45"), None);
}

#[test]
fn blocks_know_their_size() {
    assert_eq!(day09::Block::Used(7, 3).size(), 3);
    assert_eq!(day09::Block::Used(7, 3).free_size(), 0);
    assert_eq!(day09::Block::Used(7, 3).id(), Some(7));
    assert_eq!(day09::Block::Free(4).size(), 4);
    assert_eq!(day09::Block::Free(4).free_size(), 4);
    assert_eq!(day09::Block::Free(4).id(), None);
}

const SLOPE: &str = "0123\n1234\n8765\n9876\n";

#[test]
fn trails_climb_one_step_at_a_time() {
    let map = day10::parse_input(&chars_of(SLOPE)).unwrap();
    assert_eq!(map.width, 4);
    assert_eq!(map.height, 4);
    assert_eq!(map.map[2], vec![8, 7, 6, 5]);
    assert_eq!(map.get_scores_sum(), Some(1));
    assert_eq!(map.get_paths_sum(), Some(16));
    assert_eq!(map.count_paths_to_nine(0, 0, 1), Some(16));
    assert_eq!(map.count_paths_to_nine(0, 0, 0), Some(0));
    assert_eq!(map.count_paths_to_nine(1, 3, 9), Some(1));
    assert_eq!(map.count_paths_to_nine(3, 2, 6), Some(4));
    let mut found = Vec::new();
    map.search_paths(0, 0, 1, &mut found);
    assert_eq!(found, vec![(0, 3)]);
    assert_eq!(map.get_move_options(0, 0), vec![(1, 0), (0, 1)]);
    assert_eq!(map.get_move_options(1, 1), vec![(0, 1), (2, 1), (1, 0), (1, 2)]);
    assert_eq!(map.get_move_options(3, 3), vec![(2, 3), (3, 2)]);
    assert_eq!(map.row_worth(0, false), Some(1));
    assert_eq!(map.row_worth(0, true), Some(16));
    assert_eq!(map.row_worth(1, true), Some(0));
    assert_eq!(day10::Day.part1(SLOPE), Some(SolvedValue::Number(1)));
    assert_eq!(day10::Day.part2(SLOPE), Some(SolvedValue::Number(16)));
}

#[test]
fn a_map_with_other_signs_is_refused() {
    assert!(day10::parse_input(&chars_of("01.3\n1234\n")).is_none());
    assert!(day10::parse_input(&chars_of("0123\n123\n")).is_none());
    assert_eq!(day10::Day.part1("...0...\n...1...\n"), None);
    assert_eq!(day10::Day.part1("0\n"), Some(SolvedValue::Number(0)));
    assert_eq!(day10::Day.part1("9\n"), Some(SolvedValue::Number(0)));
    assert_eq!(day10::Day.part1("0123456789\n"), Some(SolvedValue::Number(1)));
    assert_eq!(day10::Day.part1("9876543210123456789\n"), Some(SolvedValue::Number(2)));
    assert_eq!(day10::Day.part2("9876543210123456789\n"), Some(SolvedValue::Number(2)));
}

#[test]
fn stones_change_with_every_blink() {
    assert_eq!(day11::blink_alone(day11::Stone(125), 0), Some(1));
    assert_eq!(day11::blink_alone(day11::Stone(0), 1), Some(1));
    assert_eq!(day11::blink_alone(day11::Stone(1), 1), Some(1));
    assert_eq!(day11::blink_alone(day11::Stone(10), 1), Some(2));
    assert_eq!(day11::blink_alone(day11::Stone(99), 1), Some(2));
    assert_eq!(day11::blink_alone(day11::Stone(999), 1), Some(1));
    assert_eq!(day11::blink_alone(day11::Stone(1000), 2), Some(3));
    assert_eq!(day11::blink_alone(day11::Stone(1), 3), Some(4));
    assert_eq!(day11::blink_alone(day11::Stone(125), 6), Some(7));
    assert_eq!(day11::blink_alone(day11::Stone(17), 6), Some(15));
    assert_eq!(day11::blink_alone(day11::Stone(125), 25), Some(19025));
    assert_eq!(day11::blink_alone(day11::Stone(17), 25), Some(36287));
}

#[test]
fn stones_share_what_was_found() {
    let mut cache: HashMap<u128, Option<usize>> = HashMap::new();
    let first = day11::Stone(125).blink(25, &mut cache);
    assert!(!cache.is_empty());
    let second = day11::Stone(17).blink(25, &mut cache);
    assert_eq!(first, Some(19025));
    assert_eq!(second, Some(36287));
    assert_eq!(day11::Stone(125).blink(25, &mut cache), first);
    let stones = day11::parse_input(&chars_of("125 17\n")).unwrap();
    assert_eq!(stones, vec![day11::Stone(125), day11::Stone(17)]);
    assert!(day11::parse_input(&chars_of("125 x17")).is_none());
    assert_eq!(day11::Day.part1("125 seventeen"), None);
    assert_eq!(day11::Day.part1(""), Some(SolvedValue::Number(0)));
}

const GARDEN: &str = "AAAA\nBBCD\nBBCC\nEEEC\n";

const HOLES: &str = "OOOOO\nOXOXO\nOOOOO\nOXOXO\nOOOOO\n";

const LARGER: &str = "RRRRIICCFF\nRRRRIICCCF\nVVRRRCCFFF\nVVRCCCJFFF\nVVVVCJJCFE\nVVIVCCJJEE\nVVIIICJJEE\nMIIIIIJJEE\nMIIISIJEEE\nMMMISSJEEE\n";

#[test]
fn regions_are_measured() {
    let map = day12::parse_input(&chars_of(GARDEN)).unwrap();
    let labels = day12::flood(&map).unwrap();
    assert_eq!(labels.cells[0], vec![(0, 0), (0, 0), (0, 0), (0, 0)]);
    assert_eq!(labels.cells[1], vec![(1, 0), (1, 0), (1, 2), (1, 3)]);
    assert_eq!(labels.cells[2], vec![(1, 0), (1, 0), (1, 2), (1, 2)]);
    assert_eq!(labels.cells[3], vec![(3, 0), (3, 0), (3, 0), (1, 2)]);
    assert_eq!(labels.area((0, 0)), Some(4));
    assert_eq!(labels.perimeter((0, 0)), Some(10));
    assert_eq!(labels.sides((0, 0)), Some(4));
    assert_eq!(labels.area((1, 0)), Some(4));
    assert_eq!(labels.perimeter((1, 0)), Some(8));
    assert_eq!(labels.sides((1, 0)), Some(4));
    assert_eq!(labels.area((1, 2)), Some(4));
    assert_eq!(labels.perimeter((1, 2)), Some(10));
    assert_eq!(labels.sides((1, 2)), Some(8));
    assert_eq!(labels.area((1, 3)), Some(1));
    assert_eq!(labels.perimeter((1, 3)), Some(4));
    assert_eq!(labels.sides((1, 3)), Some(4));
    assert_eq!(labels.area((3, 0)), Some(3));
    assert_eq!(labels.perimeter((3, 0)), Some(8));
    assert_eq!(labels.sides((3, 0)), Some(4));
    assert_eq!(labels.measure((3, 0), day12::Measure::Area), Some(3));
    assert_eq!(labels.roots(), vec![(0, 0), (1, 0), (1, 2), (1, 3), (3, 0)]);
    assert_eq!(labels.price((1, 2), day12::Measure::Perimeter), Some(40));
    assert_eq!(labels.price((1, 2), day12::Measure::Sides), Some(32));
    assert_eq!(labels.price((3, 0), day12::Measure::Area), Some(9));
    assert_eq!(labels.get_price(|table, root| table.price(root, day12::Measure::Perimeter)), Some(140));
    assert_eq!(labels.get_price(|table, root| table.price(root, day12::Measure::Sides)), Some(80));
    assert_eq!(
        labels.get_price(|table, root| table.price(root, day12::Measure::Area)),
        Some(16 + 16 + 16 + 1 + 9)
    );
}

#[test]
fn a_garden_is_priced_by_any_function_of_a_region() {
    let map = day12::parse_input(&chars_of(GARDEN)).unwrap();
    let labels = day12::flood(&map).unwrap();
    assert_eq!(labels.get_price(|_, _| Some(1)), Some(5));
    assert_eq!(labels.get_price(|_, _| Some(0)), Some(0));
    assert_eq!(labels.get_price(|table, root| table.area(root)), Some(16));
    assert_eq!(labels.get_price(|table, root| table.perimeter(root)), Some(10 + 8 + 10 + 4 + 8));
    assert_eq!(labels.get_price(|table, root| table.sides(root)), Some(4 + 4 + 8 + 4 + 4));
    assert_eq!(labels.get_price(|_, root| Some(100 * root.0 + root.1)), Some(100 + 102 + 103 + 300));
    assert_eq!(labels.get_price(|_, root| if root == (1, 3) { None } else { Some(1) }), None);
    assert_eq!(labels.get_price(|_, _| Some(usize::MAX / 4)), None);
    assert_eq!(labels.get_price(|_, _| Some(usize::MAX / 5)), Some(usize::MAX / 5 * 5));
    let asked = std::cell::RefCell::new(Vec::new());
    let counted = labels.get_price(|_, root| {
        asked.borrow_mut().push(root);
        None
    });
    assert_eq!(counted, None);
    assert_eq!(asked.into_inner(), vec![(0, 0), (1, 0), (1, 2), (1, 3), (3, 0)]);
    let single = day12::flood(&day12::parse_input(&chars_of("AAA\nAAA\n")).unwrap()).unwrap();
    assert_eq!(single.get_price(|_, _| Some(7)), Some(7));
    let none = day12::flood(&vec![]).unwrap();
    assert_eq!(none.get_price(|_, _| Some(7)), Some(0));
}

#[test]
fn regions_may_lie_within_regions() {
    assert_eq!(day12::Day.part1(HOLES), Some(SolvedValue::Number(772)));
    assert_eq!(day12::Day.part2(HOLES), Some(SolvedValue::Number(436)));
    assert_eq!(day12::Day.part1(LARGER), Some(SolvedValue::Number(1930)));
    assert_eq!(day12::Day.part2(LARGER), Some(SolvedValue::Number(1206)));
    assert_eq!(
        day12::Day.part2("EEEEE\nEXXXX\nEEEEE\nEXXXX\nEEEEE\n"),
        Some(SolvedValue::Number(236))
    );
    assert_eq!(
        day12::Day.part2("AAAAAA\nAAABBA\nAAABBA\nABBAAA\nABBAAA\nAAAAAA\n"),
        Some(SolvedValue::Number(368))
    );
    assert_eq!(day12::Day.part1("A\n"), Some(SolvedValue::Number(4)));
    assert_eq!(day12::Day.part2("A\n"), Some(SolvedValue::Number(4)));
    assert_eq!(day12::Day.part1("AB\nBA\n"), Some(SolvedValue::Number(16)));
    assert_eq!(day12::Day.part1("AAA\nAA\n"), None);
}
