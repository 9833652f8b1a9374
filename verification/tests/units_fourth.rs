use rustvent::days::{day20, day21, day22, day23, day24, day25};
use rustvent::solution::{Solution, SolvedValue};
use rustvent::text::chars_of;

const TRACK: &str = "###############\n#...#...#.....#\n#.#.#.#.#.###.#\n#S#...#.#.#...#\n#######.#.#.###\n#######.#.#...#\n#######.#.###.#\n###..E#...#...#\n###.#######.###\n#...###...#...#\n#.#####.#.###.#\n#.#...#.#.#...#\n#.#.#.#.#.#.###\n#...#...#...###\n###############\n";

#[test]
fn cheats_are_counted_by_what_they_save() {
    let mut maze = day20::parse_input(&chars_of(TRACK)).unwrap();
    assert_eq!(maze.start, (3, 1));
    assert_eq!(maze.end, (7, 5));
    assert!(maze.calculate_distances());
    assert_eq!(maze.path.len(), 85);
    assert_eq!(maze.path[0], (3, 1));
    assert_eq!(maze.path[84], (7, 5));
    assert_eq!(maze.tiles[3][1], day20::Block::Path(Some(0)));
    assert_eq!(maze.tiles[2][1], day20::Block::Path(Some(1)));
    assert_eq!(maze.tiles[7][5], day20::Block::Path(Some(84)));
    assert_eq!(maze.tiles[0][0], day20::Block::Wall);
    assert_eq!(maze.find_shortcuts_count(2, 64), Some(1));
    assert_eq!(maze.find_shortcuts_count(2, 65), Some(0));
    assert_eq!(maze.find_shortcuts_count(2, 40), Some(2));
    assert_eq!(maze.find_shortcuts_count(2, 20), Some(5));
    assert_eq!(maze.find_shortcuts_count(2, 2), Some(44));
    assert_eq!(maze.find_shortcuts_count(20, 76), Some(3));
    assert_eq!(maze.find_shortcuts_count(20, 74), Some(7));
    assert_eq!(maze.find_shortcuts_count(20, 72), Some(29));
    assert_eq!(maze.find_shortcuts_count(20, 50), Some(285));
    assert_eq!(maze.find_shortcuts_count(20, 77), Some(0));
    assert_eq!(maze.get_cheat_neighbors((3, 1), 20, 76), Some(3));
    assert_eq!(maze.get_cheat_neighbors((3, 1), 2, 2), Some(1));
    assert_eq!(maze.get_cheat_neighbors((3, 1), 2, 5), Some(0));
    assert_eq!(maze.get_cheat_neighbors((7, 7), 2, 64), Some(1));
    assert_eq!(maze.get_cheat_neighbors((1, 7), 2, 64), Some(0));
    assert_eq!(maze.get_cheat_neighbors((7, 5), 20, 1), Some(0));
    assert_eq!(maze.get_cheat_neighbors((0, 0), 20, 1), None);
    assert_eq!(maze.get_cheat_neighbors((99, 99), 20, 1), None);
}

#[test]
fn the_track_is_followed() {
    let mut maze = day20::parse_input(&chars_of(TRACK)).unwrap();
    assert_eq!(maze.get_cheat_neighbors((3, 1), 2, 1), None);
    assert_eq!(maze.next_position((3, 1)), Some((2, 1)));
    assert_eq!(maze.next_position((2, 1)), Some((3, 1)));
    assert_eq!(maze.next_position((1, 1)), Some((2, 1)));
    assert_eq!(maze.next_position((7, 4)), Some((7, 5)));
    assert_eq!(maze.next_position((0, 0)), None);
    assert_eq!(maze.next_position((5, 5)), None);
    assert!(maze.calculate_distances());
    assert_eq!(maze.next_position((3, 1)), None);
    assert_eq!(maze.next_position((7, 4)), None);
    assert_eq!(day20::Day.part1("#####\n#S#E#\n#####\n"), None);
    assert_eq!(day20::Day.part1("#####\n#S.E#\n#####\n"), Some(SolvedValue::Number(0)));
    assert_eq!(day20::Day.part1("#####\n#S.x#\n#####\n"), None);
}

#[test]
fn codes_are_typed_through_robots() {
    let codes = day21::parse_input(&chars_of("029A\n980A\n179A\n456A\n379A\n")).unwrap();
    assert_eq!(codes.len(), 5);
    assert_eq!(codes[0].0, 29);
    assert_eq!(codes[0].1, vec![(3, 1), (2, 1), (0, 2), (3, 2)]);
    assert_eq!(codes[1].0, 980);
    assert_eq!(codes[4].0, 379);
    let lengths: Vec<Option<usize>> =
        codes.iter().map(|code| day21::get_minimal_combination_for(&code.1, 2)).collect();
    assert_eq!(lengths, vec![Some(68), Some(60), Some(68), Some(64), Some(64)]);
    assert_eq!(day21::get_minimal_combination_for(&codes[0].1, 0), Some(12));
    assert_eq!(day21::get_minimal_combination_for(&codes[0].1, 1), Some(28));
    assert_eq!(day21::get_minimal_combination_for(&vec![], 2), Some(0));
    assert_eq!(day21::get_minimal_combination_for(&vec![(3, 2)], 0), Some(1));
    assert_eq!(day21::get_minimal_combination_for(&vec![(3, 2)], 25), Some(1));
    let mut cache = Vec::new();
    let first = day21::get_directional_keyboard_inputs_for(&codes[0].1, (3, 2), (3, 0), 3, &mut cache);
    assert_eq!(first, Some(68));
    assert!(!cache.is_empty());
    let again = day21::get_directional_keyboard_inputs_for(&codes[0].1, (3, 2), (3, 0), 3, &mut cache);
    assert_eq!(again, Some(68));
    let plain = day21::get_directional_keyboard_inputs_for(&codes[0].1, (3, 2), (3, 0), 0, &mut cache);
    assert_eq!(plain, Some(4));
}

#[test]
fn codes_with_other_keys_are_refused() {
    assert!(day21::parse_input(&chars_of("02BA\n")).is_none());
    assert!(day21::parse_input(&chars_of("029\n")).is_none());
    assert!(day21::parse_input(&chars_of("A\n")).is_none());
    assert_eq!(day21::Day.part1("02BA\n"), None);
    assert_eq!(day21::Day.part1("029A\n"), Some(SolvedValue::Number(68 * 29)));
    assert_eq!(day21::Day.part1(""), Some(SolvedValue::Number(0)));
}

#[test]
fn secrets_follow_each_other() {
    assert_eq!(day22::mix_and_prune(42, 15), 37);
    assert_eq!(day22::mix_and_prune(0, 100000000), 16113920);
    assert_eq!(day22::mix_and_prune(16777216, 0), 0);
    let expected = [
        15887950u64, 16495136, 527345, 704524, 1553684, 12683156, 11100544, 12249484, 7753432,
        5908254,
    ];
    let mut secret = 123;
    for next in expected {
        secret = day22::next_secret(secret).unwrap();
        assert_eq!(secret, next);
    }
    assert_eq!(day22::last_secret(1), Some(8685429));
    assert_eq!(day22::last_secret(10), Some(4700978));
    assert_eq!(day22::last_secret(100), Some(15273692));
    assert_eq!(day22::last_secret(2024), Some(8667524));
    assert_eq!(day22::next_secret(0), Some(0));
    assert_eq!(day22::last_secret(0), Some(0));
    assert_eq!(day22::next_secret(u64::MAX), None);
    assert_eq!(day22::get_price(123), 3);
    assert_eq!(day22::get_price(15887950), 0);
    assert_eq!(day22::get_price(16495136), 6);
    assert_eq!(day22::get_price(9), 9);
}

#[test]
fn price_changes_have_their_place() {
    assert_eq!(day22::get_diff_index(-10, -10, -10, -10), 0);
    assert_eq!(day22::get_diff_index(-10, -10, -10, -9), 1);
    assert_eq!(day22::get_diff_index(-10, -10, -9, -10), 20);
    assert_eq!(day22::get_diff_index(-10, -9, -10, -10), 400);
    assert_eq!(day22::get_diff_index(-9, -10, -10, -10), 8000);
    assert_eq!(day22::get_diff_index(-9, -9, -9, -9), 8421);
    assert_eq!(day22::get_diff_index(0, 0, 0, 0), 84210);
    assert_eq!(day22::get_diff_index(9, 9, 9, 9), 159999);
    assert_eq!(day22::get_diff_index(-2, 1, -1, 3), 8 * 8000 + 11 * 400 + 9 * 20 + 13);
    assert_eq!(day22::get_diff_index(10, 0, 0, 0), 20 * 8000 + 10 * 400 + 10 * 20 + 10);
    assert_eq!(day22::get_diff_index(-11, 10, 0, 0), 210);
    assert_eq!(day22::get_diff_index(0, 0, 0, -30), 10 * 8000 + 10 * 400 + 10 * 20 - 20);
    assert_eq!(day22::get_diff_index(0, 0, -400, 8000 - 10), 84200);
    assert_eq!(day22::get_diff_index(-10, -10, -10, i64::MAX), i64::MAX as usize + 10);
    assert_ne!(day22::get_diff_index(-2, 1, -1, 3), day22::get_diff_index(3, -1, 1, -2));
    assert_eq!(day22::parse_input(&chars_of("1\n10\n")), Some(vec![1, 10]));
    assert_eq!(day22::parse_input(&chars_of("1\nx\n")), None);
    assert_eq!(day22::Day.part1("1\nx\n"), None);
    assert_eq!(day22::Day.part2("-1\n"), None);
    assert_eq!(day22::Day.part1("123\n"), Some(SolvedValue::Number(1110806)));
    assert_eq!(day22::Day.part1(""), Some(SolvedValue::Number(0)));
    assert_eq!(day22::Day.part2(""), Some(SolvedValue::Number(0)));
    assert_eq!(day22::Day.part2("123\n"), Some(SolvedValue::Number(9)));
}

const NETWORK: &str = "kh-tc\nqp-kh\nde-cg\nka-co\nyn-aq\nqp-ub\ncg-tb\nvc-aq\ntb-ka\nwh-tc\nyn-cg\nkh-ub\nta-co\nde-co\ntc-td\ntb-wq\nwh-td\nta-ka\ntd-qp\naq-cg\nwq-ub\nub-vc\nde-ta\nwq-aq\nwq-vc\nwh-yn\nka-de\nkh-ta\nco-tc\nwh-qp\ntb-vc\ntd-yn\n";

fn names(list: &[&str]) -> Vec<Vec<char>> {
    list.iter().map(|name| name.chars().collect()).collect()
}

#[test]
fn computers_are_connected_both_ways() {
    let network = day23::parse_input(&chars_of(NETWORK)).unwrap();
    assert_eq!(network.len(), 16);
    assert_eq!(network[0].name, chars_of("kh"));
    assert_eq!(network[0].partners, names(&["tc", "qp", "ub", "ta"]));
    assert_eq!(network[1].name, chars_of("tc"));
    assert_eq!(network[1].partners, names(&["kh", "wh", "td", "co"]));
    assert!(day23::is_pairwise_connected(&network, &names(&["co", "de", "ka", "ta"])));
    assert!(day23::is_pairwise_connected(&network, &names(&["ta", "ka", "de", "co"])));
    assert!(day23::is_pairwise_connected(&network, &names(&["aq", "cg", "yn"])));
    assert!(!day23::is_pairwise_connected(&network, &names(&["aq", "cg", "de"])));
    assert!(!day23::is_pairwise_connected(&network, &names(&["co", "de", "ka", "ta", "kh"])));
    assert!(day23::is_pairwise_connected(&network, &names(&["kh"])));
    assert!(day23::is_pairwise_connected(&network, &names(&[])));
    let mut biggest = day23::biggest_pairwise_group(&network).unwrap();
    biggest.sort();
    assert_eq!(biggest, names(&["co", "de", "ka", "ta"]));
    assert!(day23::biggest_pairwise_group(&vec![]).is_none());
}

#[test]
fn groups_of_three_begin_with_a_computer() {
    let network = day23::parse_input(&chars_of(NETWORK)).unwrap();
    let mut groups = day23::build_groups_of_size(&network, 3, &chars_of("aq"));
    for group in groups.iter_mut() {
        assert_eq!(group.len(), 3);
        assert!(group.contains(&chars_of("aq")));
        assert!(day23::is_pairwise_connected(&network, group));
        group.sort();
    }
    groups.sort();
    groups.dedup();
    assert_eq!(
        groups,
        vec![names(&["aq", "cg", "yn"]), names(&["aq", "vc", "wq"])]
    );
    assert_eq!(day23::Day.part1("ta-tb\ntb-tc\ntc-ta\n"), Some(SolvedValue::Number(1)));
    assert_eq!(day23::Day.part1("aa-ab\nab-ac\nac-aa\n"), Some(SolvedValue::Number(0)));
    assert_eq!(day23::Day.part2("aa-ab\nab-ac\nac-aa\n"), Some(SolvedValue::Text("aa,ab,ac".to_string())));
    assert_eq!(day23::Day.part1("ta+tb\n"), None);
    assert_eq!(day23::Day.part2(""), None);
}

const CIRCUIT: &str = "x00: 1\nx01: 1\nx02: 1\ny00: 0\ny01: 1\ny02: 0\n\nx00 AND y00 -> z00\nx01 XOR y01 -> z01\nx02 OR y02 -> z02\n";

#[test]
fn gates_give_their_wires_a_state() {
    let (wires, gates) = day24::parse_input(&chars_of(CIRCUIT)).unwrap();
    assert_eq!(wires.len(), 6);
    assert_eq!(gates.len(), 3);
    assert_eq!(wires[0].name, chars_of("x00"));
    assert!(wires[0].state);
    assert!(!wires[3].state);
    assert_eq!(gates[0].kind, day24::Kind::And);
    assert_eq!(gates[1].kind, day24::Kind::Xor);
    assert_eq!(gates[2].kind, day24::Kind::Or);
    assert_eq!(gates[1].left, chars_of("x01"));
    assert_eq!(gates[1].right, chars_of("y01"));
    assert_eq!(gates[1].output, chars_of("z01"));
    assert_eq!(gates[1].values(), (chars_of("x01"), chars_of("y01")));
    assert!(gates[1].is_direct());
    assert_eq!(day24::get_system_var(&wires, &gates, 'x'), Some(7));
    assert_eq!(day24::get_system_var(&wires, &gates, 'y'), Some(2));
    assert_eq!(day24::get_system_var(&wires, &gates, 'z'), Some(4));
    assert_eq!(day24::get_wire_state(&wires, &gates, &chars_of("z00"), 10), Some(false));
    assert_eq!(day24::get_wire_state(&wires, &gates, &chars_of("z01"), 10), Some(false));
    assert_eq!(day24::get_wire_state(&wires, &gates, &chars_of("z02"), 10), Some(true));
    assert_eq!(day24::get_wire_state(&wires, &gates, &chars_of("x02"), 10), Some(true));
    assert_eq!(day24::get_wire_state(&wires, &gates, &chars_of("q00"), 10), None);
    assert_eq!(gates[2].eval(&wires, &gates, 10), Some(true));
    assert_eq!(gates[0].eval(&wires, &gates, 10), Some(false));
    assert_eq!(day24::Day.part1(CIRCUIT), Some(SolvedValue::Number(4)));
}

#[test]
fn gates_are_read_from_three_words() {
    let gate = day24::LogicGate::parse(&chars_of("abc XOR y07"), chars_of("z07")).unwrap();
    assert_eq!(gate.kind, day24::Kind::Xor);
    assert_eq!(gate.left, chars_of("abc"));
    assert_eq!(gate.right, chars_of("y07"));
    assert_eq!(gate.output, chars_of("z07"));
    assert!(!gate.is_direct());
    let gate = day24::LogicGate::parse(&chars_of("y07 AND x07"), chars_of("abc")).unwrap();
    assert!(gate.is_direct());
    assert!(day24::LogicGate::parse(&chars_of("abc NAND y07"), chars_of("z07")).is_none());
    assert!(day24::LogicGate::parse(&chars_of("abc"), chars_of("z07")).is_none());
    assert_eq!(day24::Day.part1("x00: 1\n\nx00 NOT x00 -> z00\n"), None);
    assert_eq!(day24::Day.part1("x00: 1\n"), None);
    assert_eq!(
        day24::Day.part1("x00: 1\ny00: 1\n\nx00 AND y00 -> aaa\naaa XOR x00 -> z00\naaa OR y00 -> z01\n"),
        Some(SolvedValue::Number(2))
    );
    assert_eq!(day24::Day.part1("x00: 1\n\naaa AND x00 -> aaa\naaa OR x00 -> z00\n"), None);
}

const DRAWINGS: &str = "#####\n.####\n.####\n.####\n.#.#.\n.#...\n.....\n\n#####\n##.##\n.#.##\n...##\n...#.\n...#.\n.....\n\n.....\n#....\n#....\n#...#\n#.#.#\n#.###\n#####\n\n.....\n.....\n#.#..\n###..\n###.#\n###.#\n#####\n\n.....\n.....\n.....\n#....\n#.#..\n#.#.#\n#####\n";

#[test]
fn keys_fit_locks_without_overlap() {
    let (locks, keys) = day25::parse_input(&chars_of(DRAWINGS)).unwrap();
    assert_eq!(locks.len(), 2);
    assert_eq!(keys.len(), 3);
    assert_eq!(locks[0].pins, [0, 5, 3, 4, 3]);
    assert_eq!(locks[1].pins, [1, 2, 0, 5, 3]);
    assert_eq!(keys[0].pins, [5, 0, 2, 1, 3]);
    assert_eq!(keys[1].pins, [4, 3, 4, 0, 2]);
    assert_eq!(keys[2].pins, [3, 0, 2, 0, 1]);
    let fits: Vec<bool> =
        locks.iter().flat_map(|lock| keys.iter().map(move |key| lock.fits(key))).collect();
    assert_eq!(fits, vec![false, false, true, false, true, true]);
    let lock = day25::Lock { pins: [5, 5, 5, 5, 5] };
    assert!(lock.fits(&day25::Key { pins: [0, 0, 0, 0, 0] }));
    assert!(!lock.fits(&day25::Key { pins: [0, 0, 0, 0, 1] }));
    assert!(!lock.fits(&day25::Key { pins: [1, 0, 0, 0, 0] }));
    let lock = day25::Lock { pins: [usize::MAX, 0, 0, 0, 0] };
    assert!(!lock.fits(&day25::Key { pins: [usize::MAX, 0, 0, 0, 0] }));
    assert_eq!(
        day25::Day.part2(DRAWINGS),
        Some(SolvedValue::Text("Day 25.2 was a gift!".to_string()))
    );
}
