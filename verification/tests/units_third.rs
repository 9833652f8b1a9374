use rustvent::days::day16::Direction::{East, North, South, West};
use rustvent::days::{day14, day15, day16, day17, day18, day19};
use rustvent::solution::{Solution, SolvedValue};
use rustvent::text::chars_of;

#[test]
fn a_robot_wraps_around_the_floor() {
    let mut robot = day14::Robot { x: 2, y: 4, dx: 2, dy: -3 };
    let size = (11, 7);
    let mut seen = Vec::new();
    for _ in 0..5 {
        assert!(robot.step(1, size));
        seen.push((robot.x, robot.y));
    }
    assert_eq!(seen, vec![(4, 1), (6, 5), (8, 2), (10, 6), (1, 3)]);
    let mut robot = day14::Robot { x: 2, y: 4, dx: 2, dy: -3 };
    assert!(robot.step(5, size));
    assert_eq!((robot.x, robot.y, robot.dx, robot.dy), (1, 3, 2, -3));
    assert!(robot.step(0, size));
    assert_eq!((robot.x, robot.y), (1, 3));
    let mut robot = day14::Robot { x: 0, y: 0, dx: -1, dy: -1 };
    assert!(robot.step(1, (101, 103)));
    assert_eq!((robot.x, robot.y), (100, 102));
    let mut robot = day14::Robot { x: 1, y: 1, dx: i64::MAX, dy: 0 };
    assert!(!robot.step(i64::MAX, size));
    assert_eq!((robot.x, robot.y), (1, 1));
}

#[test]
fn robots_stand_in_quadrants() {
    let size = (11, 7);
    let at = |x: i64, y: i64| day14::Robot { x, y, dx: 0, dy: 0 }.quadrant(size);
    assert_eq!(at(5, 0), 0);
    assert_eq!(at(0, 3), 0);
    assert_eq!(at(5, 3), 0);
    assert_eq!(at(6, 4), 1);
    assert_eq!(at(10, 6), 1);
    assert_eq!(at(0, 6), 2);
    assert_eq!(at(4, 4), 2);
    assert_eq!(at(0, 0), 3);
    assert_eq!(at(4, 2), 3);
    assert_eq!(at(6, 0), 4);
    assert_eq!(at(10, 2), 4);
}

#[test]
fn floors_of_any_size_have_quadrants() {
    let at = |x: i64, y: i64, size: (i64, i64)| day14::Robot { x, y, dx: 0, dy: 0 }.quadrant(size);
    assert_eq!(at(0, 5, (0, 0)), 0);
    assert_eq!(at(5, 0, (0, 0)), 0);
    assert_eq!(at(1, 1, (0, 0)), 1);
    assert_eq!(at(-1, 1, (0, 0)), 2);
    assert_eq!(at(-1, -1, (0, 0)), 3);
    assert_eq!(at(1, -1, (0, 0)), 4);
    assert_eq!(at(0, 0, (1, 1)), 0);
    assert_eq!(at(-5, 9, (-11, -7)), 0);
    assert_eq!(at(9, -3, (-11, -7)), 0);
    assert_eq!(at(0, 0, (-11, -7)), 1);
    assert_eq!(at(-6, 0, (-11, -7)), 2);
    assert_eq!(at(-6, -4, (-11, -7)), 3);
    assert_eq!(at(-4, -4, (-11, -7)), 4);
    assert_eq!(at(i64::MIN / 2, 0, (i64::MIN, 2)), 0);
    assert_eq!(at(i64::MAX / 2, 0, (i64::MAX, 2)), 0);
}

#[test]
fn a_robot_moves_on_a_floor_with_sides_below_zero() {
    let mut robot = day14::Robot { x: 2, y: 4, dx: 2, dy: -3 };
    assert!(robot.step(1, (-11, -7)));
    assert_eq!((robot.x, robot.y), ((2 + 2 - 11) % -11, (4 - 3 - 7) % -7));
    assert_eq!((robot.x, robot.y), (-7, -6));
    let mut robot = day14::Robot { x: 3, y: 3, dx: -9, dy: -12 };
    assert!(robot.step(1, (11, 7)));
    assert_eq!((robot.x, robot.y), (5, -2));
    let mut robot = day14::Robot { x: 3, y: 3, dx: 1, dy: 1 };
    assert!(robot.step(4, (1, -1)));
    assert_eq!((robot.x, robot.y), (0, 0));
    let mut robot = day14::Robot { x: i64::MIN + 1, y: 0, dx: 0, dy: 0 };
    assert!(!robot.step(1, (-1, 5)));
    assert_eq!((robot.x, robot.y), (i64::MIN + 1, 0));
}

#[test]
fn a_floor_without_tiles_has_no_block() {
    assert_eq!(day14::has_robots_block(&vec![], (0, 0), 0), Some(false));
    assert_eq!(day14::has_robots_block(&vec![], (0, 7), 0), Some(false));
    assert_eq!(day14::has_robots_block(&vec![], (11, 0), 20), Some(false));
    assert_eq!(day14::has_block_after(&vec![], (0, 0), 5), Some(false));
    assert_eq!(day14::has_block_after(&vec![], (0, 7), 5), Some(false));
    let robot = day14::Robot { x: 0, y: 0, dx: 0, dy: 0 };
    assert_eq!(day14::has_robots_block(&vec![robot], (0, 7), 0), None);
    assert_eq!(day14::has_robots_block(&vec![robot], (11, 0), 0), None);
    assert_eq!(day14::has_robots_block(&vec![robot], (1, 1), 0), Some(true));
}

#[test]
fn robots_are_read_with_their_floor() {
    let (size, robots) = day14::parse_input(&chars_of("p=0,4 v=3,-3\np=6,3 v=-1,-3\n")).unwrap();
    assert_eq!(size, (11, 7));
    assert_eq!(robots.len(), 2);
    assert_eq!((robots[0].x, robots[0].y, robots[0].dx, robots[0].dy), (0, 4, 3, -3));
    assert_eq!((robots[1].x, robots[1].y, robots[1].dx, robots[1].dy), (6, 3, -1, -3));
    let (size, robots) = day14::parse_input(&chars_of("p=50,4 v=3,-3\n")).unwrap();
    assert_eq!(size, (101, 103));
    assert_eq!(robots.len(), 1);
    let (size, _) = day14::parse_input(&chars_of("p=0,8 v=3,-3\n")).unwrap();
    assert_eq!(size, (101, 103));
    assert!(day14::parse_input(&chars_of("p=0,4 v=3\n")).is_none());
    assert!(day14::parse_input(&chars_of("p=0,4\n")).is_none());
    assert!(day14::parse_input(&chars_of("p=a,4 v=3,-3\n")).is_none());
    assert_eq!(day14::Day.part1("robots"), None);
    assert_eq!(day14::Day.part2("robots"), None);
}

#[test]
fn robots_side_by_side_make_a_block() {
    let at = |x: i64, y: i64| day14::Robot { x, y, dx: 0, dy: 0 };
    let row = vec![at(0, 0), at(1, 0), at(2, 0), at(5, 5)];
    assert_eq!(day14::has_robots_block(&row, (11, 7), 2), Some(true));
    assert_eq!(day14::has_robots_block(&row, (11, 7), 3), Some(false));
    assert_eq!(day14::has_robots_block(&row, (11, 7), 0), Some(true));
    let corner = vec![at(10, 6), at(9, 6), at(10, 5), at(8, 4)];
    assert_eq!(day14::has_robots_block(&corner, (11, 7), 2), Some(true));
    assert_eq!(day14::has_robots_block(&corner, (11, 7), 3), Some(false));
    let twice = vec![at(3, 3), at(3, 3), at(3, 3)];
    assert_eq!(day14::has_robots_block(&twice, (11, 7), 1), Some(false));
    assert_eq!(day14::has_robots_block(&vec![], (11, 7), 0), Some(false));
}

#[test]
fn robots_meet_after_some_seconds() {
    let mut robots = Vec::new();
    for i in 0..21 {
        robots.push(day14::Robot { x: 10 + i, y: i, dx: 0, dy: -i });
    }
    let size = (101, 103);
    assert_eq!(day14::has_block_after(&robots, size, 0), Some(false));
    assert_eq!(day14::has_block_after(&robots, size, 1), Some(true));
    assert_eq!(day14::has_block_after(&robots, size, 2), Some(false));
    assert_eq!(day14::has_block_after(&robots, size, 104), Some(true));
    assert_eq!(day14::has_block_after(&robots[1..].to_vec(), size, 1), Some(false));
    let mut text = String::new();
    for i in 0..21 {
        text.push_str(&format!("p={},{} v=0,{}\n", 10 + i, 2 * i, -i));
    }
    assert_eq!(day14::Day.part2(&text), Some(SolvedValue::Number(2)));
    text.push_str("p=0,0 v=0,x\n");
    assert_eq!(day14::Day.part2(&text), None);
}

const SMALL_WAREHOUSE: &str = "########\n#..O.O.#\n##@.O..#\n#...O..#\n#.#.O..#\n#...O..#\n#......#\n########\n\n<^^>>>vv<v>>v<<";

const PUSH_WAREHOUSE: &str = "#######\n#...#.#\n#.....#\n#..OO@#\n#..O..#\n#.....#\n#######\n\n<vv<<^^<<^^";

#[test]
fn the_robot_pushes_boxes() {
    let (mut warehouse, moves) = day15::parse_input(&chars_of(SMALL_WAREHOUSE)).unwrap();
    assert_eq!(moves.len(), 15);
    assert_eq!(moves[0], day15::Direction::Left);
    assert_eq!(moves[1], day15::Direction::Up);
    assert_eq!(moves[3], day15::Direction::Right);
    assert_eq!(moves[6], day15::Direction::Down);
    assert_eq!(warehouse.robot, (2, 2));
    assert!(!warehouse.widened);
    assert_eq!(warehouse.get_state((2, 2)), day15::State::Robot);
    assert_eq!(warehouse.get_state((0, 0)), day15::State::Wall);
    assert_eq!(warehouse.get_state((1, 3)), day15::State::Box);
    assert_eq!(warehouse.get_state((1, 1)), day15::State::Empty);
    warehouse.move_robot(day15::Direction::Left);
    assert_eq!(warehouse.robot, (2, 2));
    warehouse.move_robot(day15::Direction::Up);
    assert_eq!(warehouse.robot, (1, 2));
    warehouse.move_robot(day15::Direction::Right);
    assert_eq!(warehouse.robot, (1, 3));
    assert_eq!(warehouse.get_state((1, 4)), day15::State::Box);
    assert_eq!(warehouse.get_state((1, 5)), day15::State::Box);
    let (mut warehouse, moves) = day15::parse_input(&chars_of(SMALL_WAREHOUSE)).unwrap();
    warehouse.apply_directions(&moves);
    assert_eq!(warehouse.robot, (4, 4));
    for spot in [(1, 5), (1, 6), (3, 6), (4, 3), (5, 4), (6, 4)] {
        assert_eq!(warehouse.get_state(spot), day15::State::Box, "{spot:?}");
    }
    assert_eq!(warehouse.gps_sum(), Some(2028));
    assert_eq!(day15::Day.part1(SMALL_WAREHOUSE), Some(SolvedValue::Number(2028)));
    assert_eq!(day15::Day.part2(SMALL_WAREHOUSE), Some(SolvedValue::Number(1751)));
}

#[test]
fn wide_boxes_are_pushed_by_either_half() {
    let (mut warehouse, moves) = day15::parse_input(&chars_of(PUSH_WAREHOUSE)).unwrap();
    assert_eq!(warehouse.gps_sum(), Some(303 + 304 + 403));
    assert!(warehouse.widen());
    assert!(warehouse.widened);
    assert_eq!(warehouse.robot, (3, 10));
    assert_eq!(warehouse.get_state((3, 6)), day15::State::Box);
    assert_eq!(warehouse.get_state((3, 7)), day15::State::Box2);
    assert_eq!(warehouse.get_state((3, 8)), day15::State::Box);
    assert_eq!(warehouse.get_state((3, 9)), day15::State::Box2);
    assert_eq!(warehouse.get_state((3, 10)), day15::State::Robot);
    assert_eq!(warehouse.get_state((3, 11)), day15::State::Empty);
    assert_eq!(warehouse.get_state((1, 8)), day15::State::Wall);
    assert_eq!(warehouse.get_state((1, 9)), day15::State::Wall);
    assert_eq!(warehouse.gps_sum(), Some(306 + 308 + 406));
    warehouse.apply_directions(&moves);
    assert_eq!(warehouse.robot, (2, 5));
    assert_eq!(warehouse.get_state((1, 5)), day15::State::Box);
    assert_eq!(warehouse.get_state((1, 6)), day15::State::Box2);
    assert_eq!(warehouse.get_state((2, 7)), day15::State::Box);
    assert_eq!(warehouse.get_state((3, 6)), day15::State::Box);
    assert_eq!(warehouse.gps_sum(), Some(618));
    assert_eq!(day15::Day.part1(PUSH_WAREHOUSE), Some(SolvedValue::Number(908)));
    assert_eq!(day15::Day.part2(PUSH_WAREHOUSE), Some(SolvedValue::Number(618)));
}

#[test]
fn a_warehouse_is_drawn() {
    let (mut warehouse, moves) = day15::parse_input(&chars_of(PUSH_WAREHOUSE)).unwrap();
    assert_eq!(
        warehouse.to_text(),
        "#######\n#...#.#\n#.....#\n#..OO@#\n#..O..#\n#.....#\n#######\nRobot: (3, 5)"
    );
    assert!(warehouse.widen());
    assert_eq!(
        warehouse.to_text(),
        "##############\n##......##..##\n##..........##\n##....[][]@.##\n##....[]....##\n##..........##\n##############\nRobot: (3, 10)"
    );
    warehouse.apply_directions(&moves);
    assert_eq!(
        warehouse.to_text(),
        "##############\n##...[].##..##\n##...@.[]...##\n##....[]....##\n##..........##\n##..........##\n##############\nRobot: (2, 5)"
    );
}

#[test]
fn the_signs_of_a_warehouse() {
    assert_eq!(day15::State::Robot.to_string(false), '@');
    assert_eq!(day15::State::Wall.to_string(false), '#');
    assert_eq!(day15::State::Empty.to_string(false), '.');
    assert_eq!(day15::State::Box.to_string(false), 'O');
    assert_eq!(day15::State::Box.to_string(true), '[');
    assert_eq!(day15::State::Box2.to_string(true), ']');
    assert_eq!(day15::State::from_char('#'), Some(day15::State::Wall));
    assert_eq!(day15::State::from_char('O'), Some(day15::State::Box));
    assert_eq!(day15::State::from_char('@'), Some(day15::State::Robot));
    assert_eq!(day15::State::from_char('.'), Some(day15::State::Empty));
    assert_eq!(day15::State::from_char('x'), None);
    assert_eq!(day15::Direction::from_char('^'), Some(day15::Direction::Up));
    assert_eq!(day15::Direction::from_char('v'), Some(day15::Direction::Down));
    assert_eq!(day15::Direction::from_char('<'), Some(day15::Direction::Left));
    assert_eq!(day15::Direction::from_char('>'), Some(day15::Direction::Right));
    assert_eq!(day15::Direction::from_char('V'), None);
    assert_eq!(day15::Day.part1("#####\n#@.x#\n#####\n\n>"), None);
    assert_eq!(day15::Day.part1("#####\n#@.O#\n#####\n"), None);
}

const SECOND_MAZE: &str = "#################\n#...#...#...#..E#\n#.#.#.#.#.#.#.#.#\n#.#.#.#...#...#.#\n#.#.#.#.###.#.#.#\n#...#.#.#.....#.#\n#.#.#.#.#.#####.#\n#.#...#.#.#.....#\n#.#.#####.#.###.#\n#.#.#.......#...#\n#.#.###.#####.###\n#.#.#...#.....#.#\n#.#.#.#####.###.#\n#.#.#.........#.#\n#.#.#.#########.#\n#S#.............#\n#################\n";

#[test]
fn the_reindeer_finds_the_cheapest_way() {
    assert_eq!(day16::Day.part1(SECOND_MAZE), Some(SolvedValue::Number(11048)));
    assert_eq!(day16::Day.part2(SECOND_MAZE), Some(SolvedValue::Number(64)));
    let maze = day16::parse_input(&chars_of(SECOND_MAZE)).unwrap();
    assert!(maze.small());
    assert_eq!(maze.min_cost(), Some(11048));
    assert_eq!(maze.pos_on_best_paths(), Some(64));
    assert_eq!(maze.width(), 17);
    assert!(!maze.is_open(0, 0));
    assert!(maze.is_open(1, 1));
    assert!(maze.is_open(15, 1));
    assert!(!maze.is_open(17, 0));
    assert!(!maze.is_open(0, 17));
}

#[test]
fn a_maze_is_drawn() {
    let maze = day16::parse_input(&chars_of("#####\n#...#\n#.#.#\n#...#\n#####\n")).unwrap();
    assert_eq!(maze.start, (0, 0));
    assert_eq!(maze.end, (0, 0));
    assert_eq!(maze.to_text(), "S####\n#...#\n#.#.#\n#...#\n#####\n");
    let maze = day16::parse_input(&chars_of("#####\n#..E#\n#.#.#\n#S..#\n#####\n")).unwrap();
    assert_eq!(maze.start, (3, 1));
    assert_eq!(maze.end, (1, 3));
    assert_eq!(maze.to_text(), "#####\n#..S#\n#.#.#\n#E..#\n#####\n");
    let maze = day16::parse_input(&chars_of("####\n#SE#\n####\n")).unwrap();
    assert_eq!(maze.to_text(), "####\n#S.#\n#E##\n");
}

#[test]
fn the_search_lists_the_poses_before() {
    let maze = day16::parse_input(&chars_of("#####\n#..E#\n#.#.#\n#S..#\n#####\n")).unwrap();
    let ways = maze.dijkstra_to_end(true);
    let cost = |row: usize, col: usize, dir: day16::Direction| ways.costs.cells[row][col][dir.index()];
    let before = |row: usize, col: usize, dir: day16::Direction| ways.before[row][col][dir.index()].clone();
    assert_eq!(cost(3, 1, East), Some(0));
    assert_eq!(before(3, 1, East), vec![]);
    assert_eq!(cost(3, 1, North), None);
    assert_eq!(before(3, 1, North), vec![]);
    assert_eq!(cost(3, 2, East), Some(1));
    assert_eq!(before(3, 2, East), vec![((3, 1), East)]);
    assert_eq!(cost(3, 3, East), Some(2));
    assert_eq!(before(3, 3, East), vec![((3, 2), East)]);
    assert_eq!(cost(2, 3, North), Some(1003));
    assert_eq!(before(2, 3, North), vec![((3, 3), East)]);
    assert_eq!(cost(1, 3, North), Some(1004));
    assert_eq!(before(1, 3, North), vec![((2, 3), North)]);
    assert_eq!(cost(2, 1, North), Some(1001));
    assert_eq!(before(2, 1, North), vec![((3, 1), East)]);
    assert_eq!(cost(1, 1, North), Some(1002));
    assert_eq!(cost(1, 2, East), Some(2003));
    assert_eq!(before(1, 2, East), vec![((1, 1), North)]);
    assert_eq!(cost(1, 3, East), Some(2004));
    assert_eq!(before(1, 3, East), vec![((1, 2), East)]);
    assert_eq!(cost(0, 0, North), None);
    assert_eq!(before(0, 0, North), vec![]);
    assert_eq!(ways.before.len(), 5);
    assert!(ways.before.iter().all(|row| row.len() == 5 && row.iter().all(|tile| tile.len() == 4)));
    let back = maze.dijkstra_to_end(false);
    assert_eq!(back.costs.cells[1][3][North.index()], Some(0));
    assert_eq!(back.costs.cells[3][1][East.index()], Some(1004));
    assert_eq!(back.before[3][1][East.index()], vec![((3, 2), East)]);
    assert_eq!(back.before[3][3][East.index()], vec![((2, 3), North)]);
    assert_eq!(back.before[1][3][North.index()], vec![]);
}

#[test]
fn two_ways_of_one_cost_are_both_listed() {
    let maze = day16::parse_input(&chars_of("#####\n#.E.#\n#...#\n#S..#\n#####\n")).unwrap();
    let ways = maze.dijkstra_to_end(true);
    assert_eq!(ways.costs.cells[2][2][North.index()], Some(1002));
    assert_eq!(ways.before[2][2][North.index()], vec![((3, 2), East)]);
    assert_eq!(ways.costs.cells[2][2][East.index()], Some(2002));
    assert_eq!(ways.before[2][2][East.index()], vec![((2, 1), North)]);
    assert_eq!(ways.costs.cells[1][2][North.index()], Some(1003));
    assert_eq!(ways.before[1][2][North.index()], vec![((2, 2), North)]);
    assert_eq!(ways.costs.cells[1][2][East.index()], Some(2003));
    assert_eq!(ways.before[1][2][East.index()], vec![((1, 1), North)]);
    assert_eq!(ways.costs.cells[2][3][North.index()], Some(1003));
    assert_eq!(ways.costs.cells[2][3][East.index()], Some(2003));
    assert_eq!(ways.before[2][3][East.index()], vec![((2, 2), East), ((2, 2), North)]);
    assert_eq!(ways.costs.cells[1][3][East.index()], None);
    assert_eq!(ways.costs.cells[1][3][North.index()], Some(1004));
    assert_eq!(maze.min_cost(), Some(1003));
}

#[test]
fn small_mazes_have_small_costs() {
    assert_eq!(day16::Day.part1("####\n#SE#\n####\n"), Some(SolvedValue::Number(1)));
    assert_eq!(day16::Day.part2("####\n#SE#\n####\n"), Some(SolvedValue::Number(2)));
    assert_eq!(day16::Day.part1("####\n#ES#\n####\n"), None);
    assert_eq!(day16::Day.part1("###\n#E#\n#S#\n###\n"), Some(SolvedValue::Number(1001)));
    assert_eq!(day16::Day.part1("###\n#S#\n#E#\n###\n"), Some(SolvedValue::Number(1001)));
    assert_eq!(day16::Day.part1("#####\n#S#E#\n#####\n"), None);
    assert_eq!(day16::Day.part2("#####\n#S#E#\n#####\n"), None);
    assert_eq!(day16::Day.part1("#####\n#S.E#\n#####\n"), Some(SolvedValue::Number(2)));
    assert_eq!(day16::Day.part2("#####\n#S.E#\n#####\n"), Some(SolvedValue::Number(3)));
    assert_eq!(
        day16::Day.part1("#####\n#..E#\n#.#.#\n#S..#\n#####\n"),
        Some(SolvedValue::Number(1004))
    );
    assert_eq!(
        day16::Day.part2("#####\n#..E#\n#.#.#\n#S..#\n#####\n"),
        Some(SolvedValue::Number(5))
    );
}

#[test]
fn directions_turn_both_ways() {
    assert_eq!(North.turn_right(), East);
    assert_eq!(East.turn_right(), South);
    assert_eq!(South.turn_right(), West);
    assert_eq!(West.turn_right(), North);
    assert_eq!(North.turn_left(), West);
    assert_eq!(West.turn_left(), South);
    assert_eq!(South.turn_left(), East);
    assert_eq!(East.turn_left(), North);
    for direction in [North, East, South, West] {
        assert_eq!(direction.turn_left().turn_right(), direction);
        assert_eq!(direction.turn_right().turn_right().turn_right().turn_right(), direction);
        assert!(direction.index() < 4);
    }
    assert_ne!(North.index(), South.index());
    assert_ne!(East.index(), West.index());
}

fn program(a: u64, b: u64, c: u64, numbers: &str) -> String {
    format!("Register A: {a}\nRegister B: {b}\nRegister C: {c}\n\nProgram: {numbers}")
}

#[test]
fn small_programs_run() {
    let text = program(10, 0, 0, "5,0,5,1,5,4");
    assert_eq!(day17::Day.part1(&text), Some(SolvedValue::Text("0,1,2".to_string())));
    let text = program(2024, 0, 0, "0,1,5,4,3,0");
    let mut system = day17::parse_input(&chars_of(&text)).unwrap();
    assert!(system.execute_program());
    assert_eq!(system.get_output_string(), chars_of("4,2,5,6,7,7,7,7,3,1,0"));
    assert_eq!(system.output, vec![4, 2, 5, 6, 7, 7, 7, 7, 3, 1, 0]);
    assert_eq!(system.registers.a, 0);
    let mut system = day17::parse_input(&chars_of(&program(0, 0, 9, "2,6"))).unwrap();
    assert!(system.execute_program());
    assert_eq!(system.registers.b, 1);
    let mut system = day17::parse_input(&chars_of(&program(0, 29, 0, "1,7"))).unwrap();
    assert!(system.execute_program());
    assert_eq!(system.registers.b, 26);
    let mut system = day17::parse_input(&chars_of(&program(0, 2024, 43690, "4,0"))).unwrap();
    assert!(system.execute_program());
    assert_eq!(system.registers.b, 44354);
    assert_eq!(system.registers.c, 43690);
    assert_eq!(system.get_output_string(), chars_of(""));
    assert_eq!(system.program_string, chars_of("4,0"));
}

#[test]
fn a_program_that_never_halts_is_given_up() {
    let text = program(1, 0, 0, "3,0");
    let mut system = day17::parse_input(&chars_of(&text)).unwrap();
    assert!(!system.execute_program());
    assert_eq!(day17::Day.part1(&text), None);
    assert_eq!(day17::Day.part1(&program(0, 0, 0, "3,0")), Some(SolvedValue::Text(String::new())));
}

#[test]
fn operations_are_decoded() {
    let registers = day17::Registers { a: 10, b: 20, c: 30 };
    assert_eq!(day17::ComboOperand(0).value(registers), Some(0));
    assert_eq!(day17::ComboOperand(3).value(registers), Some(3));
    assert_eq!(day17::ComboOperand(4).value(registers), Some(10));
    assert_eq!(day17::ComboOperand(5).value(registers), Some(20));
    assert_eq!(day17::ComboOperand(6).value(registers), Some(30));
    assert_eq!(day17::ComboOperand(7).value(registers), None);
    assert_eq!(day17::Operation::new(0, 2), Some(day17::Operation::Adv(day17::ComboOperand(2))));
    assert_eq!(day17::Operation::new(1, 7), Some(day17::Operation::Bxl(7)));
    assert_eq!(day17::Operation::new(2, 6), Some(day17::Operation::Bst(day17::ComboOperand(6))));
    assert_eq!(day17::Operation::new(3, 0), Some(day17::Operation::Jnz(0)));
    assert_eq!(day17::Operation::new(4, 0), Some(day17::Operation::Bxc));
    assert_eq!(day17::Operation::new(5, 4), Some(day17::Operation::Out(day17::ComboOperand(4))));
    assert_eq!(day17::Operation::new(6, 1), Some(day17::Operation::Bdv(day17::ComboOperand(1))));
    assert_eq!(day17::Operation::new(7, 1), Some(day17::Operation::Cdv(day17::ComboOperand(1))));
    assert_eq!(day17::Operation::new(8, 1), None);
}

#[test]
fn operations_change_the_registers() {
    let registers = day17::Registers { a: 100, b: 5, c: 3 };
    let effect = day17::Operation::Adv(day17::ComboOperand(2)).execute(0, registers).unwrap();
    assert_eq!((effect.pc, effect.registers.a, effect.output), (1, 25, None));
    let effect = day17::Operation::Adv(day17::ComboOperand(6)).execute(4, registers).unwrap();
    assert_eq!((effect.pc, effect.registers.a), (5, 12));
    let effect = day17::Operation::Bxl(6).execute(0, registers).unwrap();
    assert_eq!(effect.registers.b, 3);
    let effect = day17::Operation::Bst(day17::ComboOperand(4)).execute(0, registers).unwrap();
    assert_eq!(effect.registers.b, 4);
    let effect = day17::Operation::Jnz(2).execute(3, registers).unwrap();
    assert_eq!(effect.pc, 2);
    assert_eq!(effect.registers, registers);
    let effect = day17::Operation::Jnz(2).execute(3, day17::Registers { a: 0, b: 0, c: 0 }).unwrap();
    assert_eq!(effect.pc, 4);
    let effect = day17::Operation::Bxc.execute(0, registers).unwrap();
    assert_eq!(effect.registers.b, 6);
    let effect = day17::Operation::Out(day17::ComboOperand(4)).execute(0, registers).unwrap();
    assert_eq!(effect.output, Some(4));
    assert_eq!(effect.registers, registers);
    let effect = day17::Operation::Bdv(day17::ComboOperand(1)).execute(0, registers).unwrap();
    assert_eq!((effect.registers.a, effect.registers.b), (100, 50));
    let effect = day17::Operation::Cdv(day17::ComboOperand(5)).execute(0, registers).unwrap();
    assert_eq!((effect.registers.a, effect.registers.c), (100, 3));
    assert!(day17::Operation::Out(day17::ComboOperand(7)).execute(0, registers).is_none());
}

#[test]
fn a_jump_does_not_count_on() {
    let registers = day17::Registers { a: 5, b: 6, c: 7 };
    for pc in [0, 1, 7, usize::MAX - 1, usize::MAX] {
        let effect = day17::Operation::new(3, 0).unwrap().execute(pc, registers).unwrap();
        assert_eq!((effect.pc, effect.registers, effect.output), (0, registers, None));
        let effect = day17::Operation::Jnz(4).execute(pc, registers).unwrap();
        assert_eq!((effect.pc, effect.registers, effect.output), (4, registers, None));
    }
    let idle = day17::Registers { a: 0, b: 6, c: 7 };
    let effect = day17::Operation::Jnz(4).execute(usize::MAX - 1, idle).unwrap();
    assert_eq!((effect.pc, effect.registers, effect.output), (usize::MAX, idle, None));
    assert!(day17::Operation::Jnz(4).execute(usize::MAX, idle).is_none());
    assert!(day17::Operation::Bxc.execute(usize::MAX, registers).is_none());
    assert!(day17::Operation::Bxl(1).execute(usize::MAX, registers).is_none());
    assert!(day17::Operation::Out(day17::ComboOperand(1)).execute(usize::MAX, registers).is_none());
    assert!(day17::Operation::Adv(day17::ComboOperand(1)).execute(usize::MAX, registers).is_none());
}

#[test]
fn the_search_for_a_copy_may_fail() {
    let text = program(2024, 0, 0, "0,3,5,4,3,0");
    assert_eq!(day17::Day.part1(&text), Some(SolvedValue::Text("5,7,3,0".to_string())));
    let system = day17::parse_input(&chars_of(&text)).unwrap();
    assert_eq!(day17::find_quine(&system), None);
    assert_eq!(day17::Day.part2(&text), None);
    assert_eq!(day17::Day.part2("Register A: 1"), None);
    assert_eq!(day17::Day.part1("Register A: 1\n\nProgram: 0,1"), None);
    assert_eq!(day17::Day.part1(&program(1, 0, 0, "0,1,5")), None);
    assert_eq!(day17::Day.part1(&program(1, 0, 0, "0,1,9,1")), None);
}

const BYTES: &str = "5,4\n4,2\n4,5\n3,0\n2,1\n6,3\n2,4\n1,5\n0,6\n3,3\n2,6\n5,1\n1,2\n5,5\n2,5\n6,5\n1,4\n0,4\n6,4\n1,1\n6,1\n1,0\n0,5\n1,6\n2,0\n";

#[test]
fn falling_bytes_block_the_way() {
    let maze = day18::parse_input(&chars_of(BYTES)).unwrap();
    assert_eq!(maze.size, 6);
    assert_eq!(maze.drop_list.len(), 25);
    assert_eq!(maze.drop_list[0], (5, 4));
    assert_eq!(maze.drop_list[20], (6, 1));
    assert_eq!(maze.find_distance_to_end(0), Some(12));
    assert_eq!(maze.find_distance_to_end(12), Some(22));
    assert_eq!(maze.find_distance_to_end(20), Some(24));
    assert_eq!(maze.find_distance_to_end(21), None);
    assert_eq!(maze.find_distance_to_end(25), None);
    let corrupted = maze.get_corrupted_after_bytes(3).unwrap();
    assert_eq!(corrupted.len(), 7);
    let blocked: usize = corrupted.iter().map(|row| row.iter().filter(|b| **b).count()).sum();
    assert_eq!(blocked, 3);
    let none = maze.get_corrupted_after_bytes(0).unwrap();
    assert!(none.iter().all(|row| row.len() == 7 && row.iter().all(|b| !*b)));
}

#[test]
fn bytes_that_are_not_pairs_are_refused() {
    assert!(day18::parse_input(&chars_of("5;4\n")).is_none());
    assert!(day18::parse_input(&chars_of("5,x\n")).is_none());
    assert_eq!(day18::Day.part1("5,4,3\n"), None);
    assert_eq!(day18::Day.part2("bytes"), None);
    let large = day18::parse_input(&chars_of("7,0\n")).unwrap();
    assert_eq!(large.size, 70);
    assert_eq!(large.find_distance_to_end(1), Some(140));
}

const TOWELS: &str = "r, wr, b, g, bwu, rb, gb, br";

#[test]
fn designs_are_laid_out_of_towels() {
    let towels: Vec<Vec<char>> = TOWELS.split(", ").map(chars_of).collect();
    let ways = |design: &str| day19::design_possible_count(&chars_of(design), &towels);
    assert_eq!(ways("brwrr"), Some(2));
    assert_eq!(ways("bggr"), Some(1));
    assert_eq!(ways("gbbr"), Some(4));
    assert_eq!(ways("rrbgbr"), Some(6));
    assert_eq!(ways("bwurrg"), Some(1));
    assert_eq!(ways("brgr"), Some(2));
    assert_eq!(ways("ubwu"), Some(0));
    assert_eq!(ways("bbrgwb"), Some(0));
    assert_eq!(ways(""), Some(1));
    assert_eq!(ways("w"), Some(0));
    let (read, designs) = day19::parse_input(&chars_of(&format!("{TOWELS}\n\nbrwrr\nbggr\n"))).unwrap();
    assert_eq!(read, towels);
    assert_eq!(designs, vec![chars_of("brwrr"), chars_of("bggr")]);
    let (read, designs) = day19::parse_input(&chars_of(TOWELS)).unwrap();
    assert_eq!(read, towels);
    assert!(designs.is_empty());
    assert_eq!(day19::Day.part1(TOWELS), Some(SolvedValue::Number(0)));
    assert!(day19::parse_input(&chars_of("")).is_none());
    assert_eq!(day19::Day.part2(""), None);
    let doubling: Vec<Vec<char>> = vec![chars_of("a"), chars_of("aa")];
    assert_eq!(day19::design_possible_count(&chars_of("aaaa"), &doubling), Some(5));
    assert_eq!(day19::design_possible_count(&chars_of(&"a".repeat(90)), &doubling), Some(4660046610375530309));
    assert_eq!(day19::design_possible_count(&chars_of(&"a".repeat(100)), &doubling), None);
}
