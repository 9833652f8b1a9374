use nalgebra::{Matrix2, Vector2};
use rustvent::days::day13::{
    min_tokens_price, parse_machines, total_price, Machine, BUTTON_PATTERN, PRIZE_PATTERN,
};
use rustvent::days::{day13, get_day};
use rustvent::solution::Solution;

const MACHINES: &str = "Button A: X+94, Y+34
Button B: X+22, Y+67
Prize: X=8400, Y=5400

Button A: X+26, Y+66
Button B: X+67, Y+21
Prize: X=12748, Y=12176

Button A: X+17, Y+86
Button B: X+84, Y+37
Prize: X=7870, Y=6450

Button A: X+69, Y+23
Button B: X+27, Y+71
Prize: X=18641, Y=10279
";

#[test]
fn reads_the_machines_of_the_example() {
    let machines = parse_machines(MACHINES).unwrap();
    assert_eq!(machines.len(), 4);
    assert_eq!(machines[0].button_a_vec, (94, 34));
    assert_eq!(machines[0].button_b_vec, (22, 67));
    assert_eq!(machines[0].price_location, (8400, 5400));
    assert_eq!(machines[1].button_a_vec, (26, 66));
    assert_eq!(machines[1].button_b_vec, (67, 21));
    assert_eq!(machines[1].price_location, (12748, 12176));
    assert_eq!(machines[2].button_a_vec, (17, 86));
    assert_eq!(machines[2].button_b_vec, (84, 37));
    assert_eq!(machines[2].price_location, (7870, 6450));
    assert_eq!(machines[3].button_a_vec, (69, 23));
    assert_eq!(machines[3].button_b_vec, (27, 71));
    assert_eq!(machines[3].price_location, (18641, 10279));
}

#[test]
fn a_pattern_is_searched_for_anywhere_in_its_line() {
    let text = "the Button B: X+1, Y+20 is broken\nButton A: X+3, Y+4 \n> Prize: X=5, Y=6!";
    let machines = parse_machines(text).unwrap();
    assert_eq!(machines.len(), 1);
    assert_eq!(machines[0].button_a_vec, (1, 20));
    assert_eq!(machines[0].button_b_vec, (3, 4));
    assert_eq!(machines[0].price_location, (5, 6));
}

#[test]
fn machines_that_are_not_well_written_are_refused() {
    assert!(parse_machines("").is_none());
    assert!(parse_machines("Button A: X+94, Y+34\nButton B: X+22, Y+67\n").is_none());
    assert!(parse_machines("Button A: X+94, Y+34\nButton B: X+22, Y+67\nPrize: X+8400, Y+5400\n")
        .is_none());
    assert!(parse_machines("Button A: X-94, Y+34\nButton B: X+22, Y+67\nPrize: X=8400, Y=5400\n")
        .is_none());
    assert!(parse_machines("Button C: X+94, Y+34\nButton B: X+22, Y+67\nPrize: X=8400, Y=5400\n")
        .is_none());
    assert!(parse_machines(
        "Button A: X+94, Y+34\nButton B: X+22, Y+67\nPrize: X=99999999999999999999, Y=5400\n"
    )
    .is_none());
    assert!(parse_machines(&format!("{MACHINES}\nButton A: X+1, Y+1\n")).is_none());
}

#[test]
fn the_patterns_name_two_groups() {
    assert!(BUTTON_PATTERN.contains("(?<x>"));
    assert!(BUTTON_PATTERN.contains("(?<y>"));
    assert!(PRIZE_PATTERN.contains("(?<x>"));
    assert!(PRIZE_PATTERN.contains("(?<y>"));
}

#[test]
fn a_machine_is_made_of_what_was_captured() {
    let pair = |x: &str, y: &str| (x.to_string(), y.to_string());
    let machine =
        Machine::from_captures(&pair("94", "34"), &pair("22", "67"), &pair("8400", "5400"))
            .unwrap();
    assert_eq!(machine.button_a_vec, (94, 34));
    assert_eq!(machine.button_b_vec, (22, 67));
    assert_eq!(machine.price_location, (8400, 5400));
    assert!(Machine::from_captures(&pair("94", ""), &pair("22", "67"), &pair("8400", "5400"))
        .is_none());
    assert!(Machine::from_captures(&pair("94", "34"), &pair("a", "67"), &pair("8400", "5400"))
        .is_none());
    assert!(Machine::from_captures(
        &pair("94", "34"),
        &pair("22", "67"),
        &pair("8400", "18446744073709551616")
    )
    .is_none());
}

#[test]
fn the_prize_of_part_two_is_further_away() {
    let machine = Machine {
        button_a_vec: (94, 34),
        button_b_vec: (22, 67),
        price_location: (8400, 5400),
    };
    let far = machine.far().unwrap();
    assert_eq!(far.button_a_vec, (94, 34));
    assert_eq!(far.button_b_vec, (22, 67));
    assert_eq!(far.price_location, (10_000_000_008_400, 10_000_000_005_400));
    let edge = Machine { price_location: (u64::MAX - 10_000_000_000_000, 0), ..machine };
    assert_eq!(edge.far().unwrap().price_location, (u64::MAX, 10_000_000_000_000));
    let beyond = Machine { price_location: (u64::MAX - 9_999_999_999_999, 0), ..machine };
    assert!(beyond.far().is_none());
    let beyond = Machine { price_location: (0, u64::MAX), ..machine };
    assert!(beyond.far().is_none());
}

#[test]
fn presses_cost_three_tokens_and_one() {
    assert_eq!(min_tokens_price((80, 40)), Some(280));
    assert_eq!(min_tokens_price((38, 86)), Some(200));
    assert_eq!(min_tokens_price((0, 0)), Some(0));
    assert_eq!(min_tokens_price((1, 0)), Some(3));
    assert_eq!(min_tokens_price((0, 1)), Some(1));
    assert_eq!(min_tokens_price((usize::MAX / 3, 0)), Some(usize::MAX / 3 * 3));
    assert_eq!(min_tokens_price((usize::MAX / 3 + 1, 0)), None);
    assert_eq!(min_tokens_price((1, usize::MAX - 2)), None);
    assert_eq!(min_tokens_price((1, usize::MAX - 3)), Some(usize::MAX));
}

#[test]
fn the_prices_of_all_machines_are_added() {
    assert_eq!(total_price(&vec![(80, 40), (0, 0), (38, 86), (0, 0)]), Some(480));
    assert_eq!(total_price(&vec![]), Some(0));
    assert_eq!(total_price(&vec![(0, usize::MAX), (0, 1)]), None);
    assert_eq!(total_price(&vec![(usize::MAX, 0)]), None);
}

fn steps_to_price(machine: &Machine) -> (usize, usize) {
    let equations = Matrix2::new(
        machine.button_a_vec.0 as f64,
        machine.button_b_vec.0 as f64,
        machine.button_a_vec.1 as f64,
        machine.button_b_vec.1 as f64,
    );
    let solutions = Vector2::new(
        machine.price_location.0 as f64,
        machine.price_location.1 as f64,
    );
    if let Some(res) = equations.lu().solve(&solutions) {
        let rounded_x = res.x.round();
        let rounded_y = res.y.round();
        if (rounded_x - res.x).abs() <= 0.001 && (rounded_y - res.y).abs() <= 0.001 {
            return (rounded_x as usize, rounded_y as usize);
        }
    }
    (0, 0)
}

#[test]
fn day13_test_part1_example() {
    let machines = parse_machines(MACHINES).unwrap();
    let presses: Vec<(usize, usize)> = machines.iter().map(steps_to_price).collect();
    assert_eq!(presses, vec![(80, 40), (0, 0), (38, 86), (0, 0)]);
    assert_eq!(total_price(&presses), Some(480));
}

#[test]
fn day13_test_part2_example() {
    let machines = parse_machines(MACHINES).unwrap();
    let presses: Vec<(usize, usize)> =
        machines.iter().map(|machine| steps_to_price(&machine.far().unwrap())).collect();
    assert_eq!(presses[0], (0, 0));
    assert_eq!(presses[2], (0, 0));
    assert_eq!(total_price(&presses), Some(875_318_608_908));
}

#[test]
fn the_solver_of_the_claw_machines_answers_nothing_by_itself() {
    assert_eq!(day13::Day.part1(MACHINES), None);
    assert_eq!(day13::Day.part2(MACHINES), None);
    assert_eq!(get_day(13).unwrap().part1(MACHINES), None);
}
