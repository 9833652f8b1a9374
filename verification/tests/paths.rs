use rustvent::utils::{first_existing, get_possible_paths, strip_carriage_returns};

#[test]
fn example_input_is_looked_for_in_three_places() {
    assert_eq!(
        get_possible_paths(1, true, 1),
        vec![
            "inputs/01-example-1.txt".to_string(),
            "inputs/01-example.txt".to_string(),
            "inputs/01.txt".to_string(),
        ]
    );
    assert_eq!(
        get_possible_paths(17, true, 2),
        vec![
            "inputs/17-example-2.txt".to_string(),
            "inputs/17-example.txt".to_string(),
            "inputs/17.txt".to_string(),
        ]
    );
}

#[test]
fn full_input_is_looked_for_in_one_place() {
    assert_eq!(get_possible_paths(9, false, 2), vec!["inputs/09.txt".to_string()]);
    assert_eq!(get_possible_paths(25, false, 1), vec!["inputs/25.txt".to_string()]);
}

#[test]
fn day_numbers_are_padded_to_two_digits() {
    assert_eq!(get_possible_paths(0, false, 1), vec!["inputs/00.txt".to_string()]);
    assert_eq!(get_possible_paths(10, false, 1), vec!["inputs/10.txt".to_string()]);
    assert_eq!(get_possible_paths(123, false, 1), vec!["inputs/123.txt".to_string()]);
    assert_eq!(
        get_possible_paths(7, true, 200),
        vec![
            "inputs/07-example-200.txt".to_string(),
            "inputs/07-example.txt".to_string(),
            "inputs/07.txt".to_string(),
        ]
    );
}

#[test]
fn carriage_returns_are_removed() {
    assert_eq!(strip_carriage_returns("a\r\nb\r\n"), "a\nb\n");
    assert_eq!(strip_carriage_returns("a\rb"), "ab");
    assert_eq!(strip_carriage_returns("\r\r\r"), "");
    assert_eq!(strip_carriage_returns(""), "");
    assert_eq!(strip_carriage_returns("no returns\n"), "no returns\n");
}

#[test]
fn the_first_file_that_exists_is_read() {
    assert_eq!(first_existing(&vec![true, true, true]), Some(0));
    assert_eq!(first_existing(&vec![false, true, true]), Some(1));
    assert_eq!(first_existing(&vec![false, false, true]), Some(2));
    assert_eq!(first_existing(&vec![true, false, false]), Some(0));
    assert_eq!(first_existing(&vec![true]), Some(0));
}

#[test]
fn no_file_is_read_where_none_exists() {
    assert_eq!(first_existing(&vec![false, false, false]), None);
    assert_eq!(first_existing(&vec![false]), None);
    assert_eq!(first_existing(&vec![]), None);
}
