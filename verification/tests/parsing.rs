use kill_report::dist::{distance_hundredths, parse_coord};
use kill_report::events::extract_event;
use kill_report::text::str_lt;
use kill_report::PipelineError;

fn cells(v: &[&str]) -> Vec<String> {
    v.iter().map(|s| s.to_string()).collect()
}

#[test]
fn coordinate_plain_integer() {
    assert_eq!(parse_coord("3"), Some(300));
    assert_eq!(parse_coord("0"), Some(0));
    assert_eq!(parse_coord("421"), Some(42100));
}

#[test]
fn coordinate_fraction_rounds_to_hundredths() {
    assert_eq!(parse_coord("3.14159"), Some(314));
    assert_eq!(parse_coord("2.005"), Some(201));
    assert_eq!(parse_coord("2.004999"), Some(200));
    assert_eq!(parse_coord("1.239"), Some(124));
}

#[test]
fn coordinate_signs() {
    assert_eq!(parse_coord("-1.5"), Some(-150));
    assert_eq!(parse_coord("+2"), Some(200));
    assert_eq!(parse_coord("-0"), Some(0));
}

#[test]
fn coordinate_bare_dot_forms() {
    assert_eq!(parse_coord(".5"), Some(50));
    assert_eq!(parse_coord("1."), Some(100));
}

#[test]
fn coordinate_rejects_junk() {
    assert_eq!(parse_coord(""), None);
    assert_eq!(parse_coord("."), None);
    assert_eq!(parse_coord("+"), None);
    assert_eq!(parse_coord("abc"), None);
    assert_eq!(parse_coord("1e5"), None);
    assert_eq!(parse_coord("1.2.3"), None);
    assert_eq!(parse_coord(" 1"), None);
}

#[test]
fn coordinate_integer_limit() {
    assert_eq!(parse_coord("999999999"), Some(99_999_999_900));
    assert_eq!(parse_coord("1000000000"), None);
}

#[test]
fn distance_three_four_five() {
    // killer at (0,0), victim at (3,4): exactly 5.00
    assert_eq!(distance_hundredths(0, 0, 300, 400), 500);
}

#[test]
fn distance_rounds_half_up() {
    // sqrt(2) = 1.41421...: 1.41 at two decimals
    assert_eq!(distance_hundredths(0, 0, 100, 100), 141);
    // degenerate: same point
    assert_eq!(distance_hundredths(250, 250, 250, 250), 0);
}

#[test]
fn extract_reads_fixed_columns() {
    let row = cells(&["Axe", "Alice", "", "0", "0", "", "", "", "", "", "3", "4"]);
    let ev = extract_event(&row).unwrap();
    assert_eq!(ev.weapon, "Axe");
    assert_eq!(ev.killer, "Alice");
    assert_eq!(ev.distance_hundredths, 500);
}

#[test]
fn extract_missing_coordinate_is_zero_distance() {
    let row = cells(&["Axe", "Alice", "", "", "0", "", "", "", "", "", "3", "4"]);
    let ev = extract_event(&row).unwrap();
    assert_eq!(ev.distance_hundredths, 0);
}

#[test]
fn extract_unparsable_coordinate_is_zero_distance() {
    let row = cells(&["Axe", "Alice", "", "x", "0", "", "", "", "", "", "3", "4"]);
    let ev = extract_event(&row).unwrap();
    assert_eq!(ev.distance_hundredths, 0);
}

#[test]
fn extract_short_row_is_parse_error() {
    let row = cells(&["Axe"]);
    assert_eq!(extract_event(&row), Err(PipelineError::Parse));
}

#[test]
fn extract_two_columns_is_enough() {
    let row = cells(&["Axe", "Alice"]);
    let ev = extract_event(&row).unwrap();
    assert_eq!(ev.distance_hundredths, 0);
}

#[test]
fn string_order_is_lexicographic() {
    assert!(str_lt("Axe", "Bat"));
    assert!(!str_lt("Bat", "Axe"));
    assert!(str_lt("ab", "abc"));
    assert!(!str_lt("abc", "ab"));
    assert!(!str_lt("a", "A"));
    assert!(str_lt("A", "a"));
    assert!(!str_lt("same", "same"));
}
