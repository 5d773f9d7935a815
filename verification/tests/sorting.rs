use sheatfish::order::num_value_of;
use sheatfish::sheet::Sheet;

fn column(s: &Sheet, col: usize, rows: usize) -> Vec<String> {
    let mut out: Vec<String> = Vec::new();
    let mut r: usize = 0;
    while r < rows {
        out.push(s.cell((r, col)).expect("cell").to_string());
        r += 1;
    }
    out
}

#[test]
fn string_sort_orders_lexicographically() {
    let mut s = Sheet::new();
    s.load_vector(&vec![
        vec!["3".to_string()],
        vec!["1".to_string()],
        vec!["2".to_string()],
    ]);
    assert!(s.sort_column_bounded(0, 0, 2));
    assert_eq!(column(&s, 0, 3), vec!["1", "2", "3"]);
}

#[test]
fn numeric_sort_orders_by_value_not_text() {
    let mut s = Sheet::new();
    s.load_vector(&vec![
        vec!["10".to_string()],
        vec!["2".to_string()],
        vec!["1".to_string()],
    ]);
    assert!(s.sort_column_bounded_num(0, 0, 2));
    assert_eq!(column(&s, 0, 3), vec!["1", "2", "10"]);
}

#[test]
fn string_sort_on_ten_and_two_is_lexicographic() {
    let mut s = Sheet::new();
    s.load_vector(&vec![
        vec!["10".to_string()],
        vec!["2".to_string()],
        vec!["1".to_string()],
    ]);
    assert!(s.sort_column_bounded(0, 0, 2));
    assert_eq!(column(&s, 0, 3), vec!["1", "10", "2"]);
}

#[test]
fn sort_rejects_bad_ranges() {
    let mut s = Sheet::new();
    s.load_vector(&vec![vec!["a".to_string()], vec!["b".to_string()]]);
    assert!(!s.sort_column_bounded(1, 0, 1));
    assert!(!s.sort_column_bounded(0, 1, 0));
    assert!(!s.sort_column_bounded(0, 0, 2));
    assert!(!s.sort_column_bounded_num(0, 0, 5));
    assert_eq!(column(&s, 0, 2), vec!["a", "b"]);
}

#[test]
fn sort_moves_only_the_one_column() {
    let mut s = Sheet::new();
    s.load_vector(&vec![
        vec!["b".to_string(), "x".to_string()],
        vec!["a".to_string(), "y".to_string()],
    ]);
    assert!(s.sort_column_bounded(0, 0, 1));
    assert_eq!(column(&s, 0, 2), vec!["a", "b"]);
    assert_eq!(column(&s, 1, 2), vec!["x", "y"]);
}

#[test]
fn sort_respects_row_range() {
    let mut s = Sheet::new();
    s.load_vector(&vec![
        vec!["d".to_string()],
        vec!["c".to_string()],
        vec!["b".to_string()],
        vec!["a".to_string()],
    ]);
    assert!(s.sort_column_bounded(0, 1, 2));
    assert_eq!(column(&s, 0, 4), vec!["d", "b", "c", "a"]);
}

#[test]
fn numeric_sort_is_stable_for_equal_values() {
    // "1.0" and "1" denote the same value; their original order is kept.
    let mut s = Sheet::new();
    s.load_vector(&vec![
        vec!["2".to_string()],
        vec!["1.0".to_string()],
        vec!["1".to_string()],
    ]);
    assert!(s.sort_column_bounded_num(0, 0, 2));
    assert_eq!(column(&s, 0, 3), vec!["1.0", "1", "2"]);
}

#[test]
fn numeric_sort_treats_unparsable_as_zero() {
    let mut s = Sheet::new();
    s.load_vector(&vec![
        vec!["5".to_string()],
        vec!["hello".to_string()],
        vec!["-3".to_string()],
    ]);
    assert!(s.sort_column_bounded_num(0, 0, 2));
    assert_eq!(column(&s, 0, 3), vec!["-3", "hello", "5"]);
}

#[test]
fn sort_column_covers_every_row() {
    let mut s = Sheet::new();
    s.load_vector(&vec![
        vec!["c".to_string()],
        vec!["a".to_string()],
        vec!["b".to_string()],
    ]);
    assert!(s.sort_column(0));
    assert_eq!(column(&s, 0, 3), vec!["a", "b", "c"]);
}

#[test]
fn sort_column_on_empty_grid_fails() {
    let mut s = Sheet::new();
    s.clear();
    assert!(!s.sort_column(0));
}

#[test]
fn num_value_reads_signs_fractions_and_rejects_junk() {
    assert_eq!(num_value_of("0"), 0);
    assert_eq!(num_value_of("1"), 10_000_000_000_000_000_000);
    assert_eq!(num_value_of("-2"), -20_000_000_000_000_000_000);
    assert_eq!(num_value_of("+1.5"), 15_000_000_000_000_000_000);
    assert_eq!(num_value_of(".5"), 5_000_000_000_000_000_000);
    assert_eq!(num_value_of("2."), 20_000_000_000_000_000_000);
    assert_eq!(num_value_of("-0"), 0);
    assert_eq!(num_value_of(""), 0);
    assert_eq!(num_value_of("."), 0);
    assert_eq!(num_value_of("1.2.3"), 0);
    assert_eq!(num_value_of("12x"), 0);
    assert_eq!(num_value_of(" 1"), 0);
    assert_eq!(num_value_of("10000000000000000000"), 0);
    assert_eq!(num_value_of("9999999999999999999"), 9_999_999_999_999_999_999 * 10_000_000_000_000_000_000i128);
    assert_eq!(num_value_of("0.25"), 2_500_000_000_000_000_000);
}
