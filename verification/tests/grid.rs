use sheatfish::sheet::Sheet;

fn cell_of(s: &Sheet, r: usize, c: usize) -> String {
    s.cell((r, c)).expect("cell in bounds").to_string()
}

#[test]
fn load_string_basic() {
    let mut s = Sheet::new();
    assert!(s.load_string("a,b\nc,d\n".to_string()));
    assert_eq!(s.bounds(), (2, 2));
    assert_eq!(cell_of(&s, 0, 0), "a");
    assert_eq!(cell_of(&s, 0, 1), "b");
    assert_eq!(cell_of(&s, 1, 0), "c");
    assert_eq!(cell_of(&s, 1, 1), "d");
    assert_eq!(s.selected(), None);
}

#[test]
fn load_string_trims_fields_and_skips_blank_lines() {
    let mut s = Sheet::new();
    assert!(s.load_string("  a , b\n\n   \nc,  d  \n".to_string()));
    assert_eq!(s.bounds(), (2, 2));
    assert_eq!(cell_of(&s, 0, 0), "a");
    assert_eq!(cell_of(&s, 0, 1), "b");
    assert_eq!(cell_of(&s, 1, 0), "c");
    assert_eq!(cell_of(&s, 1, 1), "d");
}

#[test]
fn load_string_widens_ragged_rows() {
    let mut s = Sheet::new();
    assert!(s.load_string("a\nb,c,d\ne,f".to_string()));
    assert_eq!(s.bounds(), (3, 3));
    assert_eq!(cell_of(&s, 0, 0), "a");
    assert_eq!(cell_of(&s, 0, 1), "");
    assert_eq!(cell_of(&s, 0, 2), "");
    assert_eq!(cell_of(&s, 1, 2), "d");
    assert_eq!(cell_of(&s, 2, 0), "e");
    assert_eq!(cell_of(&s, 2, 2), "");
}

#[test]
fn load_string_empty_text_gives_empty_grid() {
    let mut s = Sheet::new();
    assert!(s.load_string(String::new()));
    assert_eq!(s.bounds(), (0, 0));
    assert_eq!(s.cell((0, 0)), None);
}

#[test]
fn new_sheet_is_sixteen_by_sixteen() {
    let s = Sheet::new();
    assert_eq!(s.bounds(), (16, 16));
    assert_eq!(s.selected(), Some((0, 0)));
    assert_eq!(cell_of(&s, 15, 15), "");
}

#[test]
fn generate_string_joins_with_comma_space() {
    let mut s = Sheet::new();
    assert!(s.load_string("a,b\nc,d".to_string()));
    assert_eq!(s.generate_string(), "a, b\nc, d\n");
}

#[test]
fn generate_string_empty_grid() {
    let mut s = Sheet::new();
    s.clear();
    assert_eq!(s.generate_string(), "");
}

#[test]
fn insert_row_in_middle() {
    let mut s = Sheet::new();
    s.load_vector(&vec![vec!["x".to_string()], vec!["y".to_string()]]);
    assert!(s.insert_row(1));
    assert_eq!(s.bounds(), (3, 1));
    assert_eq!(cell_of(&s, 0, 0), "x");
    assert_eq!(cell_of(&s, 1, 0), "");
    assert_eq!(cell_of(&s, 2, 0), "y");
}

#[test]
fn insert_row_append_and_reject_past_end() {
    let mut s = Sheet::new();
    s.load_vector(&vec![vec!["x".to_string()]]);
    assert!(s.insert_row(1));
    assert_eq!(s.bounds(), (2, 1));
    assert!(!s.insert_row(3));
    assert_eq!(s.bounds(), (2, 1));
}

#[test]
fn delete_last_row_and_column_fail() {
    let mut s = Sheet::new();
    s.load_vector(&vec![vec!["only".to_string()]]);
    assert!(!s.delete_row(0));
    assert!(!s.delete_column(0));
    assert_eq!(s.bounds(), (1, 1));
    assert_eq!(cell_of(&s, 0, 0), "only");
}

#[test]
fn delete_row_adjusts_cursor() {
    let mut s = Sheet::new();
    s.load_vector(&vec![
        vec!["a".to_string()],
        vec!["b".to_string()],
        vec!["c".to_string()],
    ]);
    s.set_selected_coords((2, 0));
    assert!(s.delete_row(2));
    assert_eq!(s.bounds(), (2, 1));
    assert_eq!(s.selected(), Some((1, 0)));
}

#[test]
fn delete_column_adjusts_cursor() {
    let mut s = Sheet::new();
    s.load_vector(&vec![vec!["a".to_string(), "b".to_string()]]);
    s.set_selected_coords((0, 1));
    assert!(s.delete_column(1));
    assert_eq!(s.bounds(), (1, 1));
    assert_eq!(s.selected(), Some((0, 0)));
    assert_eq!(cell_of(&s, 0, 0), "a");
}

#[test]
fn insert_column_widens_every_row() {
    let mut s = Sheet::new();
    s.load_vector(&vec![
        vec!["a".to_string(), "b".to_string()],
        vec!["c".to_string(), "d".to_string()],
    ]);
    assert!(s.insert_column(1));
    assert_eq!(s.bounds(), (2, 3));
    assert_eq!(cell_of(&s, 0, 0), "a");
    assert_eq!(cell_of(&s, 0, 1), "");
    assert_eq!(cell_of(&s, 0, 2), "b");
    assert_eq!(cell_of(&s, 1, 1), "");
    assert!(!s.insert_column(4));
}

#[test]
fn set_cell_value_in_and_out_of_bounds() {
    let mut s = Sheet::new();
    s.load_vector(&vec![vec!["a".to_string()]]);
    s.set_cell_value((0, 0), "z".to_string());
    assert_eq!(cell_of(&s, 0, 0), "z");
    s.set_cell_value((5, 5), "w".to_string());
    assert_eq!(s.bounds(), (1, 1));
    assert_eq!(cell_of(&s, 0, 0), "z");
}

#[test]
fn cursor_moves_stop_at_edges() {
    let mut s = Sheet::new();
    s.load_vector(&vec![
        vec!["a".to_string(), "b".to_string()],
        vec!["c".to_string(), "d".to_string()],
    ]);
    s.set_selected_coords((0, 0));
    s.move_selected_coords((-1, 0));
    assert_eq!(s.selected(), Some((0, 0)));
    s.move_selected_coords((1, 1));
    assert_eq!(s.selected(), Some((1, 1)));
    s.move_selected_coords((0, 1));
    assert_eq!(s.selected(), Some((1, 1)));
}

#[test]
fn cursor_resets_to_origin_when_unset() {
    let mut s = Sheet::new();
    s.load_vector(&vec![vec!["a".to_string()]]);
    assert_eq!(s.selected(), None);
    s.move_selected_coords((0, 0));
    assert_eq!(s.selected(), Some((0, 0)));
}

#[test]
fn selected_cell_value_follows_cursor() {
    let mut s = Sheet::new();
    s.load_vector(&vec![vec!["a".to_string(), "b".to_string()]]);
    assert_eq!(s.selected_cell_value(), None);
    s.set_selected_coords((0, 1));
    assert_eq!(s.selected_cell_value(), Some("b"));
    s.set_selected_cell_value("q".to_string());
    assert_eq!(s.selected_cell_value(), Some("q"));
}

#[test]
fn in_bounds_and_cell_agree() {
    let mut s = Sheet::new();
    s.load_vector(&vec![vec!["a".to_string()]]);
    assert!(s.in_bounds((0, 0)));
    assert!(!s.in_bounds((0, 1)));
    assert!(!s.in_bounds((1, 0)));
    assert!(s.cell((1, 0)).is_none());
}

#[test]
fn set_equal_and_clone_copy_content() {
    let mut a = Sheet::new();
    a.load_vector(&vec![vec!["a".to_string(), "b".to_string()]]);
    a.set_selected_coords((0, 1));
    let b = a.clone();
    assert_eq!(b.bounds(), (1, 2));
    assert_eq!(b.selected(), Some((0, 1)));
    assert_eq!(b.cell((0, 0)), Some("a"));
    let mut c = Sheet::new();
    c.set_equal(&a);
    assert_eq!(c.bounds(), (1, 2));
    assert_eq!(c.cell((0, 1)), Some("b"));
}

#[test]
fn load_string_roundtrip_with_comma_space() {
    // The serializer's ", " separator is read back as plain "," plus
    // trimming, so the content survives one round trip.
    let mut s = Sheet::new();
    assert!(s.load_string("a,b\nc,d".to_string()));
    let text = s.generate_string();
    let mut t = Sheet::new();
    assert!(t.load_string(text));
    assert_eq!(t.bounds(), (2, 2));
    assert_eq!(t.cell((0, 1)), Some("b"));
    assert_eq!(t.cell((1, 0)), Some("c"));
}
