use sheatfish::configdata::ConfigData;
use sheatfish::sheetdata::SheetData;

fn small_doc() -> SheetData {
    let mut d = SheetData::new();
    d.load_vector(&vec![vec!["a".to_string()], vec!["b".to_string()]]);
    d
}

#[test]
fn new_doc_has_defaults() {
    let d = SheetData::new();
    assert_eq!(d.file_path, "new_file");
    assert!(d.unsaved);
    assert_eq!(d.bounds(), (16, 16));
    assert_eq!(d.dbg_get_history_info(), (0, -1));
}

#[test]
fn load_vector_clears_history_and_marks_unsaved() {
    let cfg = ConfigData::new();
    let mut d = small_doc();
    d.set_cell_value((0, 0), "x".to_string(), &cfg);
    let mut e = d;
    e.load_vector(&vec![vec!["z".to_string()]]);
    assert_eq!(e.file_path, "generated_file");
    assert!(e.unsaved);
    assert_eq!(e.dbg_get_history_info(), (0, -1));
    assert_eq!(e.cell((0, 0)), Some("z"));
}

#[test]
fn undo_restores_previous_content() {
    let cfg = ConfigData::new();
    let mut d = small_doc();
    d.set_cell_value((0, 0), "first".to_string(), &cfg);
    d.set_cell_value((0, 0), "second".to_string(), &cfg);
    assert_eq!(d.cell((0, 0)), Some("second"));
    assert!(d.undo());
    assert_eq!(d.cell((0, 0)), Some("first"));
    assert!(d.unsaved);
}

#[test]
fn undo_fails_without_older_snapshot() {
    let cfg = ConfigData::new();
    let mut d = small_doc();
    assert!(!d.undo());
    d.set_cell_value((0, 0), "x".to_string(), &cfg);
    assert!(!d.undo());
    assert_eq!(d.cell((0, 0)), Some("x"));
}

#[test]
fn redo_after_undo_restores_content() {
    let cfg = ConfigData::new();
    let mut d = small_doc();
    d.set_cell_value((0, 0), "one".to_string(), &cfg);
    d.set_cell_value((0, 0), "two".to_string(), &cfg);
    assert!(d.undo());
    assert_eq!(d.cell((0, 0)), Some("one"));
    assert!(d.redo());
    assert_eq!(d.cell((0, 0)), Some("two"));
    assert!(!d.redo());
}

#[test]
fn editing_after_undo_discards_redo_branch() {
    let cfg = ConfigData::new();
    let mut d = small_doc();
    d.set_cell_value((0, 0), "one".to_string(), &cfg);
    d.set_cell_value((0, 0), "two".to_string(), &cfg);
    assert!(d.undo());
    d.set_cell_value((0, 0), "three".to_string(), &cfg);
    assert!(!d.redo());
    assert_eq!(d.cell((0, 0)), Some("three"));
}

#[test]
fn history_stays_within_capacity() {
    let mut cfg = ConfigData::new();
    cfg.set_value("historysize", 3);
    let mut d = small_doc();
    let mut i: usize = 0;
    while i < 10 {
        d.set_cell_value((0, 0), format!("v{}", i), &cfg);
        let (len, _frame) = d.dbg_get_history_info();
        assert!(len <= 3);
        i += 1;
    }
    assert_eq!(d.dbg_get_history_info().0, 3);
}

#[test]
fn eviction_limits_how_far_undo_reaches() {
    let mut cfg = ConfigData::new();
    cfg.set_value("historysize", 2);
    let mut d = small_doc();
    d.set_cell_value((0, 0), "one".to_string(), &cfg);
    d.set_cell_value((0, 0), "two".to_string(), &cfg);
    d.set_cell_value((0, 0), "three".to_string(), &cfg);
    assert!(d.undo());
    assert_eq!(d.cell((0, 0)), Some("two"));
    assert!(!d.undo());
}

#[test]
fn rejected_edits_still_record_a_frame() {
    let cfg = ConfigData::new();
    let mut d = SheetData::new();
    d.load_vector(&vec![vec!["only".to_string()]]);
    assert_eq!(d.dbg_get_history_info(), (0, -1));
    // Deleting the only row is rejected by the grid, yet the document
    // records a (identical) frame.
    assert!(d.delete_row(0, &cfg));
    assert_eq!(d.cell((0, 0)), Some("only"));
    assert_eq!(d.dbg_get_history_info(), (1, 0));
}

#[test]
fn structural_edits_compose_with_history() {
    let cfg = ConfigData::new();
    let mut d = small_doc();
    assert!(d.insert_row(1, &cfg));
    assert_eq!(d.bounds(), (3, 1));
    assert!(d.insert_column(1, &cfg));
    assert_eq!(d.bounds(), (3, 2));
    assert!(d.delete_column(1, &cfg));
    assert!(d.delete_row(1, &cfg));
    assert_eq!(d.bounds(), (2, 1));
    assert!(d.undo());
    assert_eq!(d.bounds(), (3, 1));
}

#[test]
fn load_text_reads_and_normalizes() {
    let mut d = SheetData::new();
    assert!(d.load_text("file.csv".to_string(), Some("a,b\r\nc,d\r".to_string())));
    assert_eq!(d.file_path, "file.csv");
    assert!(!d.unsaved);
    assert_eq!(d.bounds(), (2, 2));
    assert_eq!(d.cell((1, 1)), Some("d"));
    assert_eq!(d.dbg_get_history_info(), (0, -1));
}

#[test]
fn load_text_failure_clears_but_keeps_path() {
    let cfg = ConfigData::new();
    let mut d = small_doc();
    d.set_cell_value((0, 0), "x".to_string(), &cfg);
    assert!(!d.load_text("missing.csv".to_string(), None));
    assert_eq!(d.file_path, "missing.csv");
    assert_eq!(d.bounds(), (0, 0));
    assert_eq!(d.dbg_get_history_info(), (0, -1));
}

#[test]
fn save_to_same_clean_path_is_a_no_op() {
    let mut d = SheetData::new();
    assert!(d.load_text("same.csv".to_string(), Some("a,b".to_string())));
    assert!(!d.unsaved);
    // Saving unmodified content to its own path produces nothing.
    assert_eq!(d.prepare_save("same.csv".to_string()), None);
    assert_eq!(d.file_path, "same.csv");
}

#[test]
fn save_produces_text_and_mark_saved_clears_flag() {
    let cfg = ConfigData::new();
    let mut d = SheetData::new();
    assert!(d.load_text("same.csv".to_string(), Some("a,b".to_string())));
    d.set_cell_value((0, 0), "z".to_string(), &cfg);
    assert!(d.unsaved);
    let text = d.prepare_save("same.csv".to_string()).expect("text to write");
    assert_eq!(text, "z, b\n");
    d.mark_saved();
    assert!(!d.unsaved);
    // A different path is written even when nothing is unsaved.
    let again = d.prepare_save("other.csv".to_string()).expect("text to write");
    assert_eq!(again, "z, b\n");
    assert_eq!(d.file_path, "other.csv");
}

#[test]
fn cursor_motion_is_not_recorded() {
    let mut d = small_doc();
    d.set_selected_coords((0, 0));
    d.move_selected_coords((1, 0));
    assert_eq!(d.selected(), Some((1, 0)));
    assert_eq!(d.selected_cell_value(), Some("b"));
    assert_eq!(d.dbg_get_history_info(), (0, -1));
    assert!(d.in_bounds((1, 0)));
    assert!(!d.in_bounds((2, 0)));
}

#[test]
fn document_sorts_delegate_to_the_grid() {
    let cfg = ConfigData::new();
    let mut d = SheetData::new();
    d.load_vector(&vec![
        vec!["10".to_string()],
        vec!["2".to_string()],
        vec!["1".to_string()],
    ]);
    // A first recorded edit, so the sort has a frame to undo back to.
    d.set_cell_value((1, 0), "2".to_string(), &cfg);
    assert!(d.sort_column_bounded_num(0, 0, 2, &cfg));
    assert_eq!(d.cell((0, 0)), Some("1"));
    assert_eq!(d.cell((2, 0)), Some("10"));
    assert!(d.undo());
    assert_eq!(d.cell((0, 0)), Some("10"));
    assert!(d.sort_column(0, &cfg));
    assert_eq!(d.cell((1, 0)), Some("10"));
}
