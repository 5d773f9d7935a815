use sheatfish::command::Command;
use sheatfish::configdata::ConfigData;
use sheatfish::remdata::RemData;
use sheatfish::sheetdata::SheetData;
use sheatfish::text::fmt_string_padding;
use sheatfish::viewport::{vertical_coord_of_input, view_height_of, view_width_of, viewport};

#[test]
fn config_defaults_are_present() {
    let cfg = ConfigData::new();
    assert_eq!(cfg.get_value("maxcellwidth"), Some(5));
    assert_eq!(cfg.get_value("vimmode"), Some(0));
    assert_eq!(cfg.get_value("viewcellswidth"), Some(10));
    assert_eq!(cfg.get_value("viewcellsheight"), Some(10));
    assert_eq!(cfg.get_value("historysize"), Some(100));
    assert_eq!(cfg.get_value("unknown"), None);
}

#[test]
fn config_set_updates_and_appends() {
    let mut cfg = ConfigData::new();
    cfg.set_value("vimmode", 1);
    assert_eq!(cfg.get_value("vimmode"), Some(1));
    cfg.set_value("brandnew", -7);
    assert_eq!(cfg.get_value("brandnew"), Some(-7));
    assert_eq!(cfg.get_value("historysize"), Some(100));
}

#[test]
fn config_display_lists_entries_in_order() {
    let cfg = ConfigData::new();
    assert_eq!(
        cfg.display(),
        "maxcellwidth: 5\nvimmode: 0\nviewcellswidth: 10\nviewcellsheight: 10\nhistorysize: 100\n"
    );
}

#[test]
fn config_save_text_uses_comma_space() {
    let mut cfg = ConfigData::new();
    cfg.set_value("vimmode", -3);
    let text = cfg.save_text();
    assert!(text.contains("vimmode, -3\n"));
    assert!(text.starts_with("maxcellwidth, 5\n"));
}

#[test]
fn config_apply_text_parses_lines() {
    let mut cfg = ConfigData::new();
    cfg.apply_config_text("historysize, 7\r\n\n  vimmode ,  1  \nnonsense\nviewcellswidth, oops\n");
    assert_eq!(cfg.get_value("historysize"), Some(7));
    assert_eq!(cfg.get_value("vimmode"), Some(1));
    // An unreadable value parses as zero; a line without a comma sets nothing.
    assert_eq!(cfg.get_value("viewcellswidth"), Some(0));
    assert_eq!(cfg.get_value("nonsense"), None);
}

#[test]
fn config_apply_text_roundtrips_save_text() {
    let mut cfg = ConfigData::new();
    cfg.set_value("historysize", 42);
    let text = cfg.save_text();
    let mut other = ConfigData::new();
    other.apply_config_text(text.as_str());
    assert_eq!(other.get_value("historysize"), Some(42));
    assert_eq!(other.get_value("maxcellwidth"), Some(5));
}

#[test]
fn command_from_splits_and_trims() {
    let c = Command::from("  open  file.csv \n");
    assert_eq!(c.len(), 3);
    assert_eq!(c.term(0), "open");
    assert_eq!(c.term(1), "");
    assert_eq!(c.term(2), "file.csv");
}

#[test]
fn command_from_strips_leading_colon() {
    let c = Command::from(":q");
    assert_eq!(c.len(), 1);
    assert_eq!(c.term(0), "q");
    let d = Command::from("q!");
    assert_eq!(d.term(0), "q!");
}

#[test]
fn command_from_empty_line_has_one_empty_term() {
    let c = Command::from("   ");
    assert_eq!(c.len(), 1);
    assert_eq!(c.term(0), "");
}

#[test]
fn remdata_formats_both_ways() {
    let rem = RemData::new("0.4.0", "2024/12/16", true);
    assert_eq!(rem.fmt(false), "R: v0.4.0, E: 2024/12/16, M: [successful]");
    assert_eq!(
        rem.fmt(true),
        "  R: v0.4.0\n  E: 2024/12/16\n  M: [successful]"
    );
    let bad = RemData::new("1", "2", false);
    assert_eq!(bad.fmt(false), "R: v1, E: 2, M: [unsuccessful]");
}

#[test]
fn padding_pads_and_cuts() {
    assert_eq!(fmt_string_padding("ab", 4), "ab  ");
    assert_eq!(fmt_string_padding("abcdef", 4), "abcd");
    assert_eq!(fmt_string_padding("", 3), "   ");
    assert_eq!(fmt_string_padding("xyz", 0), "");
}

#[test]
fn viewport_centers_and_clamps() {
    // Cursor in the middle of a large grid: a ten-by-ten window starting
    // five above and five left of the cursor.
    assert_eq!(viewport(Some((20, 20)), (100, 100), 10, 10), (15, 25, 15, 25));
    // Near the origin the window clamps to the top-left corner.
    assert_eq!(viewport(Some((1, 0)), (100, 100), 10, 10), (0, 10, 0, 10));
    // Near the far edge the window is cut short by the bounds.
    assert_eq!(viewport(Some((99, 99)), (100, 100), 10, 10), (94, 100, 94, 100));
    // No cursor: the window hangs off the origin.
    assert_eq!(viewport(None, (4, 3), 10, 10), (0, 4, 0, 3));
    // The window may be narrower than configured on a small grid.
    assert_eq!(viewport(Some((0, 0)), (2, 2), 10, 10), (0, 2, 0, 2));
}

#[test]
fn input_line_sits_below_the_window() {
    let cfg = ConfigData::new();
    // A fresh sixteen-by-sixteen document with the default ten-row window:
    // the window spans ten rows, so the input line sits at row fourteen.
    let data = SheetData::new();
    assert_eq!(vertical_coord_of_input(&cfg, &data), 14);
    // A two-row document: the window spans two rows.
    let mut small = SheetData::new();
    small.load_vector(&vec![vec!["a".to_string()], vec!["b".to_string()]]);
    assert_eq!(vertical_coord_of_input(&cfg, &small), 6);
}

#[test]
fn view_settings_fall_back_to_ten() {
    let mut cfg = ConfigData::new();
    assert_eq!(view_width_of(&cfg), 10);
    cfg.set_value("viewcellsheight", -2);
    assert_eq!(view_height_of(&cfg), 10);
    cfg.set_value("viewcellsheight", 4);
    assert_eq!(view_height_of(&cfg), 4);
}
