//! The viewport computation: the visible sub-rectangle of the grid,
//! centered as closely as possible on the cursor and clamped to the
//! bounds. A pure function of the cursor, the bounds and the configured
//! view dimensions, recomputed on every render.

use vstd::prelude::*;

use crate::configdata::{ConfigData, cfg_lookup};
use crate::sheetdata::SheetData;

verus! {

/// The window over one axis: `start = max(pos - size/2, 0)` and
/// `end = min(start + size, limit)`, as half-open bounds.
pub open spec fn axis_window(pos: int, size: int, limit: int) -> (int, int) {
    let start = if pos >= size / 2 {
        pos - size / 2
    } else {
        0
    };
    let end = if start + size <= limit {
        start + size
    } else {
        limit
    };
    (start, end)
}

/// The visible rectangle `(top, bottom, left, right)` for a cursor (the
/// origin when none is set), grid bounds `(height, width)`, and configured
/// view dimensions. The row range is `[top, bottom)` and the column range
/// `[left, right)`.
pub open spec fn viewport_spec(
    cursor: Option<(usize, usize)>,
    bounds: (usize, usize),
    view_width: int,
    view_height: int,
) -> (int, int, int, int) {
    let p = match cursor {
        Some(p) => p,
        None => (0usize, 0usize),
    };
    let rows = axis_window(p.0 as int, view_height, bounds.0 as int);
    let cols = axis_window(p.1 as int, view_width, bounds.1 as int);
    (rows.0, rows.1, cols.0, cols.1)
}

/// The window of one axis, executable.
fn axis_window_exec(pos: usize, size: usize, limit: usize) -> (r: (usize, usize))
    ensures
        r.0 as int == axis_window(pos as int, size as int, limit as int).0,
        r.1 as int == axis_window(pos as int, size as int, limit as int).1,
{
    let start: usize = if pos >= size / 2 {
        pos - size / 2
    } else {
        0
    };
    let end: usize = match start.checked_add(size) {
        Some(s) => if s <= limit {
            s
        } else {
            limit
        },
        None => limit,
    };
    (start, end)
}

/// Compute the visible rectangle `(top, bottom, left, right)`.
pub fn viewport(
    cursor: Option<(usize, usize)>,
    bounds: (usize, usize),
    view_width: usize,
    view_height: usize,
) -> (r: (usize, usize, usize, usize))
    ensures
        ({
            let v = viewport_spec(cursor, bounds, view_width as int, view_height as int);
            r.0 as int == v.0 && r.1 as int == v.1 && r.2 as int == v.2 && r.3 as int == v.3
        }),
{
    let p = match cursor {
        Some(p) => p,
        None => (0, 0),
    };
    let rows = axis_window_exec(p.0, view_height, bounds.0);
    let cols = axis_window_exec(p.1, view_width, bounds.1);
    (rows.0, rows.1, cols.0, cols.1)
}

/// The viewport never leaves the grid: for a cursor inside the bounds (or
/// none at all), the window is a sub-rectangle of the grid, and it starts
/// no later than it ends.
pub proof fn lemma_viewport_in_bounds(
    cursor: Option<(usize, usize)>,
    bounds: (usize, usize),
    view_width: int,
    view_height: int,
)
    requires
        view_width >= 0,
        view_height >= 0,
        match cursor {
            Some(p) => p.0 < bounds.0 && p.1 < bounds.1,
            None => true,
        },
    ensures
        ({
            let v = viewport_spec(cursor, bounds, view_width, view_height);
            &&& 0 <= v.0 <= v.1 <= bounds.0
            &&& 0 <= v.2 <= v.3 <= bounds.1
        }),
{
}

/// The vertical screen coordinate of the first line below the main sheet
/// view (the input line): the height of the visible window plus four, as
/// the sixteen-bit terminal coordinate it wraps to.
pub open spec fn input_line_coord(sel: Option<(usize, usize)>, height: int, view_height: int) -> int {
    let p = match sel {
        Some(p) => p.0 as int,
        None => 0,
    };
    let w = axis_window(p, view_height, height);
    (w.1 - w.0 + 4) % 0x10000
}

/// Get the vertical coordinate of the input line below the sheet view.
pub fn vertical_coord_of_input(config: &ConfigData, data: &SheetData) -> (r: u16)
    requires
        data.wf(),
    ensures
        r as int == input_line_coord(
            data@.sheet.sel,
            data@.sheet.height() as int,
            view_height_setting(config@),
        ),
{
    let vh = view_height_of(config);
    let (h, _w) = data.bounds();
    let row: usize = match data.selected() {
        Some(p) => p.0,
        None => 0,
    };
    let win = axis_window_exec(row, vh, h);
    let span: usize = win.1 - win.0;
    ((span + 4) % 0x10000) as u16
}

/// The configured view height: the `viewcellsheight` setting, ten when the
/// key is absent or negative.
pub open spec fn view_height_setting(cfg: Seq<(Seq<char>, i32)>) -> int {
    match cfg_lookup(cfg, "viewcellsheight"@) {
        None => 10,
        Some(v) => if v < 0 {
            10
        } else {
            v as int
        },
    }
}

/// The configured view width: the `viewcellswidth` setting, ten when the
/// key is absent or negative.
pub open spec fn view_width_setting(cfg: Seq<(Seq<char>, i32)>) -> int {
    match cfg_lookup(cfg, "viewcellswidth"@) {
        None => 10,
        Some(v) => if v < 0 {
            10
        } else {
            v as int
        },
    }
}

/// Read the configured view height.
pub fn view_height_of(config: &ConfigData) -> (r: usize)
    ensures
        r as int == view_height_setting(config@),
{
    let v: i32 = match config.get_value("viewcellsheight") {
        None => 10,
        Some(x) => x,
    };
    if v < 0 {
        10
    } else {
        v as usize
    }
}

/// Read the configured view width.
pub fn view_width_of(config: &ConfigData) -> (r: usize)
    ensures
        r as int == view_width_setting(config@),
{
    let v: i32 = match config.get_value("viewcellswidth") {
        None => 10,
        Some(x) => x,
    };
    if v < 0 {
        10
    } else {
        v as usize
    }
}

} // verus!
