//! The grid: a rectangular table of text cells plus one optional cursor.
//!
//! The mathematical model of a grid is a sequence of rows, each a sequence of
//! cell contents (character sequences), together with the cursor. Every
//! operation preserves well-formedness: all rows have the width of the first
//! row, and the cursor, when set, lies inside the bounds.

use vstd::prelude::*;

verus! {

/// The mathematical model of a [`Sheet`]: its rows of cell contents and its
/// cursor position.
pub struct SheetModel {
    pub rows: Seq<Seq<Seq<char>>>,
    pub sel: Option<(usize, usize)>,
}

impl SheetModel {
    /// The number of rows.
    pub open spec fn height(self) -> nat {
        self.rows.len()
    }

    /// The number of columns, taken from the first row.
    pub open spec fn width(self) -> nat {
        if self.rows.len() == 0 {
            0
        } else {
            self.rows[0].len()
        }
    }

    /// Every row has the width of the first row.
    pub open spec fn rectangular(self) -> bool {
        forall|i: int| 0 <= i < self.rows.len() ==> (#[trigger] self.rows[i]).len() == self.width()
    }

    /// The cursor, when set, lies inside the bounds.
    pub open spec fn sel_ok(self) -> bool {
        match self.sel {
            Some(p) => p.0 < self.height() && p.1 < self.width(),
            None => true,
        }
    }

    /// Well-formedness: rectangular with a cursor inside the bounds.
    pub open spec fn wf(self) -> bool {
        self.rectangular() && self.sel_ok()
    }

    /// Whether `(r, c)` addresses a cell.
    pub open spec fn contains_cell(self, r: int, c: int) -> bool {
        0 <= r < self.height() && 0 <= c < self.width()
    }

    /// The contents of the cell at `(r, c)`.
    pub open spec fn cell_at(self, r: int, c: int) -> Seq<char> {
        self.rows[r][c]
    }

    /// The model of the empty grid.
    pub open spec fn empty() -> SheetModel {
        SheetModel { rows: Seq::empty(), sel: None }
    }

    /// A row of `w` empty cells.
    pub open spec fn blank_row(w: nat) -> Seq<Seq<char>> {
        Seq::new(w, |i: int| Seq::<char>::empty())
    }

    /// Cursor placement: the cursor moves to `(r, c)` only if that cell
    /// exists; otherwise it is left unchanged.
    pub open spec fn with_cursor(self, r: int, c: int) -> SheetModel {
        if self.contains_cell(r, c) {
            SheetModel { rows: self.rows, sel: Some((r as usize, c as usize)) }
        } else {
            self
        }
    }

    /// Cursor movement by a signed delta. With no cursor set, the move
    /// targets the origin; a candidate outside the bounds (negative
    /// included) leaves the cursor unchanged.
    pub open spec fn with_cursor_moved(self, dr: int, dc: int) -> SheetModel {
        match self.sel {
            None => self.with_cursor(0, 0),
            Some(p) => self.with_cursor(p.0 + dr, p.1 + dc),
        }
    }

    /// Cell write: out-of-bounds writes are ignored.
    pub open spec fn with_cell(self, r: int, c: int, val: Seq<char>) -> SheetModel {
        if self.contains_cell(r, c) {
            SheetModel { rows: self.rows.update(r, self.rows[r].update(c, val)), sel: self.sel }
        } else {
            self
        }
    }

    /// Cell write through the cursor: a no-op when no cursor is set.
    pub open spec fn with_cursor_cell(self, val: Seq<char>) -> SheetModel {
        match self.sel {
            None => self,
            Some(p) => self.with_cell(p.0 as int, p.1 as int, val),
        }
    }

    /// Row insertion at `at` in `[0, height]`; the new row is blank and as
    /// wide as the grid.
    pub open spec fn row_inserted(self, at: int) -> (SheetModel, bool) {
        if at > self.height() {
            (self, false)
        } else {
            (
                SheetModel {
                    rows: self.rows.insert(at, SheetModel::blank_row(self.width())),
                    sel: self.sel,
                },
                true,
            )
        }
    }

    /// Row deletion: rejected when out of range or when only one row is
    /// left. A cursor whose row index would fall out of bounds moves up one
    /// row.
    pub open spec fn row_deleted(self, at: int) -> (SheetModel, bool) {
        if at >= self.height() || self.height() <= 1 {
            (self, false)
        } else {
            let sel = match self.sel {
                Some(p) => if p.0 >= self.height() - 1 {
                    Some(((p.0 - 1) as usize, p.1))
                } else {
                    self.sel
                },
                None => None,
            };
            (SheetModel { rows: self.rows.remove(at), sel }, true)
        }
    }

    /// Column insertion at `at` in `[0, width]`, applied to every row.
    pub open spec fn column_inserted(self, at: int) -> (SheetModel, bool) {
        if at > self.width() {
            (self, false)
        } else {
            (
                SheetModel {
                    rows: self.rows.map_values(
                        |row: Seq<Seq<char>>| row.insert(at, Seq::<char>::empty()),
                    ),
                    sel: self.sel,
                },
                true,
            )
        }
    }

    /// Column deletion: rejected when out of range or when only one column
    /// is left. A cursor whose column index would fall out of bounds moves
    /// left one column.
    pub open spec fn column_deleted(self, at: int) -> (SheetModel, bool) {
        if at >= self.width() || self.width() <= 1 {
            (self, false)
        } else {
            let sel = match self.sel {
                Some(p) => if p.1 >= self.width() - 1 {
                    Some((p.0, (p.1 - 1) as usize))
                } else {
                    self.sel
                },
                None => None,
            };
            (
                SheetModel { rows: self.rows.map_values(|row: Seq<Seq<char>>| row.remove(at)), sel },
                true,
            )
        }
    }
}

/// Every well-formed grid is rectangular: each row has the width of the
/// first row.
pub proof fn lemma_wf_rectangular(m: SheetModel)
    requires
        m.wf(),
    ensures
        forall|i: int| 0 <= i < m.rows.len() ==> (#[trigger] m.rows[i]).len() == m.width(),
{
}

/// In every well-formed grid the cursor is either unset or addresses a cell
/// inside the bounds.
pub proof fn lemma_wf_cursor_contained(m: SheetModel)
    requires
        m.wf(),
    ensures
        match m.sel {
            Some(p) => m.contains_cell(p.0 as int, p.1 as int),
            None => true,
        },
{
}

/// Cursor placement preserves well-formedness.
pub proof fn lemma_with_cursor_wf(m: SheetModel, r: int, c: int)
    requires
        m.wf(),
    ensures
        m.with_cursor(r, c).wf(),
{
}

/// Cell writes preserve well-formedness and the bounds.
pub proof fn lemma_with_cell_wf(m: SheetModel, r: int, c: int, val: Seq<char>)
    requires
        m.wf(),
    ensures
        m.with_cell(r, c, val).wf(),
        m.with_cell(r, c, val).height() == m.height(),
        m.with_cell(r, c, val).width() == m.width(),
{
    let m2 = m.with_cell(r, c, val);
    if m.contains_cell(r, c) {
        assert(m2.rows[0].len() == m.rows[0].len());
        assert forall|i: int| 0 <= i < m2.rows.len() implies (#[trigger] m2.rows[i]).len()
            == m2.width() by {
            assert(m.rows[i].len() == m.width());
        }
    }
}

/// Row insertion preserves well-formedness; the height grows by one.
pub proof fn lemma_row_inserted_wf(m: SheetModel, at: int)
    requires
        m.wf(),
        0 <= at,
    ensures
        m.row_inserted(at).0.wf(),
{
    let m2 = m.row_inserted(at).0;
    if at <= m.height() {
        assert(m2.width() == m.width()) by {
            if at == 0 {
                assert(m2.rows[0] == SheetModel::blank_row(m.width()));
            } else {
                assert(m2.rows[0] == m.rows[0]);
            }
        }
        assert forall|i: int| 0 <= i < m2.rows.len() implies (#[trigger] m2.rows[i]).len()
            == m2.width() by {
            if i < at {
                assert(m2.rows[i] == m.rows[i]);
                assert(m.rows[i].len() == m.width());
            } else if i == at {
                assert(m2.rows[i] == SheetModel::blank_row(m.width()));
            } else {
                assert(m2.rows[i] == m.rows[i - 1]);
                assert(m.rows[i - 1].len() == m.width());
            }
        }
    }
}

/// Row deletion preserves well-formedness; at least one row remains.
pub proof fn lemma_row_deleted_wf(m: SheetModel, at: int)
    requires
        m.wf(),
        0 <= at,
    ensures
        m.row_deleted(at).0.wf(),
{
    let m2 = m.row_deleted(at).0;
    if at < m.height() && m.height() > 1 {
        assert(m2.width() == m.width()) by {
            if at == 0 {
                assert(m2.rows[0] == m.rows[1]);
                assert(m.rows[1].len() == m.width());
            } else {
                assert(m2.rows[0] == m.rows[0]);
            }
        }
        assert forall|i: int| 0 <= i < m2.rows.len() implies (#[trigger] m2.rows[i]).len()
            == m2.width() by {
            if i < at {
                assert(m2.rows[i] == m.rows[i]);
                assert(m.rows[i].len() == m.width());
            } else {
                assert(m2.rows[i] == m.rows[i + 1]);
                assert(m.rows[i + 1].len() == m.width());
            }
        }
    }
}

/// Column insertion preserves well-formedness.
pub proof fn lemma_column_inserted_wf(m: SheetModel, at: int)
    requires
        m.wf(),
        0 <= at,
    ensures
        m.column_inserted(at).0.wf(),
{
    let m2 = m.column_inserted(at).0;
    if at <= m.width() {
        if m.height() > 0 {
            assert(m2.rows[0] == m.rows[0].insert(at, Seq::<char>::empty()));
            assert(m2.width() == m.width() + 1);
            assert forall|i: int| 0 <= i < m2.rows.len() implies (#[trigger] m2.rows[i]).len()
                == m2.width() by {
                assert(m2.rows[i] == m.rows[i].insert(at, Seq::<char>::empty()));
                assert(m.rows[i].len() == m.width());
            }
        }
    }
}

/// Column deletion preserves well-formedness; at least one column remains.
pub proof fn lemma_column_deleted_wf(m: SheetModel, at: int)
    requires
        m.wf(),
        0 <= at,
    ensures
        m.column_deleted(at).0.wf(),
{
    let m2 = m.column_deleted(at).0;
    if at < m.width() && m.width() > 1 {
        assert(m2.rows[0] == m.rows[0].remove(at));
        assert(m2.width() == m.width() - 1);
        assert forall|i: int| 0 <= i < m2.rows.len() implies (#[trigger] m2.rows[i]).len()
            == m2.width() by {
            assert(m2.rows[i] == m.rows[i].remove(at));
            assert(m.rows[i].len() == m.width());
        }
    }
}

/// Stores the data for the sheet's cells.
pub struct Sheet {
    sheet: Vec<Vec<String>>,
    pub selected: Option<(usize, usize)>,
}

impl View for Sheet {
    type V = SheetModel;

    closed spec fn view(&self) -> SheetModel {
        SheetModel { rows: self.sheet.deep_view(), sel: self.selected }
    }
}

/// A freshly built row of `w` empty cells.
fn blank_cells(w: usize) -> (r: Vec<String>)
    ensures
        r.deep_view() == SheetModel::blank_row(w as nat),
        r@.len() == w,
{
    let mut r: Vec<String> = Vec::new();
    let mut i: usize = 0;
    while i < w
        invariant
            i <= w,
            r@.len() == i,
            forall|j: int| 0 <= j < i ==> (#[trigger] r@[j])@ == Seq::<char>::empty(),
        decreases w - i,
    {
        r.push(String::new());
        i += 1;
    }
    assert(r.deep_view() =~~= SheetModel::blank_row(w as nat));
    r
}

/// A deep copy of one row of cells.
pub(crate) fn copy_row(row: &Vec<String>) -> (r: Vec<String>)
    ensures
        r@ == row@,
{
    let mut r: Vec<String> = Vec::new();
    let mut i: usize = 0;
    while i < row.len()
        invariant
            i <= row@.len(),
            r@ == row@.take(i as int),
        decreases row@.len() - i,
    {
        r.push(row[i].clone());
        i += 1;
        assert(r@ =~= row@.take(i as int));
    }
    assert(r@ =~= row@);
    r
}

/// A deep copy of a grid's rows.
fn copy_rows(rows: &Vec<Vec<String>>) -> (r: Vec<Vec<String>>)
    ensures
        r.deep_view() == rows.deep_view(),
{
    let mut r: Vec<Vec<String>> = Vec::new();
    let mut i: usize = 0;
    while i < rows.len()
        invariant
            i <= rows@.len(),
            r@.len() == i,
            forall|j: int| 0 <= j < i ==> (#[trigger] r@[j])@ == rows@[j]@,
        decreases rows@.len() - i,
    {
        r.push(copy_row(&rows[i]));
        i += 1;
    }
    assert(r.deep_view() =~~= rows.deep_view());
    r
}

impl Sheet {
    /// The cursor, as the model sees it.
    pub open spec fn spec_selected(&self) -> Option<(usize, usize)> {
        self@.sel
    }

    /// Well-formedness of the grid held by this sheet.
    pub open spec fn wf(&self) -> bool {
        self@.wf()
    }

    /// The selected cell, if any.
    pub fn selected(&self) -> (r: Option<(usize, usize)>)
        ensures
            r == self@.sel,
    {
        self.selected
    }

    /// Create a blank default sheet: sixteen rows of sixteen empty cells,
    /// with the cursor at the origin.
    pub fn new() -> (r: Sheet)
        ensures
            r.wf(),
            r@.rows == Seq::new(16, |i: int| SheetModel::blank_row(16)),
            r@.sel == Some((0usize, 0usize)),
    {
        let mut rows: Vec<Vec<String>> = Vec::new();
        let mut i: usize = 0;
        while i < 16
            invariant
                i <= 16,
                rows@.len() == i,
                forall|j: int| 0 <= j < i ==> (#[trigger] rows@[j]).deep_view()
                    == SheetModel::blank_row(16),
            decreases 16 - i,
        {
            rows.push(blank_cells(16));
            i += 1;
        }
        let r = Sheet { sheet: rows, selected: Some((0, 0)) };
        assert(r@.rows =~~= Seq::new(16, |i: int| SheetModel::blank_row(16)));
        assert(r@.rows[0].len() == 16);
        r
    }

    /// Clear the sheet: no rows, no cursor.
    pub fn clear(&mut self)
        ensures
            final(self)@ == SheetModel::empty(),
            final(self).wf(),
    {
        self.sheet.clear();
        self.selected = None;
        assert(self@.rows =~~= SheetModel::empty().rows);
    }

    /// Replace the contents with a caller-supplied rectangular grid of
    /// cells. No normalization is performed, so rectangularity is the
    /// caller's responsibility; the cursor is cleared.
    pub fn load_vector(&mut self, newsheet: &Vec<Vec<String>>)
        requires
            (SheetModel { rows: newsheet.deep_view(), sel: None }).rectangular(),
        ensures
            final(self)@ == (SheetModel { rows: newsheet.deep_view(), sel: None }),
            final(self).wf(),
    {
        self.sheet.clear();
        self.selected = None;
        self.sheet = copy_rows(newsheet);
    }

    /// Get the sheet bounds (row count, column count), the column count
    /// taken from the first row.
    pub fn bounds(&self) -> (r: (usize, usize))
        ensures
            r.0 == self@.height(),
            r.1 == self@.width(),
    {
        if self.sheet.len() == 0 {
            return (0, 0);
        }
        (self.sheet.len(), self.sheet[0].len())
    }

    /// Get whether a point is in bounds.
    pub fn in_bounds(&self, coords: (usize, usize)) -> (r: bool)
        requires
            self.wf(),
        ensures
            r == self@.contains_cell(coords.0 as int, coords.1 as int),
    {
        let (h, _w) = self.bounds();
        if coords.0 >= h {
            return false;
        }
        proof {
            assert(self@.rows[coords.0 as int].len() == self@.width());
        }
        coords.1 < self.sheet[coords.0].len()
    }

    /// Get the value at a point in the sheet, or `None` out of bounds.
    pub fn cell(&self, coords: (usize, usize)) -> (r: Option<&str>)
        requires
            self.wf(),
        ensures
            match r {
                Some(s) => self@.contains_cell(coords.0 as int, coords.1 as int) && s@
                    == self@.cell_at(coords.0 as int, coords.1 as int),
                None => !self@.contains_cell(coords.0 as int, coords.1 as int),
            },
    {
        if !self.in_bounds(coords) {
            return None;
        }
        proof {
            assert(self@.rows[coords.0 as int].len() == self@.width());
        }
        Some(self.sheet[coords.0][coords.1].as_str())
    }

    /// Move the coordinates of the selected cell by a signed delta. A
    /// candidate position outside the bounds leaves the cursor unchanged;
    /// with no cursor set, the move targets the origin.
    pub fn move_selected_coords(&mut self, delta: (isize, isize))
        requires
            old(self).wf(),
        ensures
            final(self)@ == old(self)@.with_cursor_moved(delta.0 as int, delta.1 as int),
            final(self).wf(),
    {
        let (h, w) = self.bounds();
        match self.selected {
            None => {
                self.set_selected_coords((0, 0));
            },
            Some(sel) => {
                let ghost target_r: int = sel.0 + delta.0;
                let ghost target_c: int = sel.1 + delta.1;
                let nr_opt = sel.0.checked_add_signed(delta.0);
                let nc_opt = sel.1.checked_add_signed(delta.1);
                match (nr_opt, nc_opt) {
                    (Some(nr), Some(nc)) => {
                        self.set_selected_coords((nr, nc));
                    },
                    _ => {
                        // The candidate is negative or past the largest
                        // representable index, hence out of bounds: the
                        // cursor stays.
                        assert(!old(self)@.contains_cell(target_r, target_c));
                    },
                }
            },
        }
    }

    /// Set the coordinates of the selected cell, only if the target is in
    /// bounds; otherwise the cursor is left unchanged.
    pub fn set_selected_coords(&mut self, coords: (usize, usize))
        requires
            old(self).wf(),
        ensures
            final(self)@ == old(self)@.with_cursor(coords.0 as int, coords.1 as int),
            final(self).wf(),
    {
        if !self.in_bounds(coords) {
            return;
        }
        self.selected = Some(coords);
    }

    /// Get the value of the selected cell, or `None` when no cursor is set.
    pub fn selected_cell_value(&self) -> (r: Option<&str>)
        requires
            self.wf(),
        ensures
            match self@.sel {
                None => r is None,
                Some(p) => r matches Some(s) && s@ == self@.cell_at(p.0 as int, p.1 as int),
            },
    {
        match self.selected {
            None => None,
            Some(sel) => self.cell(sel),
        }
    }

    /// Set the value of a cell; writes outside the bounds are ignored.
    pub fn set_cell_value(&mut self, coords: (usize, usize), newval: String)
        requires
            old(self).wf(),
        ensures
            final(self)@ == old(self)@.with_cell(coords.0 as int, coords.1 as int, newval@),
            final(self).wf(),
    {
        if !self.in_bounds(coords) {
            return;
        }
        proof {
            assert(old(self)@.rows[coords.0 as int].len() == old(self)@.width());
            lemma_with_cell_wf(old(self)@, coords.0 as int, coords.1 as int, newval@);
        }
        let ghost m2 = old(self)@.with_cell(coords.0 as int, coords.1 as int, newval@);
        let row: &mut Vec<String> = &mut self.sheet[coords.0];
        row.set(coords.1, newval);
        assert(self@.rows =~~= m2.rows);
    }

    /// Set the value of the selected cell; a no-op when no cursor is set.
    pub fn set_selected_cell_value(&mut self, newval: String)
        requires
            old(self).wf(),
        ensures
            final(self)@ == old(self)@.with_cursor_cell(newval@),
            final(self).wf(),
    {
        match self.selected {
            None => {},
            Some(sel) => {
                self.set_cell_value(sel, newval);
            },
        }
    }

    /// Delete the row at a coordinate and report success. Rejected when the
    /// index is out of range or only one row is left.
    pub fn delete_row(&mut self, rowcoord: usize) -> (r: bool)
        requires
            old(self).wf(),
        ensures
            final(self)@ == old(self)@.row_deleted(rowcoord as int).0,
            r == old(self)@.row_deleted(rowcoord as int).1,
            final(self).wf(),
    {
        let (h, _w) = self.bounds();
        if rowcoord >= h || h <= 1 {
            return false;
        }
        proof {
            lemma_row_deleted_wf(old(self)@, rowcoord as int);
        }
        let ghost m2 = old(self)@.row_deleted(rowcoord as int).0;
        self.sheet.remove(rowcoord);
        assert(self.sheet.deep_view() =~~= m2.rows);
        if let Some((row, col)) = self.selected {
            if row >= self.sheet.len() {
                self.selected = Some((row - 1, col));
            }
        }
        assert(self@.sel == m2.sel);
        true
    }

    /// Delete the column at a coordinate from every row and report success.
    /// Rejected when the index is out of range or only one column is left.
    pub fn delete_column(&mut self, colcoord: usize) -> (r: bool)
        requires
            old(self).wf(),
        ensures
            final(self)@ == old(self)@.column_deleted(colcoord as int).0,
            r == old(self)@.column_deleted(colcoord as int).1,
            final(self).wf(),
    {
        let (_h, w) = self.bounds();
        if colcoord >= w || w <= 1 {
            return false;
        }
        proof {
            lemma_column_deleted_wf(old(self)@, colcoord as int);
        }
        let ghost m2 = old(self)@.column_deleted(colcoord as int).0;
        let mut i: usize = 0;
        while i < self.sheet.len()
            invariant
                old(self)@.wf(),
                colcoord < old(self)@.width(),
                i <= self.sheet@.len(),
                self.sheet@.len() == old(self)@.rows.len(),
                self.selected == old(self).selected,
                forall|j: int| 0 <= j < i ==> (#[trigger] self.sheet@[j]).deep_view()
                    == old(self)@.rows[j].remove(colcoord as int),
                forall|j: int| i <= j < self.sheet@.len() ==> (#[trigger] self.sheet@[j]).deep_view()
                    == old(self)@.rows[j],
            decreases self.sheet@.len() - i,
        {
            proof {
                assert(old(self)@.rows[i as int].len() == old(self)@.width());
            }
            let row: &mut Vec<String> = &mut self.sheet[i];
            row.remove(colcoord);
            i += 1;
        }
        if let Some((row, col)) = self.selected {
            if col >= w - 1 {
                self.selected = Some((row, col - 1));
            }
        }
        assert(self@.rows =~~= m2.rows);
        assert(self@.sel == m2.sel);
        true
    }

    /// Insert a blank row at a coordinate in `[0, height]` and report
    /// success.
    pub fn insert_row(&mut self, rowcoord: usize) -> (r: bool)
        requires
            old(self).wf(),
        ensures
            final(self)@ == old(self)@.row_inserted(rowcoord as int).0,
            r == old(self)@.row_inserted(rowcoord as int).1,
            final(self).wf(),
    {
        let (h, w) = self.bounds();
        if rowcoord > h {
            return false;
        }
        proof {
            lemma_row_inserted_wf(old(self)@, rowcoord as int);
        }
        let ghost m2 = old(self)@.row_inserted(rowcoord as int).0;
        let blank = blank_cells(w);
        self.sheet.insert(rowcoord, blank);
        assert(self@.rows =~~= m2.rows);
        true
    }

    /// Insert a blank column at a coordinate in `[0, width]` into every row
    /// and report success.
    pub fn insert_column(&mut self, colcoord: usize) -> (r: bool)
        requires
            old(self).wf(),
        ensures
            final(self)@ == old(self)@.column_inserted(colcoord as int).0,
            r == old(self)@.column_inserted(colcoord as int).1,
            final(self).wf(),
    {
        let (_h, w) = self.bounds();
        if colcoord > w {
            return false;
        }
        proof {
            lemma_column_inserted_wf(old(self)@, colcoord as int);
        }
        let ghost m2 = old(self)@.column_inserted(colcoord as int).0;
        let mut i: usize = 0;
        while i < self.sheet.len()
            invariant
                old(self)@.wf(),
                colcoord <= old(self)@.width(),
                i <= self.sheet@.len(),
                self.sheet@.len() == old(self)@.rows.len(),
                self.selected == old(self).selected,
                forall|j: int| 0 <= j < i ==> (#[trigger] self.sheet@[j]).deep_view()
                    == old(self)@.rows[j].insert(colcoord as int, Seq::<char>::empty()),
                forall|j: int| i <= j < self.sheet@.len() ==> (#[trigger] self.sheet@[j]).deep_view()
                    == old(self)@.rows[j],
            decreases self.sheet@.len() - i,
        {
            proof {
                assert(old(self)@.rows[i as int].len() == old(self)@.width());
            }
            let row: &mut Vec<String> = &mut self.sheet[i];
            row.insert(colcoord, String::new());
            i += 1;
        }
        assert(self@.rows =~~= m2.rows);
        true
    }

    /// Overwrite one cell addressed by its actual row, without the bounds
    /// policy of [`Sheet::set_cell_value`]. Internal building block.
    pub(crate) fn set_cell_raw(&mut self, r: usize, c: usize, val: String)
        requires
            r < old(self)@.rows.len(),
            c < old(self)@.rows[r as int].len(),
        ensures
            final(self)@.rows == old(self)@.rows.update(
                r as int,
                old(self)@.rows[r as int].update(c as int, val@),
            ),
            final(self)@.sel == old(self)@.sel,
    {
        let row: &mut Vec<String> = &mut self.sheet[r];
        row.set(c, val);
        assert(self@.rows =~~= old(self)@.rows.update(
            r as int,
            old(self)@.rows[r as int].update(c as int, val@),
        ));
    }

    /// Replace the rows wholesale, keeping the cursor. Internal building
    /// block for loading.
    pub(crate) fn replace_rows(&mut self, rows: Vec<Vec<String>>)
        ensures
            final(self)@.rows == rows.deep_view(),
            final(self)@.sel == old(self)@.sel,
    {
        self.sheet = rows;
    }

    /// The number of rows.
    pub(crate) fn row_count(&self) -> (r: usize)
        ensures
            r == self@.rows.len(),
    {
        self.sheet.len()
    }

    /// The length of row `i`.
    pub(crate) fn row_len(&self, i: usize) -> (r: usize)
        requires
            i < self@.rows.len(),
        ensures
            r == self@.rows[i as int].len(),
    {
        self.sheet[i].len()
    }

    /// A borrow of the cell at `(i, j)`.
    pub(crate) fn cell_ref(&self, i: usize, j: usize) -> (r: &str)
        requires
            i < self@.rows.len(),
            j < self@.rows[i as int].len(),
        ensures
            r@ == self@.rows[i as int][j as int],
    {
        self.sheet[i][j].as_str()
    }

    /// Make this sheet match another sheet.
    pub fn set_equal(&mut self, other: &Sheet)
        ensures
            final(self)@ == other@,
    {
        self.sheet.clear();
        self.selected = other.selected;
        self.sheet = copy_rows(&other.sheet);
    }

    /// Copy this sheet.
    pub fn clone(&self) -> (r: Sheet)
        ensures
            r@ == self@,
    {
        let mut res: Sheet = Sheet { sheet: Vec::new(), selected: None };
        res.set_equal(self);
        res
    }
}

} // verus!
