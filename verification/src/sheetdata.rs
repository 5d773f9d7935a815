//! The document: one live grid, a bounded queue of snapshots of it, a
//! cursor into that history, a backing file path and a dirty flag.
//!
//! Every mutating call goes through a snapshot-and-record protocol: the
//! post-mutation grid is cloned onto the back of the history, any redo
//! branch beyond the current frame is discarded first, and the oldest
//! snapshot is evicted when the configured capacity is exceeded. Undo and
//! redo move the frame and restore the grid from the snapshot it points at.

use std::collections::VecDeque;

use vstd::prelude::*;

use crate::configdata::{ConfigData, cfg_lookup};
use crate::sheet::{Sheet, SheetModel};
use crate::sheet_text::{grid_of_text, text_of_rows};
use crate::text::{normalize_newlines, normalize_newlines_str, str_eq};

verus! {

/// The mathematical model of a [`SheetData`] document.
pub struct DocModel {
    pub path: Seq<char>,
    pub sheet: SheetModel,
    pub history: Seq<SheetModel>,
    pub frame: int,
    pub unsaved: bool,
}

/// The configured history capacity: the `historysize` setting, ten when the
/// key is absent, and never negative.
pub open spec fn history_cap(cfg: Seq<(Seq<char>, i32)>) -> nat {
    let v = match cfg_lookup(cfg, "historysize"@) {
        None => 10i32,
        Some(x) => x,
    };
    if v < 0 {
        0
    } else {
        v as nat
    }
}

impl DocModel {
    /// Structural well-formedness: the frame is the sentinel or a valid
    /// index, the history is bounded, and every grid in sight is
    /// well-formed.
    pub open spec fn base_wf(self) -> bool {
        &&& -1 <= self.frame
        &&& self.frame >= 0 ==> self.frame < self.history.len()
        &&& self.history.len() <= 0x7fff_ffff
        &&& self.sheet.wf()
        &&& forall|i: int| 0 <= i < self.history.len() ==> (#[trigger] self.history[i]).wf()
    }

    /// The frame, when set, points at a snapshot holding the live grid's
    /// content: this holds whenever no mutation is pending a record.
    pub open spec fn synced(self) -> bool {
        self.frame >= 0 ==> self.history[self.frame].rows == self.sheet.rows
    }

    /// Well-formedness of a document at rest.
    pub open spec fn wf(self) -> bool {
        self.base_wf() && self.synced()
    }

    /// The document with another live grid, all else unchanged.
    pub open spec fn with_sheet(self, m: SheetModel) -> DocModel {
        DocModel { sheet: m, ..self }
    }

    /// The record step run after every mutation: mark unsaved, discard any
    /// redo branch, push the live grid, and evict the oldest snapshot when
    /// over capacity.
    pub open spec fn recorded(self, cap: nat) -> DocModel {
        let trunc = if self.frame > -1 {
            self.history.take(self.frame + 1)
        } else {
            Seq::empty()
        };
        let pushed = trunc.push(self.sheet);
        if pushed.len() > cap {
            DocModel { history: pushed.drop_first(), frame: self.frame, unsaved: true, ..self }
        } else {
            DocModel { history: pushed, frame: self.frame + 1, unsaved: true, ..self }
        }
    }

    /// Undo: step the frame back and restore that snapshot; a failed undo
    /// still marks the document unsaved.
    pub open spec fn undone(self) -> DocModel {
        if self.frame <= 0 {
            DocModel { unsaved: true, ..self }
        } else {
            DocModel {
                frame: self.frame - 1,
                sheet: self.history[self.frame - 1],
                unsaved: true,
                ..self
            }
        }
    }

    /// Redo: step the frame forward and restore that snapshot; a failed
    /// redo still marks the document unsaved.
    pub open spec fn redone(self) -> DocModel {
        if self.frame + 1 < self.history.len() {
            DocModel {
                frame: self.frame + 1,
                sheet: self.history[self.frame + 1],
                unsaved: true,
                ..self
            }
        } else {
            DocModel { unsaved: true, ..self }
        }
    }

    /// The document after loading from a read of `path`: history cleared,
    /// path updated even on a failed read, the grid the text denotes on a
    /// successful one.
    pub open spec fn loaded(self, path: Seq<char>, contents: Option<Seq<char>>) -> (
        DocModel,
        bool,
    ) {
        let base = DocModel {
            path,
            sheet: SheetModel::empty(),
            history: Seq::empty(),
            frame: -1,
            unsaved: false,
        };
        match contents {
            None => (base, false),
            Some(text) => (
                DocModel {
                    sheet: SheetModel {
                        rows: grid_of_text(normalize_newlines(text)),
                        sel: None,
                    },
                    ..base
                },
                true,
            ),
        }
    }

    /// The document after loading a literal grid: history cleared, a
    /// synthetic path, and unsaved content.
    pub open spec fn loaded_vector(self, rows: Seq<Seq<Seq<char>>>) -> DocModel {
        DocModel {
            path: "generated_file"@,
            sheet: SheetModel { rows, sel: None },
            history: Seq::empty(),
            frame: -1,
            unsaved: true,
        }
    }
}

/// Stores the data for managing the sheet's history and file status, and
/// the sheet itself.
pub struct SheetData {
    pub file_path: String,
    sheet: Sheet,
    history: VecDeque<Sheet>,
    historyframe: i32,
    pub unsaved: bool,
}

impl View for SheetData {
    type V = DocModel;

    closed spec fn view(&self) -> DocModel {
        DocModel {
            path: self.file_path@,
            sheet: self.sheet@,
            history: self.history@.map_values(|s: Sheet| s@),
            frame: self.historyframe as int,
            unsaved: self.unsaved,
        }
    }
}

/// The configured history capacity, read from the store.
fn history_cap_of(config: &ConfigData) -> (r: usize)
    ensures
        r as nat == history_cap(config@),
{
    let v: i32 = match config.get_value("historysize") {
        None => 10,
        Some(x) => x,
    };
    if v < 0 {
        0
    } else {
        v as usize
    }
}

impl SheetData {
    /// Well-formedness of the document.
    pub open spec fn wf(&self) -> bool {
        self@.wf()
    }

    /// Create a fresh document: the default blank grid, an empty history,
    /// and no backing file yet.
    pub fn new() -> (r: SheetData)
        ensures
            r@.path == "new_file"@,
            r@.sheet.rows == Seq::new(16, |i: int| SheetModel::blank_row(16)),
            r@.sheet.sel == Some((0usize, 0usize)),
            r@.history == Seq::<SheetModel>::empty(),
            r@.frame == -1,
            r@.unsaved == true,
            r.wf(),
    {
        let r = SheetData {
            file_path: String::from_str("new_file"),
            sheet: Sheet::new(),
            history: VecDeque::new(),
            historyframe: -1,
            unsaved: true,
        };
        assert(r@.history =~= Seq::<SheetModel>::empty());
        r
    }

    /// Get the history info (length and frame).
    pub fn dbg_get_history_info(&self) -> (r: (usize, i32))
        ensures
            r.0 == self@.history.len(),
            r.1 as int == self@.frame,
    {
        (self.history.len(), self.historyframe)
    }

    /// Clear the sheet state: empty grid, empty history, clean flag. Called
    /// before every wholesale load.
    fn clear_sheet_state(&mut self)
        ensures
            final(self)@ == (DocModel {
                path: old(self)@.path,
                sheet: SheetModel::empty(),
                history: Seq::empty(),
                frame: -1,
                unsaved: false,
            }),
            final(self).wf(),
    {
        self.sheet.clear();
        self.history.clear();
        self.unsaved = false;
        self.historyframe = -1;
        assert(self@.history =~= Seq::<SheetModel>::empty());
    }

    /// Record the current state after a mutation: set the dirty flag, drop
    /// any redo branch, push a snapshot, and evict the oldest one when over
    /// the configured capacity.
    fn update_sheet_state(&mut self, config: &ConfigData)
        requires
            old(self)@.base_wf(),
        ensures
            final(self)@ == old(self)@.recorded(history_cap(config@)),
            final(self).wf(),
    {
        let ghost d0 = self@;
        let ghost cap = history_cap(config@);
        let ghost target = d0.recorded(cap);
        self.unsaved = true;
        if self.historyframe > -1 {
            let t = (self.historyframe as usize) + 1;
            self.history.truncate(t);
        } else {
            self.history.clear();
        }
        proof {
            if d0.frame > -1 {
                assert(self@.history =~= d0.history.take(d0.frame + 1));
            } else {
                assert(self@.history =~= Seq::<SheetModel>::empty());
            }
        }
        let snap = self.sheet.clone();
        self.history.push_back(snap);
        self.historyframe = self.historyframe + 1;
        proof {
            let trunc = if d0.frame > -1 {
                d0.history.take(d0.frame + 1)
            } else {
                Seq::<SheetModel>::empty()
            };
            assert(self@.history =~= trunc.push(d0.sheet));
        }
        let capv = history_cap_of(config);
        if self.history.len() > capv {
            self.history.pop_front();
            self.historyframe = self.historyframe - 1;
            proof {
                let trunc = if d0.frame > -1 {
                    d0.history.take(d0.frame + 1)
                } else {
                    Seq::<SheetModel>::empty()
                };
                assert(self@.history =~= trunc.push(d0.sheet).drop_first());
            }
        }
        proof {
            assert(self@.path == target.path);
            assert(self@.sheet == target.sheet);
            assert(self@.history == target.history);
            assert(self@.frame == target.frame);
            assert(self@ == target);
        }
    }

    /// Undo (move back in history) and report success; even a failed undo
    /// marks the document unsaved.
    pub fn undo(&mut self) -> (r: bool)
        requires
            old(self).wf(),
        ensures
            final(self)@ == old(self)@.undone(),
            r == (old(self)@.frame > 0),
            final(self).wf(),
    {
        self.unsaved = true;
        if self.historyframe <= 0 {
            return false;
        }
        self.historyframe = self.historyframe - 1;
        let idx = self.historyframe as usize;
        let snap = &self.history[idx];
        self.sheet.set_equal(snap);
        true
    }

    /// Redo (move forward in history) and report success; even a failed
    /// redo marks the document unsaved.
    pub fn redo(&mut self) -> (r: bool)
        requires
            old(self).wf(),
        ensures
            final(self)@ == old(self)@.redone(),
            r == (old(self)@.frame + 1 < old(self)@.history.len()),
            final(self).wf(),
    {
        self.unsaved = true;
        if self.historyframe >= 0 && (self.historyframe as usize) >= self.history.len() - 1 {
            return false;
        }
        self.historyframe = self.historyframe + 1;
        let idx = self.historyframe as usize;
        if idx < self.history.len() {
            let snap = &self.history[idx];
            self.sheet.set_equal(snap);
            true
        } else {
            self.historyframe = self.historyframe - 1;
            false
        }
    }

    /// Take in the result of reading `path`: the history is cleared and the
    /// path updated either way; on a successful read the grid the text
    /// denotes (line endings normalized) is loaded, and the call reports
    /// whether the read succeeded.
    pub fn load_text(&mut self, path: String, contents: Option<String>) -> (r: bool)
        ensures
            final(self)@ == old(self)@.loaded(path@, match contents {
                Some(ref t) => Some(t@),
                None => None,
            }).0,
            r == old(self)@.loaded(path@, match contents {
                Some(ref t) => Some(t@),
                None => None,
            }).1,
            final(self).wf(),
    {
        self.clear_sheet_state();
        self.file_path = path;
        match contents {
            None => false,
            Some(text) => {
                let normalized = normalize_newlines_str(text.as_str());
                self.sheet.load_string(normalized)
            },
        }
    }

    /// Load a vector literal: the history is cleared, the path becomes a
    /// synthetic marker, and the never-persisted content counts as unsaved.
    pub fn load_vector(&mut self, newsheet: &Vec<Vec<String>>)
        requires
            (SheetModel { rows: newsheet.deep_view(), sel: None }).rectangular(),
        ensures
            final(self)@ == old(self)@.loaded_vector(newsheet.deep_view()),
            final(self).wf(),
    {
        self.clear_sheet_state();
        self.file_path = String::from_str("generated_file");
        self.sheet.load_vector(newsheet);
        self.unsaved = true;
    }

    /// Begin a save to `path`: when `path` is the current backing file and
    /// nothing is unsaved, nothing happens and no text is produced;
    /// otherwise the path is updated and the serialized grid text handed
    /// back for writing.
    pub fn prepare_save(&mut self, path: String) -> (r: Option<String>)
        requires
            old(self).wf(),
        ensures
            (path@ == old(self)@.path && !old(self)@.unsaved) ==> {
                &&& r is None
                &&& final(self)@ == old(self)@
            },
            !(path@ == old(self)@.path && !old(self)@.unsaved) ==> {
                &&& r matches Some(text) && text@ == text_of_rows(old(self)@.sheet.rows)
                &&& final(self)@ == (DocModel { path: path@, ..old(self)@ })
            },
            final(self).wf(),
    {
        if str_eq(path.as_str(), self.file_path.as_str()) && !self.unsaved {
            // Same file and nothing changed: do not save.
            return None;
        }
        self.file_path = path;
        Some(self.sheet.generate_string())
    }

    /// Mark the document as saved, after its text was written successfully.
    pub fn mark_saved(&mut self)
        requires
            old(self).wf(),
        ensures
            final(self)@ == (DocModel { unsaved: false, ..old(self)@ }),
            final(self).wf(),
    {
        self.unsaved = false;
    }

    /// Get the selected cell of the current sheet.
    pub fn selected(&self) -> (r: Option<(usize, usize)>)
        ensures
            r == self@.sheet.sel,
    {
        self.sheet.selected()
    }

    /// Call bounds on the current sheet.
    pub fn bounds(&self) -> (r: (usize, usize))
        ensures
            r.0 == self@.sheet.height(),
            r.1 == self@.sheet.width(),
    {
        self.sheet.bounds()
    }

    /// Whether a point is in bounds of the current sheet.
    pub fn in_bounds(&self, coords: (usize, usize)) -> (r: bool)
        requires
            self.wf(),
        ensures
            r == self@.sheet.contains_cell(coords.0 as int, coords.1 as int),
    {
        self.sheet.in_bounds(coords)
    }

    /// The value at a point of the current sheet, or `None` out of bounds.
    pub fn cell(&self, coords: (usize, usize)) -> (r: Option<&str>)
        requires
            self.wf(),
        ensures
            match r {
                Some(s) => self@.sheet.contains_cell(coords.0 as int, coords.1 as int) && s@
                    == self@.sheet.cell_at(coords.0 as int, coords.1 as int),
                None => !self@.sheet.contains_cell(coords.0 as int, coords.1 as int),
            },
    {
        self.sheet.cell(coords)
    }

    /// Move the cursor by a signed delta; cursor motion is not recorded in
    /// the history.
    pub fn move_selected_coords(&mut self, delta: (isize, isize))
        requires
            old(self).wf(),
        ensures
            final(self)@ == old(self)@.with_sheet(
                old(self)@.sheet.with_cursor_moved(delta.0 as int, delta.1 as int),
            ),
            final(self).wf(),
    {
        self.sheet.move_selected_coords(delta);
    }

    /// Place the cursor; cursor motion is not recorded in the history.
    pub fn set_selected_coords(&mut self, coords: (usize, usize))
        requires
            old(self).wf(),
        ensures
            final(self)@ == old(self)@.with_sheet(
                old(self)@.sheet.with_cursor(coords.0 as int, coords.1 as int),
            ),
            final(self).wf(),
    {
        self.sheet.set_selected_coords(coords);
    }

    /// The value of the selected cell, or `None` when no cursor is set.
    pub fn selected_cell_value(&self) -> (r: Option<&str>)
        requires
            self.wf(),
        ensures
            match self@.sheet.sel {
                None => r is None,
                Some(p) => r matches Some(s) && s@ == self@.sheet.cell_at(
                    p.0 as int,
                    p.1 as int,
                ),
            },
    {
        self.sheet.selected_cell_value()
    }

    /// Set the value of a cell and record the state.
    pub fn set_cell_value(&mut self, coords: (usize, usize), newval: String, config: &ConfigData)
        requires
            old(self).wf(),
        ensures
            final(self)@ == old(self)@.with_sheet(
                old(self)@.sheet.with_cell(coords.0 as int, coords.1 as int, newval@),
            ).recorded(history_cap(config@)),
            final(self).wf(),
    {
        self.sheet.set_cell_value(coords, newval);
        self.update_sheet_state(config);
    }

    /// Set the value of the selected cell and record the state.
    pub fn set_selected_cell_value(&mut self, newval: String, config: &ConfigData)
        requires
            old(self).wf(),
        ensures
            final(self)@ == old(self)@.with_sheet(
                old(self)@.sheet.with_cursor_cell(newval@),
            ).recorded(history_cap(config@)),
            final(self).wf(),
    {
        self.sheet.set_selected_cell_value(newval);
        self.update_sheet_state(config);
    }

    /// Delete a row and record the state; the record happens even when the
    /// grid rejected the edit.
    pub fn delete_row(&mut self, rowcoord: usize, config: &ConfigData) -> (r: bool)
        requires
            old(self).wf(),
        ensures
            final(self)@ == old(self)@.with_sheet(
                old(self)@.sheet.row_deleted(rowcoord as int).0,
            ).recorded(history_cap(config@)),
            r == true,
            final(self).wf(),
    {
        self.sheet.delete_row(rowcoord);
        self.update_sheet_state(config);
        true
    }

    /// Delete a column and record the state; the record happens even when
    /// the grid rejected the edit.
    pub fn delete_column(&mut self, colcoord: usize, config: &ConfigData) -> (r: bool)
        requires
            old(self).wf(),
        ensures
            final(self)@ == old(self)@.with_sheet(
                old(self)@.sheet.column_deleted(colcoord as int).0,
            ).recorded(history_cap(config@)),
            r == true,
            final(self).wf(),
    {
        self.sheet.delete_column(colcoord);
        self.update_sheet_state(config);
        true
    }

    /// Insert a row and record the state; the record happens even when the
    /// grid rejected the edit.
    pub fn insert_row(&mut self, rowcoord: usize, config: &ConfigData) -> (r: bool)
        requires
            old(self).wf(),
        ensures
            final(self)@ == old(self)@.with_sheet(
                old(self)@.sheet.row_inserted(rowcoord as int).0,
            ).recorded(history_cap(config@)),
            r == true,
            final(self).wf(),
    {
        self.sheet.insert_row(rowcoord);
        self.update_sheet_state(config);
        true
    }

    /// Insert a column and record the state; the record happens even when
    /// the grid rejected the edit.
    pub fn insert_column(&mut self, colcoord: usize, config: &ConfigData) -> (r: bool)
        requires
            old(self).wf(),
        ensures
            final(self)@ == old(self)@.with_sheet(
                old(self)@.sheet.column_inserted(colcoord as int).0,
            ).recorded(history_cap(config@)),
            r == true,
            final(self).wf(),
    {
        self.sheet.insert_column(colcoord);
        self.update_sheet_state(config);
        true
    }

    /// Sort a whole column as text and record the state; the record happens
    /// even when the grid rejected the sort.
    pub fn sort_column(&mut self, colcoord: usize, config: &ConfigData) -> (r: bool)
        requires
            old(self).wf(),
        ensures
            final(self)@ == old(self)@.with_sheet(
                old(self)@.sheet.column_sorted(colcoord as int).0,
            ).recorded(history_cap(config@)),
            r == true,
            final(self).wf(),
    {
        self.sheet.sort_column(colcoord);
        self.update_sheet_state(config);
        true
    }

    /// Sort a column region as text and record the state; the record
    /// happens even when the grid rejected the sort.
    pub fn sort_column_bounded(
        &mut self,
        colcoord: usize,
        rowstart: usize,
        rowend: usize,
        config: &ConfigData,
    ) -> (r: bool)
        requires
            old(self).wf(),
        ensures
            final(self)@ == old(self)@.with_sheet(
                old(self)@.sheet.column_sorted_lex(
                    colcoord as int,
                    rowstart as int,
                    rowend as int,
                ).0,
            ).recorded(history_cap(config@)),
            r == true,
            final(self).wf(),
    {
        self.sheet.sort_column_bounded(colcoord, rowstart, rowend);
        self.update_sheet_state(config);
        true
    }

    /// Sort a column region numerically and record the state; the record
    /// happens even when the grid rejected the sort.
    pub fn sort_column_bounded_num(
        &mut self,
        colcoord: usize,
        rowstart: usize,
        rowend: usize,
        config: &ConfigData,
    ) -> (r: bool)
        requires
            old(self).wf(),
        ensures
            final(self)@ == old(self)@.with_sheet(
                old(self)@.sheet.column_sorted_num(
                    colcoord as int,
                    rowstart as int,
                    rowend as int,
                ).0,
            ).recorded(history_cap(config@)),
            r == true,
            final(self).wf(),
    {
        self.sheet.sort_column_bounded_num(colcoord, rowstart, rowend);
        self.update_sheet_state(config);
        true
    }
}

/// After any recorded mutation of a document at rest, a successful undo
/// restores exactly the grid content from before the mutation. Once the
/// pre-mutation snapshot has been evicted by the capacity bound, the undo
/// reports failure instead.
pub proof fn lemma_undo_reverts(d: DocModel, m: SheetModel, cap: nat)
    requires
        d.wf(),
    ensures
        ({
            let d2 = d.with_sheet(m).recorded(cap);
            d2.frame > 0 ==> d2.undone().sheet.rows == d.sheet.rows
        }),
{
    let d1 = d.with_sheet(m);
    let d2 = d1.recorded(cap);
    let trunc = if d.frame > -1 {
        d.history.take(d.frame + 1)
    } else {
        Seq::<SheetModel>::empty()
    };
    let pushed = trunc.push(m);
    if d2.frame > 0 {
        if pushed.len() > cap {
            assert(d2.history[d2.frame - 1] == pushed[d2.frame]);
            assert(pushed[d.frame] == trunc[d.frame]);
            assert(trunc[d.frame] == d.history[d.frame]);
        } else {
            assert(d2.history[d2.frame - 1] == pushed[d.frame]);
            assert(pushed[d.frame] == trunc[d.frame]);
            assert(trunc[d.frame] == d.history[d.frame]);
        }
    }
}

/// An undo followed immediately by a redo restores the exact grid content
/// from before the undo, whenever the undo succeeds.
pub proof fn lemma_redo_after_undo(d: DocModel)
    requires
        d.wf(),
        d.frame > 0,
    ensures
        d.undone().redone().sheet.rows == d.sheet.rows,
        d.undone().redone().frame == d.frame,
        d.undone().redone().history == d.history,
{
}

/// The history never outgrows the configured capacity: a record step keeps
/// a history within the capacity within it, and undo and redo never grow
/// the history at all.
pub proof fn lemma_history_capacity(d: DocModel, m: SheetModel, cap: nat)
    requires
        d.wf(),
        d.history.len() <= cap,
    ensures
        d.with_sheet(m).recorded(cap).history.len() <= cap,
        d.undone().history.len() == d.history.len(),
        d.redone().history.len() == d.history.len(),
{
}

} // verus!
