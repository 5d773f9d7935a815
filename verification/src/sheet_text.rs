//! The persisted text format of a grid.
//!
//! Loading splits the text on newlines, skips blank lines, splits each
//! remaining line on `,`, trims whitespace around each field, and pads every
//! row with empty cells up to the longest row, so the result is rectangular.
//! Serializing joins each row's fields with `", "` and terminates each row
//! with a newline; it is not a strict inverse of loading.

use vstd::prelude::*;

use crate::sheet::{copy_row, Sheet, SheetModel};
use crate::text::{split_seq, trim_seq, split_chars, trim_chars, str_chars, string_from_chars};

verus! {

/// The fields of one line: the pieces between commas, each trimmed.
pub open spec fn row_of_line(line: Seq<char>) -> Seq<Seq<char>> {
    split_seq(line, ',').map_values(|f: Seq<char>| trim_seq(f))
}

/// A line is blank when it holds nothing but whitespace.
pub open spec fn is_blank_line(line: Seq<char>) -> bool {
    trim_seq(line).len() == 0
}

/// The lines that are kept: blank lines are skipped entirely.
pub open spec fn kept_lines(lines: Seq<Seq<char>>) -> Seq<Seq<char>>
    decreases lines.len(),
{
    if lines.len() == 0 {
        Seq::empty()
    } else {
        let rest = kept_lines(lines.drop_last());
        if is_blank_line(lines.last()) {
            rest
        } else {
            rest.push(lines.last())
        }
    }
}

/// The largest field count over all rows.
pub open spec fn max_row_width(rows: Seq<Seq<Seq<char>>>) -> nat
    decreases rows.len(),
{
    if rows.len() == 0 {
        0
    } else {
        let m = max_row_width(rows.drop_last());
        if rows.last().len() > m {
            rows.last().len()
        } else {
            m
        }
    }
}

/// A row padded with empty cells up to width `w`.
pub open spec fn pad_row(row: Seq<Seq<char>>, w: nat) -> Seq<Seq<char>> {
    row + Seq::new((w - row.len()) as nat, |i: int| Seq::<char>::empty())
}

/// The rows a text denotes before padding: each kept line's trimmed fields.
pub open spec fn raw_rows_of_text(text: Seq<char>) -> Seq<Seq<Seq<char>>> {
    kept_lines(split_seq(text, '\n')).map_values(|l: Seq<char>| row_of_line(l))
}

/// The grid a text denotes: the raw rows, each padded up to the longest row.
pub open spec fn grid_of_text(text: Seq<char>) -> Seq<Seq<Seq<char>>> {
    let raw = raw_rows_of_text(text);
    raw.map_values(|r: Seq<Seq<char>>| pad_row(r, max_row_width(raw)))
}

/// No row is wider than the widest row.
pub proof fn lemma_max_row_width_bound(rows: Seq<Seq<Seq<char>>>)
    ensures
        forall|i: int| 0 <= i < rows.len() ==> (#[trigger] rows[i]).len() <= max_row_width(rows),
    decreases rows.len(),
{
    if rows.len() > 0 {
        lemma_max_row_width_bound(rows.drop_last());
        assert forall|i: int| 0 <= i < rows.len() implies (#[trigger] rows[i]).len()
            <= max_row_width(rows) by {
            if i < rows.len() - 1 {
                assert(rows.drop_last()[i] == rows[i]);
            }
        }
    }
}

/// The grid denoted by any text is rectangular: every row is padded to the
/// width of the longest row.
pub proof fn lemma_grid_of_text_rectangular(text: Seq<char>)
    ensures
        (SheetModel { rows: grid_of_text(text), sel: None }).wf(),
        forall|i: int| 0 <= i < grid_of_text(text).len() ==> (#[trigger] grid_of_text(
            text,
        )[i]).len() == max_row_width(raw_rows_of_text(text)),
{
    let raw = raw_rows_of_text(text);
    let w = max_row_width(raw);
    lemma_max_row_width_bound(raw);
    let g = grid_of_text(text);
    assert forall|i: int| 0 <= i < g.len() implies (#[trigger] g[i]).len() == w by {
        assert(g[i] == pad_row(raw[i], w));
        assert(raw[i].len() <= w);
    }
    let m = SheetModel { rows: g, sel: None };
    if g.len() > 0 {
        assert(g[0].len() == w);
    }
}

impl Sheet {
    /// Load the sheet from a string: the grid the text denotes, with no
    /// cursor, and report success (loading itself never fails).
    pub fn load_string(&mut self, newstring: String) -> (r: bool)
        ensures
            r == true,
            final(self)@.rows == grid_of_text(newstring@),
            final(self)@.sel is None,
            final(self).wf(),
    {
        self.clear();
        let chars = str_chars(newstring.as_str());
        let lines = split_chars(&chars, '\n');
        let ghost linesv = lines.deep_view();
        let mut rows: Vec<Vec<String>> = Vec::new();
        let mut bound_width: usize = 0;
        let mut i: usize = 0;
        while i < lines.len()
            invariant
                linesv == lines.deep_view(),
                linesv == split_seq(chars@, '\n'),
                i <= lines@.len(),
                lines@.len() == linesv.len(),
                rows.deep_view() == kept_lines(linesv.take(i as int)).map_values(
                    |l: Seq<char>| row_of_line(l),
                ),
                bound_width == max_row_width(rows.deep_view()),
            decreases lines@.len() - i,
        {
            let ghost prev = rows.deep_view();
            let line = &lines[i];
            assert(line@ == linesv[i as int]);
            let trimmed = trim_chars(line);
            if trimmed.len() > 0 {
                // A kept line: collect its trimmed fields.
                let fields = split_chars(line, ',');
                let ghost fieldsv = fields.deep_view();
                let mut row: Vec<String> = Vec::new();
                let mut j: usize = 0;
                while j < fields.len()
                    invariant
                        fieldsv == fields.deep_view(),
                        j <= fields@.len(),
                        fields@.len() == fieldsv.len(),
                        row@.len() == j,
                        forall|k: int| 0 <= k < j ==> (#[trigger] row@[k])@ == trim_seq(fieldsv[k]),
                    decreases fields@.len() - j,
                {
                    proof {
                        assert(fieldsv[j as int] =~= fields@[j as int]@);
                    }
                    let cell = trim_chars(&fields[j]);
                    row.push(string_from_chars(&cell));
                    j += 1;
                }
                assert(row.deep_view() =~~= row_of_line(linesv[i as int]));
                if row.len() > bound_width {
                    bound_width = row.len();
                }
                rows.push(row);
                assert(rows.deep_view() =~~= prev.push(row_of_line(linesv[i as int])));
                proof {
                    assert(rows.deep_view().drop_last() =~~= prev);
                }
            }
            i += 1;
            proof {
                assert(linesv.take(i as int).drop_last() =~~= linesv.take(i - 1));
                let kl = kept_lines(linesv.take(i as int));
                if !is_blank_line(linesv[i - 1]) {
                    assert(kl == kept_lines(linesv.take(i - 1)).push(linesv[i - 1]));
                    assert(rows.deep_view() =~~= kl.map_values(|l: Seq<char>| row_of_line(l)));
                } else {
                    assert(kl == kept_lines(linesv.take(i - 1)));
                }
            }
        }
        proof {
            assert(linesv.take(linesv.len() as int) =~= linesv);
            assert(rows.deep_view() == raw_rows_of_text(chars@));
            lemma_max_row_width_bound(rows.deep_view());
            lemma_grid_of_text_rectangular(chars@);
        }
        // Pad every row up to the widest row.
        let ghost raw = raw_rows_of_text(chars@);
        let mut padded: Vec<Vec<String>> = Vec::new();
        let mut k: usize = 0;
        while k < rows.len()
            invariant
                rows.deep_view() == raw,
                bound_width == max_row_width(raw),
                forall|j: int| 0 <= j < raw.len() ==> (#[trigger] raw[j]).len() <= bound_width,
                k <= rows@.len(),
                rows@.len() == raw.len(),
                padded@.len() == k,
                forall|j: int| 0 <= j < k ==> (#[trigger] padded@[j]).deep_view() == pad_row(
                    raw[j],
                    bound_width as nat,
                ),
            decreases rows@.len() - k,
        {
            let mut row = copy_row(&rows[k]);
            assert(row.deep_view() =~~= raw[k as int]);
            assert(raw[k as int].len() <= bound_width);
            assert(row.deep_view() =~~= pad_row(raw[k as int], row@.len() as nat));
            while row.len() < bound_width
                invariant
                    k < raw.len(),
                    raw[k as int].len() <= row@.len() <= bound_width,
                    row.deep_view() == pad_row(raw[k as int], row@.len() as nat),
                decreases bound_width - row@.len(),
            {
                let ghost prev = row.deep_view();
                let ghost prevlen = row@.len() as int;
                row.push(String::new());
                proof {
                    let tgt = pad_row(raw[k as int], (prevlen + 1) as nat);
                    assert forall|i: int| 0 <= i < prevlen implies #[trigger] tgt[i] == prev[i] by {
                        assert(prev[i] == pad_row(raw[k as int], prevlen as nat)[i]);
                    }
                    assert(row.deep_view() =~~= tgt);
                }
            }
            assert(row.deep_view() == pad_row(raw[k as int], bound_width as nat));
            padded.push(row);
            k += 1;
        }
        self.replace_rows(padded);
        assert(self@.rows =~~= grid_of_text(chars@));
        true
    }

    /// Generate a string from this sheet: each row's fields joined with
    /// `", "`, each row terminated by a newline.
    pub fn generate_string(&mut self) -> (r: String)
        ensures
            final(self)@ == old(self)@,
            r@ == text_of_rows(old(self)@.rows),
    {
        let ghost rowsv = self@.rows;
        let mut res: String = String::new();
        let n: usize = self.row_count();
        let mut i: usize = 0;
        while i < n
            invariant
                self@ == old(self)@,
                rowsv == self@.rows,
                n == rowsv.len(),
                i <= n,
                res@ == text_of_rows(rowsv.take(i as int)),
            decreases n - i,
        {
            let m: usize = self.row_len(i);
            let mut j: usize = 0;
            while j < m
                invariant
                    self@ == old(self)@,
                    rowsv == self@.rows,
                    i < n == rowsv.len(),
                    m == rowsv[i as int].len(),
                    j <= m,
                    res@ == text_of_rows(rowsv.take(i as int)) + join_fields(
                        rowsv[i as int].take(j as int),
                    ),
                decreases m - j,
            {
                if j > 0 {
                    res.push(',');
                    res.push(' ');
                }
                let cell = self.cell_ref(i, j);
                res.append(cell);
                j += 1;
                proof {
                    let pref = rowsv[i as int].take(j as int);
                    assert(pref.drop_last() =~= rowsv[i as int].take(j - 1));
                    assert(pref.last() == rowsv[i as int][j - 1]);
                    if j == 1 {
                        assert(join_fields(pref) == pref[0]);
                        assert(res@ =~= text_of_rows(rowsv.take(i as int)) + join_fields(pref));
                    } else {
                        assert(res@ =~= text_of_rows(rowsv.take(i as int)) + join_fields(pref));
                    }
                }
            }
            res.push('\n');
            i += 1;
            proof {
                assert(rowsv.take(i as int).drop_last() =~= rowsv.take(i - 1));
                assert(rowsv[i - 1].take(rowsv[i - 1].len() as int) =~= rowsv[i - 1]);
                assert(res@ =~= text_of_rows(rowsv.take(i as int)));
            }
        }
        proof {
            assert(rowsv.take(n as int) =~= rowsv);
        }
        res
    }
}

/// One row's fields joined with `", "`.
pub open spec fn join_fields(row: Seq<Seq<char>>) -> Seq<char>
    decreases row.len(),
{
    if row.len() == 0 {
        Seq::empty()
    } else if row.len() == 1 {
        row[0]
    } else {
        join_fields(row.drop_last()) + seq![',', ' '] + row.last()
    }
}

/// The serialized text of a grid: each row's joined fields followed by a
/// newline.
pub open spec fn text_of_rows(rows: Seq<Seq<Seq<char>>>) -> Seq<char>
    decreases rows.len(),
{
    if rows.len() == 0 {
        Seq::empty()
    } else {
        text_of_rows(rows.drop_last()) + join_fields(rows.last()) + seq!['\n']
    }
}

} // verus!
