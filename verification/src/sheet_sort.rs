//! Range sorts over one column of the grid.
//!
//! Both sorts extract the cells of one column over an inclusive row range,
//! sort those values — as text, or by the numeric value the text denotes —
//! and write them back row by row. Only the one column's values move; the
//! rest of each row stays. The sorts are stable: cells with equal keys keep
//! their original order.

use vstd::prelude::*;
use vstd::seq_lib::group_to_multiset_ensures;
use vstd::multiset::Multiset;

use crate::order::{lex_le, num_value, str_lex_le, num_value_of, lemma_lex_le_total,
    lemma_lex_le_trans, lemma_num_value_bounds};
use crate::sheet::{Sheet, SheetModel};

verus! {

/// A total order given as a spec-level relation.
pub open spec fn leq_total<A>(leq: spec_fn(A, A) -> bool) -> bool {
    forall|a: A, b: A| #[trigger] leq(a, b) || #[trigger] leq(b, a)
}

/// A transitive relation.
pub open spec fn leq_trans<A>(leq: spec_fn(A, A) -> bool) -> bool {
    forall|a: A, b: A, c: A| #[trigger] leq(a, b) && #[trigger] leq(b, c) ==> leq(a, c)
}

/// `x` inserted into `s` after every element that is `leq` it, so that a
/// run of equal elements keeps its order when elements arrive in sequence.
pub open spec fn insert_ordered<A>(s: Seq<A>, x: A, leq: spec_fn(A, A) -> bool) -> Seq<A>
    decreases s.len(),
{
    if s.len() == 0 {
        seq![x]
    } else if leq(s.last(), x) {
        s.push(x)
    } else {
        insert_ordered(s.drop_last(), x, leq).push(s.last())
    }
}

/// The stable sort of `s` under `leq`: each element in turn inserted after
/// its equals.
pub open spec fn sort_ordered<A>(s: Seq<A>, leq: spec_fn(A, A) -> bool) -> Seq<A>
    decreases s.len(),
{
    if s.len() == 0 {
        Seq::empty()
    } else {
        insert_ordered(sort_ordered(s.drop_last(), leq), s.last(), leq)
    }
}

/// Whether a sequence is ascending under `leq`.
pub open spec fn sorted_by_leq<A>(s: Seq<A>, leq: spec_fn(A, A) -> bool) -> bool {
    forall|i: int, j: int| 0 <= i < j < s.len() ==> #[trigger] leq(s[i], s[j])
}

/// Insertion grows the length by one.
pub proof fn lemma_insert_ordered_len<A>(s: Seq<A>, x: A, leq: spec_fn(A, A) -> bool)
    ensures
        insert_ordered(s, x, leq).len() == s.len() + 1,
    decreases s.len(),
{
    if s.len() > 0 && !leq(s.last(), x) {
        lemma_insert_ordered_len(s.drop_last(), x, leq);
    }
}

/// Sorting preserves the length.
pub proof fn lemma_sort_ordered_len<A>(s: Seq<A>, leq: spec_fn(A, A) -> bool)
    ensures
        sort_ordered(s, leq).len() == s.len(),
    decreases s.len(),
{
    if s.len() > 0 {
        lemma_sort_ordered_len(s.drop_last(), leq);
        lemma_insert_ordered_len(sort_ordered(s.drop_last(), leq), s.last(), leq);
    }
}

/// Insertion adds exactly the inserted element to the multiset of elements.
pub proof fn lemma_insert_ordered_multiset<A>(s: Seq<A>, x: A, leq: spec_fn(A, A) -> bool)
    ensures
        insert_ordered(s, x, leq).to_multiset() == s.to_multiset().insert(x),
    decreases s.len(),
{
    broadcast use group_to_multiset_ensures;

    if s.len() == 0 {
        assert(seq![x] =~= Seq::<A>::empty().push(x));
        assert(forall|a: A| !Seq::<A>::empty().contains(a));
        assert(Seq::<A>::empty().to_multiset() =~= Multiset::<A>::empty());
    } else if leq(s.last(), x) {
    } else {
        let dl = s.drop_last();
        lemma_insert_ordered_multiset(dl, x, leq);
        assert(s =~= dl.push(s.last()));
        assert(insert_ordered(s, x, leq).to_multiset() =~= dl.to_multiset().insert(x).insert(
            s.last(),
        ));
        assert(s.to_multiset().insert(x) =~= dl.to_multiset().insert(s.last()).insert(x));
        assert(dl.to_multiset().insert(x).insert(s.last()) =~= dl.to_multiset().insert(
            s.last(),
        ).insert(x));
    }
}

/// Sorting permutes the elements: the multiset of elements is unchanged.
pub proof fn lemma_sort_ordered_multiset<A>(s: Seq<A>, leq: spec_fn(A, A) -> bool)
    ensures
        sort_ordered(s, leq).to_multiset() == s.to_multiset(),
    decreases s.len(),
{
    broadcast use group_to_multiset_ensures;

    if s.len() > 0 {
        let dl = s.drop_last();
        lemma_sort_ordered_multiset(dl, leq);
        lemma_insert_ordered_multiset(sort_ordered(dl, leq), s.last(), leq);
        assert(s =~= dl.push(s.last()));
    }
}

/// Insertion into an ascending sequence keeps it ascending, for any total
/// and transitive order.
pub proof fn lemma_insert_ordered_sorted<A>(s: Seq<A>, x: A, leq: spec_fn(A, A) -> bool)
    requires
        sorted_by_leq(s, leq),
        leq_total(leq),
        leq_trans(leq),
    ensures
        sorted_by_leq(insert_ordered(s, x, leq), leq),
    decreases s.len(),
{
    broadcast use group_to_multiset_ensures;

    let r = insert_ordered(s, x, leq);
    if s.len() == 0 {
    } else if leq(s.last(), x) {
        assert forall|i: int, j: int| 0 <= i < j < r.len() implies #[trigger] leq(r[i], r[j]) by {
            if j == r.len() - 1 {
                if i < s.len() - 1 {
                    assert(leq(s[i], s[s.len() - 1]));
                }
            }
        }
    } else {
        let dl = s.drop_last();
        assert(sorted_by_leq(dl, leq)) by {
            assert(forall|i: int| 0 <= i < dl.len() ==> dl[i] == s[i]);
        }
        lemma_insert_ordered_sorted(dl, x, leq);
        let ri = insert_ordered(dl, x, leq);
        lemma_insert_ordered_multiset(dl, x, leq);
        // Every element of `ri` is `x` or an element of `dl`, and either way
        // it precedes `s.last()`.
        assert forall|k: int| 0 <= k < ri.len() implies leq(ri[k], s.last()) by {
            assert(ri.to_multiset().count(ri[k]) > 0);
            if ri[k] == x {
                assert(leq(x, s.last()));
            } else {
                assert(dl.to_multiset().count(ri[k]) > 0);
                assert(dl.contains(ri[k]));
                let i = choose|i: int| 0 <= i < dl.len() && dl[i] == ri[k];
                if i < s.len() - 1 {
                    assert(leq(s[i], s[s.len() - 1]));
                }
            }
        }
        assert forall|i: int, j: int| 0 <= i < j < r.len() implies #[trigger] leq(r[i], r[j]) by {
            if j < r.len() - 1 {
                assert(leq(ri[i], ri[j]));
            } else {
                assert(leq(ri[i], s.last()));
            }
        }
    }
}

/// A stable sort is ascending, for any total and transitive order.
pub proof fn lemma_sort_ordered_sorted<A>(s: Seq<A>, leq: spec_fn(A, A) -> bool)
    requires
        leq_total(leq),
        leq_trans(leq),
    ensures
        sorted_by_leq(sort_ordered(s, leq), leq),
    decreases s.len(),
{
    if s.len() > 0 {
        lemma_sort_ordered_sorted(s.drop_last(), leq);
        lemma_insert_ordered_sorted(sort_ordered(s.drop_last(), leq), s.last(), leq);
    }
}

/// Insertion lands exactly at the boundary: before every element strictly
/// greater than `x`, after everything else.
pub proof fn lemma_insert_ordered_split<A>(s: Seq<A>, x: A, leq: spec_fn(A, A) -> bool, idx: int)
    requires
        0 <= idx <= s.len(),
        forall|j: int| idx <= j < s.len() ==> !leq(#[trigger] s[j], x),
        idx > 0 ==> leq(s[idx - 1], x),
    ensures
        insert_ordered(s, x, leq) == s.take(idx).push(x) + s.skip(idx),
    decreases s.len(),
{
    if s.len() == idx {
        if idx == 0 {
            assert(insert_ordered(s, x, leq) =~= s.take(idx).push(x) + s.skip(idx));
        } else {
            assert(leq(s.last(), x));
            assert(s.push(x) =~= s.take(idx).push(x) + s.skip(idx));
        }
    } else {
        assert(!leq(s[s.len() - 1], x));
        let dl = s.drop_last();
        assert(forall|j: int| idx <= j < dl.len() ==> dl[j] == s[j]);
        if idx > 0 {
            assert(dl[idx - 1] == s[idx - 1]);
        }
        lemma_insert_ordered_split(dl, x, leq, idx);
        assert((dl.take(idx).push(x) + dl.skip(idx)).push(s.last()) =~= s.take(idx).push(x)
            + s.skip(idx));
    }
}

/// The lexicographic order on cell text, as a relation.
pub open spec fn lex_leq() -> spec_fn(Seq<char>, Seq<char>) -> bool {
    |a: Seq<char>, b: Seq<char>| lex_le(a, b)
}

/// Cells sorted as text.
pub open spec fn sort_lex(s: Seq<Seq<char>>) -> Seq<Seq<char>> {
    sort_ordered(s, lex_leq())
}

/// The numeric-sort order on (text, key) pairs: by the key alone.
pub open spec fn pair_leq() -> spec_fn((Seq<char>, i128), (Seq<char>, i128)) -> bool {
    |a: (Seq<char>, i128), b: (Seq<char>, i128)| a.1 <= b.1
}

/// Pairs of cell text and numeric key, sorted stably by the key.
pub open spec fn sort_pairs(s: Seq<(Seq<char>, i128)>) -> Seq<(Seq<char>, i128)> {
    sort_ordered(s, pair_leq())
}

/// The lexicographic relation is total and transitive.
pub proof fn lemma_lex_leq_order()
    ensures
        leq_total(lex_leq()),
        leq_trans(lex_leq()),
{
    assert forall|a: Seq<char>, b: Seq<char>| #[trigger] lex_leq()(a, b) || #[trigger] lex_leq()(
        b,
        a,
    ) by {
        lemma_lex_le_total(a, b);
    }
    assert forall|a: Seq<char>, b: Seq<char>, c: Seq<char>|
        #[trigger] lex_leq()(a, b) && #[trigger] lex_leq()(b, c) implies lex_leq()(a, c) by {
        lemma_lex_le_trans(a, b, c);
    }
}

/// The key relation on pairs is total and transitive.
pub proof fn lemma_pair_leq_order()
    ensures
        leq_total(pair_leq()),
        leq_trans(pair_leq()),
{
}

/// Sorting cells as text permutes them.
pub proof fn lemma_sort_lex_permutes(s: Seq<Seq<char>>)
    ensures
        sort_lex(s).to_multiset() == s.to_multiset(),
        sort_lex(s).len() == s.len(),
{
    lemma_sort_ordered_multiset(s, lex_leq());
    lemma_sort_ordered_len(s, lex_leq());
}

/// Sorting cells as text yields an ascending sequence.
pub proof fn lemma_sort_lex_sorted(s: Seq<Seq<char>>)
    ensures
        sorted_by_leq(sort_lex(s), lex_leq()),
{
    lemma_lex_leq_order();
    lemma_sort_ordered_sorted(s, lex_leq());
}

/// The numeric sort permutes the (text, key) pairs: every original cell
/// text comes back, with its key, exactly as often as it went in.
pub proof fn lemma_sort_pairs_permutes(s: Seq<(Seq<char>, i128)>)
    ensures
        sort_pairs(s).to_multiset() == s.to_multiset(),
        sort_pairs(s).len() == s.len(),
{
    lemma_sort_ordered_multiset(s, pair_leq());
    lemma_sort_ordered_len(s, pair_leq());
}

/// The numeric sort orders the pairs by ascending key.
pub proof fn lemma_sort_pairs_sorted(s: Seq<(Seq<char>, i128)>)
    ensures
        sorted_by_leq(sort_pairs(s), pair_leq()),
{
    lemma_pair_leq_order();
    lemma_sort_ordered_sorted(s, pair_leq());
}

/// The numeric sort only rearranges: every pair it emits is one of the
/// input's (text, key) pairs, so each output cell carries an original
/// cell's text unchanged.
pub proof fn lemma_sort_pairs_texts_preserved(s: Seq<Seq<char>>)
    ensures
        sort_pairs(with_num_keys(s)).len() == s.len(),
        forall|i: int| 0 <= i < s.len() ==> with_num_keys(s).contains(
            #[trigger] sort_pairs(with_num_keys(s))[i],
        ),
{
    broadcast use group_to_multiset_ensures;

    let keyed = with_num_keys(s);
    let sorted = sort_pairs(keyed);
    lemma_sort_ordered_multiset(keyed, pair_leq());
    lemma_sort_ordered_len(keyed, pair_leq());
    assert forall|i: int| 0 <= i < s.len() implies keyed.contains(#[trigger] sorted[i]) by {
        assert(sorted.contains(sorted[i]));
        assert(sorted.to_multiset().count(sorted[i]) > 0);
        assert(keyed.to_multiset().count(sorted[i]) > 0);
    }
}

/// The subsequence of pairs carrying one particular key, in order.
pub open spec fn pairs_with_key(s: Seq<(Seq<char>, i128)>, k: i128) -> Seq<(Seq<char>, i128)>
    decreases s.len(),
{
    if s.len() == 0 {
        Seq::empty()
    } else {
        let rest = pairs_with_key(s.drop_last(), k);
        if s.last().1 == k {
            rest.push(s.last())
        } else {
            rest
        }
    }
}

/// Insertion keeps every key's subsequence intact: pairs of any one key
/// keep their order, with the inserted pair after its equals.
proof fn lemma_insert_pairs_with_key(s: Seq<(Seq<char>, i128)>, x: (Seq<char>, i128), k: i128)
    ensures
        pairs_with_key(insert_ordered(s, x, pair_leq()), k) == if x.1 == k {
            pairs_with_key(s, k).push(x)
        } else {
            pairs_with_key(s, k)
        },
    decreases s.len(),
{
    let r = insert_ordered(s, x, pair_leq());
    if s.len() == 0 {
        reveal_with_fuel(pairs_with_key, 3);
        assert(r == seq![x]);
        assert(seq![x].drop_last() =~= Seq::<(Seq<char>, i128)>::empty());
        assert(seq![x].last() == x);
    } else if pair_leq()(s.last(), x) {
        assert(r == s.push(x));
        assert(s.push(x).drop_last() =~= s);
    } else {
        let dl = s.drop_last();
        lemma_insert_pairs_with_key(dl, x, k);
        let ri = insert_ordered(dl, x, pair_leq());
        assert(r == ri.push(s.last()));
        assert(ri.push(s.last()).drop_last() =~= ri);
        if x.1 == k {
            // The last element is strictly greater than `x`, so it does not
            // share `x`'s key.
            assert(s.last().1 > x.1);
        }
    }
}

/// The numeric sort is stable: for every key, the pairs carrying that key
/// appear in the same order as in the input.
pub proof fn lemma_sort_pairs_stable(s: Seq<(Seq<char>, i128)>, k: i128)
    ensures
        pairs_with_key(sort_pairs(s), k) == pairs_with_key(s, k),
    decreases s.len(),
{
    if s.len() > 0 {
        let dl = s.drop_last();
        lemma_sort_pairs_stable(dl, k);
        lemma_insert_pairs_with_key(sort_ordered(dl, pair_leq()), s.last(), k);
    }
}

/// Insert an owned cell into an ascending vector of cells, after its
/// equals.
fn insert_cell_lex(out: &mut Vec<String>, x: String)
    ensures
        final(out).deep_view() == insert_ordered(old(out).deep_view(), x@, lex_leq()),
{
    let ghost s = out.deep_view();
    let mut idx: usize = out.len();
    while idx > 0 && !str_lex_le(out[idx - 1].as_str(), x.as_str())
        invariant
            idx <= out@.len(),
            s == out.deep_view(),
            forall|j: int| idx <= j < s.len() ==> !lex_le(#[trigger] s[j], x@),
        decreases idx,
    {
        idx -= 1;
    }
    proof {
        assert forall|j: int| idx <= j < s.len() implies !lex_leq()(#[trigger] s[j], x@) by {}
        lemma_insert_ordered_split(s, x@, lex_leq(), idx as int);
    }
    out.insert(idx, x);
    assert(out.deep_view() =~~= s.take(idx as int).push(x@) + s.skip(idx as int));
}

/// The cells of `v`, sorted as text.
fn sorted_cells_lex(v: &Vec<String>) -> (r: Vec<String>)
    ensures
        r.deep_view() == sort_lex(v.deep_view()),
{
    let mut out: Vec<String> = Vec::new();
    let mut i: usize = 0;
    while i < v.len()
        invariant
            i <= v@.len(),
            out.deep_view() == sort_ordered(v.deep_view().take(i as int), lex_leq()),
        decreases v@.len() - i,
    {
        insert_cell_lex(&mut out, v[i].clone());
        i += 1;
        proof {
            assert(v.deep_view().take(i as int).drop_last() =~= v.deep_view().take(i - 1));
            assert(v.deep_view().take(i as int).last() =~= v@[i - 1]@);
        }
    }
    proof {
        assert(v.deep_view().take(v@.len() as int) =~= v.deep_view());
    }
    out
}

/// Insert an owned (text, key) pair into an ascending vector of pairs,
/// after its equals.
fn insert_pair_num(out: &mut Vec<(String, i128)>, x: (String, i128))
    ensures
        final(out).deep_view() == insert_ordered(old(out).deep_view(), x.deep_view(), pair_leq()),
{
    let ghost s = out.deep_view();
    let mut idx: usize = out.len();
    while idx > 0 && out[idx - 1].1 > x.1
        invariant
            idx <= out@.len(),
            s == out.deep_view(),
            forall|j: int| idx <= j < s.len() ==> !pair_leq()(#[trigger] s[j], x.deep_view()),
        decreases idx,
    {
        idx -= 1;
    }
    proof {
        lemma_insert_ordered_split(s, x.deep_view(), pair_leq(), idx as int);
    }
    out.insert(idx, x);
    assert(out.deep_view() =~~= s.take(idx as int).push(x.deep_view()) + s.skip(idx as int));
}

/// The (text, key) pairs of `v`, sorted stably by key.
fn sorted_pairs_num(v: &Vec<(String, i128)>) -> (r: Vec<(String, i128)>)
    ensures
        r.deep_view() == sort_pairs(v.deep_view()),
{
    let mut out: Vec<(String, i128)> = Vec::new();
    let mut i: usize = 0;
    while i < v.len()
        invariant
            i <= v@.len(),
            out.deep_view() == sort_ordered(v.deep_view().take(i as int), pair_leq()),
        decreases v@.len() - i,
    {
        let x = (v[i].0.clone(), v[i].1);
        proof {
            assert(x.deep_view() =~~= v@[i as int].deep_view());
        }
        insert_pair_num(&mut out, x);
        i += 1;
        proof {
            assert(v.deep_view().take(i as int).drop_last() =~~= v.deep_view().take(i - 1));
            assert(v.deep_view().take(i as int).last() =~~= v@[i - 1].deep_view());
        }
    }
    proof {
        assert(v.deep_view().take(v@.len() as int) =~= v.deep_view());
    }
    out
}

/// Each cell text paired with the numeric key it denotes.
pub open spec fn with_num_keys(s: Seq<Seq<char>>) -> Seq<(Seq<char>, i128)> {
    s.map_values(|t: Seq<char>| (t, num_value(t) as i128))
}

/// The texts of a sequence of (text, key) pairs, in order.
pub open spec fn pair_texts(s: Seq<(Seq<char>, i128)>) -> Seq<Seq<char>> {
    s.map_values(|p: (Seq<char>, i128)| p.0)
}

/// The cells of one column over an inclusive row range.
pub open spec fn column_cells(m: SheetModel, col: int, r0: int, r1: int) -> Seq<Seq<char>> {
    Seq::new((r1 - r0 + 1) as nat, |i: int| m.rows[r0 + i][col])
}

/// The grid with one column's cells over a row range replaced by `vals`.
pub open spec fn rows_with_column(
    m: SheetModel,
    col: int,
    r0: int,
    vals: Seq<Seq<char>>,
) -> Seq<Seq<Seq<char>>> {
    Seq::new(
        m.rows.len(),
        |r: int| if r0 <= r < r0 + vals.len() {
            m.rows[r].update(col, vals[r - r0])
        } else {
            m.rows[r]
        },
    )
}

impl SheetModel {
    /// The grid after sorting column `col` over rows `r0..=r1` as text:
    /// rejected when the column or the range is out of bounds or reversed.
    pub open spec fn column_sorted_lex(self, col: int, r0: int, r1: int) -> (SheetModel, bool) {
        if col >= self.width() || r0 > r1 || r1 >= self.height() {
            (self, false)
        } else {
            let vals = column_cells(self, col, r0, r1);
            (
                SheetModel {
                    rows: rows_with_column(self, col, r0, sort_lex(vals)),
                    sel: self.sel,
                },
                true,
            )
        }
    }

    /// The grid after sorting column `col` over rows `r0..=r1` by the
    /// numeric value each cell's text denotes, stably, writing back the
    /// original text of each pair.
    pub open spec fn column_sorted_num(self, col: int, r0: int, r1: int) -> (SheetModel, bool) {
        if col >= self.width() || r0 > r1 || r1 >= self.height() {
            (self, false)
        } else {
            let pairs = with_num_keys(column_cells(self, col, r0, r1));
            let texts = pair_texts(sort_pairs(pairs));
            (SheetModel { rows: rows_with_column(self, col, r0, texts), sel: self.sel }, true)
        }
    }

    /// The whole-column sort: the bounded sort over every row.
    pub open spec fn column_sorted(self, col: int) -> (SheetModel, bool) {
        self.column_sorted_lex(col, 0, self.height() - 1)
    }
}

/// Writing a column range back preserves well-formedness and the bounds.
pub proof fn lemma_rows_with_column_wf(m: SheetModel, col: int, r0: int, vals: Seq<Seq<char>>)
    requires
        m.wf(),
        0 <= col < m.width(),
    ensures
        (SheetModel { rows: rows_with_column(m, col, r0, vals), sel: m.sel }).wf(),
        rows_with_column(m, col, r0, vals).len() == m.height(),
        (SheetModel { rows: rows_with_column(m, col, r0, vals), sel: m.sel }).width() == m.width(),
{
    let rows2 = rows_with_column(m, col, r0, vals);
    let m2 = SheetModel { rows: rows2, sel: m.sel };
    assert forall|i: int| 0 <= i < rows2.len() implies (#[trigger] rows2[i]).len()
        == m.width() by {
        assert(m.rows[i].len() == m.width());
    }
    if m.height() > 0 {
        assert(rows2[0].len() == m.width());
    }
}

impl Sheet {
    /// Sort the region of a column from `rowstart` to `rowend`, inclusive,
    /// by string order, and report success.
    pub fn sort_column_bounded(&mut self, colcoord: usize, rowstart: usize, rowend: usize) -> (r:
        bool)
        requires
            old(self).wf(),
        ensures
            final(self)@ == old(self)@.column_sorted_lex(
                colcoord as int,
                rowstart as int,
                rowend as int,
            ).0,
            r == old(self)@.column_sorted_lex(colcoord as int, rowstart as int, rowend as int).1,
            final(self).wf(),
    {
        let (h, w) = self.bounds();
        if colcoord >= w || rowstart > rowend || rowend >= h {
            return false;
        }
        let ghost m0 = self@;
        let ghost colvals = column_cells(m0, colcoord as int, rowstart as int, rowend as int);
        let vals = self.extract_column(colcoord, rowstart, rowend);
        let sorted = sorted_cells_lex(&vals);
        proof {
            lemma_sort_ordered_len(colvals, lex_leq());
        }
        self.write_column(colcoord, rowstart, &sorted);
        proof {
            let m2 = m0.column_sorted_lex(colcoord as int, rowstart as int, rowend as int).0;
            lemma_rows_with_column_wf(m0, colcoord as int, rowstart as int, sort_lex(colvals));
            assert(self@ == m2);
        }
        true
    }

    /// Sort the region of a column from `rowstart` to `rowend`, inclusive,
    /// by the numeric value each cell denotes, stably, and report success.
    pub fn sort_column_bounded_num(
        &mut self,
        colcoord: usize,
        rowstart: usize,
        rowend: usize,
    ) -> (r: bool)
        requires
            old(self).wf(),
        ensures
            final(self)@ == old(self)@.column_sorted_num(
                colcoord as int,
                rowstart as int,
                rowend as int,
            ).0,
            r == old(self)@.column_sorted_num(colcoord as int, rowstart as int, rowend as int).1,
            final(self).wf(),
    {
        let (h, w) = self.bounds();
        if colcoord >= w || rowstart > rowend || rowend >= h {
            return false;
        }
        let ghost m0 = self@;
        let ghost colvals = column_cells(m0, colcoord as int, rowstart as int, rowend as int);
        let ghost keyed = with_num_keys(colvals);
        let vals = self.extract_column(colcoord, rowstart, rowend);
        let mut pairs: Vec<(String, i128)> = Vec::new();
        let mut i: usize = 0;
        while i < vals.len()
            invariant
                i <= vals@.len(),
                vals.deep_view() == colvals,
                vals@.len() == colvals.len(),
                keyed == with_num_keys(colvals),
                pairs@.len() == i,
                forall|j: int| 0 <= j < i ==> (#[trigger] pairs@[j]).deep_view() == keyed[j],
            decreases vals@.len() - i,
        {
            let key = num_value_of(vals[i].as_str());
            proof {
                lemma_num_value_bounds(vals@[i as int]@);
            }
            pairs.push((vals[i].clone(), key));
            proof {
                let t = colvals[i as int];
                assert(key == num_value(t) as i128);
                assert(pairs@[i as int].deep_view() == keyed[i as int]);
            }
            i += 1;
        }
        assert(pairs.deep_view() =~~= keyed);
        let sorted_pairs_vec = sorted_pairs_num(&pairs);
        let mut texts: Vec<String> = Vec::new();
        let mut k: usize = 0;
        let ghost stexts = pair_texts(sort_pairs(keyed));
        proof {
            lemma_sort_ordered_len(keyed, pair_leq());
        }
        while k < sorted_pairs_vec.len()
            invariant
                k <= sorted_pairs_vec@.len(),
                sorted_pairs_vec.deep_view() == sort_pairs(keyed),
                sorted_pairs_vec@.len() == sort_pairs(keyed).len(),
                stexts == pair_texts(sort_pairs(keyed)),
                texts@.len() == k,
                forall|j: int| 0 <= j < k ==> (#[trigger] texts@[j])@ == stexts[j],
            decreases sorted_pairs_vec@.len() - k,
        {
            texts.push(sorted_pairs_vec[k].0.clone());
            proof {
                assert(sorted_pairs_vec@[k as int].deep_view() == sort_pairs(keyed)[k as int]);
            }
            k += 1;
        }
        assert(texts.deep_view() =~~= stexts);
        self.write_column(colcoord, rowstart, &texts);
        proof {
            let m2 = m0.column_sorted_num(colcoord as int, rowstart as int, rowend as int).0;
            lemma_rows_with_column_wf(m0, colcoord as int, rowstart as int, stexts);
            assert(self@ == m2);
        }
        true
    }

    /// Sort a whole column, by string order, and report success.
    pub fn sort_column(&mut self, colcoord: usize) -> (r: bool)
        requires
            old(self).wf(),
        ensures
            final(self)@ == old(self)@.column_sorted(colcoord as int).0,
            r == old(self)@.column_sorted(colcoord as int).1,
            final(self).wf(),
    {
        let (h, _w) = self.bounds();
        if h == 0 {
            return false;
        }
        self.sort_column_bounded(colcoord, 0, h - 1)
    }

    /// The owned cells of one column over an inclusive row range.
    fn extract_column(&self, colcoord: usize, rowstart: usize, rowend: usize) -> (r: Vec<String>)
        requires
            self.wf(),
            rowstart <= rowend,
            rowend < self@.height(),
            colcoord < self@.width(),
        ensures
            r.deep_view() == column_cells(self@, colcoord as int, rowstart as int, rowend as int),
            r@.len() == rowend - rowstart + 1,
    {
        let h: usize = self.row_count();
        let mut vals: Vec<String> = Vec::new();
        let mut i: usize = rowstart;
        while i <= rowend
            invariant
                rowstart <= i <= rowend + 1,
                rowend < h,
                h == self@.height(),
                colcoord < self@.width(),
                self.wf(),
                vals@.len() == i - rowstart,
                forall|j: int| 0 <= j < i - rowstart ==> (#[trigger] vals@[j])@
                    == self@.rows[rowstart + j][colcoord as int],
            decreases rowend + 1 - i,
        {
            proof {
                assert(self@.rows[i as int].len() == self@.width());
            }
            let cell = self.cell_ref(i, colcoord);
            vals.push(String::from_str(cell));
            i += 1;
        }
        assert(vals.deep_view() =~~= column_cells(
            self@,
            colcoord as int,
            rowstart as int,
            rowend as int,
        ));
        vals
    }

    /// Write `vals` back into one column, row by row from `rowstart`.
    fn write_column(&mut self, colcoord: usize, rowstart: usize, vals: &Vec<String>)
        requires
            old(self).wf(),
            colcoord < old(self)@.width(),
            rowstart + vals@.len() <= old(self)@.height(),
        ensures
            final(self)@.rows == rows_with_column(
                old(self)@,
                colcoord as int,
                rowstart as int,
                vals.deep_view(),
            ),
            final(self)@.sel == old(self)@.sel,
    {
        let ghost m0 = old(self)@;
        let ghost target = rows_with_column(m0, colcoord as int, rowstart as int, vals.deep_view());
        let h: usize = self.row_count();
        let mut k: usize = 0;
        while k < vals.len()
            invariant
                k <= vals@.len(),
                h == m0.height(),
                m0.wf(),
                colcoord < m0.width(),
                rowstart + vals@.len() <= m0.height(),
                self@.sel == m0.sel,
                self@.rows.len() == m0.rows.len(),
                forall|r: int| 0 <= r < m0.rows.len() ==> (#[trigger] self@.rows[r]) == (
                if rowstart <= r < rowstart + k {
                    m0.rows[r].update(colcoord as int, vals.deep_view()[r - rowstart])
                } else {
                    m0.rows[r]
                }),
            decreases vals@.len() - k,
        {
            proof {
                assert(m0.rows[rowstart + k].len() == m0.width());
            }
            self.set_cell_raw(rowstart + k, colcoord, vals[k].clone());
            k += 1;
        }
        assert(self@.rows =~~= target);
    }
}

} // verus!
