//! Tables: the drawing of a table as SVG, and its plain-text renderings.

use vstd::prelude::*;

use crate::events::Alignment;
use crate::markdown::escape::{push_xml_text, xml_text};
use crate::markdown::wrap::{wrap_text, wrapped};
use crate::text::{decimal, push_decimal, views};

verus! {

/// The texts of the cells of a table.
pub open spec fn rows_view(rows: Seq<Vec<String>>) -> Seq<Seq<Seq<char>>> {
    Seq::new(rows.len(), |i: int| views(rows[i]@))
}

pub proof fn lemma_rows_view_push(rows: Seq<Vec<String>>, row: Vec<String>)
    ensures
        rows_view(rows.push(row)) == rows_view(rows).push(views(row@)),
{
    assert(rows_view(rows.push(row)) =~= rows_view(rows).push(views(row@)));
}

/// The text of a cell; a cell that a short row lacks is empty.
pub open spec fn cell(row: Seq<Seq<char>>, c: int) -> Seq<char> {
    if 0 <= c < row.len() {
        row[c]
    } else {
        Seq::empty()
    }
}

/// The number of columns: the cells of the longest row.
pub open spec fn col_count(rows: Seq<Seq<Seq<char>>>) -> nat
    decreases rows.len(),
{
    if rows.len() == 0 {
        0
    } else {
        let n = col_count(rows.drop_last());
        if rows.last().len() > n {
            rows.last().len()
        } else {
            n
        }
    }
}

/// The number of columns.
pub(crate) fn count_cols(rows: &Vec<Vec<String>>) -> (r: usize)
    ensures
        r == col_count(rows_view(rows@)),
{
    let ghost rv = rows_view(rows@);
    let mut n: usize = 0;
    let mut i: usize = 0;
    while i < rows.len()
        invariant
            rv == rows_view(rows@),
            i <= rows@.len(),
            n == col_count(rv.take(i as int)),
        decreases rows@.len() - i,
    {
        proof {
            assert(rv.take(i + 1).drop_last() =~= rv.take(i as int));
            assert(rv.take(i + 1).last() == views(rows@[i as int]@));
        }
        if rows[i].len() > n {
            n = rows[i].len();
        }
        i += 1;
    }
    proof {
        assert(rv.take(i as int) =~= rv);
    }
    n
}

// ---------------------------------------------------------------------------
// Column widths
// ---------------------------------------------------------------------------

/// The characters of the longest cell of a column.
pub open spec fn col_chars(rows: Seq<Seq<Seq<char>>>, c: int) -> nat
    decreases rows.len(),
{
    if rows.len() == 0 {
        0
    } else {
        let n = col_chars(rows.drop_last(), c);
        if cell(rows.last(), c).len() > n {
            cell(rows.last(), c).len()
        } else {
            n
        }
    }
}

/// `n` capped at the largest value of 32 bits.
pub open spec fn cap32(n: nat) -> nat {
    if n > u32::MAX {
        u32::MAX as nat
    } else {
        n
    }
}

/// The width that fits the longest cell of a column: 16 units a character and
/// 18 units of padding on both sides, at least 80.
pub open spec fn natural_width(rows: Seq<Seq<Seq<char>>>, c: int) -> nat {
    let w = cap32(cap32(col_chars(rows, c) * 16) + 36);
    if w < 80 {
        80
    } else {
        w
    }
}

/// The natural widths of the columns.
pub open spec fn natural_widths(rows: Seq<Seq<Seq<char>>>) -> Seq<nat> {
    Seq::new(col_count(rows), |c: int| natural_width(rows, c))
}

/// The sum of a sequence.
pub open spec fn sum(w: Seq<nat>) -> nat
    decreases w.len(),
{
    if w.len() == 0 {
        0
    } else {
        sum(w.drop_last()) + w.last()
    }
}

/// The position of the widest column; of several, the last.
pub open spec fn widest(w: Seq<nat>) -> int
    decreases w.len(),
{
    if w.len() <= 1 {
        0
    } else {
        let k = widest(w.drop_last());
        if w.last() >= w[k] {
            w.len() - 1
        } else {
            k
        }
    }
}

/// An equal share of 1400 units for each column, or less where the column is
/// narrower.
pub open spec fn levelled(w: Seq<nat>) -> Seq<nat> {
    Seq::new(
        w.len(),
        |i: int|
            if w[i] < 1400nat / w.len() {
                w[i]
            } else {
                1400nat / w.len()
            },
    )
}

/// The columns narrowed until they fit 1400 units: a tenth off the widest, at
/// least 8 units, again and again. Where all are down to 80 and still do not
/// fit, each gets at most an equal share.
pub open spec fn shrunk(w: Seq<nat>) -> Seq<nat>
    decreases sum(w),
{
    let k = widest(w);
    if sum(w) <= 1400 || w.len() == 0 {
        w
    } else if w[k] <= 80 {
        levelled(w)
    } else {
        proof {
            lemma_widest(w);
            lemma_sum_update(w, k, (w[k] - cut(w[k])) as nat);
        }
        shrunk(w.update(k, (w[k] - cut(w[k])) as nat))
    }
}

/// What is taken off a column at once.
pub open spec fn cut(w: nat) -> nat {
    if w / 10 < 8 {
        8
    } else {
        w / 10
    }
}

pub proof fn lemma_widest(w: Seq<nat>)
    requires
        w.len() > 0,
    ensures
        0 <= widest(w) < w.len(),
    decreases w.len(),
{
    if w.len() > 1 {
        lemma_widest(w.drop_last());
    }
}

pub proof fn lemma_sum_update(w: Seq<nat>, k: int, v: nat)
    requires
        0 <= k < w.len(),
    ensures
        sum(w.update(k, v)) == sum(w) - w[k] + v,
        w[k] <= sum(w),
    decreases w.len(),
{
    let u = w.update(k, v);
    if k == w.len() - 1 {
        assert(u.drop_last() =~= w.drop_last());
    } else {
        lemma_sum_update(w.drop_last(), k, v);
        assert(u.drop_last() =~= w.drop_last().update(k, v));
    }
}

proof fn lemma_sum_prefix(w: Seq<nat>, k: int)
    requires
        0 <= k <= w.len(),
    ensures
        sum(w.take(k)) <= sum(w),
    decreases w.len() - k,
{
    if k < w.len() {
        assert(w.take(k + 1).drop_last() =~= w.take(k));
        lemma_sum_prefix(w, k + 1);
    } else {
        assert(w.take(k) =~= w);
    }
}

proof fn lemma_sum_step(w: Seq<nat>, k: int)
    requires
        0 <= k < w.len(),
    ensures
        sum(w.take(k + 1)) == sum(w.take(k)) + w[k],
        sum(w.take(k + 1)) <= sum(w),
{
    assert(w.take(k + 1).drop_last() =~= w.take(k));
    lemma_sum_prefix(w, k + 1);
}

/// The final widths of the columns.
pub open spec fn widths(rows: Seq<Seq<Seq<char>>>) -> Seq<nat> {
    shrunk(natural_widths(rows))
}

/// A sequence of machine integers as natural numbers.
pub open spec fn nats(v: Seq<u64>) -> Seq<nat> {
    Seq::new(v.len(), |i: int| v[i] as nat)
}

proof fn lemma_nats_push(v: Seq<u64>, x: u64)
    ensures
        nats(v.push(x)) == nats(v).push(x as nat),
{
    assert(nats(v.push(x)) =~= nats(v).push(x as nat));
}

/// The sum of a list, where it fits in 32 bits.
fn sum_of(v: &Vec<u64>) -> (r: Option<u64>)
    ensures
        match r {
            Some(t) => t == sum(nats(v@)) && t <= u32::MAX,
            None => sum(nats(v@)) > u32::MAX,
        },
{
    let ghost w = nats(v@);
    let mut t: u64 = 0;
    let mut i: usize = 0;
    while i < v.len()
        invariant
            w == nats(v@),
            i <= v@.len(),
            t == sum(w.take(i as int)),
            t <= u32::MAX,
        decreases v@.len() - i,
    {
        proof {
            lemma_sum_step(w, i as int);
        }
        if v[i] > u32::MAX as u64 - t {
            return None;
        }
        t = t + v[i];
        i += 1;
    }
    proof {
        assert(w.take(i as int) =~= w);
    }
    Some(t)
}

/// The characters of the longest cell of a column.
pub(crate) fn longest_cell(rows: &Vec<Vec<String>>, c: usize) -> (r: usize)
    ensures
        r == col_chars(rows_view(rows@), c as int),
{
    let ghost rv = rows_view(rows@);
    let mut n: usize = 0;
    let mut i: usize = 0;
    while i < rows.len()
        invariant
            rv == rows_view(rows@),
            i <= rows@.len(),
            n == col_chars(rv.take(i as int), c as int),
        decreases rows@.len() - i,
    {
        proof {
            assert(rv.take(i + 1).drop_last() =~= rv.take(i as int));
            assert(rv.take(i + 1).last() == views(rows@[i as int]@));
        }
        if c < rows[i].len() {
            let k = rows[i][c].as_str().unicode_len();
            if k > n {
                n = k;
            }
        }
        i += 1;
    }
    proof {
        assert(rv.take(i as int) =~= rv);
    }
    n
}

fn natural_widths_of(rows: &Vec<Vec<String>>) -> (r: Vec<u64>)
    ensures
        nats(r@) == natural_widths(rows_view(rows@)),
        forall|i: int| 0 <= i < r@.len() ==> #[trigger] r@[i] <= u32::MAX,
{
    let ghost rv = rows_view(rows@);
    let cols = count_cols(rows);
    let mut out: Vec<u64> = Vec::new();
    let mut c: usize = 0;
    proof {
        assert(nats(out@) =~= natural_widths(rv).take(0));
    }
    while c < cols
        invariant
            rv == rows_view(rows@),
            cols == col_count(rv),
            c <= cols,
            out@.len() == c,
            nats(out@) == natural_widths(rv).take(c as int),
            forall|i: int| 0 <= i < out@.len() ==> #[trigger] out@[i] <= u32::MAX,
        decreases cols - c,
    {
        let chars: u128 = longest_cell(rows, c) as u128;
        let max: u128 = u32::MAX as u128;
        let scaled: u128 = if chars * 16 > max {
            max
        } else {
            chars * 16
        };
        let padded: u128 = if scaled + 36 > max {
            max
        } else {
            scaled + 36
        };
        let w: u64 = if padded < 80 {
            80
        } else {
            padded as u64
        };
        proof {
            assert(w == natural_width(rv, c as int));
            lemma_nats_push(out@, w);
            assert(natural_widths(rv).take(c + 1) =~= natural_widths(rv).take(c as int).push(
                w as nat,
            ));
        }
        out.push(w);
        c += 1;
    }
    proof {
        assert(natural_widths(rv).take(c as int) =~= natural_widths(rv));
    }
    out
}

/// The position of the widest column; of several, the last.
fn widest_of(v: &Vec<u64>) -> (r: usize)
    requires
        v@.len() > 0,
    ensures
        r == widest(nats(v@)),
        r < v@.len(),
{
    let ghost w = nats(v@);
    let mut k: usize = 0;
    let mut i: usize = 1;
    while i < v.len()
        invariant
            w == nats(v@),
            1 <= i <= v@.len(),
            k < i,
            k == widest(w.take(i as int)),
        decreases v@.len() - i,
    {
        proof {
            assert(w.take(i + 1).drop_last() =~= w.take(i as int));
        }
        if v[i] >= v[k] {
            k = i;
        }
        i += 1;
    }
    proof {
        assert(w.take(i as int) =~= w);
    }
    k
}

/// Gives each column at most an equal share.
fn level(v: &Vec<u64>) -> (r: Vec<u64>)
    requires
        v@.len() > 0,
    ensures
        nats(r@) == levelled(nats(v@)),
{
    let ghost want = levelled(nats(v@));
    let share: u64 = 1400 / v.len() as u64;
    let mut out: Vec<u64> = Vec::new();
    let mut i: usize = 0;
    proof {
        assert(nats(out@) =~= want.take(0));
    }
    while i < v.len()
        invariant
            want == levelled(nats(v@)),
            v@.len() > 0,
            share == 1400nat / v@.len(),
            i <= v@.len(),
            nats(out@) == want.take(i as int),
        decreases v@.len() - i,
    {
        let w: u64 = if v[i] < share {
            v[i]
        } else {
            share
        };
        proof {
            assert(nats(v@)[i as int] == v@[i as int]);
            lemma_nats_push(out@, w);
            assert(want.take(i + 1) =~= want.take(i as int).push(w as nat));
        }
        out.push(w);
        i += 1;
    }
    proof {
        assert(want.take(i as int) =~= want);
    }
    out
}

proof fn lemma_sum_bound(w: Seq<nat>, m: nat)
    requires
        forall|i: int| 0 <= i < w.len() ==> #[trigger] w[i] <= m,
    ensures
        sum(w) <= w.len() * m,
    decreases w.len(),
{
    if w.len() > 0 {
        let d = w.drop_last();
        assert forall|i: int| 0 <= i < d.len() implies #[trigger] d[i] <= m by {
            assert(d[i] == w[i]);
        }
        lemma_sum_bound(d, m);
        assert(w[w.len() - 1] <= m);
        assert(d.len() * m + m == w.len() * m) by (nonlinear_arith)
            requires
                w.len() == d.len() + 1,
        ;
    }
}

proof fn lemma_levelled(w: Seq<nat>)
    requires
        w.len() > 0,
    ensures
        levelled(w).len() == w.len(),
        sum(levelled(w)) <= 1400,
        forall|i: int| 0 <= i < w.len() ==> #[trigger] levelled(w)[i] <= w[i],
{
    let share = 1400nat / w.len();
    lemma_sum_bound(levelled(w), share);
    let n = w.len();
    assert(n * share <= 1400) by (nonlinear_arith)
        requires
            n > 0,
            share == 1400nat / n,
    ;
}

proof fn lemma_shrunk_fits(w: Seq<nat>)
    requires
        sum(w) <= 1400,
    ensures
        shrunk(w) == w,
{
}

/// Narrows the columns until they fit.
fn shrink(v: Vec<u64>) -> (r: Vec<u64>)
    requires
        sum(nats(v@)) <= u32::MAX,
        forall|i: int| 0 <= i < v@.len() ==> #[trigger] v@[i] <= u32::MAX,
    ensures
        nats(r@) == shrunk(nats(v@)),
        r@.len() == v@.len(),
        sum(nats(r@)) <= u32::MAX,
        forall|i: int| 0 <= i < r@.len() ==> #[trigger] r@[i] <= u32::MAX,
{
    let ghost goal = shrunk(nats(v@));
    let ghost n = v@.len();
    let mut out = v;
    if out.len() == 0 {
        return out;
    }
    let mut more = true;
    while more
        invariant
            n > 0,
            out@.len() == n,
            sum(nats(out@)) <= u32::MAX,
            forall|i: int| 0 <= i < out@.len() ==> #[trigger] out@[i] <= u32::MAX,
            shrunk(nats(out@)) == goal,
            !more ==> nats(out@) == goal,
        decreases (if more {
            1int
        } else {
            0int
        }), sum(nats(out@)),
    {
        let total: u64 = match sum_of(&out) {
            Some(t) => t,
            None => 0,
        };
        let k = widest_of(&out);
        let w: u64 = out[k];
        if total <= 1400 {
            more = false;
        } else if w <= 80 {
            proof {
                lemma_levelled(nats(out@));
            }
            let even = level(&out);
            proof {
                assert(nats(even@).len() == even@.len());
                assert forall|i: int| 0 <= i < even@.len() implies #[trigger] even@[i]
                    <= u32::MAX by {
                    assert(nats(even@)[i] == even@[i]);
                    assert(nats(out@)[i] == out@[i]);
                }
                lemma_shrunk_fits(nats(even@));
            }
            out = even;
            more = false;
        } else {
            let c: u64 = if w / 10 < 8 {
                8
            } else {
                w / 10
            };
            let ghost before = nats(out@);
            out[k] = w - c;
            proof {
                assert(nats(out@) =~= before.update(k as int, (w - c) as nat));
                lemma_sum_update(before, k as int, (w - c) as nat);
            }
        }
    }
    out
}

// ---------------------------------------------------------------------------
// Cells and rows
// ---------------------------------------------------------------------------

/// The characters that fit on a line of a column of this width.
pub open spec fn line_chars(width: nat) -> int {
    let inner: int = if width < 36 {
        0
    } else {
        width - 36
    };
    if inner / 16 < 4 {
        4
    } else {
        inner / 16
    }
}

/// The lines of a cell.
pub open spec fn cell_lines(row: Seq<Seq<char>>, w: Seq<nat>, c: int) -> Seq<Seq<char>> {
    wrapped(cell(row, c), line_chars(w[c]))
}

/// The lines of each cell of a row.
pub open spec fn row_lines(row: Seq<Seq<char>>, w: Seq<nat>) -> Seq<Seq<Seq<char>>> {
    Seq::new(w.len(), |c: int| cell_lines(row, w, c))
}

/// The lines of the tallest cell, at least one.
pub open spec fn most_lines(cells: Seq<Seq<Seq<char>>>) -> nat
    decreases cells.len(),
{
    if cells.len() == 0 {
        1
    } else {
        let n = most_lines(cells.drop_last());
        if cells.last().len() > n {
            cells.last().len()
        } else {
            n
        }
    }
}

/// The height of a row: 44 units, and 34 more for each further line.
pub open spec fn row_height(cells: Seq<Seq<Seq<char>>>) -> nat {
    (44 + (most_lines(cells) - 1) * 34) as nat
}

/// The lines of all cells.
pub open spec fn table_lines(rows: Seq<Seq<Seq<char>>>) -> Seq<Seq<Seq<Seq<char>>>> {
    Seq::new(rows.len(), |r: int| row_lines(rows[r], widths(rows)))
}

/// The heights of the rows.
pub open spec fn heights(rows: Seq<Seq<Seq<char>>>) -> Seq<nat> {
    Seq::new(rows.len(), |r: int| row_height(table_lines(rows)[r]))
}

/// The width of the drawing.
pub open spec fn table_width(rows: Seq<Seq<Seq<char>>>) -> nat {
    sum(widths(rows))
}

/// The height of the drawing: that of the rows, and an allowance for the
/// border.
pub open spec fn table_height(rows: Seq<Seq<Seq<char>>>) -> nat {
    sum(heights(rows)) + 4
}

/// Whether the measures of the drawing fit in 32 bits.
pub open spec fn drawable(rows: Seq<Seq<Seq<char>>>) -> bool {
    sum(natural_widths(rows)) <= u32::MAX && table_height(rows) <= u32::MAX
}

fn row_lines_of(row: &Vec<String>, w: &Vec<u64>) -> (r: Vec<Vec<String>>)
    requires
        forall|i: int| 0 <= i < w@.len() ==> #[trigger] w@[i] <= u32::MAX,
    ensures
        rows_view(r@) == row_lines(views(row@), nats(w@)),
{
    let ghost want = row_lines(views(row@), nats(w@));
    let mut out: Vec<Vec<String>> = Vec::new();
    let mut c: usize = 0;
    proof {
        assert(rows_view(out@) =~= want.take(0));
    }
    while c < w.len()
        invariant
            want == row_lines(views(row@), nats(w@)),
            forall|i: int| 0 <= i < w@.len() ==> #[trigger] w@[i] <= u32::MAX,
            c <= w@.len(),
            rows_view(out@) == want.take(c as int),
        decreases w@.len() - c,
    {
        let width: u64 = w[c];
        let inner: u64 = if width < 36 {
            0
        } else {
            width - 36
        };
        let max: u64 = if inner / 16 < 4 {
            4
        } else {
            inner / 16
        };
        let text: &str = if c < row.len() {
            row[c].as_str()
        } else {
            ""
        };
        proof {
            reveal_strlit("");
            assert(text@ =~= cell(views(row@), c as int));
            assert(nats(w@)[c as int] == width);
            assert(max == line_chars(width as nat));
        }
        let lines = wrap_text(text, max as usize);
        proof {
            lemma_rows_view_push(out@, lines);
            assert(want.take(c + 1) =~= want.take(c as int).push(want[c as int]));
        }
        out.push(lines);
        c += 1;
    }
    proof {
        assert(want.take(c as int) =~= want);
    }
    out
}

/// The height of a row, where it fits in 32 bits.
fn row_height_of(cells: &Vec<Vec<String>>) -> (r: Option<u64>)
    ensures
        match r {
            Some(h) => h == row_height(rows_view(cells@)) && h <= u32::MAX,
            None => row_height(rows_view(cells@)) > u32::MAX,
        },
{
    let ghost cv = rows_view(cells@);
    let mut n: usize = 1;
    let mut i: usize = 0;
    while i < cells.len()
        invariant
            cv == rows_view(cells@),
            i <= cells@.len(),
            n >= 1,
            n == most_lines(cv.take(i as int)),
        decreases cells@.len() - i,
    {
        proof {
            assert(cv.take(i + 1).drop_last() =~= cv.take(i as int));
            assert(cv.take(i + 1).last() == views(cells@[i as int]@));
        }
        if cells[i].len() > n {
            n = cells[i].len();
        }
        i += 1;
    }
    proof {
        assert(cv.take(i as int) =~= cv);
    }
    let h: u128 = 44 + (n as u128 - 1) * 34;
    if h > u32::MAX as u128 {
        None
    } else {
        Some(h as u64)
    }
}

/// The measures of a drawing.
#[derive(Debug)]
pub struct TableLayout {
    /// Column widths.
    pub col_w: Vec<u64>,
    /// The lines of each cell.
    pub lines: Vec<Vec<Vec<String>>>,
    /// Row heights.
    pub row_h: Vec<u64>,
    pub width: u64,
    pub height: u64,
}

/// The lines of all cells, in memory.
pub open spec fn all_lines(ls: Seq<Vec<Vec<String>>>) -> Seq<Seq<Seq<Seq<char>>>> {
    Seq::new(ls.len(), |i: int| rows_view(ls[i]@))
}

impl TableLayout {
    /// Whether these are the measures of the table.
    pub open spec fn of(&self, rows: Seq<Seq<Seq<char>>>) -> bool {
        &&& nats(self.col_w@) == widths(rows)
        &&& all_lines(self.lines@) == table_lines(rows)
        &&& nats(self.row_h@) == heights(rows)
        &&& self.width == table_width(rows)
        &&& self.height == table_height(rows)
        &&& self.width <= u32::MAX
        &&& self.height <= u32::MAX
    }
}

/// Measures a table, where the measures fit in 32 bits.
pub fn table_layout(rows: &Vec<Vec<String>>) -> (r: Option<TableLayout>)
    ensures
        match r {
            Some(l) => drawable(rows_view(rows@)) && l.of(rows_view(rows@)),
            None => !drawable(rows_view(rows@)),
        },
{
    let ghost rv = rows_view(rows@);
    let natural = natural_widths_of(rows);
    if sum_of(&natural).is_none() {
        return None;
    }
    let col_w = shrink(natural);
    let width: u64 = match sum_of(&col_w) {
        Some(t) => t,
        None => return None,
    };
    let ghost want_lines = table_lines(rv);
    let ghost want_h = heights(rv);
    let mut lines: Vec<Vec<Vec<String>>> = Vec::new();
    let mut row_h: Vec<u64> = Vec::new();
    let mut i: usize = 0;
    proof {
        assert(all_lines(lines@) =~= want_lines.take(0));
        assert(nats(row_h@) =~= want_h.take(0));
    }
    while i < rows.len()
        invariant
            rv == rows_view(rows@),
            nats(col_w@) == widths(rv),
            forall|k: int| 0 <= k < col_w@.len() ==> #[trigger] col_w@[k] <= u32::MAX,
            want_lines == table_lines(rv),
            want_h == heights(rv),
            i <= rows@.len(),
            all_lines(lines@) == want_lines.take(i as int),
            nats(row_h@) == want_h.take(i as int),
        decreases rows@.len() - i,
    {
        let cells = row_lines_of(&rows[i], &col_w);
        proof {
            assert(rv[i as int] == views(rows@[i as int]@));
            assert(want_lines[i as int] == rows_view(cells@));
            assert(want_h[i as int] == row_height(rows_view(cells@)));
        }
        let h: u64 = match row_height_of(&cells) {
            Some(h) => h,
            None => {
                proof {
                    lemma_sum_step(want_h, i as int);
                }
                return None;
            },
        };
        proof {
            assert(all_lines(lines@.push(cells)) =~= all_lines(lines@).push(rows_view(cells@)));
            assert(want_lines.take(i + 1) =~= want_lines.take(i as int).push(
                want_lines[i as int],
            ));
            lemma_nats_push(row_h@, h);
            assert(want_h.take(i + 1) =~= want_h.take(i as int).push(want_h[i as int]));
        }
        lines.push(cells);
        row_h.push(h);
        i += 1;
    }
    proof {
        assert(want_lines.take(i as int) =~= want_lines);
        assert(want_h.take(i as int) =~= want_h);
    }
    let total: u64 = match sum_of(&row_h) {
        Some(t) => t,
        None => return None,
    };
    if total + 4 > u32::MAX as u64 {
        return None;
    }
    Some(TableLayout { col_w, lines, row_h, width, height: total + 4 })
}

// ---------------------------------------------------------------------------
// The drawing
// ---------------------------------------------------------------------------

/// `a - b`, or zero where `b` is more.
pub open spec fn less(a: nat, b: nat) -> nat {
    if a < b {
        0
    } else {
        (a - b) as nat
    }
}

/// The opening tag of the drawing.
pub open spec fn svg_head(width: nat, height: nat) -> Seq<char> {
    "<svg xmlns=\"http://www.w3.org/2000/svg\" width=\""@ + decimal(width) + "\" height=\""@
        + decimal(height) + "\" viewBox=\"0 0 "@ + decimal(width) + " "@ + decimal(height)
        + "\" font-family=\"Georgia, serif\" font-size=\"28\">\n"@
}

/// The outer border.
pub open spec fn svg_border(width: nat, height: nat) -> Seq<char> {
    "<rect x=\"1\" y=\"1\" width=\""@ + decimal(less(width, 2)) + "\" height=\""@ + decimal(
        less(height, 2),
    ) + "\" fill=\"white\" stroke=\"black\" stroke-width=\"2\"/>\n"@
}

/// A vertical separator.
pub open spec fn svg_vline(x: nat, height: nat) -> Seq<char> {
    "<line x1=\""@ + decimal(x) + "\" y1=\"1\" x2=\""@ + decimal(x) + "\" y2=\""@ + decimal(
        less(height, 1),
    ) + "\" stroke=\"black\" stroke-width=\"1\"/>\n"@
}

/// The vertical separators behind the first `n` columns. None stands behind
/// the last column of the table.
pub open spec fn svg_vlines(w: Seq<nat>, height: nat, n: nat) -> Seq<char>
    decreases n,
{
    if n == 0 {
        Seq::empty()
    } else {
        let before = svg_vlines(w, height, (n - 1) as nat);
        if n < w.len() {
            before + svg_vline(sum(w.take(n as int)), height)
        } else {
            before
        }
    }
}

/// The bottom border of a row; that of the header is twice as thick.
pub open spec fn svg_hline(bottom: nat, width: nat, header: bool) -> Seq<char> {
    "<line x1=\"1\" y1=\""@ + decimal(bottom) + "\" x2=\""@ + decimal(less(width, 1))
        + "\" y2=\""@ + decimal(bottom) + "\" stroke=\"black\" stroke-width=\""@ + (if header {
        "2"@
    } else {
        "1"@
    }) + "\"/>\n"@
}

/// Where a line of text starts, ends or has its middle, by alignment.
pub open spec fn text_x(x: nat, w: nat, align: Alignment) -> nat {
    match align {
        Alignment::Right => less(x + w, 18),
        Alignment::Center => x + w / 2,
        _ => x + 18,
    }
}

/// The text anchor of an alignment.
pub open spec fn text_anchor(align: Alignment) -> Seq<char> {
    match align {
        Alignment::Right => "end"@,
        Alignment::Center => "middle"@,
        _ => "start"@,
    }
}

/// One line of text.
pub open spec fn svg_text(
    x: nat,
    baseline: nat,
    align_anchor: Seq<char>,
    header: bool,
    line: Seq<char>,
) -> Seq<char> {
    "<text x=\""@ + decimal(x) + "\" y=\""@ + decimal(baseline) + "\" text-anchor=\""@
        + align_anchor + "\" font-weight=\""@ + (if header {
        "bold"@
    } else {
        "normal"@
    }) + "\">"@ + xml_text(line) + "</text>\n"@
}

/// Where a cell stands.
pub struct Place {
    pub x: nat,
    pub w: nat,
    pub y: nat,
    pub h: nat,
    pub align: Alignment,
    pub header: bool,
}

/// The baseline of line `i` of a cell with `n` lines, centred in its row.
pub open spec fn baseline(p: Place, n: nat, i: nat) -> nat {
    (p.y + (p.h - n * 34) / 2 + 28 - 4 + i * 34) as nat
}

/// The first `n` lines of a cell.
pub open spec fn svg_cell(p: Place, lines: Seq<Seq<char>>, n: nat) -> Seq<char>
    decreases n,
{
    if n == 0 {
        Seq::empty()
    } else {
        svg_cell(p, lines, (n - 1) as nat) + svg_text(
            text_x(p.x, p.w, p.align),
            baseline(p, lines.len(), (n - 1) as nat),
            text_anchor(p.align),
            p.header,
            lines[n - 1],
        )
    }
}

/// The alignment of a column; left where none is given.
pub open spec fn align_of(aligns: Seq<Alignment>, c: int) -> Alignment {
    if 0 <= c < aligns.len() {
        aligns[c]
    } else {
        Alignment::Left
    }
}

/// Where cell `c` of row `r` stands.
pub open spec fn place_of(
    rows: Seq<Seq<Seq<char>>>,
    aligns: Seq<Alignment>,
    r: int,
    c: int,
) -> Place {
    Place {
        x: sum(widths(rows).take(c)),
        w: widths(rows)[c],
        y: sum(heights(rows).take(r)),
        h: heights(rows)[r],
        align: align_of(aligns, c),
        header: r == 0,
    }
}

/// The first `n` cells of row `r`.
pub open spec fn svg_cells(
    rows: Seq<Seq<Seq<char>>>,
    aligns: Seq<Alignment>,
    r: int,
    n: nat,
) -> Seq<char>
    decreases n,
{
    if n == 0 {
        Seq::empty()
    } else {
        let lines = table_lines(rows)[r][n - 1];
        svg_cells(rows, aligns, r, (n - 1) as nat) + svg_cell(
            place_of(rows, aligns, r, n - 1),
            lines,
            lines.len(),
        )
    }
}

/// The first `n` rows: the bottom border and the cells of each.
pub open spec fn svg_rows(rows: Seq<Seq<Seq<char>>>, aligns: Seq<Alignment>, n: nat) -> Seq<char>
    decreases n,
{
    if n == 0 {
        Seq::empty()
    } else {
        svg_rows(rows, aligns, (n - 1) as nat) + svg_hline(
            sum(heights(rows).take(n as int)),
            table_width(rows),
            n == 1,
        ) + svg_cells(rows, aligns, n - 1, col_count(rows))
    }
}

/// The drawing of a note in place of a table.
pub open spec fn placeholder_text(text: Seq<char>) -> Seq<char> {
    "<svg xmlns=\"http://www.w3.org/2000/svg\" width=\"400\" height=\"60\" viewBox=\"0 0 400 60\" font-family=\"Georgia, serif\" font-size=\"20\">\n<rect x=\"1\" y=\"1\" width=\"398\" height=\"58\" fill=\"white\" stroke=\"black\"/>\n<text x=\"200\" y=\"38\" text-anchor=\"middle\" fill=\"gray\">"@
        + xml_text(text) + "</text>\n</svg>"@
}

/// The drawing of a table with borders.
pub open spec fn table_svg(rows: Seq<Seq<Seq<char>>>, aligns: Seq<Alignment>) -> Seq<char> {
    if col_count(rows) == 0 {
        placeholder_text("(empty table)"@)
    } else {
        svg_head(table_width(rows), table_height(rows)) + svg_border(
            table_width(rows),
            table_height(rows),
        ) + svg_vlines(widths(rows), table_height(rows), col_count(rows)) + svg_rows(
            rows,
            aligns,
            rows.len(),
        ) + "</svg>"@
    }
}

/// The drawing of a note in place of a table.
pub fn svg_placeholder(text: &str) -> (r: String)
    ensures
        r@ == placeholder_text(text@),
{
    let mut out =
        "<svg xmlns=\"http://www.w3.org/2000/svg\" width=\"400\" height=\"60\" viewBox=\"0 0 400 60\" font-family=\"Georgia, serif\" font-size=\"20\">\n<rect x=\"1\" y=\"1\" width=\"398\" height=\"58\" fill=\"white\" stroke=\"black\"/>\n<text x=\"200\" y=\"38\" text-anchor=\"middle\" fill=\"gray\">".to_owned();
    push_xml_text(&mut out, text);
    out.push_str("</text>\n</svg>");
    out
}

fn push_head(out: &mut String, width: u64, height: u64)
    ensures
        final(out)@ == old(out)@ + svg_head(width as nat, height as nat),
{
    let mut t = "<svg xmlns=\"http://www.w3.org/2000/svg\" width=\"".to_owned();
    push_decimal(&mut t, width);
    t.push_str("\" height=\"");
    push_decimal(&mut t, height);
    t.push_str("\" viewBox=\"0 0 ");
    push_decimal(&mut t, width);
    t.push_str(" ");
    push_decimal(&mut t, height);
    t.push_str("\" font-family=\"Georgia, serif\" font-size=\"28\">\n");
    out.push_str(t.as_str());
}

fn push_border(out: &mut String, width: u64, height: u64)
    ensures
        final(out)@ == old(out)@ + svg_border(width as nat, height as nat),
{
    let mut t = "<rect x=\"1\" y=\"1\" width=\"".to_owned();
    push_decimal(&mut t, width.saturating_sub(2));
    t.push_str("\" height=\"");
    push_decimal(&mut t, height.saturating_sub(2));
    t.push_str("\" fill=\"white\" stroke=\"black\" stroke-width=\"2\"/>\n");
    out.push_str(t.as_str());
}

fn push_vline(out: &mut String, x: u64, height: u64)
    ensures
        final(out)@ == old(out)@ + svg_vline(x as nat, height as nat),
{
    let mut t = "<line x1=\"".to_owned();
    push_decimal(&mut t, x);
    t.push_str("\" y1=\"1\" x2=\"");
    push_decimal(&mut t, x);
    t.push_str("\" y2=\"");
    push_decimal(&mut t, height.saturating_sub(1));
    t.push_str("\" stroke=\"black\" stroke-width=\"1\"/>\n");
    out.push_str(t.as_str());
}

fn push_hline(out: &mut String, bottom: u64, width: u64, header: bool)
    ensures
        final(out)@ == old(out)@ + svg_hline(bottom as nat, width as nat, header),
{
    let mut t = "<line x1=\"1\" y1=\"".to_owned();
    push_decimal(&mut t, bottom);
    t.push_str("\" x2=\"");
    push_decimal(&mut t, width.saturating_sub(1));
    t.push_str("\" y2=\"");
    push_decimal(&mut t, bottom);
    t.push_str("\" stroke=\"black\" stroke-width=\"");
    t.push_str(
        if header {
            "2"
        } else {
            "1"
        },
    );
    t.push_str("\"/>\n");
    out.push_str(t.as_str());
}

fn push_text(out: &mut String, x: u64, baseline: u64, anchor: &str, header: bool, line: &str)
    ensures
        final(out)@ == old(out)@ + svg_text(x as nat, baseline as nat, anchor@, header, line@),
{
    let mut t = "<text x=\"".to_owned();
    push_decimal(&mut t, x);
    t.push_str("\" y=\"");
    push_decimal(&mut t, baseline);
    t.push_str("\" text-anchor=\"");
    t.push_str(anchor);
    t.push_str("\" font-weight=\"");
    t.push_str(
        if header {
            "bold"
        } else {
            "normal"
        },
    );
    t.push_str("\">");
    push_xml_text(&mut t, line);
    t.push_str("</text>\n");
    out.push_str(t.as_str());
}

pub proof fn lemma_most_lines(cells: Seq<Seq<Seq<char>>>, c: int)
    requires
        0 <= c < cells.len(),
    ensures
        cells[c].len() <= most_lines(cells),
        1 <= most_lines(cells),
    decreases cells.len(),
{
    lemma_most_lines_positive(cells);
    if c < cells.len() - 1 {
        lemma_most_lines(cells.drop_last(), c);
    }
}

proof fn lemma_most_lines_positive(cells: Seq<Seq<Seq<char>>>)
    ensures
        1 <= most_lines(cells),
    decreases cells.len(),
{
    if cells.len() > 0 {
        lemma_most_lines_positive(cells.drop_last());
    }
}

proof fn lemma_shrunk(w: Seq<nat>)
    ensures
        shrunk(w).len() == w.len(),
        sum(shrunk(w)) <= 1400,
        forall|i: int| 0 <= i < w.len() ==> #[trigger] shrunk(w)[i] <= w[i],
    decreases sum(w),
{
    let k = widest(w);
    if sum(w) > 1400 && w.len() > 0 {
        if w[k] <= 80 {
            lemma_levelled(w);
        } else {
            lemma_widest(w);
            let u = w.update(k, (w[k] - cut(w[k])) as nat);
            lemma_sum_update(w, k, (w[k] - cut(w[k])) as nat);
            lemma_shrunk(u);
            assert forall|i: int| 0 <= i < w.len() implies #[trigger] shrunk(w)[i] <= w[i] by {
                assert(shrunk(u)[i] <= u[i]);
            }
        }
    }
}

/// Appends the text of a cell.
fn push_cell(
    out: &mut String,
    lines: &Vec<String>,
    x: u64,
    w: u64,
    y: u64,
    h: u64,
    align: Alignment,
    header: bool,
)
    requires
        x + w <= u32::MAX,
        y + h <= u32::MAX,
        lines@.len() * 34 <= h,
    ensures
        final(out)@ == old(out)@ + svg_cell(
            Place { x: x as nat, w: w as nat, y: y as nat, h: h as nat, align, header },
            views(lines@),
            lines@.len(),
        ),
{
    let ghost p = Place { x: x as nat, w: w as nat, y: y as nat, h: h as nat, align, header };
    let ghost ls = views(lines@);
    let ghost head = out@;
    let n: u64 = lines.len() as u64;
    let first: u64 = y + (h - n * 34) / 2 + 28 - 4;
    let (tx, anchor): (u64, &str) = match align {
        Alignment::Right => ((x + w).saturating_sub(18), "end"),
        Alignment::Center => (x + w / 2, "middle"),
        _ => (x + 18, "start"),
    };
    let mut i: usize = 0;
    proof {
        assert(head + svg_cell(p, ls, 0) =~= head);
    }
    while i < lines.len()
        invariant
            ls == views(lines@),
            p == (Place { x: x as nat, w: w as nat, y: y as nat, h: h as nat, align, header }),
            n == lines@.len(),
            n * 34 <= h,
            y + h <= u32::MAX,
            first == y + (h - n * 34) / 2 + 28 - 4,
            tx == text_x(p.x, p.w, p.align),
            anchor@ == text_anchor(p.align),
            i <= lines@.len(),
            out@ == head + svg_cell(p, ls, i as nat),
        decreases lines@.len() - i,
    {
        let baseline: u64 = first + i as u64 * 34;
        let ghost before = out@;
        push_text(out, tx, baseline, anchor, header, lines[i].as_str());
        proof {
            assert(ls[i as int] == lines@[i as int]@);
            assert(out@ =~= head + svg_cell(p, ls, (i + 1) as nat));
        }
        i += 1;
    }
}

/// Appends the cells of row `r`.
fn push_cells(out: &mut String, l: &TableLayout, aligns: &Vec<Alignment>, Ghost(rows): Ghost<
    Seq<Seq<Seq<char>>>,
>, r: usize, y: u64)
    requires
        l.of(rows),
        r < rows.len(),
        y == sum(heights(rows).take(r as int)),
    ensures
        final(out)@ == old(out)@ + svg_cells(rows, aligns@, r as int, col_count(rows)),
{
    let ghost w = widths(rows);
    let ghost head = out@;
    let mut c: usize = 0;
    let mut x: u64 = 0;
    proof {
        lemma_shrunk(natural_widths(rows));
        assert(all_lines(l.lines@).len() == l.lines@.len());
        assert(nats(l.row_h@).len() == l.row_h@.len());
        assert(nats(l.col_w@).len() == l.col_w@.len());
        assert(all_lines(l.lines@)[r as int] == rows_view(l.lines@[r as int]@));
        assert(nats(l.row_h@)[r as int] == l.row_h@[r as int]);
        assert(w.take(0) =~= Seq::<nat>::empty());
        assert(head + svg_cells(rows, aligns@, r as int, 0) =~= head);
        lemma_sum_step(heights(rows), r as int);
    }
    let h: u64 = l.row_h[r];
    let cells = &l.lines[r];
    proof {
        assert(rows_view(cells@).len() == cells@.len());
    }
    while c < l.col_w.len()
        invariant
            l.of(rows),
            r < rows.len(),
            w == widths(rows),
            w.len() == col_count(rows),
            nats(l.col_w@) == w,
            l.col_w@.len() == w.len(),
            rows_view(cells@) == table_lines(rows)[r as int],
            cells@.len() == w.len(),
            h == heights(rows)[r as int],
            y == sum(heights(rows).take(r as int)),
            y + h <= u32::MAX,
            c <= w.len(),
            x == sum(w.take(c as int)),
            out@ == head + svg_cells(rows, aligns@, r as int, c as nat),
        decreases w.len() - c,
    {
        let cw: u64 = l.col_w[c];
        let align = if c < aligns.len() {
            aligns[c]
        } else {
            Alignment::Left
        };
        proof {
            assert(nats(l.col_w@)[c as int] == cw);
            lemma_sum_step(w, c as int);
            assert(rows_view(cells@)[c as int] == views(cells@[c as int]@));
            lemma_most_lines(table_lines(rows)[r as int], c as int);
            assert(heights(rows)[r as int] == row_height(table_lines(rows)[r as int]));
            let m = most_lines(table_lines(rows)[r as int]);
            assert(cells@[c as int]@.len() <= m);
            assert(cells@[c as int]@.len() * 34 <= h) by (nonlinear_arith)
                requires
                    cells@[c as int]@.len() <= m,
                    h == 44 + (m - 1) * 34,
            ;
        }
        let ghost before = out@;
        push_cell(out, &cells[c], x, cw, y, h, align, r == 0);
        proof {
            let p = place_of(rows, aligns@, r as int, c as int);
            assert(p == (Place {
                x: x as nat,
                w: cw as nat,
                y: y as nat,
                h: h as nat,
                align,
                header: r == 0,
            }));
            assert(out@ =~= head + svg_cells(rows, aligns@, r as int, (c + 1) as nat));
        }
        x = x + cw;
        c += 1;
    }
}

/// Builds an SVG depicting `rows` as a bordered table. Column widths follow
/// the longest cell in each column. The header row gets a bold weight and a
/// thicker underline.
pub fn build_table_svg(rows: &Vec<Vec<String>>, aligns: &Vec<Alignment>) -> (r: String)
    requires
        drawable(rows_view(rows@)),
    ensures
        r@ == table_svg(rows_view(rows@), aligns@),
{
    let ghost rv = rows_view(rows@);
    let cols = count_cols(rows);
    if cols == 0 {
        return svg_placeholder("(empty table)");
    }
    let l = match table_layout(rows) {
        Some(l) => l,
        None => return String::new(),
    };
    let ghost w = widths(rv);
    let mut out = String::new();
    proof {
        lemma_shrunk(natural_widths(rv));
        assert(nats(l.col_w@).len() == l.col_w@.len());
        assert(nats(l.row_h@).len() == l.row_h@.len());
        assert(w.take(0) =~= Seq::<nat>::empty());
    }
    push_head(&mut out, l.width, l.height);
    push_border(&mut out, l.width, l.height);
    let ghost top = svg_head(table_width(rv), table_height(rv)) + svg_border(
        table_width(rv),
        table_height(rv),
    );
    proof {
        assert(out@ =~= top);
        assert(top + svg_vlines(w, table_height(rv), 0) =~= top);
    }
    let mut x: u64 = 0;
    let mut c: usize = 0;
    while c < cols
        invariant
            l.of(rv),
            w == widths(rv),
            nats(l.col_w@) == w,
            l.col_w@.len() == w.len(),
            cols == w.len(),
            c <= cols,
            x == sum(w.take(c as int)),
            out@ == top + svg_vlines(w, table_height(rv), c as nat),
        decreases cols - c,
    {
        proof {
            assert(nats(l.col_w@)[c as int] == l.col_w@[c as int]);
            lemma_sum_step(w, c as int);
        }
        x = x + l.col_w[c];
        if c + 1 < cols {
            push_vline(&mut out, x, l.height);
        }
        proof {
            assert(out@ =~= top + svg_vlines(w, table_height(rv), (c + 1) as nat));
        }
        c += 1;
    }
    let ghost upper = out@;
    proof {
        assert(upper + svg_rows(rv, aligns@, 0) =~= upper);
        assert(heights(rv).take(0) =~= Seq::<nat>::empty());
    }
    let mut y: u64 = 0;
    let mut r: usize = 0;
    while r < rows.len()
        invariant
            rv == rows_view(rows@),
            l.of(rv),
            l.row_h@.len() == rows@.len(),
            nats(l.row_h@) == heights(rv),
            r <= rows@.len(),
            y == sum(heights(rv).take(r as int)),
            out@ == upper + svg_rows(rv, aligns@, r as nat),
        decreases rows@.len() - r,
    {
        proof {
            assert(nats(l.row_h@)[r as int] == l.row_h@[r as int]);
            lemma_sum_step(heights(rv), r as int);
        }
        let bottom: u64 = y + l.row_h[r];
        let ghost before = out@;
        push_hline(&mut out, bottom, l.width, r == 0);
        push_cells(&mut out, &l, aligns, Ghost(rv), r, y);
        proof {
            assert(out@ =~= upper + svg_rows(rv, aligns@, (r + 1) as nat));
        }
        y = bottom;
        r += 1;
    }
    out.push_str("</svg>");
    proof {
        assert(out@ =~= table_svg(rv, aligns@));
    }
    out
}

/// The drawing of a table, where its measures fit in 32 bits.
pub fn try_table_svg(rows: &Vec<Vec<String>>, aligns: &Vec<Alignment>) -> (r: Option<String>)
    ensures
        match r {
            Some(s) => drawable(rows_view(rows@)) && s@ == table_svg(rows_view(rows@), aligns@),
            None => !drawable(rows_view(rows@)),
        },
{
    if table_layout(rows).is_none() {
        return None;
    }
    Some(build_table_svg(rows, aligns))
}

// ---------------------------------------------------------------------------
// Laws
// ---------------------------------------------------------------------------

/// The drawing is at most 1400 units wide, whatever the number of columns. No
/// column is wider than its longest cell asks for.
pub proof fn law_table_width_is_capped(rows: Seq<Seq<Seq<char>>>)
    ensures
        table_width(rows) <= 1400,
        widths(rows).len() == col_count(rows),
        forall|i: int|
            0 <= i < widths(rows).len() ==> #[trigger] widths(rows)[i] <= natural_width(rows, i),
{
    lemma_shrunk(natural_widths(rows));
}

} // verus!
