//! Tables as plain text: bullet records and box-drawn ASCII.

use vstd::prelude::*;

use crate::events::Alignment;
use crate::markdown::escape::{html_text, push_html_text};
use crate::markdown::table::{align_of, cell, rows_view};
use crate::text::views;

verus! {

// ---------------------------------------------------------------------------
// Bullet records
// ---------------------------------------------------------------------------

/// The first `n` cells of a row, separated by dashes.
pub open spec fn dashed(row: Seq<Seq<char>>, n: nat) -> Seq<char>
    decreases n,
{
    if n == 0 {
        Seq::empty()
    } else if n == 1 {
        row[0]
    } else {
        dashed(row, (n - 1) as nat) + " — "@ + row[n - 1]
    }
}

/// One list item for each of the first `n` rows of a single-column table.
pub open spec fn single_items(rows: Seq<Seq<Seq<char>>>, n: nat) -> Seq<char>
    decreases n,
{
    if n == 0 {
        Seq::empty()
    } else {
        single_items(rows, (n - 1) as nat) + "  <li>"@ + html_text(cell(rows[n - 1], 0))
            + "</li>\n"@
    }
}

/// A cell behind the record label, with its header where that is not empty.
pub open spec fn labelled(header: Seq<Seq<char>>, row: Seq<Seq<char>>, i: int) -> Seq<char> {
    if cell(header, i).len() > 0 {
        " — "@ + html_text(cell(header, i)) + ": "@ + html_text(row[i])
    } else {
        " — "@ + html_text(row[i])
    }
}

/// The cells `1..n` of a record.
pub open spec fn record_cells(header: Seq<Seq<char>>, row: Seq<Seq<char>>, n: nat) -> Seq<char>
    decreases n,
{
    if n <= 1 {
        Seq::empty()
    } else {
        record_cells(header, row, (n - 1) as nat) + labelled(header, row, n - 1)
    }
}

/// One record: the first cell as its label, the others with their headers.
pub open spec fn record_item(header: Seq<Seq<char>>, row: Seq<Seq<char>>) -> Seq<char> {
    "  <li><strong>"@ + html_text(cell(row, 0)) + "</strong>"@ + record_cells(
        header,
        row,
        row.len(),
    ) + "</li>\n"@
}

/// The records of the rows `1..n`.
pub open spec fn record_items(rows: Seq<Seq<Seq<char>>>, n: nat) -> Seq<char>
    decreases n,
{
    if n <= 1 {
        Seq::empty()
    } else {
        record_items(rows, (n - 1) as nat) + record_item(rows[0], rows[n - 1])
    }
}

/// A table as a list of records. A single-column table is a plain list, and a
/// table of headers alone is one line.
pub open spec fn bullet_table(rows: Seq<Seq<Seq<char>>>) -> Seq<char> {
    if rows.len() == 0 {
        Seq::empty()
    } else {
        "<ul class=\"rr-table\">\n"@ + (if rows[0].len() == 1 {
            single_items(rows, rows.len())
        } else if rows.len() == 1 {
            "  <li>"@ + html_text(dashed(rows[0], rows[0].len())) + "</li>\n"@
        } else {
            record_items(rows, rows.len())
        }) + "</ul>\n"@
    }
}

fn cell_text(row: &Vec<String>, c: usize) -> (r: &str)
    ensures
        r@ == cell(views(row@), c as int),
{
    if c < row.len() {
        row[c].as_str()
    } else {
        proof {
            reveal_strlit("");
            assert(""@ =~= Seq::<char>::empty());
        }
        ""
    }
}

fn dashed_text(row: &Vec<String>) -> (r: String)
    ensures
        r@ == dashed(views(row@), row@.len()),
{
    let ghost rv = views(row@);
    let mut out = String::new();
    let mut i: usize = 0;
    proof {
        assert(out@ =~= dashed(rv, 0));
    }
    while i < row.len()
        invariant
            rv == views(row@),
            i <= row@.len(),
            out@ == dashed(rv, i as nat),
        decreases row@.len() - i,
    {
        if i > 0 {
            out.push_str(" — ");
        }
        out.push_str(row[i].as_str());
        proof {
            assert(rv[i as int] == row@[i as int]@);
            assert(out@ =~= dashed(rv, (i + 1) as nat));
        }
        i += 1;
    }
    out
}

fn push_record(out: &mut String, header: &Vec<String>, row: &Vec<String>)
    ensures
        final(out)@ == old(out)@ + record_item(views(header@), views(row@)),
{
    let ghost hv = views(header@);
    let ghost rv = views(row@);
    let ghost before = out@;
    out.push_str("  <li><strong>");
    push_html_text(out, cell_text(row, 0));
    out.push_str("</strong>");
    let ghost head = out@;
    let mut i: usize = 1;
    proof {
        assert(head + record_cells(hv, rv, 1) =~= head);
        assert(head + record_cells(hv, rv, 0) =~= head);
    }
    while i < row.len()
        invariant
            hv == views(header@),
            rv == views(row@),
            1 <= i,
            i <= row@.len() || i == 1,
            out@ == head + record_cells(hv, rv, i as nat),
        decreases row@.len() - i,
    {
        let hdr = cell_text(header, i);
        let ghost mid = out@;
        out.push_str(" — ");
        if hdr.unicode_len() > 0 {
            push_html_text(out, hdr);
            out.push_str(": ");
        }
        push_html_text(out, row[i].as_str());
        proof {
            assert(rv[i as int] == row@[i as int]@);
            assert(out@ =~= mid + labelled(hv, rv, i as int));
            assert(out@ =~= head + record_cells(hv, rv, (i + 1) as nat));
        }
        i += 1;
    }
    out.push_str("</li>\n");
    proof {
        if row@.len() == 0 {
            assert(record_cells(hv, rv, 0) =~= record_cells(hv, rv, 1));
        }
        assert(out@ =~= before + record_item(hv, rv));
    }
}

/// Renders a table as a `<ul>` of records.
pub fn emit_bullet_table(out: &mut String, rows: &Vec<Vec<String>>)
    ensures
        final(out)@ == old(out)@ + bullet_table(rows_view(rows@)),
{
    let ghost rv = rows_view(rows@);
    let ghost before = out@;
    if rows.len() == 0 {
        proof {
            assert(before + Seq::<char>::empty() =~= before);
        }
        return;
    }
    proof {
        assert(rv[0] == views(rows@[0]@));
    }
    out.push_str("<ul class=\"rr-table\">\n");
    let ghost head = out@;
    if rows[0].len() == 1 {
        let mut i: usize = 0;
        proof {
            assert(head + single_items(rv, 0) =~= head);
        }
        while i < rows.len()
            invariant
                rv == rows_view(rows@),
                i <= rows@.len(),
                out@ == head + single_items(rv, i as nat),
            decreases rows@.len() - i,
        {
            let ghost mid = out@;
            out.push_str("  <li>");
            push_html_text(out, cell_text(&rows[i], 0));
            out.push_str("</li>\n");
            proof {
                assert(rv[i as int] == views(rows@[i as int]@));
                assert(out@ =~= head + single_items(rv, (i + 1) as nat));
            }
            i += 1;
        }
    } else if rows.len() == 1 {
        out.push_str("  <li>");
        push_html_text(out, dashed_text(&rows[0]).as_str());
        out.push_str("</li>\n");
    } else {
        let mut i: usize = 1;
        proof {
            assert(head + record_items(rv, 1) =~= head);
        }
        while i < rows.len()
            invariant
                rv == rows_view(rows@),
                1 <= i <= rows@.len(),
                out@ == head + record_items(rv, i as nat),
            decreases rows@.len() - i,
        {
            let ghost mid = out@;
            push_record(out, &rows[0], &rows[i]);
            proof {
                assert(rv[0] == views(rows@[0]@));
                assert(rv[i as int] == views(rows@[i as int]@));
                assert(out@ =~= head + record_items(rv, (i + 1) as nat));
            }
            i += 1;
        }
    }
    out.push_str("</ul>\n");
    proof {
        assert(out@ =~= before + bullet_table(rv));
    }
}

// ---------------------------------------------------------------------------
// Box-drawn ASCII
// ---------------------------------------------------------------------------

/// `n` times `c`.
pub open spec fn repeated(c: char, n: nat) -> Seq<char> {
    Seq::new(n, |i: int| c)
}

fn push_repeated(out: &mut String, c: char, n: usize)
    ensures
        final(out)@ == old(out)@ + repeated(c, n as nat),
{
    let ghost before = out@;
    let mut i: usize = 0;
    proof {
        assert(before + repeated(c, 0) =~= before);
    }
    while i < n
        invariant
            i <= n,
            out@ == before + repeated(c, i as nat),
        decreases n - i,
    {
        out.push(c);
        i += 1;
        proof {
            assert(out@ =~= before + repeated(c, i as nat));
        }
    }
}

/// The width of a text on the page: one for each character.
pub fn display_width(s: &str) -> (r: usize)
    ensures
        r == s@.len(),
{
    s.unicode_len()
}

/// The border of the first `n` columns.
pub open spec fn border_text(widths: Seq<usize>, n: nat) -> Seq<char>
    decreases n,
{
    if n == 0 {
        "+"@
    } else {
        border_text(widths, (n - 1) as nat) + repeated('-', (widths[n - 1] + 2) as nat) + "+"@
    }
}

/// The border between rows of columns of these widths.
pub fn build_border(widths: &Vec<usize>) -> (r: String)
    ensures
        r@ == border_text(widths@, widths@.len()),
{
    let mut out = "+".to_owned();
    let mut i: usize = 0;
    while i < widths.len()
        invariant
            i <= widths@.len(),
            out@ == border_text(widths@, i as nat),
        decreases widths@.len() - i,
    {
        let ghost before = out@;
        push_repeated(&mut out, '-', widths[i]);
        push_repeated(&mut out, '-', 2);
        out.push_str("+");
        proof {
            assert(repeated('-', widths@[i as int] as nat) + repeated('-', 2) =~= repeated(
                '-',
                (widths@[i as int] + 2) as nat,
            ));
            assert(out@ =~= border_text(widths@, (i + 1) as nat));
        }
        i += 1;
    }
    out
}

/// A cell filled up with spaces to a width, by alignment.
pub open spec fn padded(content: Seq<char>, width: nat, align: Alignment) -> Seq<char> {
    if content.len() >= width {
        content
    } else {
        let pad = (width - content.len()) as nat;
        match align {
            Alignment::Right => repeated(' ', pad) + content,
            Alignment::Center => repeated(' ', pad / 2) + content + repeated(
                ' ',
                (pad - pad / 2) as nat,
            ),
            _ => content + repeated(' ', pad),
        }
    }
}

/// A cell filled up with spaces to a width, by alignment.
pub fn pad_cell(content: &str, width: usize, align: Alignment) -> (r: String)
    ensures
        r@ == padded(content@, width as nat, align),
{
    let cw = display_width(content);
    if cw >= width {
        return content.to_owned();
    }
    let pad: usize = width - cw;
    let mut out = String::new();
    match align {
        Alignment::Right => {
            push_repeated(&mut out, ' ', pad);
            out.push_str(content);
        },
        Alignment::Center => {
            push_repeated(&mut out, ' ', pad / 2);
            out.push_str(content);
            push_repeated(&mut out, ' ', pad - pad / 2);
        },
        _ => {
            out.push_str(content);
            push_repeated(&mut out, ' ', pad);
        },
    }
    proof {
        assert(out@ =~= padded(content@, width as nat, align));
    }
    out
}

/// The display widths of the columns of the first `n` rows, `cols` columns in
/// all.
pub open spec fn ascii_widths(rows: Seq<Seq<Seq<char>>>, cols: nat) -> Seq<usize> {
    Seq::new(cols, |c: int| crate::markdown::table::col_chars(rows, c) as usize)
}

/// The first `n` cells of a row between bars.
pub open spec fn ascii_cells(
    row: Seq<Seq<char>>,
    widths: Seq<usize>,
    aligns: Seq<Alignment>,
    n: nat,
) -> Seq<char>
    decreases n,
{
    if n == 0 {
        "|"@
    } else {
        ascii_cells(row, widths, aligns, (n - 1) as nat) + " "@ + padded(
            cell(row, n - 1),
            widths[n - 1] as nat,
            align_of(aligns, n - 1),
        ) + " |"@
    }
}

/// The first `n` rows, with the border behind the first.
pub open spec fn ascii_rows(
    rows: Seq<Seq<Seq<char>>>,
    widths: Seq<usize>,
    aligns: Seq<Alignment>,
    n: nat,
) -> Seq<char>
    decreases n,
{
    if n == 0 {
        Seq::empty()
    } else {
        let line = ascii_rows(rows, widths, aligns, (n - 1) as nat) + ascii_cells(
            rows[n - 1],
            widths,
            aligns,
            widths.len(),
        ) + "\n"@;
        if n == 1 {
            line + border_text(widths, widths.len()) + "\n"@
        } else {
            line
        }
    }
}

/// A table drawn with ASCII characters.
pub open spec fn ascii_table(rows: Seq<Seq<Seq<char>>>, aligns: Seq<Alignment>) -> Seq<char> {
    if rows.len() == 0 {
        Seq::empty()
    } else {
        let w = ascii_widths(rows, crate::markdown::table::col_count(rows));
        border_text(w, w.len()) + "\n"@ + ascii_rows(rows, w, aligns, rows.len()) + border_text(
            w,
            w.len(),
        )
    }
}

fn push_ascii_row(
    out: &mut String,
    row: &Vec<String>,
    widths: &Vec<usize>,
    aligns: &Vec<Alignment>,
)
    ensures
        final(out)@ == old(out)@ + ascii_cells(
            views(row@),
            widths@,
            aligns@,
            widths@.len(),
        ),
{
    let ghost before = out@;
    let ghost rv = views(row@);
    out.push_str("|");
    let mut i: usize = 0;
    while i < widths.len()
        invariant
            rv == views(row@),
            i <= widths@.len(),
            out@ == before + ascii_cells(rv, widths@, aligns@, i as nat),
        decreases widths@.len() - i,
    {
        let align = if i < aligns.len() {
            aligns[i]
        } else {
            Alignment::Left
        };
        let text = pad_cell(cell_text(row, i), widths[i], align);
        let ghost mid = out@;
        out.push_str(" ");
        out.push_str(text.as_str());
        out.push_str(" |");
        proof {
            assert(out@ =~= before + ascii_cells(rv, widths@, aligns@, (i + 1) as nat));
        }
        i += 1;
    }
}

/// Draws a table with ASCII characters.
pub fn format_ascii_table(rows: &Vec<Vec<String>>, aligns: &Vec<Alignment>) -> (r: String)
    ensures
        r@ == ascii_table(rows_view(rows@), aligns@),
{
    let ghost rv = rows_view(rows@);
    let mut out = String::new();
    if rows.len() == 0 {
        proof {
            assert(out@ =~= Seq::<char>::empty());
        }
        return out;
    }
    let cols = crate::markdown::table::count_cols(rows);
    let mut widths: Vec<usize> = Vec::new();
    let mut c: usize = 0;
    let ghost want = ascii_widths(rv, cols as nat);
    while c < cols
        invariant
            rv == rows_view(rows@),
            want == ascii_widths(rv, cols as nat),
            c <= cols,
            widths@ == want.take(c as int),
        decreases cols - c,
    {
        let w = crate::markdown::table::longest_cell(rows, c);
        proof {
            assert(want.take(c + 1) =~= want.take(c as int).push(w));
        }
        widths.push(w);
        c += 1;
    }
    proof {
        assert(want.take(c as int) =~= want);
    }
    let border = build_border(&widths);
    out.push_str(border.as_str());
    out.push_str("\n");
    let ghost head = out@;
    let mut i: usize = 0;
    proof {
        assert(head + ascii_rows(rv, want, aligns@, 0) =~= head);
    }
    while i < rows.len()
        invariant
            rv == rows_view(rows@),
            widths@ == want,
            border@ == border_text(want, want.len()),
            i <= rows@.len(),
            out@ == head + ascii_rows(rv, want, aligns@, i as nat),
        decreases rows@.len() - i,
    {
        let ghost mid = out@;
        push_ascii_row(&mut out, &rows[i], &widths, aligns);
        out.push_str("\n");
        if i == 0 {
            out.push_str(border.as_str());
            out.push_str("\n");
        }
        proof {
            assert(rv[i as int] == views(rows@[i as int]@));
            assert(out@ =~= head + ascii_rows(rv, want, aligns@, (i + 1) as nat));
        }
        i += 1;
    }
    out.push_str(border.as_str());
    proof {
        assert(out@ =~= ascii_table(rv, aligns@));
    }
    out
}

} // verus!
