//! Laws of wrapped text, escaped text and tables as text and drawings.

use vstd::prelude::*;

use crate::events::Alignment;
use crate::markdown::escape::{html_char, html_text, xml_char, xml_text};
use crate::markdown::plain::{
    ascii_cells, ascii_rows, ascii_table, ascii_widths, border_text, bullet_table, dashed, padded,
    record_cells, record_item, record_items, single_items,
};
use crate::markdown::table::{
    baseline, cell, cell_lines, col_chars, col_count, cut, heights, lemma_sum_update, lemma_widest,
    line_chars, natural_width, natural_widths, place_of, row_height, shrunk, sum, svg_border,
    svg_cell, svg_cells, svg_head, svg_hline, svg_rows, svg_text, svg_vline, svg_vlines,
    table_height, table_lines, table_svg, table_width, text_anchor, text_x, widest, widths, Place,
};
use crate::markdown::wrap::{chunks, words, wrap_words, wrapped};
use crate::notebook::bundle_laws::{
    holds_in_order, lemma_longer_text, lemma_one_more_part, lemma_parts_add,
};
use crate::text::{is_white, starts_with};

verus! {

// ---------------------------------------------------------------------------
// Words and lines
// ---------------------------------------------------------------------------

/// Texts with one space between them.
pub open spec fn spaced(ws: Seq<Seq<char>>) -> Seq<char>
    decreases ws.len(),
{
    if ws.len() == 0 {
        Seq::empty()
    } else if ws.len() == 1 {
        ws[0]
    } else {
        spaced(ws.drop_last()) + seq![' '] + ws.last()
    }
}

proof fn lemma_spaced_push(ws: Seq<Seq<char>>, w: Seq<char>)
    ensures
        ws.len() > 0 ==> spaced(ws.push(w)) == spaced(ws) + seq![' '] + w,
        ws.len() == 0 ==> spaced(ws.push(w)) == w,
{
    assert(ws.push(w).drop_last() =~= ws);
}

/// Words are separated by white space: the words of a text, of a white
/// character behind it and of more text are those of both texts.
pub proof fn law_white_space_separates_words(a: Seq<char>, c: char, b: Seq<char>)
    requires
        is_white(c),
    ensures
        words(a.push(c) + b) == words(a) + words(b),
    decreases b.len(),
{
    let s = a.push(c) + b;
    if b.len() == 0 {
        assert(s =~= a.push(c));
        assert(s.drop_last() =~= a);
        assert(words(a) + words(b) =~= words(a));
    } else {
        let d = b.drop_last();
        law_white_space_separates_words(a, c, d);
        assert(s.drop_last() =~= a.push(c) + d);
        assert(s.last() == b.last());
        if !is_white(b.last()) {
            if b.len() >= 2 {
                assert(s[s.len() - 2] == b[b.len() - 2]);
                if !is_white(b[b.len() - 2]) {
                    lemma_words_of_run(d);
                    let x = words(a);
                    let y = words(d);
                    assert((x + y).update((x + y).len() - 1, (x + y).last().push(b.last())) =~= x
                        + y.update(y.len() - 1, y.last().push(b.last())));
                } else {
                    assert((words(a) + words(d)).push(seq![b.last()]) =~= words(a) + words(d).push(
                        seq![b.last()],
                    ));
                }
            } else {
                assert(s[s.len() - 2] == c);
                assert(d =~= Seq::<char>::empty());
                assert((words(a) + words(d)).push(seq![b.last()]) =~= words(a) + words(d).push(
                    seq![b.last()],
                ));
            }
        }
    }
}

proof fn lemma_words_of_run(d: Seq<char>)
    requires
        d.len() > 0,
        !is_white(d.last()),
    ensures
        words(d).len() > 0,
    decreases d.len(),
{
    if d.len() >= 2 && !is_white(d[d.len() - 2]) {
        assert(d.drop_last().last() == d[d.len() - 2]);
        lemma_words_of_run(d.drop_last());
    }
}

/// A run of characters without white space is one word.
pub proof fn law_a_run_is_one_word(w: Seq<char>)
    requires
        w.len() > 0,
        forall|i: int| 0 <= i < w.len() ==> !is_white(#[trigger] w[i]),
    ensures
        words(w) == seq![w],
    decreases w.len(),
{
    let d = w.drop_last();
    assert(!is_white(w[w.len() - 1]));
    if d.len() == 0 {
        assert(d =~= Seq::<char>::empty());
        assert(words(d) =~= Seq::<Seq<char>>::empty());
        assert(seq![w.last()] =~= w);
        assert(words(w) =~= seq![w]);
    } else {
        assert forall|i: int| 0 <= i < d.len() implies !is_white(#[trigger] d[i]) by {
            assert(d[i] == w[i]);
        }
        law_a_run_is_one_word(d);
        assert(!is_white(w[w.len() - 2]));
        assert(d.push(w.last()) =~= w);
        assert(words(w) =~= seq![w]);
    }
}

spec fn line_up(out: Seq<Seq<char>>, cur: Seq<char>) -> Seq<Seq<char>> {
    if cur.len() > 0 {
        out.push(cur)
    } else {
        out
    }
}

/// Whether every line but the first begins with a word that would not have fit
/// on the line before.
pub open spec fn is_tight(ls: Seq<Seq<char>>, ws: Seq<Seq<char>>, max: int) -> bool {
    forall|i: int|
        0 <= i < ls.len() - 1 ==> exists|k: int|
            0 <= k < ws.len() && starts_with((#[trigger] ls[i + 1]), #[trigger] ws[k]) && ls[i].len()
                + 1 + ws[k].len() > max
}

proof fn lemma_wrap_words(ws: Seq<Seq<char>>, max: int)
    requires
        max > 0,
        forall|i: int| 0 <= i < ws.len() ==> 0 < (#[trigger] ws[i]).len() <= max,
    ensures
        ({
            let (out, cur) = wrap_words(ws, max);
            &&& spaced(line_up(out, cur)) == spaced(ws)
            &&& ws.len() > 0 ==> cur.len() > 0
            &&& ws.len() == 0 ==> out.len() == 0 && cur.len() == 0
            &&& is_tight(line_up(out, cur), ws, max)
        }),
    decreases ws.len(),
{
    if ws.len() > 0 {
        let d = ws.drop_last();
        let w = ws.last();
        assert forall|i: int| 0 <= i < d.len() implies 0 < (#[trigger] d[i]).len() <= max by {
            assert(d[i] == ws[i]);
        }
        lemma_wrap_words(d, max);
        assert(0 < ws[ws.len() - 1].len() <= max);
        let (out, cur) = wrap_words(d, max);
        let (out2, cur2) = wrap_words(ws, max);
        let old = line_up(out, cur);
        let new = line_up(out2, cur2);
        assert(ws =~= d.push(w));
        lemma_spaced_push(d, w);
        if d.len() == 0 {
            assert(cur2 == w);
            assert(new =~= seq![w]);
        } else {
            assert(old =~= out.push(cur));
            if cur.len() + 1 + w.len() <= max {
                assert(cur2 == cur + seq![' '] + w);
                assert(new =~= out.push(cur2));
                lemma_spaced_push(out, cur);
                lemma_spaced_push(out, cur2);
                assert(spaced(new) =~= spaced(old) + seq![' '] + w);
                assert forall|i: int| 0 <= i < new.len() - 1 implies exists|k: int|
                    0 <= k < ws.len() && starts_with((#[trigger] new[i + 1]), #[trigger] ws[k])
                        && new[i].len() + 1 + ws[k].len() > max by {
                    assert(old[i + 1] == if i + 1 < out.len() { out[i + 1] } else { cur });
                    let k = choose|k: int|
                        0 <= k < d.len() && starts_with(old[i + 1], #[trigger] d[k]) && old[i].len()
                            + 1 + d[k].len() > max;
                    assert(ws[k] == d[k]);
                    assert(new[i] == old[i]);
                    if i + 1 < out.len() {
                        assert(new[i + 1] == old[i + 1]);
                    } else {
                        assert(new[i + 1] == cur2);
                        assert(cur2.take(d[k].len() as int) =~= cur.take(d[k].len() as int));
                    }
                }
            } else {
                let cs = crate::markdown::wrap::chunks(w, max);
                assert(cs == seq![w]);
                assert(cs.drop_last() =~= Seq::<Seq<char>>::empty());
                assert(out2 =~= out.push(cur));
                assert(cur2 == w);
                assert(new =~= old.push(w));
                lemma_spaced_push(old, w);
                assert forall|i: int| 0 <= i < new.len() - 1 implies exists|k: int|
                    0 <= k < ws.len() && starts_with((#[trigger] new[i + 1]), #[trigger] ws[k])
                        && new[i].len() + 1 + ws[k].len() > max by {
                    if i + 1 < old.len() {
                        assert(old[i + 1] == new[i + 1]);
                        let k = choose|k: int|
                            0 <= k < d.len() && starts_with(old[i + 1], #[trigger] d[k])
                                && old[i].len() + 1 + d[k].len() > max;
                        assert(ws[k] == d[k]);
                        assert(new[i] == old[i]);
                    } else {
                        assert(new[i + 1] == w);
                        assert(w.take(w.len() as int) =~= w);
                        assert(ws[ws.len() - 1] == w);
                        assert(new[i] == cur);
                        assert(starts_with(new[i + 1], ws[ws.len() - 1]));
                    }
                }
            }
        }
    }
}

/// Wrapping keeps the words whole and in order, with one space or a line break
/// between them, where each of them fits on a line; and it breaks a line only
/// before a word that does not fit on it any more.
pub proof fn law_wrapping_keeps_words(s: Seq<char>, max: int)
    requires
        max > 0,
        words(s).len() > 0,
        forall|i: int| 0 <= i < words(s).len() ==> 0 < (#[trigger] words(s)[i]).len() <= max,
    ensures
        spaced(wrapped(s, max)) == spaced(words(s)),
        is_tight(wrapped(s, max), words(s), max),
{
    lemma_wrap_words(words(s), max);
    if s.len() == 0 {
        assert(words(s).len() == 0);
    }
}

// ---------------------------------------------------------------------------
// Escaped text
// ---------------------------------------------------------------------------

/// Text is escaped character by character: the escaped form of a joined text is
/// that of its parts, and a character that is no mark of XML stays as it is.
pub proof fn law_xml_text_joins(a: Seq<char>, b: Seq<char>, c: char)
    ensures
        xml_text(a + b) == xml_text(a) + xml_text(b),
        c != '&' && c != '<' && c != '>' && c != '"' && c != '\'' ==> xml_text(seq![c]) == seq![c],
        c == '&' || c == '<' || c == '>' || c == '"' || c == '\'' ==> xml_text(seq![c])[0] == '&'
            && xml_text(seq![c]).last() == ';' && xml_text(seq![c]).len() > 2,
    decreases b.len(),
{
    if b.len() == 0 {
        assert(a + b =~= a);
        assert(xml_text(a) + xml_text(b) =~= xml_text(a));
    } else {
        assert((a + b).drop_last() =~= a + b.drop_last());
        law_xml_text_joins(a, b.drop_last(), c);
        assert(xml_text(a + b) =~= xml_text(a) + xml_text(b));
    }
    lemma_entities();
    lemma_one_char(c);
}

/// Text is escaped character by character: the escaped form of a joined text is
/// that of its parts, and a character that is no mark of HTML stays as it is.
pub proof fn law_html_text_joins(a: Seq<char>, b: Seq<char>, c: char)
    ensures
        html_text(a + b) == html_text(a) + html_text(b),
        c != '&' && c != '<' && c != '>' && c != '"' && c != '\'' ==> html_text(seq![c]) == seq![c],
        c == '&' || c == '<' || c == '>' || c == '"' || c == '\'' ==> html_text(seq![c])[0] == '&'
            && html_text(seq![c]).last() == ';' && html_text(seq![c]).len() > 2,
    decreases b.len(),
{
    if b.len() == 0 {
        assert(a + b =~= a);
        assert(html_text(a) + html_text(b) =~= html_text(a));
    } else {
        assert((a + b).drop_last() =~= a + b.drop_last());
        law_html_text_joins(a, b.drop_last(), c);
        assert(html_text(a + b) =~= html_text(a) + html_text(b));
    }
    lemma_entities();
    lemma_one_char(c);
}

proof fn lemma_one_char(c: char)
    ensures
        xml_text(seq![c]) == xml_char(c),
        html_text(seq![c]) == html_char(c),
{
    let e = Seq::<char>::empty();
    assert(seq![c].drop_last() =~= e);
    assert(xml_text(e) =~= e);
    assert(html_text(e) =~= e);
    assert(xml_text(seq![c]) =~= xml_char(c));
    assert(html_text(seq![c]) =~= html_char(c));
}

proof fn lemma_entities()
    ensures
        "&amp;"@ == seq!['&', 'a', 'm', 'p', ';'],
        "&lt;"@ == seq!['&', 'l', 't', ';'],
        "&gt;"@ == seq!['&', 'g', 't', ';'],
        "&quot;"@ == seq!['&', 'q', 'u', 'o', 't', ';'],
        "&apos;"@ == seq!['&', 'a', 'p', 'o', 's', ';'],
        "&#x27;"@ == seq!['&', '#', 'x', '2', '7', ';'],
{
    reveal_strlit("&amp;");
    reveal_strlit("&lt;");
    reveal_strlit("&gt;");
    reveal_strlit("&quot;");
    reveal_strlit("&apos;");
    reveal_strlit("&#x27;");
    assert("&amp;"@ =~= seq!['&', 'a', 'm', 'p', ';']);
    assert("&lt;"@ =~= seq!['&', 'l', 't', ';']);
    assert("&gt;"@ =~= seq!['&', 'g', 't', ';']);
    assert("&quot;"@ =~= seq!['&', 'q', 'u', 'o', 't', ';']);
    assert("&apos;"@ =~= seq!['&', 'a', 'p', 'o', 's', ';']);
    assert("&#x27;"@ =~= seq!['&', '#', 'x', '2', '7', ';']);
}

/// No two characters have one escaped form.
pub proof fn law_escaping_tells_characters_apart(a: char, b: char)
    requires
        a != b,
    ensures
        xml_text(seq![a]) != xml_text(seq![b]),
        html_text(seq![a]) != html_text(seq![b]),
{
    lemma_entities();
    lemma_one_char(a);
    lemma_one_char(b);
    if xml_char(a) == xml_char(b) {
        assert(xml_char(a).len() == xml_char(b).len());
        assert(xml_char(a)[0] == xml_char(b)[0]);
        if xml_char(a).len() > 1 {
            assert(xml_char(a)[1] == xml_char(b)[1]);
        }
    }
    if html_char(a) == html_char(b) {
        assert(html_char(a).len() == html_char(b).len());
        assert(html_char(a)[0] == html_char(b)[0]);
        if html_char(a).len() > 1 {
            assert(html_char(a)[1] == html_char(b)[1]);
        }
    }
}

// ---------------------------------------------------------------------------
// Tables as records
// ---------------------------------------------------------------------------

proof fn lemma_record_cells(header: Seq<Seq<char>>, row: Seq<Seq<char>>, n: nat)
    requires
        n <= row.len(),
    ensures
        holds_in_order(record_cells(header, row, n), record_parts(header, row, n)),
    decreases n,
{
    if n > 1 {
        lemma_record_cells(header, row, (n - 1) as nat);
        let a = record_cells(header, row, (n - 1) as nat);
        let ps = record_parts(header, row, (n - 1) as nat);
        let h = html_text(cell(header, n - 1));
        let c = html_text(row[n - 1]);
        if cell(header, n - 1).len() > 0 {
            lemma_one_more_part(a, ps, " — "@, h);
            lemma_one_more_part(a + " — "@ + h, ps.push(h), ": "@, c);
            assert(a + " — "@ + h + ": "@ + c =~= a + (" — "@ + h + ": "@ + c));
        } else {
            lemma_one_more_part(a, ps, " — "@, c);
            assert(a + " — "@ + c =~= a + (" — "@ + c));
        }
    }
}

/// The headers and cells of a record behind its label, in order; a column
/// without a header has its cell alone.
pub open spec fn record_parts(header: Seq<Seq<char>>, row: Seq<Seq<char>>, n: nat) -> Seq<Seq<char>>
    decreases n,
{
    if n <= 1 {
        Seq::empty()
    } else {
        let before = record_parts(header, row, (n - 1) as nat);
        if cell(header, n - 1).len() > 0 {
            before.push(html_text(cell(header, n - 1))).push(html_text(row[n - 1]))
        } else {
            before.push(html_text(row[n - 1]))
        }
    }
}

/// A record shows every cell of its row, in order: the first as its label, each
/// other one behind the header of its column.
pub proof fn law_record_shows_every_cell(header: Seq<Seq<char>>, row: Seq<Seq<char>>)
    ensures
        holds_in_order(
            record_item(header, row),
            seq![html_text(cell(row, 0))] + record_parts(header, row, row.len()),
        ),
{
    let e = Seq::<char>::empty();
    let none = Seq::<Seq<char>>::empty();
    let g = "  <li><strong>"@;
    let p = html_text(cell(row, 0));
    lemma_one_more_part(e, none, g, p);
    assert(e + g =~= g);
    lemma_longer_text(g + p, "</strong>"@, none.push(p));
    lemma_record_cells(header, row, row.len());
    let t = g + p + "</strong>"@;
    lemma_parts_add(
        t,
        none.push(p),
        record_cells(header, row, row.len()),
        record_parts(header, row, row.len()),
    );
    assert(none.push(p) =~= seq![p]);
    lemma_longer_text(
        t + record_cells(header, row, row.len()),
        "</li>\n"@,
        seq![p] + record_parts(header, row, row.len()),
    );
}

/// The records of the rows behind the header, in order.
pub open spec fn all_records(rows: Seq<Seq<Seq<char>>>) -> Seq<Seq<char>> {
    Seq::new((rows.len() - 1) as nat, |i: int| record_item(rows[0], rows[i + 1]))
}

proof fn lemma_records(rows: Seq<Seq<Seq<char>>>, n: nat)
    requires
        1 <= n <= rows.len(),
    ensures
        record_items(rows, n) == all_records(rows).take(n - 1).flatten(),
    decreases n,
{
    let all = all_records(rows);
    if n > 1 {
        lemma_records(rows, (n - 1) as nat);
        assert(all.take(n - 1) =~= all.take(n - 2).push(all[n - 2]));
        all.take(n - 2).lemma_flatten_push(all[n - 2]);
        assert(all[n - 2] == record_item(rows[0], rows[n - 1]));
    } else {
        assert(all.take(0).flatten() =~= Seq::<char>::empty());
    }
}

/// A table of several columns and rows is one record for each row behind the
/// header, one after the other; one of a single column is one item for each of
/// its rows.
pub proof fn law_bullet_table_shows_every_row(rows: Seq<Seq<Seq<char>>>)
    requires
        rows.len() > 0,
    ensures
        rows.len() > 1 && rows[0].len() != 1 ==> bullet_table(rows)
            == "<ul class=\"rr-table\">\n"@ + all_records(rows).flatten() + "</ul>\n"@,
        rows[0].len() == 1 ==> holds_in_order(
            bullet_table(rows),
            rows.map_values(|r: Seq<Seq<char>>| html_text(cell(r, 0))),
        ),
{
    lemma_records(rows, rows.len());
    assert(all_records(rows).take(rows.len() - 1) =~= all_records(rows));
    if rows[0].len() == 1 {
        let f = |r: Seq<Seq<char>>| html_text(cell(r, 0));
        lemma_single_items(rows, rows.len());
        assert(rows.take(rows.len() as int) =~= rows);
        let none = Seq::<Seq<char>>::empty();
        let a = "<ul class=\"rr-table\">\n"@;
        let items = single_items(rows, rows.len());
        lemma_parts_add(a, none, items, rows.map_values(f));
        assert(none + rows.map_values(f) =~= rows.map_values(f));
        lemma_longer_text(a + items, "</ul>\n"@, rows.map_values(f));
    }
}

proof fn lemma_single_items(rows: Seq<Seq<Seq<char>>>, n: nat)
    requires
        n <= rows.len(),
    ensures
        holds_in_order(
            single_items(rows, n),
            rows.take(n as int).map_values(|r: Seq<Seq<char>>| html_text(cell(r, 0))),
        ),
    decreases n,
{
    let f = |r: Seq<Seq<char>>| html_text(cell(r, 0));
    if n > 0 {
        let k = (n - 1) as nat;
        lemma_single_items(rows, k);
        let a = single_items(rows, k);
        let ps = rows.take(k as int).map_values(f);
        let p = html_text(cell(rows[n - 1], 0));
        lemma_one_more_part(a, ps, "  <li>"@, p);
        lemma_longer_text(a + "  <li>"@ + p, "</li>\n"@, ps.push(p));
        assert(rows.take(n as int).map_values(f) =~= ps.push(p));
    }
}

// ---------------------------------------------------------------------------
// Tables in ASCII
// ---------------------------------------------------------------------------

/// A padded cell is as wide as its column, or as its text where that is wider,
/// and holds its text: at the left, at the right, or in the middle.
pub proof fn law_padding_fills_the_column(content: Seq<char>, width: nat, align: Alignment)
    ensures
        ({
            let p = padded(content, width, align);
            let pad = p.len() - content.len();
            let left: int = match align {
                Alignment::Right => pad,
                Alignment::Center => pad / 2,
                _ => 0,
            };
            &&& p.len() == if content.len() < width {
                width
            } else {
                content.len()
            }
            &&& p.subrange(left, left + content.len()) == content
            &&& forall|i: int|
                0 <= i < p.len() && !(left <= i < left + content.len()) ==> #[trigger] p[i] == ' '
        }),
{
    let p = padded(content, width, align);
    let pad = p.len() - content.len();
    let left: int = match align {
        Alignment::Right => pad,
        Alignment::Center => pad / 2,
        _ => 0,
    };
    assert(p.subrange(left, left + content.len()) =~= content);
}

proof fn lemma_ascii_cells(
    row: Seq<Seq<char>>,
    widths: Seq<usize>,
    aligns: Seq<Alignment>,
    n: nat,
)
    requires
        n <= widths.len(),
    ensures
        holds_in_order(
            ascii_cells(row, widths, aligns, n),
            Seq::new(n, |i: int| cell(row, i)),
        ),
    decreases n,
{
    let all = Seq::new(n, |i: int| cell(row, i));
    if n > 0 {
        let k = (n - 1) as nat;
        lemma_ascii_cells(row, widths, aligns, k);
        let ps = Seq::new(k, |i: int| cell(row, i));
        let a = ascii_cells(row, widths, aligns, k) + " "@;
        let c = cell(row, n - 1);
        let align = crate::markdown::table::align_of(aligns, n - 1);
        let w = widths[n - 1] as nat;
        let p = padded(c, w, align);
        lemma_longer_text(ascii_cells(row, widths, aligns, k), " "@, ps);
        let pad = p.len() - c.len();
        law_padding_fills_the_column(c, w, align);
        let left: int = match align {
            Alignment::Right => pad,
            Alignment::Center => pad / 2,
            _ => 0,
        };
        lemma_one_more_part(a, ps, p.take(left), c);
        lemma_longer_text(a + p.take(left) + c, p.skip(left + c.len()) + " |"@, ps.push(c));
        assert(p =~= p.take(left) + c + p.skip(left + c.len())) by {
            assert(p.subrange(left, left + c.len()) =~= c);
        }
        assert(a + p.take(left) + c + (p.skip(left + c.len()) + " |"@) =~= a + p + " |"@);
        assert(all =~= ps.push(c));
    }
}

/// A row in ASCII shows every cell of the row, in order.
pub proof fn law_ascii_row_shows_every_cell(
    row: Seq<Seq<char>>,
    widths: Seq<usize>,
    aligns: Seq<Alignment>,
)
    ensures
        holds_in_order(
            ascii_cells(row, widths, aligns, widths.len()),
            Seq::new(widths.len(), |i: int| cell(row, i)),
        ),
{
    lemma_ascii_cells(row, widths, aligns, widths.len());
}

/// The lines of a table in ASCII.
pub open spec fn ascii_lines(
    rows: Seq<Seq<Seq<char>>>,
    widths: Seq<usize>,
    aligns: Seq<Alignment>,
) -> Seq<Seq<char>> {
    rows.map_values(|r: Seq<Seq<char>>| ascii_cells(r, widths, aligns, widths.len()))
}

proof fn lemma_ascii_rows(
    rows: Seq<Seq<Seq<char>>>,
    widths: Seq<usize>,
    aligns: Seq<Alignment>,
    n: nat,
)
    requires
        n <= rows.len(),
    ensures
        holds_in_order(
            ascii_rows(rows, widths, aligns, n),
            ascii_lines(rows, widths, aligns).take(n as int),
        ),
    decreases n,
{
    let all = ascii_lines(rows, widths, aligns);
    if n > 0 {
        let k = (n - 1) as nat;
        lemma_ascii_rows(rows, widths, aligns, k);
        let e = Seq::<char>::empty();
        let a = ascii_rows(rows, widths, aligns, k);
        let l = all[n - 1];
        lemma_one_more_part(a, all.take(k as int), e, l);
        assert(a + e =~= a);
        assert(all.take(n as int) =~= all.take(k as int).push(l));
        lemma_longer_text(a + l, "\n"@, all.take(n as int));
        if n == 1 {
            lemma_longer_text(a + l + "\n"@, border_text(widths, widths.len()), all.take(n as int));
            lemma_longer_text(
                a + l + "\n"@ + border_text(widths, widths.len()),
                "\n"@,
                all.take(n as int),
            );
        }
    }
}

/// A table in ASCII shows every row, in order, with columns as wide as their
/// longest cell.
pub proof fn law_ascii_table_shows_every_row(
    rows: Seq<Seq<Seq<char>>>,
    aligns: Seq<Alignment>,
)
    requires
        rows.len() > 0,
    ensures
        holds_in_order(
            ascii_table(rows, aligns),
            ascii_lines(rows, ascii_widths(rows, col_count(rows)), aligns),
        ),
{
    let w = ascii_widths(rows, col_count(rows));
    let all = ascii_lines(rows, w, aligns);
    lemma_ascii_rows(rows, w, aligns, rows.len());
    assert(all.take(rows.len() as int) =~= all);
    let b = border_text(w, w.len());
    let none = Seq::<Seq<char>>::empty();
    lemma_parts_add(b + "\n"@, none, ascii_rows(rows, w, aligns, rows.len()), all);
    assert(none + all =~= all);
    lemma_longer_text(b + "\n"@ + ascii_rows(rows, w, aligns, rows.len()), b, all);
}

/// A column is as wide as the longest of its cells: no cell is longer, and one
/// is as long, or all are empty.
pub proof fn law_columns_fit_their_cells(rows: Seq<Seq<Seq<char>>>, c: int)
    requires
        0 <= c,
    ensures
        forall|r: int|
            0 <= r < rows.len() ==> cell(#[trigger] rows[r], c).len() <= col_chars(rows, c),
        col_chars(rows, c) == 0 || exists|r: int|
            0 <= r < rows.len() && cell(#[trigger] rows[r], c).len() == col_chars(rows, c),
        forall|r: int| 0 <= r < rows.len() ==> (#[trigger] rows[r]).len() <= col_count(rows),
        col_count(rows) == 0 || exists|r: int|
            0 <= r < rows.len() && (#[trigger] rows[r]).len() == col_count(rows),
    decreases rows.len(),
{
    if rows.len() > 0 {
        let d = rows.drop_last();
        law_columns_fit_their_cells(d, c);
        assert(rows[rows.len() - 1] == rows.last());
        assert forall|r: int| 0 <= r < rows.len() implies cell(#[trigger] rows[r], c).len()
            <= col_chars(rows, c) && rows[r].len() <= col_count(rows) by {
            if r < d.len() {
                assert(d[r] == rows[r]);
            }
        }
        if col_chars(rows, c) > 0 && cell(rows.last(), c).len() != col_chars(rows, c) {
            let r = choose|r: int|
                0 <= r < d.len() && cell(#[trigger] d[r], c).len() == col_chars(d, c);
            assert(rows[r] == d[r]);
        }
        if col_count(rows) > 0 && rows.last().len() != col_count(rows) {
            let r = choose|r: int| 0 <= r < d.len() && (#[trigger] d[r]).len() == col_count(d);
            assert(rows[r] == d[r]);
        }
    }
}

// ---------------------------------------------------------------------------
// Tables as drawings
// ---------------------------------------------------------------------------

/// The texts that a cell puts into a drawing: its lines.
pub open spec fn drawn_lines(lines: Seq<Seq<char>>) -> Seq<Seq<char>> {
    lines.map_values(|l: Seq<char>| xml_text(l))
}

proof fn lemma_svg_cell(p: Place, lines: Seq<Seq<char>>, n: nat)
    requires
        n <= lines.len(),
    ensures
        holds_in_order(svg_cell(p, lines, n), drawn_lines(lines).take(n as int)),
    decreases n,
{
    let all = drawn_lines(lines);
    if n > 0 {
        let k = (n - 1) as nat;
        lemma_svg_cell(p, lines, k);
        let x = text_x(p.x, p.w, p.align);
        let b = baseline(p, lines.len(), k);
        let a = text_anchor(p.align);
        lemma_svg_text(x, b, a, p.header, lines[n - 1]);
        lemma_parts_add(
            svg_cell(p, lines, k),
            all.take(k as int),
            svg_text(x, b, a, p.header, lines[n - 1]),
            seq![all[n - 1]],
        );
        assert(all.take(n as int) =~= all.take(k as int) + seq![all[n - 1]]);
    }
}

proof fn lemma_svg_text(x: nat, b: nat, anchor: Seq<char>, header: bool, line: Seq<char>)
    ensures
        holds_in_order(svg_text(x, b, anchor, header, line), seq![xml_text(line)]),
{
    let t = svg_text(x, b, anchor, header, line);
    let tail = "</text>\n"@;
    let p = xml_text(line);
    let gap = t.take(t.len() - tail.len() - p.len());
    let e = Seq::<char>::empty();
    let none = Seq::<Seq<char>>::empty();
    assert(t =~= gap + p + tail);
    lemma_one_more_part(e, none, gap, p);
    assert(e + gap =~= gap);
    lemma_longer_text(gap + p, tail, none.push(p));
    assert(none.push(p) =~= seq![p]);
}

/// The texts that row `r` puts into a drawing: the lines of all its cells.
pub open spec fn drawn_cells(rows: Seq<Seq<Seq<char>>>, r: int) -> Seq<Seq<char>> {
    Seq::new(
        col_count(rows),
        |c: int| drawn_lines(cell_lines(rows[r], widths(rows), c)),
    ).flatten()
}

proof fn lemma_svg_cells(rows: Seq<Seq<Seq<char>>>, aligns: Seq<Alignment>, r: int, n: nat)
    requires
        0 <= r < rows.len(),
        n <= col_count(rows),
        widths(rows).len() == col_count(rows),
    ensures
        holds_in_order(
            svg_cells(rows, aligns, r, n),
            Seq::new(
                col_count(rows),
                |c: int| drawn_lines(cell_lines(rows[r], widths(rows), c)),
            ).take(n as int).flatten(),
        ),
    decreases n,
{
    let all = Seq::new(
        col_count(rows),
        |c: int| drawn_lines(cell_lines(rows[r], widths(rows), c)),
    );
    if n > 0 {
        let k = (n - 1) as nat;
        lemma_svg_cells(rows, aligns, r, k);
        let lines = table_lines(rows)[r][n - 1];
        assert(lines == cell_lines(rows[r], widths(rows), n - 1));
        let p = place_of(rows, aligns, r, n - 1);
        lemma_svg_cell(p, lines, lines.len());
        assert(drawn_lines(lines).take(lines.len() as int) =~= drawn_lines(lines));
        lemma_parts_add(
            svg_cells(rows, aligns, r, k),
            all.take(k as int).flatten(),
            svg_cell(p, lines, lines.len()),
            drawn_lines(lines),
        );
        assert(all.take(n as int) =~= all.take(k as int).push(all[n - 1]));
        all.take(k as int).lemma_flatten_push(all[n - 1]);
    } else {
        assert(all.take(0).flatten() =~= Seq::<Seq<char>>::empty());
    }
}

proof fn lemma_svg_rows(rows: Seq<Seq<Seq<char>>>, aligns: Seq<Alignment>, n: nat)
    requires
        n <= rows.len(),
        widths(rows).len() == col_count(rows),
    ensures
        holds_in_order(
            svg_rows(rows, aligns, n),
            Seq::new(rows.len(), |r: int| drawn_cells(rows, r)).take(n as int).flatten(),
        ),
    decreases n,
{
    let all = Seq::new(rows.len(), |r: int| drawn_cells(rows, r));
    if n > 0 {
        let k = (n - 1) as nat;
        lemma_svg_rows(rows, aligns, k);
        lemma_svg_cells(rows, aligns, k as int, col_count(rows));
        let cells = Seq::new(
            col_count(rows),
            |c: int| drawn_lines(cell_lines(rows[k as int], widths(rows), c)),
        );
        assert(cells.take(col_count(rows) as int) =~= cells);
        let h = svg_hline(sum(heights(rows).take(n as int)), table_width(rows), n == 1);
        lemma_longer_text(svg_rows(rows, aligns, k), h, all.take(k as int).flatten());
        lemma_parts_add(
            svg_rows(rows, aligns, k) + h,
            all.take(k as int).flatten(),
            svg_cells(rows, aligns, n - 1, col_count(rows)),
            drawn_cells(rows, k as int),
        );
        assert(all.take(n as int) =~= all.take(k as int).push(all[n - 1]));
        all.take(k as int).lemma_flatten_push(all[n - 1]);
    } else {
        assert(all.take(0).flatten() =~= Seq::<Seq<char>>::empty());
    }
}

/// The drawing of a table shows every line of every cell, row by row and column
/// by column.
pub proof fn law_drawing_shows_every_cell(rows: Seq<Seq<Seq<char>>>, aligns: Seq<Alignment>)
    requires
        col_count(rows) > 0,
    ensures
        holds_in_order(
            table_svg(rows, aligns),
            Seq::new(rows.len(), |r: int| drawn_cells(rows, r)).flatten(),
        ),
{
    crate::markdown::table::law_table_width_is_capped(rows);
    lemma_svg_rows(rows, aligns, rows.len());
    let all = Seq::new(rows.len(), |r: int| drawn_cells(rows, r));
    assert(all.take(rows.len() as int) =~= all);
    let none = Seq::<Seq<char>>::empty();
    let head = svg_head(table_width(rows), table_height(rows)) + svg_border(
        table_width(rows),
        table_height(rows),
    ) + svg_vlines(widths(rows), table_height(rows), col_count(rows));
    let body = svg_rows(rows, aligns, rows.len());
    lemma_parts_add(head, none, body, all.flatten());
    assert(none + all.flatten() =~= all.flatten());
    lemma_longer_text(head + body, "</svg>"@, all.flatten());
}

proof fn lemma_sum_step(w: Seq<nat>, k: int)
    requires
        0 <= k < w.len(),
    ensures
        sum(w.take(k + 1)) == sum(w.take(k)) + w[k],
{
    assert(w.take(k + 1).drop_last() =~= w.take(k));
}

/// The cells of a drawing lie side by side and one below the other, without gap
/// or overlap, and fill it: each begins where the one before it ends, and the
/// last ends at the edge. A cell is aligned as its column says, and the head is
/// the first row.
pub proof fn law_cells_tile_the_drawing(
    rows: Seq<Seq<Seq<char>>>,
    aligns: Seq<Alignment>,
    r: int,
    c: int,
)
    requires
        0 <= r < rows.len(),
        0 <= c < col_count(rows),
    ensures
        ({
            let p = place_of(rows, aligns, r, c);
            &&& c == 0 ==> p.x == 0
            &&& c + 1 < col_count(rows) ==> place_of(rows, aligns, r, c + 1).x == p.x + p.w
            &&& c + 1 == col_count(rows) ==> p.x + p.w == table_width(rows)
            &&& r == 0 ==> p.y == 0
            &&& r + 1 < rows.len() ==> place_of(rows, aligns, r + 1, c).y == p.y + p.h
            &&& r + 1 == rows.len() ==> p.y + p.h + 4 == table_height(rows)
            &&& p.header == (r == 0)
            &&& c < aligns.len() ==> p.align == aligns[c]
            &&& c >= aligns.len() ==> p.align == Alignment::Left
            &&& p.h >= 44
            &&& p.h + 34 >= 44 + 34 * cell_lines(rows[r], widths(rows), c).len()
        }),
{
    crate::markdown::table::law_table_width_is_capped(rows);
    let w = widths(rows);
    let h = heights(rows);
    lemma_sum_step(w, c);
    lemma_sum_step(h, r);
    assert(w.take(0) =~= Seq::<nat>::empty());
    assert(h.take(0) =~= Seq::<nat>::empty());
    assert(w.take(w.len() as int) =~= w);
    assert(h.take(h.len() as int) =~= h);
    let cells = table_lines(rows)[r];
    assert(h[r] == row_height(cells));
    assert(cells[c] == cell_lines(rows[r], w, c));
    crate::markdown::table::lemma_most_lines(cells, c);
}

/// The lines behind the first `m` columns.
pub open spec fn separators(w: Seq<nat>, height: nat, m: nat) -> Seq<Seq<char>> {
    Seq::new(m, |c: int| svg_vline(sum(w.take(c + 1)), height))
}

proof fn lemma_vlines(w: Seq<nat>, height: nat, n: nat)
    requires
        n < w.len(),
    ensures
        holds_in_order(svg_vlines(w, height, n), separators(w, height, n)),
    decreases n,
{
    if n > 0 {
        let k = (n - 1) as nat;
        lemma_vlines(w, height, k);
        let old = separators(w, height, k);
        let l = svg_vline(sum(w.take(n as int)), height);
        let e = Seq::<char>::empty();
        let a = svg_vlines(w, height, k);
        lemma_one_more_part(a, old, e, l);
        assert(a + e =~= a);
        assert(separators(w, height, n) =~= old.push(l));
    }
}

/// A drawing has a line between every two columns that stand side by side,
/// where the first of them ends.
pub proof fn law_lines_stand_between_columns(rows: Seq<Seq<Seq<char>>>, aligns: Seq<Alignment>)
    requires
        col_count(rows) > 0,
    ensures
        holds_in_order(
            svg_vlines(widths(rows), table_height(rows), col_count(rows)),
            Seq::new(
                (col_count(rows) - 1) as nat,
                |c: int|
                    svg_vline(
                        place_of(rows, aligns, 0, c).x + place_of(rows, aligns, 0, c).w,
                        table_height(rows),
                    ),
            ),
        ),
{
    crate::markdown::table::law_table_width_is_capped(rows);
    let w = widths(rows);
    lemma_vlines(w, table_height(rows), (col_count(rows) - 1) as nat);
    let a = separators(w, table_height(rows), (col_count(rows) - 1) as nat);
    let b = Seq::new(
        (col_count(rows) - 1) as nat,
        |c: int|
            svg_vline(
                place_of(rows, aligns, 0, c).x + place_of(rows, aligns, 0, c).w,
                table_height(rows),
            ),
    );
    assert forall|c: int| 0 <= c < a.len() implies a[c] == b[c] by {
        lemma_sum_step(w, c);
    }
    assert(a =~= b);
}

/// The text of a cell stays in its cell: 18 units from the left edge, 18 units
/// from the right edge, or at the middle. Its lines are 34 units apart, and
/// together they stand in the middle of the row.
pub proof fn law_text_stays_in_its_cell(p: Place, n: nat, i: nat)
    requires
        n > 0,
        p.h >= n * 34,
        i < n,
    ensures
        p.align == Alignment::Right && p.x + p.w >= 18 ==> text_x(p.x, p.w, p.align) + 18 == p.x
            + p.w,
        p.align == Alignment::Center ==> 0 <= 2 * p.x + p.w - 2 * text_x(p.x, p.w, p.align) <= 1,
        p.align != Alignment::Right && p.align != Alignment::Center ==> text_x(p.x, p.w, p.align)
            == p.x + 18,
        p.y <= baseline(p, n, i) <= p.y + p.h,
        i + 1 < n ==> baseline(p, n, i + 1) == baseline(p, n, i) + 34,
        0 <= (p.y + p.h - (baseline(p, n, (n - 1) as nat) + 10)) - (baseline(p, n, 0) - 24 - p.y)
            <= 1,
{
    assert(n * 34 >= (i + 1) * 34);
}

/// A column that is not narrowed is wide enough for its longest cell, and a
/// line of a cell is never longer than fits between the paddings of a column of
/// 100 units or more.
pub proof fn law_columns_are_wide_enough(rows: Seq<Seq<Seq<char>>>, c: int, width: nat)
    requires
        0 <= c < col_count(rows),
        col_chars(rows, c) <= 0xFF_FFFF,
    ensures
        natural_width(rows, c) >= 36 + 16 * col_chars(rows, c),
        natural_width(rows, c) >= 80,
        natural_width(rows, c) == 80 || natural_width(rows, c) == 36 + 16 * col_chars(rows, c),
        sum(natural_widths(rows)) <= 1400 ==> widths(rows) == natural_widths(rows),
        width >= 100 ==> 36 + 16 * line_chars(width) <= width < 36 + 16 * (line_chars(width) + 1),
        line_chars(width) >= 4,
{
}

/// All lines of a table in ASCII are as long as its border.
pub proof fn law_ascii_lines_align(
    row: Seq<Seq<char>>,
    widths: Seq<usize>,
    aligns: Seq<Alignment>,
    n: nat,
)
    requires
        n <= widths.len(),
        forall|i: int| 0 <= i < n ==> cell(row, i).len() <= #[trigger] widths[i],
    ensures
        ascii_cells(row, widths, aligns, n).len() == border_text(widths, n).len(),
    decreases n,
{
    reveal_strlit("+");
    reveal_strlit("|");
    reveal_strlit(" ");
    reveal_strlit(" |");
    if n > 0 {
        law_ascii_lines_align(row, widths, aligns, (n - 1) as nat);
        assert(cell(row, n - 1).len() <= widths[n - 1]);
        law_padding_fills_the_column(
            cell(row, n - 1),
            widths[n - 1] as nat,
            crate::markdown::table::align_of(aligns, n - 1),
        );
    }
}

/// A word that is longer than a line is cut into full lines and a rest.
pub proof fn law_long_words_fill_lines(w: Seq<char>, max: int)
    requires
        max > 0,
    ensures
        chunks(w, max).len() > 0,
        chunks(w, max).flatten() == w,
        forall|i: int|
            0 <= i < chunks(w, max).len() - 1 ==> (#[trigger] chunks(w, max)[i]).len() == max,
        chunks(w, max).last().len() <= max,
        w.len() > 0 ==> chunks(w, max).last().len() > 0,
    decreases w.len(),
{
    let cs = chunks(w, max);
    if w.len() <= max {
        let none = Seq::<Seq<char>>::empty();
        assert(cs =~= none.push(w));
        none.lemma_flatten_push(w);
        assert(none.flatten() =~= Seq::<char>::empty());
        assert(cs.flatten() =~= w);
    } else {
        let r = chunks(w.skip(max), max);
        law_long_words_fill_lines(w.skip(max), max);
        assert(cs =~= seq![w.take(max)] + r);
        assert(cs.drop_first() =~= r);
        assert(cs.first() == w.take(max));
        assert(cs.flatten() =~= w.take(max) + r.flatten());
        assert(w.take(max) + w.skip(max) =~= w);
        assert forall|i: int| 0 <= i < cs.len() - 1 implies (#[trigger] cs[i]).len() == max by {
            if i > 0 {
                assert(cs[i] == r[i - 1]);
            }
        }
        assert(cs.last() == r.last());
    }
}

proof fn lemma_dashed(row: Seq<Seq<char>>, n: nat)
    requires
        n <= row.len(),
    ensures
        holds_in_order(dashed(row, n), row.take(n as int)),
    decreases n,
{
    if n > 0 {
        let k = (n - 1) as nat;
        lemma_dashed(row, k);
        assert(row.take(n as int) =~= row.take(k as int).push(row[k as int]));
        let e = Seq::<char>::empty();
        if n == 1 {
            lemma_one_more_part(e, row.take(0), e, row[0]);
            assert(e + e + row[0] =~= row[0]);
        } else {
            lemma_one_more_part(dashed(row, k), row.take(k as int), " — "@, row[k as int]);
        }
    }
}

/// A table of headers alone is one item that shows all of them, in order.
pub proof fn law_headers_alone_are_one_item(row: Seq<Seq<char>>)
    requires
        row.len() != 1,
    ensures
        holds_in_order(bullet_table(seq![row]), seq![html_text(dashed(row, row.len()))]),
        holds_in_order(dashed(row, row.len()), row),
{
    lemma_dashed(row, row.len());
    assert(row.take(row.len() as int) =~= row);
    let e = Seq::<char>::empty();
    let none = Seq::<Seq<char>>::empty();
    let p = html_text(dashed(row, row.len()));
    let a = "<ul class=\"rr-table\">\n"@;
    lemma_one_more_part(e, none, "  <li>"@, p);
    assert(e + "  <li>"@ =~= "  <li>"@);
    let item = "  <li>"@ + p + "</li>\n"@;
    lemma_longer_text("  <li>"@ + p, "</li>\n"@, none.push(p));
    lemma_parts_add(a, none, item, none.push(p));
    assert(none + none.push(p) =~= seq![p]);
    lemma_longer_text(a + item, "</ul>\n"@, seq![p]);
}

proof fn lemma_hlines(rows: Seq<Seq<Seq<char>>>, aligns: Seq<Alignment>, n: nat)
    requires
        n <= rows.len(),
    ensures
        holds_in_order(
            svg_rows(rows, aligns, n),
            Seq::new(
                n,
                |r: int|
                    svg_hline(sum(heights(rows).take(r + 1)), table_width(rows), r == 0),
            ),
        ),
    decreases n,
{
    let f = |r: int| svg_hline(sum(heights(rows).take(r + 1)), table_width(rows), r == 0);
    if n > 0 {
        let k = (n - 1) as nat;
        lemma_hlines(rows, aligns, k);
        let e = Seq::<char>::empty();
        let a = svg_rows(rows, aligns, k);
        let old = Seq::new(
            k,
            |r: int| svg_hline(sum(heights(rows).take(r + 1)), table_width(rows), r == 0),
        );
        lemma_one_more_part(a, old, e, f(k as int));
        assert(a + e =~= a);
        lemma_longer_text(
            a + f(k as int),
            svg_cells(rows, aligns, n - 1, col_count(rows)),
            old.push(f(k as int)),
        );
        assert(Seq::new(
            n,
            |r: int| svg_hline(sum(heights(rows).take(r + 1)), table_width(rows), r == 0),
        ) =~= old.push(f(k as int)));
    }
}

/// A drawing has a line below every row, where the row ends, across its whole
/// width; that below the head is the thick one.
pub proof fn law_lines_stand_below_rows(rows: Seq<Seq<Seq<char>>>, aligns: Seq<Alignment>)
    requires
        col_count(rows) > 0,
    ensures
        holds_in_order(
            svg_rows(rows, aligns, rows.len()),
            Seq::new(
                rows.len(),
                |r: int|
                    svg_hline(
                        place_of(rows, aligns, r, 0).y + place_of(rows, aligns, r, 0).h,
                        table_width(rows),
                        r == 0,
                    ),
            ),
        ),
{
    lemma_hlines(rows, aligns, rows.len());
    let h = heights(rows);
    let a = Seq::new(
        rows.len(),
        |r: int| svg_hline(sum(heights(rows).take(r + 1)), table_width(rows), r == 0),
    );
    let b = Seq::new(
        rows.len(),
        |r: int|
            svg_hline(
                place_of(rows, aligns, r, 0).y + place_of(rows, aligns, r, 0).h,
                table_width(rows),
                r == 0,
            ),
    );
    assert forall|r: int| 0 <= r < a.len() implies a[r] == b[r] by {
        lemma_sum_step(h, r);
    }
    assert(a =~= b);
}

proof fn lemma_shrunk_little(w: Seq<nat>)
    requires
        sum(w) > 1400,
    ensures
        sum(shrunk(w)) >= 1260 || forall|i: int|
            0 <= i < shrunk(w).len() ==> #[trigger] shrunk(w)[i] <= 80,
    decreases sum(w),
{
    let k = widest(w);
    if w.len() > 0 {
        lemma_widest(w);
        if w[k] <= 80 {
            assert forall|i: int| 0 <= i < shrunk(w).len() implies #[trigger] shrunk(w)[i] <= 80 by {
                lemma_widest_is_max(w, i);
            }
        } else {
            let u = w.update(k, (w[k] - cut(w[k])) as nat);
            lemma_sum_update(w, k, (w[k] - cut(w[k])) as nat);
            assert(shrunk(w) == shrunk(u));
            if sum(u) > 1400 {
                lemma_shrunk_little(u);
            } else {
                assert(shrunk(u) == u);
            }
        }
    }
}

proof fn lemma_widest_is_max(w: Seq<nat>, i: int)
    requires
        0 <= i < w.len(),
    ensures
        w[i] <= w[widest(w)],
    decreases w.len(),
{
    if w.len() > 1 {
        let d = w.drop_last();
        lemma_widest(d);
        if i < d.len() {
            lemma_widest_is_max(d, i);
        }
    }
}

/// Columns are narrowed no more than needed: a table that is too wide stays at
/// least 1260 units wide, unless it has so many columns that all are down to 80
/// units or less.
pub proof fn law_columns_are_narrowed_little(rows: Seq<Seq<Seq<char>>>)
    requires
        sum(natural_widths(rows)) > 1400,
    ensures
        table_width(rows) >= 1260 || forall|i: int|
            0 <= i < widths(rows).len() ==> #[trigger] widths(rows)[i] <= 80,
{
    lemma_shrunk_little(natural_widths(rows));
}

} // verus!
