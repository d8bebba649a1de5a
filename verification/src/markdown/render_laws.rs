//! Laws of rendering: into which pieces a source is cut, and what each of them
//! leaves in the fragment and among the assets.

use vstd::prelude::*;

use crate::events::{Element, EventView, InlineView, RENDERED, Role};
use crate::markdown::escape::html_text;
use crate::markdown::plain::bullet_table;
use crate::markdown::render::{
    closing, found_for, image_name, image_tag, is_special, local_source, next_special, piece_at,
    pieces, pieces_from, plain_text, rendering, table_name, table_reading, three_digits, written,
    EmbeddedView, PieceView, TableReading,
};
use crate::notebook::bundle_laws::{
    holds_in_order, lemma_longer_text, lemma_one_more_part, lemma_parts_add,
};
use crate::notebook::table_laws::{is_cell_event, CellEvents, RowEvents, TableEvents};
use crate::text::{all_digits, decimal, digits_value, is_digit, lemma_decimal_digits, starts_with};
use crate::v6::laws::{prose_of, prose_text};

verus! {

// ---------------------------------------------------------------------------
// Pieces
// ---------------------------------------------------------------------------

proof fn lemma_closing_at(es: Seq<EventView>, e: Element, j: int, end: int)
    requires
        0 <= j <= end < es.len(),
        es[end].role == Role::Close(e),
        forall|k: int|
            j <= k < end ==> (#[trigger] es[k]).role != Role::Open(e) && es[k].role != Role::Close(
                e,
            ),
    ensures
        closing(es, e, j, 1) == end,
    decreases end - j,
{
    if j < end {
        assert(es[j].role != Role::Open(e) && es[j].role != Role::Close(e));
        lemma_closing_at(es, e, j + 1, end);
    }
}

proof fn lemma_read_step(es: Seq<EventView>, from: int, to: int)
    requires
        from < to,
    ensures
        table_reading(es, from, to) == table_reading(es, from, to - 1).after(es[to - 1]),
{
}

proof fn lemma_cell_read(es: Seq<EventView>, from: int, at: int, content: Seq<EventView>)
    requires
        0 <= from <= at,
        at + content.len() <= es.len(),
        es.subrange(at, at + content.len()) == content,
        table_reading(es, from, at).in_cell,
        forall|i: int| 0 <= i < content.len() ==> is_cell_event(#[trigger] content[i]),
    ensures
        table_reading(es, from, at + content.len()) == (TableReading {
            cell: table_reading(es, from, at).cell + prose_text(content),
            ..table_reading(es, from, at)
        }),
    decreases content.len(),
{
    let f = |e: EventView| prose_of(e);
    let r = table_reading(es, from, at);
    if content.len() == 0 {
        assert(prose_text(content) =~= Seq::<char>::empty());
        assert(r.cell + prose_text(content) =~= r.cell);
    } else {
        let d = content.drop_last();
        let e = content.last();
        assert forall|i: int| 0 <= i < d.len() implies is_cell_event(#[trigger] d[i]) by {
            assert(d[i] == content[i]);
        }
        assert(es.subrange(at, at + d.len()) =~= content.take(d.len() as int));
        assert(content.take(d.len() as int) =~= d);
        lemma_cell_read(es, from, at, d);
        assert(is_cell_event(content[content.len() - 1]));
        assert(es[at + d.len()] == es.subrange(at, at + content.len())[d.len() as int]);
        lemma_read_step(es, from, at + content.len());
        assert(content.map_values(f) =~= d.map_values(f).push(f(e)));
        d.map_values(f).lemma_flatten_push(f(e));
        assert(r.cell + prose_text(content) =~= r.cell + prose_text(d) + prose_of(e));
        assert(r.cell + prose_text(d) + Seq::<char>::empty() =~= r.cell + prose_text(d));
    }
}

proof fn lemma_sub(es: Seq<EventView>, at: int, a: Seq<EventView>, b: Seq<EventView>)
    requires
        0 <= at,
        at + a.len() + b.len() <= es.len(),
        es.subrange(at, at + a.len() + b.len()) == a + b,
    ensures
        es.subrange(at, at + a.len()) == a,
        es.subrange(at + a.len(), at + a.len() + b.len()) == b,
{
    let s = es.subrange(at, at + a.len() + b.len());
    assert(es.subrange(at, at + a.len()) =~= s.take(a.len() as int));
    assert(s.take(a.len() as int) =~= a);
    assert(es.subrange(at + a.len(), at + a.len() + b.len()) =~= s.skip(a.len() as int));
    assert(s.skip(a.len() as int) =~= b);
}

/// The texts of the cells of a row, with a space for a line break.
pub open spec fn cell_texts(r: RowEvents) -> Seq<Seq<char>> {
    r.cells.map_values(|c: CellEvents| prose_text(c.content))
}

/// The texts of the rows of a table.
pub open spec fn row_texts(t: TableEvents) -> Seq<Seq<Seq<char>>> {
    t.rows.map_values(|r: RowEvents| cell_texts(r))
}

proof fn lemma_cells_read(es: Seq<EventView>, from: int, at: int, cells: Seq<CellEvents>)
    requires
        0 <= from <= at,
        forall|i: int| 0 <= i < cells.len() ==> (#[trigger] cells[i]).wf(),
        ({
            let all = cells.map_values(|c: CellEvents| c.events()).flatten();
            at + all.len() <= es.len() && es.subrange(at, at + all.len()) == all
        }),
    ensures
        ({
            let all = cells.map_values(|c: CellEvents| c.events()).flatten();
            let r = table_reading(es, from, at);
            let q = table_reading(es, from, at + all.len());
            q.rows == r.rows && q.row == r.row + cells.map_values(
                |c: CellEvents| prose_text(c.content),
            )
        }),
    decreases cells.len(),
{
    let f = |c: CellEvents| c.events();
    let g = |c: CellEvents| prose_text(c.content);
    let all = cells.map_values(f).flatten();
    let r = table_reading(es, from, at);
    if cells.len() == 0 {
        assert(all =~= Seq::<EventView>::empty());
        assert(r.row + cells.map_values(g) =~= r.row);
    } else {
        let d = cells.drop_last();
        let c = cells.last();
        assert forall|i: int| 0 <= i < d.len() implies (#[trigger] d[i]).wf() by {
            assert(d[i] == cells[i]);
        }
        assert(cells[cells.len() - 1].wf());
        assert(cells.map_values(f) =~= d.map_values(f).push(f(c)));
        d.map_values(f).lemma_flatten_push(f(c));
        let head = d.map_values(f).flatten();
        assert(all =~= head + c.events());
        lemma_sub(es, at, head, c.events());
        lemma_cells_read(es, from, at, d);
        let a = at + head.len();
        let ce = es.subrange(a, a + c.events().len());
        assert(ce == c.events());
        assert(es[a] == ce[0]);
        assert(es[a] == c.open);
        lemma_read_step(es, from, a + 1);
        assert(es.subrange(a + 1, a + 1 + c.content.len()) =~= ce.subrange(
            1,
            1 + c.content.len() as int,
        ));
        assert(ce.subrange(1, 1 + c.content.len() as int) =~= c.content);
        lemma_cell_read(es, from, a + 1, c.content);
        assert(Seq::<char>::empty() + prose_text(c.content) =~= prose_text(c.content));
        let b = a + 1 + c.content.len();
        assert(es[b] == ce[1 + c.content.len() as int]);
        assert(es[b] == c.close);
        lemma_read_step(es, from, b + 1);
        assert(at + all.len() == b + 1);
        assert(cells.map_values(g) =~= d.map_values(g).push(g(c)));
        assert(r.row + cells.map_values(g) =~= (r.row + d.map_values(g)).push(g(c)));
    }
}

proof fn lemma_rows_read(es: Seq<EventView>, from: int, at: int, rows: Seq<RowEvents>)
    requires
        0 <= from <= at,
        forall|i: int| 0 <= i < rows.len() ==> (#[trigger] rows[i]).wf(),
        ({
            let all = rows.map_values(|r: RowEvents| r.events()).flatten();
            at + all.len() <= es.len() && es.subrange(at, at + all.len()) == all
        }),
    ensures
        ({
            let all = rows.map_values(|r: RowEvents| r.events()).flatten();
            table_reading(es, from, at + all.len()).rows == table_reading(es, from, at).rows
                + rows.map_values(|r: RowEvents| cell_texts(r))
        }),
    decreases rows.len(),
{
    let f = |r: RowEvents| r.events();
    let g = |r: RowEvents| cell_texts(r);
    let all = rows.map_values(f).flatten();
    let base = table_reading(es, from, at).rows;
    if rows.len() == 0 {
        assert(all =~= Seq::<EventView>::empty());
        assert(base + rows.map_values(g) =~= base);
    } else {
        let d = rows.drop_last();
        let c = rows.last();
        assert forall|i: int| 0 <= i < d.len() implies (#[trigger] d[i]).wf() by {
            assert(d[i] == rows[i]);
        }
        assert(rows[rows.len() - 1].wf());
        assert(rows.map_values(f) =~= d.map_values(f).push(f(c)));
        d.map_values(f).lemma_flatten_push(f(c));
        let head = d.map_values(f).flatten();
        assert(all =~= head + c.events());
        lemma_sub(es, at, head, c.events());
        lemma_rows_read(es, from, at, d);
        let a = at + head.len();
        let ce = es.subrange(a, a + c.events().len());
        let cells = c.cells.map_values(|c: CellEvents| c.events()).flatten();
        assert(es[a] == ce[0]);
        assert(es[a] == c.open);
        lemma_read_step(es, from, a + 1);
        assert(es.subrange(a + 1, a + 1 + cells.len()) =~= ce.subrange(1, 1 + cells.len() as int));
        assert(ce.subrange(1, 1 + cells.len() as int) =~= cells);
        lemma_cells_read(es, from, a + 1, c.cells);
        assert(Seq::<Seq<char>>::empty() + cell_texts(c) =~= cell_texts(c));
        let b = a + 1 + cells.len();
        assert(es[b] == ce[1 + cells.len() as int]);
        assert(es[b] == c.close);
        lemma_read_step(es, from, b + 1);
        assert(at + all.len() == b + 1);
        assert(rows.map_values(g) =~= d.map_values(g).push(g(c)));
        assert(base + rows.map_values(g) =~= (base + d.map_values(g)).push(g(c)));
    }
}

proof fn lemma_no_table_inside(t: TableEvents, k: int)
    requires
        t.wf(),
        0 < k < t.events().len() - 1,
    ensures
        t.events()[k].role != Role::Open(Element::Table),
        t.events()[k].role != Role::Close(Element::Table),
{
    let rows = t.rows.map_values(|r: RowEvents| r.events()).flatten();
    assert(t.events()[k] == rows[k - 1]);
    lemma_no_table_in_rows(t.rows, k - 1);
}

proof fn lemma_no_table_in_rows(rows: Seq<RowEvents>, k: int)
    requires
        forall|i: int| 0 <= i < rows.len() ==> (#[trigger] rows[i]).wf(),
        0 <= k < rows.map_values(|r: RowEvents| r.events()).flatten().len(),
    ensures
        ({
            let e = rows.map_values(|r: RowEvents| r.events()).flatten()[k];
            e.role != Role::Open(Element::Table) && e.role != Role::Close(Element::Table)
        }),
    decreases rows.len(),
{
    let f = |r: RowEvents| r.events();
    let all = rows.map_values(f).flatten();
    if rows.len() == 0 {
        assert(all =~= Seq::<EventView>::empty());
    } else {
        let d = rows.drop_last();
        let c = rows.last();
        assert(rows.map_values(f) =~= d.map_values(f).push(f(c)));
        d.map_values(f).lemma_flatten_push(f(c));
        let head = d.map_values(f).flatten();
        assert(all =~= head + c.events());
        if k < head.len() {
            assert forall|i: int| 0 <= i < d.len() implies (#[trigger] d[i]).wf() by {
                assert(d[i] == rows[i]);
            }
            lemma_no_table_in_rows(d, k);
            assert(all[k] == head[k]);
        } else {
            assert(rows[rows.len() - 1].wf());
            let i = k - head.len();
            assert(all[k] == c.events()[i]);
            let cells = c.cells.map_values(|c: CellEvents| c.events()).flatten();
            if 0 < i < c.events().len() - 1 {
                assert(c.events()[i] == cells[i - 1]);
                lemma_no_table_in_cells(c.cells, i - 1);
            } else if i == 0 {
                assert(c.events()[i] == c.open);
            } else {
                assert(c.events()[i] == c.close);
            }
        }
    }
}

proof fn lemma_no_table_in_cells(cells: Seq<CellEvents>, k: int)
    requires
        forall|i: int| 0 <= i < cells.len() ==> (#[trigger] cells[i]).wf(),
        0 <= k < cells.map_values(|c: CellEvents| c.events()).flatten().len(),
    ensures
        ({
            let e = cells.map_values(|c: CellEvents| c.events()).flatten()[k];
            e.role != Role::Open(Element::Table) && e.role != Role::Close(Element::Table)
        }),
    decreases cells.len(),
{
    let f = |c: CellEvents| c.events();
    let all = cells.map_values(f).flatten();
    if cells.len() == 0 {
        assert(all =~= Seq::<EventView>::empty());
    } else {
        let d = cells.drop_last();
        let c = cells.last();
        assert(cells.map_values(f) =~= d.map_values(f).push(f(c)));
        d.map_values(f).lemma_flatten_push(f(c));
        let head = d.map_values(f).flatten();
        assert(all =~= head + c.events());
        if k < head.len() {
            assert forall|i: int| 0 <= i < d.len() implies (#[trigger] d[i]).wf() by {
                assert(d[i] == cells[i]);
            }
            lemma_no_table_in_cells(d, k);
            assert(all[k] == head[k]);
        } else {
            assert(cells[cells.len() - 1].wf());
            let i = k - head.len();
            assert(all[k] == c.events()[i]);
            if 0 < i < c.events().len() - 1 {
                assert(c.events()[i] == c.content[i - 1]);
                assert(is_cell_event(c.content[i - 1]));
            } else if i == 0 {
                assert(c.events()[i] == c.open);
            } else {
                assert(c.events()[i] == c.close);
            }
        }
    }
}

/// A table of a source is one piece, whatever stands around it: its
/// alignments, and the text of all its cells, a space for a line break in
/// them. The next piece begins behind it.
pub proof fn law_table_is_one_piece(
    before: Seq<EventView>,
    t: TableEvents,
    behind: Seq<EventView>,
)
    requires
        t.wf(),
    ensures
        piece_at(before + t.events() + behind, before.len() as int) == (
            PieceView::Table { aligns: t.open.aligns, rows: row_texts(t) },
            before.len() as int + t.events().len(),
        ),
{
    let es = before + t.events() + behind;
    let i = before.len() as int;
    let n = t.events().len() as int;
    let end = i + n - 1;
    let rows = t.rows.map_values(|r: RowEvents| r.events()).flatten();
    assert(es[i] == t.open);
    assert(es[end] == t.close);
    assert forall|k: int| i + 1 <= k < end implies (#[trigger] es[k]).role != Role::Open(
        Element::Table,
    ) && es[k].role != Role::Close(Element::Table) by {
        assert(es[k] == t.events()[k - i]);
        lemma_no_table_inside(t, k - i);
    }
    lemma_closing_at(es, Element::Table, i + 1, end);
    assert(es.subrange(i + 1, i + 1 + rows.len()) =~= rows);
    lemma_rows_read(es, i + 1, i + 1, t.rows);
    assert(Seq::<Seq<Seq<char>>>::empty() + row_texts(t) =~= row_texts(t));
    assert(end == i + 1 + rows.len());
}

/// The text of text and code events, one after the other.
pub open spec fn alt_text(es: Seq<EventView>) -> Seq<char> {
    es.map_values(
        |e: EventView|
            match e.inline {
                InlineView::Text(s) => s,
                InlineView::Code(s) => s,
                _ => Seq::empty(),
            },
    ).flatten()
}

proof fn lemma_plain_text(es: Seq<EventView>, at: int, mid: Seq<EventView>)
    requires
        0 <= at,
        at + mid.len() <= es.len(),
        es.subrange(at, at + mid.len()) == mid,
    ensures
        plain_text(es, at, at + mid.len()) == alt_text(mid),
    decreases mid.len(),
{
    let f = |e: EventView|
        match e.inline {
            InlineView::Text(s) => s,
            InlineView::Code(s) => s,
            _ => Seq::empty(),
        };
    if mid.len() == 0 {
        assert(alt_text(mid) =~= Seq::<char>::empty());
    } else {
        let d = mid.drop_last();
        let e = mid.last();
        assert(es.subrange(at, at + d.len()) =~= es.subrange(at, at + mid.len()).drop_last());
        lemma_plain_text(es, at, d);
        assert(es[at + d.len()] == es.subrange(at, at + mid.len())[d.len() as int]);
        assert(mid.map_values(f) =~= d.map_values(f).push(f(e)));
        d.map_values(f).lemma_flatten_push(f(e));
        assert(alt_text(mid) =~= alt_text(d) + f(e));
        assert(alt_text(d) + Seq::<char>::empty() =~= alt_text(d));
    }
}

/// An image of a source is one piece, whatever stands around it: its
/// destination, its title and the text inside it.
pub proof fn law_image_is_one_piece(
    before: Seq<EventView>,
    open: EventView,
    mid: Seq<EventView>,
    close: EventView,
    behind: Seq<EventView>,
)
    requires
        open.role == Role::Open(Element::Image),
        close.role == Role::Close(Element::Image),
        forall|i: int|
            0 <= i < mid.len() ==> (#[trigger] mid[i]).role != Role::Open(Element::Image)
                && mid[i].role != Role::Close(Element::Image),
    ensures
        piece_at(before + (seq![open] + mid + seq![close]) + behind, before.len() as int) == (
            PieceView::Image {
                dest: open.link.dest,
                title: open.link.title,
                alt: alt_text(mid),
            },
            before.len() as int + mid.len() + 2,
        ),
{
    let es = before + (seq![open] + mid + seq![close]) + behind;
    let i = before.len() as int;
    let end = i + 1 + mid.len();
    assert(es[i] == open);
    assert(es[end] == close);
    assert forall|k: int| i + 1 <= k < end implies (#[trigger] es[k]).role != Role::Open(
        Element::Image,
    ) && es[k].role != Role::Close(Element::Image) by {
        assert(es[k] == mid[k - i - 1]);
    }
    lemma_closing_at(es, Element::Image, i + 1, end);
    assert(es.subrange(i + 1, i + 1 + mid.len()) =~= mid);
    lemma_plain_text(es, i + 1, mid);
}

proof fn lemma_next_special_at(es: Seq<EventView>, i: int, end: int)
    requires
        0 <= i <= end <= es.len(),
        forall|k: int| i <= k < end ==> !is_special(#[trigger] es[k]),
        end == es.len() || is_special(es[end]),
    ensures
        next_special(es, i) == end,
    decreases end - i,
{
    if i < end {
        assert(!is_special(es[i]));
        lemma_next_special_at(es, i + 1, end);
    }
}

/// What stands between tables and images is one piece of plain HTML.
pub proof fn law_the_rest_is_html(es: Seq<EventView>, i: int, end: int)
    requires
        0 <= i < end <= es.len(),
        forall|k: int|
            i <= k < end ==> (#[trigger] es[k]).role != Role::Open(Element::Table) && es[k].role
                != Role::Open(Element::Image),
        end == es.len() || es[end].role == Role::Open(Element::Table) || es[end].role == Role::Open(
            Element::Image,
        ),
    ensures
        piece_at(es, i) == (PieceView::Html { from: i, to: end }, end),
{
    lemma_next_special_at(es, i, end);
}

/// The pieces of a source follow each other: the first one, then those that
/// begin where it ends, up to the end of the source.
pub proof fn law_pieces_follow_each_other(es: Seq<EventView>, i: int)
    requires
        0 <= i,
    ensures
        i >= es.len() ==> pieces_from(es, i).len() == 0,
        i < es.len() ==> pieces_from(es, i).len() == 1 + pieces_from(es, piece_at(es, i).1).len()
            && pieces_from(es, i)[0] == piece_at(es, i).0 && pieces_from(es, i).skip(1)
            == pieces_from(es, piece_at(es, i).1),
{
    if i < es.len() {
        crate::markdown::render::lemma_piece_at(es, i);
        assert(pieces_from(es, i).skip(1) =~= pieces_from(es, piece_at(es, i).1));
    }
}

// ---------------------------------------------------------------------------
// The fragment
// ---------------------------------------------------------------------------

/// Whether a piece is embedded: an image that was found, or a table with rows
/// that a raster was made of.
pub open spec fn is_embedded(p: PieceView, found: Option<EmbeddedView>) -> bool {
    found is Some && match p {
        PieceView::Html { .. } => false,
        PieceView::Table { aligns, rows } => rows.len() > 0,
        PieceView::Image { .. } => true,
    }
}

/// How many of the first `n` pieces are embedded.
pub open spec fn embedded_before(
    ps: Seq<PieceView>,
    found: Seq<Option<EmbeddedView>>,
    n: nat,
) -> nat
    decreases n,
{
    if n == 0 {
        0
    } else {
        embedded_before(ps, found, (n - 1) as nat) + if is_embedded(
            ps[n - 1],
            found_for(found, n - 1),
        ) {
            1nat
        } else {
            0
        }
    }
}

/// What piece `k` must leave in the fragment: its HTML, the name of its asset,
/// or what stands for a table or an image that is not embedded.
pub open spec fn mark_of(
    md: Seq<char>,
    ps: Seq<PieceView>,
    found: Seq<Option<EmbeddedView>>,
    k: int,
) -> Seq<char> {
    let number = embedded_before(ps, found, k as nat) + 1;
    let f = found_for(found, k);
    match ps[k] {
        PieceView::Html { from, to } => crate::events::md_html(md, RENDERED, from, to),
        PieceView::Table { aligns, rows } => if f is Some && rows.len() > 0 {
            html_text(table_name(number))
        } else {
            bullet_table(rows)
        },
        PieceView::Image { dest, title, alt } => if f is Some {
            html_text(image_name(number, f->0.ext))
        } else if starts_with(dest, "data:"@) {
            html_text(dest)
        } else {
            html_text(alt)
        },
    }
}

/// What the pieces must leave in the fragment.
pub open spec fn marks(
    md: Seq<char>,
    ps: Seq<PieceView>,
    found: Seq<Option<EmbeddedView>>,
    n: nat,
) -> Seq<Seq<char>> {
    Seq::new(n, |k: int| mark_of(md, ps, found, k))
}

proof fn lemma_marked(a: Seq<char>, ps: Seq<Seq<char>>, g: Seq<char>, p: Seq<char>, t: Seq<char>)
    requires
        holds_in_order(a, ps),
    ensures
        holds_in_order(a + (g + p + t), ps.push(p)),
{
    lemma_one_more_part(a, ps, g, p);
    lemma_longer_text(a + g + p, t, ps.push(p));
    assert(a + (g + p + t) =~= a + g + p + t);
}

/// The fragment holds what every piece leaves in it, in the order of the
/// pieces: nothing of the source is dropped, and nothing changes place.
pub proof fn law_fragment_holds_every_piece(
    md: Seq<char>,
    ps: Seq<PieceView>,
    found: Seq<Option<EmbeddedView>>,
    n: nat,
)
    requires
        n <= ps.len(),
    ensures
        holds_in_order(written(md, ps, found, n).out, marks(md, ps, found, n)),
        written(md, ps, found, n).count == embedded_before(ps, found, n),
    decreases n,
{
    if n > 0 {
        let k = (n - 1) as nat;
        law_fragment_holds_every_piece(md, ps, found, k);
        let w = written(md, ps, found, k);
        let old = marks(md, ps, found, k);
        let m = mark_of(md, ps, found, k as int);
        let f = found_for(found, k as int);
        let out = written(md, ps, found, n).out;
        assert(marks(md, ps, found, n) =~= old.push(m));
        let none = Seq::<char>::empty();
        match ps[k as int] {
            PieceView::Html { from, to } => {
                lemma_marked(w.out, old, none, m, none);
                assert(none + m + none =~= m);
            },
            PieceView::Table { aligns, rows } => {
                if f is Some && rows.len() > 0 {
                    lemma_marked(w.out, old, "<p><img src=\""@, m, "\" alt=\"table\"/></p>\n"@);
                } else {
                    lemma_marked(w.out, old, none, m, none);
                    assert(none + m + none =~= m);
                }
            },
            PieceView::Image { dest, title, alt } => {
                if f is Some {
                    lemma_tag(w.out, old, image_name(w.count + 1, f->0.ext), title, alt);
                } else if starts_with(dest, "data:"@) {
                    lemma_tag(w.out, old, dest, none, alt);
                } else {
                    lemma_marked(w.out, old, "<p><em>[image: "@, m, "]</em></p>\n"@);
                }
            },
        }
    }
}

proof fn lemma_tag(
    a: Seq<char>,
    ps: Seq<Seq<char>>,
    src: Seq<char>,
    title: Seq<char>,
    alt: Seq<char>,
)
    requires
        holds_in_order(a, ps),
    ensures
        holds_in_order(a + image_tag(src, title, alt), ps.push(html_text(src))),
        holds_in_order(image_tag(src, title, alt), seq![html_text(src), html_text(alt)]),
        title.len() > 0 ==> holds_in_order(
            image_tag(src, title, alt),
            seq![html_text(src), html_text(alt), html_text(title)],
        ),
{
    let e = Seq::<char>::empty();
    let none = Seq::<Seq<char>>::empty();
    let g = "<p><img src=\""@;
    let s = html_text(src);
    let t = html_text(alt);
    lemma_one_more_part(e, none, g, s);
    assert(e + g =~= g);
    let t0 = g + s;
    let s0 = none.push(s);
    assert(s0 =~= seq![s]);
    let tag = image_tag(src, title, alt);
    lemma_one_more_part(t0, s0, "\" alt=\""@, t);
    let t1 = t0 + "\" alt=\""@ + t;
    let s1 = s0.push(t);
    assert(s1 =~= seq![s, t]);
    if title.len() > 0 {
        let x = html_text(title);
        lemma_one_more_part(t1, s1, "\" title=\""@, x);
        let t2 = t1 + "\" title=\""@ + x;
        lemma_longer_text(t2, "\"/></p>\n"@, s1.push(x));
        assert(s1.push(x) =~= seq![s, t, x]);
        lemma_longer_text(t1, "\" title=\""@, s1);
        lemma_longer_text(t1 + "\" title=\""@, x, s1);
        lemma_longer_text(t2, "\"/></p>\n"@, s1);
        lemma_longer_text(t0, "\" alt=\""@, s0);
        lemma_longer_text(t0 + "\" alt=\""@, t, s0);
        lemma_longer_text(t1, "\" title=\""@, s0);
        lemma_longer_text(t1 + "\" title=\""@, x, s0);
        lemma_longer_text(t2, "\"/></p>\n"@, s0);
    } else {
        lemma_longer_text(t1, "\"/></p>\n"@, s1);
        lemma_longer_text(t0, "\" alt=\""@, s0);
        lemma_longer_text(t0 + "\" alt=\""@, t, s0);
        lemma_longer_text(t1, "\"/></p>\n"@, s0);
    }
    assert(holds_in_order(tag, s0));
    lemma_parts_add(a, ps, tag, s0);
    assert(ps + s0 =~= ps.push(s));
}

/// The tag of an image names its source and its alternative text, and its title
/// where it has one.
pub proof fn law_image_tag_says_all(src: Seq<char>, title: Seq<char>, alt: Seq<char>)
    ensures
        holds_in_order(image_tag(src, title, alt), seq![html_text(src), html_text(alt)]),
        title.len() > 0 ==> holds_in_order(
            image_tag(src, title, alt),
            seq![html_text(src), html_text(alt), html_text(title)],
        ),
{
    lemma_tag(Seq::empty(), Seq::empty(), src, title, alt);
}

/// Every piece that is embedded is an asset with its own bytes, under the name
/// that the fragment refers to, and there is no other asset.
pub proof fn law_embedded_pieces_are_assets(
    md: Seq<char>,
    ps: Seq<PieceView>,
    found: Seq<Option<EmbeddedView>>,
    n: nat,
    k: int,
)
    requires
        n <= ps.len(),
        0 <= k < n,
        is_embedded(ps[k], found_for(found, k)),
    ensures
        ({
            let assets = written(md, ps, found, n).assets;
            let j = embedded_before(ps, found, k as nat) as int;
            let f = found_for(found, k)->0;
            &&& assets.len() == embedded_before(ps, found, n)
            &&& 0 <= j < assets.len()
            &&& assets[j].bytes == f.bytes
            &&& html_text(assets[j].name) == mark_of(md, ps, found, k)
            &&& ps[k] is Image ==> assets[j].mime == f.mime
            &&& ps[k] is Table ==> assets[j].mime == "image/png"@
        }),
    decreases n,
{
    let m = (n - 1) as nat;
    let w = written(md, ps, found, m);
    law_fragment_holds_every_piece(md, ps, found, m);
    lemma_assets_counted(md, ps, found, n);
    lemma_assets_counted(md, ps, found, m);
    if k < m {
        law_embedded_pieces_are_assets(md, ps, found, m, k);
        let j = embedded_before(ps, found, k as nat) as int;
        assert(written(md, ps, found, n).assets[j] == w.assets[j]);
    }
}

proof fn lemma_assets_counted(
    md: Seq<char>,
    ps: Seq<PieceView>,
    found: Seq<Option<EmbeddedView>>,
    n: nat,
)
    requires
        n <= ps.len(),
    ensures
        written(md, ps, found, n).assets.len() == embedded_before(ps, found, n),
    decreases n,
{
    if n > 0 {
        lemma_assets_counted(md, ps, found, (n - 1) as nat);
    }
}

/// A source that names a web address or carries its data is no local file; one
/// that begins otherwise is.
pub proof fn law_remote_sources_are_told_apart(rest: Seq<char>, src: Seq<char>)
    ensures
        !local_source("http://"@ + rest),
        !local_source("https://"@ + rest),
        !local_source("data:"@ + rest),
        src.len() == 0 || (src[0] != 'h' && src[0] != 'd') ==> local_source(src),
{
    reveal_strlit("http://");
    reveal_strlit("https://");
    reveal_strlit("data:");
    assert(("http://"@ + rest).take("http://"@.len() as int) =~= "http://"@);
    assert(("https://"@ + rest).take("https://"@.len() as int) =~= "https://"@);
    assert(("data:"@ + rest).take("data:"@.len() as int) =~= "data:"@);
    if src.len() > 0 && src[0] != 'h' && src[0] != 'd' {
        if starts_with(src, "http://"@) {
            assert(src.take("http://"@.len() as int)[0] == 'h');
        }
        if starts_with(src, "https://"@) {
            assert(src.take("https://"@.len() as int)[0] == 'h');
        }
        if starts_with(src, "data:"@) {
            assert(src.take("data:"@.len() as int)[0] == 'd');
        }
    }
}

/// A rendering holds what all pieces of the source leave in the fragment, in
/// order, and an asset for each of them that is embedded.
pub proof fn law_rendering_is_of_all_pieces(
    md: Seq<char>,
    es: Seq<EventView>,
    found: Seq<Option<EmbeddedView>>,
)
    ensures
        ({
            let ps = pieces(es);
            let r = rendering(md, ps, found);
            &&& holds_in_order(r.xhtml, marks(md, ps, found, ps.len()))
            &&& r.assets.len() == embedded_before(ps, found, ps.len())
            &&& es.len() > 0 ==> ps.len() > 0 && ps[0] == piece_at(es, 0).0 && ps.skip(1)
                == pieces_from(es, piece_at(es, 0).1)
            &&& es.len() == 0 ==> ps.len() == 0 && r.xhtml.len() == 0
        }),
{
    let ps = pieces(es);
    law_fragment_holds_every_piece(md, ps, found, ps.len());
    lemma_assets_counted(md, ps, found, ps.len());
    law_pieces_follow_each_other(es, 0);
}

/// An embedded image is numbered with three digits or more, which write its
/// number.
pub proof fn law_numbers_have_three_digits(n: nat)
    ensures
        n < 1000 ==> three_digits(n).len() == 3,
        n >= 1000 ==> three_digits(n) == decimal(n),
        all_digits(three_digits(n)),
        digits_value(three_digits(n)) == n,
{
    lemma_decimal_digits(n);
    reveal_strlit("0");
    reveal_strlit("00");
    assert("0"@ =~= seq!['0']);
    assert("00"@ =~= seq!['0', '0']);
    if n < 100 {
        lemma_leading_zero(decimal(n));
        lemma_leading_zero(seq!['0'] + decimal(n));
        assert(seq!['0'] + (seq!['0'] + decimal(n)) =~= seq!['0', '0'] + decimal(n));
        assert(decimal(n).len() == if n < 10 { 1int } else { 2int }) by {
            if n >= 10 {
                assert(decimal(n / 10).len() == 1);
            }
        }
    } else if n < 1000 {
        assert(decimal(n / 10).len() == 2) by {
            assert(decimal(n / 10 / 10).len() == 1);
        }
    }
}

proof fn lemma_leading_zero(s: Seq<char>)
    requires
        all_digits(s),
    ensures
        digits_value(seq!['0'] + s) == digits_value(s),
        all_digits(seq!['0'] + s),
    decreases s.len(),
{
    let z = seq!['0'] + s;
    assert forall|i: int| 0 <= i < z.len() implies is_digit(#[trigger] z[i]) by {
        if i > 0 {
            assert(z[i] == s[i - 1]);
        }
    }
    if s.len() == 0 {
        assert(z =~= seq!['0']);
        assert(z.drop_last() =~= Seq::<char>::empty());
        assert(digits_value(z.drop_last()) == 0);
    } else {
        let d = s.drop_last();
        assert forall|i: int| 0 <= i < d.len() implies is_digit(#[trigger] d[i]) by {
            assert(d[i] == s[i]);
        }
        lemma_leading_zero(d);
        assert(z.drop_last() =~= seq!['0'] + d);
        assert(z.last() == s.last());
    }
}

} // verus!
