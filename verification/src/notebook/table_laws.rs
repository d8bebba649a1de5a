//! Laws of the tables of a page: what is read of them, what stands in their
//! place, and where their images go.

use vstd::prelude::*;
use vstd::utf8::*;

use crate::events::{Element, EventView, InlineView, Role};
use crate::notebook::pages::{
    law_lines_read_back, lemma_text_of_lines_push, split_pages, text_of_lines,
};
use crate::notebook::tables::{
    before_table, flow, gap_below, height_before, heights_before, in_table, is_row_of, kept_height,
    larger, lemma_feeds_add, lemma_feeds_of_text, lemma_utf8_add, line_feeds, line_height,
    line_range, page_input, page_lines, pages_input, pixels, placeholder, placeholders,
    placeholders_at, placing, raster_count, raster_of, raster_size, rasters_of_page, reserve_lines,
    reserve_of, reserves, scaled_height, source_tables, stands_apart, table_lines, tables,
    tables_reading, text_y, unbroken, with_feeds, ImageView, TableView, TablesReading,
};
use crate::text::{is_blank, is_white, lines, split, trim};

verus! {

// ---------------------------------------------------------------------------
// Reading tables
// ---------------------------------------------------------------------------

/// The text that an event puts into a cell: that of text and code.
pub open spec fn cell_piece(e: EventView) -> Seq<char> {
    match e.inline {
        InlineView::Text(s) => s,
        InlineView::Code(s) => s,
        _ => Seq::empty(),
    }
}

/// The text of a cell: that of all its events, one after the other.
pub open spec fn cell_text(es: Seq<EventView>) -> Seq<char> {
    es.map_values(|e: EventView| cell_piece(e)).flatten()
}

/// Whether an event may stand in a cell: text, a break, or the beginning or the
/// end of an element that is no part of a table.
pub open spec fn is_cell_event(e: EventView) -> bool {
    match e.role {
        Role::Leaf => true,
        Role::Open(x) | Role::Close(x) => e.inline == InlineView::Nothing && x != Element::Table
            && x != Element::TableHead && x != Element::TableRow && x != Element::TableCell,
    }
}

/// The events of a cell.
pub struct CellEvents {
    pub open: EventView,
    pub content: Seq<EventView>,
    pub close: EventView,
}

impl CellEvents {
    pub open spec fn wf(self) -> bool {
        &&& self.open.role == Role::Open(Element::TableCell)
        &&& self.close.role == Role::Close(Element::TableCell)
        &&& forall|i: int| 0 <= i < self.content.len() ==> is_cell_event(#[trigger] self.content[i])
    }

    pub open spec fn events(self) -> Seq<EventView> {
        seq![self.open] + self.content + seq![self.close]
    }
}

/// The events of a row of a table, the head among them.
pub struct RowEvents {
    pub open: EventView,
    pub cells: Seq<CellEvents>,
    pub close: EventView,
}

impl RowEvents {
    pub open spec fn wf(self) -> bool {
        &&& (self.open.role == Role::Open(Element::TableHead) && self.close.role == Role::Close(
            Element::TableHead,
        )) || (self.open.role == Role::Open(Element::TableRow) && self.close.role == Role::Close(
            Element::TableRow,
        ))
        &&& forall|i: int| 0 <= i < self.cells.len() ==> (#[trigger] self.cells[i]).wf()
    }

    pub open spec fn events(self) -> Seq<EventView> {
        seq![self.open] + self.cells.map_values(|c: CellEvents| c.events()).flatten()
            + seq![self.close]
    }

    /// The texts of the cells.
    pub open spec fn texts(self) -> Seq<Seq<char>> {
        self.cells.map_values(|c: CellEvents| cell_text(c.content))
    }
}

/// The events of a table.
pub struct TableEvents {
    pub open: EventView,
    pub rows: Seq<RowEvents>,
    pub close: EventView,
}

impl TableEvents {
    pub open spec fn wf(self) -> bool {
        &&& self.open.role == Role::Open(Element::Table)
        &&& self.close.role == Role::Close(Element::Table)
        &&& forall|i: int| 0 <= i < self.rows.len() ==> (#[trigger] self.rows[i]).wf()
    }

    pub open spec fn events(self) -> Seq<EventView> {
        seq![self.open] + self.rows.map_values(|r: RowEvents| r.events()).flatten()
            + seq![self.close]
    }

    /// The texts of the rows.
    pub open spec fn texts(self) -> Seq<Seq<Seq<char>>> {
        self.rows.map_values(|r: RowEvents| r.texts())
    }
}

proof fn lemma_step(es: Seq<EventView>, e: EventView)
    ensures
        tables_reading(es.push(e)) == tables_reading(es).after(e),
{
    assert(es.push(e).drop_last() =~= es);
}

proof fn lemma_cell_content(es: Seq<EventView>, content: Seq<EventView>)
    requires
        tables_reading(es).in_table,
        tables_reading(es).in_cell,
        forall|i: int| 0 <= i < content.len() ==> is_cell_event(#[trigger] content[i]),
    ensures
        tables_reading(es + content) == (TablesReading {
            cell: tables_reading(es).cell + cell_text(content),
            ..tables_reading(es)
        }),
    decreases content.len(),
{
    let f = |e: EventView| cell_piece(e);
    if content.len() == 0 {
        assert(es + content =~= es);
        assert(cell_text(content) =~= Seq::<char>::empty());
        assert(tables_reading(es).cell + cell_text(content) =~= tables_reading(es).cell);
    } else {
        let d = content.drop_last();
        let e = content.last();
        assert forall|i: int| 0 <= i < d.len() implies is_cell_event(#[trigger] d[i]) by {
            assert(d[i] == content[i]);
        }
        lemma_cell_content(es, d);
        assert(is_cell_event(content[content.len() - 1]));
        assert(es + content =~= (es + d).push(e));
        lemma_step(es + d, e);
        assert(content.map_values(f) =~= d.map_values(f).push(f(e)));
        d.map_values(f).lemma_flatten_push(f(e));
        let c = tables_reading(es).cell;
        assert(c + cell_text(content) =~= c + cell_text(d) + cell_piece(e));
        assert(c + cell_text(d) + Seq::<char>::empty() =~= c + cell_text(d));
    }
}

proof fn lemma_cells(es: Seq<EventView>, cells: Seq<CellEvents>)
    requires
        tables_reading(es).in_table,
        forall|i: int| 0 <= i < cells.len() ==> (#[trigger] cells[i]).wf(),
    ensures
        ({
            let r = tables_reading(es);
            let q = tables_reading(es + cells.map_values(|c: CellEvents| c.events()).flatten());
            &&& q.tables == r.tables
            &&& q.in_table
            &&& q.aligns == r.aligns
            &&& q.span == r.span
            &&& q.rows == r.rows
            &&& q.row == r.row + cells.map_values(|c: CellEvents| cell_text(c.content))
        }),
    decreases cells.len(),
{
    let f = |c: CellEvents| c.events();
    let g = |c: CellEvents| cell_text(c.content);
    if cells.len() == 0 {
        assert(cells.map_values(f).flatten() =~= Seq::<EventView>::empty());
        assert(es + cells.map_values(f).flatten() =~= es);
        assert(tables_reading(es).row + cells.map_values(g) =~= tables_reading(es).row);
    } else {
        let d = cells.drop_last();
        let c = cells.last();
        assert forall|i: int| 0 <= i < d.len() implies (#[trigger] d[i]).wf() by {
            assert(d[i] == cells[i]);
        }
        assert(cells[cells.len() - 1].wf());
        lemma_cells(es, d);
        assert(cells.map_values(f) =~= d.map_values(f).push(f(c)));
        d.map_values(f).lemma_flatten_push(f(c));
        assert(cells.map_values(g) =~= d.map_values(g).push(g(c)));
        let a = es + d.map_values(f).flatten();
        lemma_step(a, c.open);
        lemma_cell_content(a.push(c.open), c.content);
        assert(Seq::<char>::empty() + cell_text(c.content) =~= cell_text(c.content));
        lemma_step(a.push(c.open) + c.content, c.close);
        assert(es + cells.map_values(f).flatten() =~= (a.push(c.open) + c.content).push(c.close));
        assert(tables_reading(es).row + cells.map_values(g) =~= (tables_reading(es).row
            + d.map_values(g)).push(g(c)));
    }
}

proof fn lemma_rows(es: Seq<EventView>, rows: Seq<RowEvents>)
    requires
        tables_reading(es).in_table,
        forall|i: int| 0 <= i < rows.len() ==> (#[trigger] rows[i]).wf(),
    ensures
        ({
            let r = tables_reading(es);
            let q = tables_reading(es + rows.map_values(|r: RowEvents| r.events()).flatten());
            &&& q.tables == r.tables
            &&& q.in_table
            &&& q.aligns == r.aligns
            &&& q.span == r.span
            &&& q.rows == r.rows + rows.map_values(|r: RowEvents| r.texts())
        }),
    decreases rows.len(),
{
    let f = |r: RowEvents| r.events();
    let g = |r: RowEvents| r.texts();
    if rows.len() == 0 {
        assert(rows.map_values(f).flatten() =~= Seq::<EventView>::empty());
        assert(es + rows.map_values(f).flatten() =~= es);
        assert(tables_reading(es).rows + rows.map_values(g) =~= tables_reading(es).rows);
    } else {
        let d = rows.drop_last();
        let c = rows.last();
        assert forall|i: int| 0 <= i < d.len() implies (#[trigger] d[i]).wf() by {
            assert(d[i] == rows[i]);
        }
        assert(rows[rows.len() - 1].wf());
        lemma_rows(es, d);
        assert(rows.map_values(f) =~= d.map_values(f).push(f(c)));
        d.map_values(f).lemma_flatten_push(f(c));
        assert(rows.map_values(g) =~= d.map_values(g).push(g(c)));
        let a = es + d.map_values(f).flatten();
        lemma_step(a, c.open);
        lemma_cells(a.push(c.open), c.cells);
        let cells = c.cells.map_values(|c: CellEvents| c.events()).flatten();
        assert(Seq::<Seq<char>>::empty() + c.texts() =~= c.texts());
        lemma_step(a.push(c.open) + cells, c.close);
        assert(es + rows.map_values(f).flatten() =~= (a.push(c.open) + cells).push(c.close));
        assert(tables_reading(es).rows + rows.map_values(g) =~= (tables_reading(es).rows
            + d.map_values(g)).push(g(c)));
    }
}

/// A table is read whole, whatever came before it: one table behind all others,
/// with its alignments and its place, and with a row for each of its rows and a
/// cell for each of their cells, whose text is that of all text and code in
/// it, in order. A table without rows does not count.
pub proof fn law_tables_are_read_whole(es: Seq<EventView>, t: TableEvents)
    requires
        t.wf(),
    ensures
        t.rows.len() > 0 ==> tables(es + t.events()) == tables(es).push(
            TableView { aligns: t.open.aligns, rows: t.texts(), span: t.open.span },
        ),
        t.rows.len() == 0 ==> tables(es + t.events()) == tables(es),
{
    lemma_step(es, t.open);
    lemma_rows(es.push(t.open), t.rows);
    let rows = t.rows.map_values(|r: RowEvents| r.events()).flatten();
    lemma_step(es.push(t.open) + rows, t.close);
    assert(es + t.events() =~= (es.push(t.open) + rows).push(t.close));
    assert(Seq::<Seq<Seq<char>>>::empty() + t.texts() =~= t.texts());
}

/// Events that close no table add none.
pub proof fn law_only_tables_are_read(es: Seq<EventView>, more: Seq<EventView>)
    requires
        forall|i: int|
            0 <= i < more.len() ==> (#[trigger] more[i]).role != Role::Close(Element::Table),
    ensures
        tables(es + more) == tables(es),
    decreases more.len(),
{
    if more.len() == 0 {
        assert(es + more =~= es);
    } else {
        let d = more.drop_last();
        assert forall|i: int| 0 <= i < d.len() implies (#[trigger] d[i]).role != Role::Close(
            Element::Table,
        ) by {
            assert(d[i] == more[i]);
        }
        law_only_tables_are_read(es, d);
        assert(more[more.len() - 1] == more.last());
        assert(es + more =~= (es + d).push(more.last()));
        lemma_step(es + d, more.last());
    }
}

/// What comes after it changes nothing about a table that was read.
pub proof fn law_read_tables_stay(es: Seq<EventView>, more: Seq<EventView>)
    ensures
        tables(es).len() <= tables(es + more).len(),
        tables(es + more).take(tables(es).len() as int) == tables(es),
    decreases more.len(),
{
    if more.len() == 0 {
        assert(es + more =~= es);
        assert(tables(es).take(tables(es).len() as int) =~= tables(es));
    } else {
        let d = more.drop_last();
        law_read_tables_stay(es, d);
        assert(es + more =~= (es + d).push(more.last()));
        lemma_step(es + d, more.last());
        assert(tables(es + more).take(tables(es).len() as int) =~= tables(es + d).take(
            tables(es).len() as int,
        ));
    }
}

// ---------------------------------------------------------------------------
// What stands in the place of a table
// ---------------------------------------------------------------------------

/// A reserve is as many paragraphs of one zero-width space, each with a blank
/// line behind it.
pub proof fn law_placeholders(n: nat)
    ensures
        placeholders(n).len() == 2 * n,
        forall|i: int| 0 <= i < n ==> #[trigger] placeholders(n)[2 * i] == seq!['\u{200b}'],
        forall|i: int| 0 <= i < n ==> (#[trigger] placeholders(n)[2 * i + 1]).len() == 0,
    decreases n,
{
    reveal_strlit("\u{200b}");
    assert(placeholder() =~= seq!['\u{200b}']);
    if n > 0 {
        law_placeholders((n - 1) as nat);
        let p = placeholders((n - 1) as nat);
        assert forall|i: int| 0 <= i < n implies #[trigger] placeholders(n)[2 * i]
            == seq!['\u{200b}'] by {
            if i < n - 1 {
                assert(placeholders(n)[2 * i] == p[2 * i]);
            }
        }
        assert forall|i: int| 0 <= i < n implies (#[trigger] placeholders(n)[2 * i + 1]).len()
            == 0 by {
            if i < n - 1 {
                assert(placeholders(n)[2 * i + 1] == p[2 * i + 1]);
            }
        }
    }
}

proof fn lemma_no_placeholders(
    ls: Seq<Seq<char>>,
    ranges: Seq<(nat, nat)>,
    reserve: Seq<nat>,
    k: int,
    m: nat,
)
    requires
        m <= ranges.len(),
        forall|t: int| 0 <= t < m ==> (#[trigger] ranges[t]).0 != k,
    ensures
        placeholders_at(ls, ranges, reserve, k, m) == Seq::<Seq<char>>::empty(),
    decreases m,
{
    if m > 0 {
        lemma_no_placeholders(ls, ranges, reserve, k, (m - 1) as nat);
        assert(ranges[m - 1].0 != k);
        assert(placeholders_at(ls, ranges, reserve, k, m) =~= Seq::<Seq<char>>::empty());
    }
}

/// Lines above and below all tables stay as they are, in order: nothing is
/// taken out of a stretch of lines that no table starts in or reaches into, and
/// nothing is put in.
pub proof fn law_text_between_tables_stays(
    ls: Seq<Seq<char>>,
    ranges: Seq<(nat, nat)>,
    reserve: Seq<nat>,
    m: nat,
    n: nat,
)
    requires
        m <= n <= ls.len(),
        forall|t: int|
            0 <= t < ranges.len() ==> (#[trigger] ranges[t]).0 >= n || (ranges[t].0 < m
                && ranges[t].1 < m),
    ensures
        flow(ls, ranges, reserve, n) == flow(ls, ranges, reserve, m) + ls.subrange(
            m as int,
            n as int,
        ),
    decreases n,
{
    if m == n {
        assert(flow(ls, ranges, reserve, m) + ls.subrange(m as int, n as int) =~= flow(
            ls,
            ranges,
            reserve,
            m,
        ));
    } else {
        let k = (n - 1) as nat;
        assert forall|t: int| 0 <= t < ranges.len() implies (#[trigger] ranges[t]).0 >= k || (
        ranges[t].0 < m && ranges[t].1 < m) by {
            assert(ranges[t].0 >= n || (ranges[t].0 < m && ranges[t].1 < m));
        }
        law_text_between_tables_stays(ls, ranges, reserve, m, k);
        assert forall|t: int| 0 <= t < ranges.len() implies (#[trigger] ranges[t]).0 != k as int by {
            assert(ranges[t].0 >= n || (ranges[t].0 < m && ranges[t].1 < m));
        }
        lemma_no_placeholders(ls, ranges, reserve, k as int, ranges.len());
        if in_table(ls, ranges, k as int) {
            let t = choose|t: int|
                0 <= t < ranges.len() && is_row_of(ls, #[trigger] ranges[t], k as int);
            assert(ranges[t].0 >= n || (ranges[t].0 < m && ranges[t].1 < m));
        }
        assert(flow(ls, ranges, reserve, n) =~= flow(ls, ranges, reserve, m) + ls.subrange(
            m as int,
            n as int,
        ));
    }
}

proof fn lemma_one_placeholder(
    ls: Seq<Seq<char>>,
    ranges: Seq<(nat, nat)>,
    reserve: Seq<nat>,
    t: int,
    m: nat,
)
    requires
        0 <= t < m <= ranges.len(),
        forall|u: int| 0 <= u < ranges.len() && u != t ==> (#[trigger] ranges[u]).0 != ranges[t].0,
    ensures
        placeholders_at(ls, ranges, reserve, ranges[t].0 as int, m) == placeholders(
            reserve_of(ls, ranges, reserve, t),
        ),
    decreases m,
{
    let k = ranges[t].0 as int;
    if m - 1 == t {
        lemma_no_placeholders(ls, ranges, reserve, k, t as nat);
        assert(placeholders_at(ls, ranges, reserve, k, m) =~= placeholders(
            reserve_of(ls, ranges, reserve, t),
        ));
    } else {
        lemma_one_placeholder(ls, ranges, reserve, t, (m - 1) as nat);
        assert(ranges[m - 1].0 != ranges[t].0);
        assert(placeholders_at(ls, ranges, reserve, k, m) =~= placeholders(
            reserve_of(ls, ranges, reserve, t),
        ));
    }
}

proof fn lemma_rows_vanish(
    ls: Seq<Seq<char>>,
    ranges: Seq<(nat, nat)>,
    reserve: Seq<nat>,
    t: int,
    n: nat,
)
    requires
        0 <= t < ranges.len(),
        ranges[t].0 < ranges[t].1 < ls.len(),
        ranges[t].0 < n <= ranges[t].1 + 1,
        forall|k: int|
            ranges[t].0 <= k <= ranges[t].1 ==> (#[trigger] ls[k]).contains('|') && unbroken(ls[k]),
        forall|u: int|
            0 <= u < ranges.len() && u != t ==> (#[trigger] ranges[u]).0 < ranges[t].0
                || ranges[u].0 > ranges[t].1,
    ensures
        flow(ls, ranges, reserve, n) == flow(ls, ranges, reserve, ranges[t].0) + placeholders(
            if t < reserve.len() {
                reserve[t]
            } else {
                0
            },
        ),
    decreases n,
{
    let f = ranges[t].0;
    let k = (n - 1) as nat;
    assert(unbroken(ls[f as int + 1]));
    assert(stands_apart(ls, ranges[t]));
    assert(ls[k as int].contains('|'));
    assert(is_row_of(ls, ranges[t], k as int));
    assert(in_table(ls, ranges, k as int));
    assert forall|u: int| 0 <= u < ranges.len() && u != t implies (#[trigger] ranges[u]).0 != k
        && ranges[u].0 != f by {
        assert(ranges[u].0 < ranges[t].0 || ranges[u].0 > ranges[t].1);
    }
    if k == f {
        lemma_one_placeholder(ls, ranges, reserve, t, ranges.len());
    } else {
        lemma_rows_vanish(ls, ranges, reserve, t, k);
        lemma_no_placeholders(ls, ranges, reserve, k as int, ranges.len());
    }
    assert(flow(ls, ranges, reserve, n) =~= flow(ls, ranges, reserve, f) + placeholders(
        if t < reserve.len() {
            reserve[t]
        } else {
            0
        },
    ));
}

/// The lines of a table all give way to its placeholders, which stand where the
/// table stood.
pub proof fn law_table_gives_way_to_placeholders(
    ls: Seq<Seq<char>>,
    ranges: Seq<(nat, nat)>,
    reserve: Seq<nat>,
    t: int,
)
    requires
        0 <= t < ranges.len(),
        t < reserve.len(),
        ranges[t].0 < ranges[t].1 < ls.len(),
        forall|k: int|
            ranges[t].0 <= k <= ranges[t].1 ==> (#[trigger] ls[k]).contains('|') && unbroken(ls[k]),
        forall|u: int|
            0 <= u < ranges.len() && u != t ==> (#[trigger] ranges[u]).0 < ranges[t].0
                || ranges[u].0 > ranges[t].1,
    ensures
        flow(ls, ranges, reserve, ranges[t].1 + 1) == flow(ls, ranges, reserve, ranges[t].0)
            + placeholders(reserve[t]),
{
    lemma_rows_vanish(ls, ranges, reserve, t, ranges[t].1 + 1);
}

proof fn lemma_with_feeds(ls: Seq<Seq<char>>)
    ensures
        with_feeds(ls) == ls.map_values(|l: Seq<char>| l.push('\n')).flatten(),
    decreases ls.len(),
{
    let f = |l: Seq<char>| l.push('\n');
    if ls.len() == 0 {
        assert(ls.map_values(f).flatten() =~= Seq::<char>::empty());
    } else {
        let d = ls.drop_last();
        lemma_with_feeds(d);
        reveal_strlit("\n");
        assert(ls.map_values(f) =~= d.map_values(f).push(f(ls.last())));
        d.map_values(f).lemma_flatten_push(f(ls.last()));
        assert(with_feeds(ls) =~= with_feeds(d) + ls.last().push('\n'));
    }
}

/// The text of a page is its lines, each with a line feed; and a source without
/// tables keeps all its lines and gets no image.
pub proof fn law_page_text_is_its_lines(
    md: Seq<char>,
    ts: Seq<TableView>,
    pngs: Seq<Option<Seq<u8>>>,
)
    ensures
        page_input(md, ts, pngs).markdown == page_lines(md, ts, pngs).map_values(
            |l: Seq<char>| l.push('\n'),
        ).flatten(),
        ts.len() == 0 ==> page_lines(md, ts, pngs) == lines(md) && page_input(
            md,
            ts,
            pngs,
        ).images.len() == 0,
{
    lemma_with_feeds(page_lines(md, ts, pngs));
    if ts.len() == 0 {
        let ranges = crate::notebook::tables::table_lines(md, ts);
        let reserve = crate::notebook::tables::reserves(ts.len(), pngs);
        law_text_between_tables_stays(lines(md), ranges, reserve, 0, lines(md).len());
        assert(page_lines(md, ts, pngs) =~= lines(md));
    }
}

// ---------------------------------------------------------------------------
// The images
// ---------------------------------------------------------------------------

/// A raster keeps its size where it is at most 900 units wide, and is scaled
/// down to that width otherwise, with its height in proportion.
pub proof fn law_rasters_keep_their_shape(png: Seq<u8>)
    ensures
        ({
            let (w, h) = pixels(png);
            let (x, y) = raster_size(png);
            &&& w <= 900 ==> x == w * 1000 && y == h * 1000
            &&& w > 900 ==> x == 900000 && y * w <= h * x < (y + 1) * w
        }),
{
    let (w, h) = pixels(png);
    if w > 900 {
        let n = h * 900;
        let y = n * 1000 / w;
        assert(y * w <= n * 1000 < (y + 1) * w) by (nonlinear_arith)
            requires
                y == n * 1000 / w,
                w > 0,
        ;
    }
}

/// Every raster becomes an image, in the order of the tables: with its own
/// bytes, its size, and centred. It stands below the text before its table, or
/// below the image before it and that one's clearance, whichever is lower, and
/// no lower than that.
pub proof fn law_every_raster_is_placed(
    n: nat,
    pngs: Seq<Option<Seq<u8>>>,
    before: Seq<nat>,
    t: int,
)
    requires
        0 <= t < n,
    ensures
        placing(n, pngs, before).images.len() == raster_count(pngs, n),
        raster_of(pngs, t) is Some ==> ({
            let images = placing(n, pngs, before).images;
            let j = raster_count(pngs, t as nat) as int;
            let png = raster_of(pngs, t)->0;
            let text = text_y(before_table(before, t));
            &&& 0 <= j < images.len()
            &&& images[j].png_bytes == png
            &&& (images[j].w, images[j].h) == raster_size(png)
            &&& 0 <= images[j].x * 2 + images[j].w <= 1
            &&& images[j].y >= text
            &&& j > 0 ==> images[j].y >= images[j - 1].y + images[j - 1].h + gap_below(
                images[j - 1].h,
            )
            &&& images[j].y == text || (j > 0 && images[j].y == images[j - 1].y + images[j - 1].h
                + gap_below(images[j - 1].h))
        }),
    decreases n,
{
    lemma_placed(n, pngs, before);
    let p = placing((n - 1) as nat, pngs, before);
    let q = placing(n, pngs, before);
    lemma_placed((n - 1) as nat, pngs, before);
    if t < n - 1 {
        law_every_raster_is_placed((n - 1) as nat, pngs, before, t);
        let j = raster_count(pngs, t as nat) as int;
        if raster_of(pngs, t) is Some {
            assert(q.images[j] == p.images[j]);
            if j > 0 {
                assert(q.images[j - 1] == p.images[j - 1]);
            }
        }
    } else if raster_of(pngs, t) is Some {
        let j = raster_count(pngs, t as nat) as int;
        assert(q.images[j] == q.images.last());
        if j > 0 {
            assert(q.images[j - 1] == p.images.last());
        }
    }
}

proof fn lemma_placed(n: nat, pngs: Seq<Option<Seq<u8>>>, before: Seq<nat>)
    ensures
        ({
            let p = placing(n, pngs, before);
            &&& p.images.len() == raster_count(pngs, n)
            &&& p.images.len() == 0 ==> p.cursor == 280000
            &&& p.images.len() > 0 ==> p.cursor == p.images.last().y + p.images.last().h
                + gap_below(p.images.last().h)
        }),
    decreases n,
{
    if n > 0 {
        lemma_placed((n - 1) as nat, pngs, before);
    }
}

// ---------------------------------------------------------------------------
// Heights
// ---------------------------------------------------------------------------

/// The height of lines: the sum of their heights.
pub open spec fn text_height(ls: Seq<Seq<char>>) -> nat
    decreases ls.len(),
{
    if ls.len() == 0 {
        0
    } else {
        line_height(ls[0]) + text_height(ls.skip(1))
    }
}

proof fn lemma_text_height_push(ls: Seq<Seq<char>>, l: Seq<char>)
    ensures
        text_height(ls.push(l)) == text_height(ls) + line_height(l),
    decreases ls.len(),
{
    if ls.len() == 0 {
        assert(ls.push(l).skip(1) =~= Seq::<Seq<char>>::empty());
        assert(text_height(ls.push(l).skip(1)) == 0);
    } else {
        assert(ls.push(l).skip(1) =~= ls.skip(1).push(l));
        lemma_text_height_push(ls.skip(1), l);
    }
}

/// Every line between two tables counts with its height, and the lines of a
/// table count nothing.
pub proof fn law_text_height_adds_up(
    ls: Seq<Seq<char>>,
    ranges: Seq<(nat, nat)>,
    m: nat,
    n: nat,
)
    requires
        m <= n <= ls.len(),
    ensures
        (forall|k: int| m <= k < n ==> !in_table(ls, ranges, k)) ==> kept_height(ls, ranges, n)
            == kept_height(ls, ranges, m) + text_height(ls.subrange(m as int, n as int)),
        (forall|k: int| m <= k < n ==> in_table(ls, ranges, k)) ==> kept_height(ls, ranges, n)
            == kept_height(ls, ranges, m),
    decreases n,
{
    if m == n {
        assert(ls.subrange(m as int, n as int) =~= Seq::<Seq<char>>::empty());
    } else {
        let k = (n - 1) as nat;
        law_text_height_adds_up(ls, ranges, m, k);
        assert(ls.subrange(m as int, n as int) =~= ls.subrange(m as int, k as int).push(
            ls[k as int],
        ));
        lemma_text_height_push(ls.subrange(m as int, k as int), ls[k as int]);
    }
}

/// From one table to the next the height grows by that of the lines between
/// them and by 70 units for each placeholder of the first.
pub proof fn law_height_before_the_next_table(
    ls: Seq<Seq<char>>,
    ranges: Seq<(nat, nat)>,
    reserve: Seq<nat>,
    t: int,
)
    requires
        0 <= t,
        t + 1 < ranges.len(),
        t < reserve.len(),
        ranges[t].0 < ranges[t].1 < ranges[t + 1].0 <= ls.len(),
        forall|k: int|
            ranges[t].0 <= k <= ranges[t].1 ==> (#[trigger] ls[k]).contains('|') && unbroken(ls[k]),
        forall|k: int| ranges[t].1 < k < ranges[t + 1].0 ==> !in_table(ls, ranges, k),
    ensures
        height_before(ls, ranges, reserve, t + 1) == height_before(ls, ranges, reserve, t) + 70
            * reserve[t] + text_height(ls.subrange(ranges[t].1 as int + 1, ranges[t + 1].0 as int)),
        t == 0 && (forall|k: int| 0 <= k < ranges[0].0 ==> !in_table(ls, ranges, k))
            ==> height_before(ls, ranges, reserve, 0) == text_height(
            ls.take(ranges[0].0 as int),
        ),
{
    let a = ranges[t].0;
    let b = ranges[t].1 + 1;
    let c = ranges[t + 1].0;
    assert(unbroken(ls[a as int + 1]));
    assert(stands_apart(ls, ranges[t]));
    assert forall|k: int| a <= k < b implies in_table(ls, ranges, k) by {
        assert(ls[k].contains('|') && unbroken(ls[k]));
        assert(is_row_of(ls, ranges[t], k));
    }
    law_text_height_adds_up(ls, ranges, a, b);
    law_text_height_adds_up(ls, ranges, b, c);
    if t == 0 {
        law_text_height_adds_up(ls, ranges, 0, a);
        assert(ls.subrange(0, a as int) =~= ls.take(a as int));
    }
}

/// A line without blanks at its ends is as high as its kind asks for each 50
/// characters or part of them: 150 units for a heading, 35 for a bullet, 70 for
/// other text. A blank line is 20 units high.
pub proof fn law_line_heights(l: Seq<char>)
    ensures
        is_blank(l) ==> line_height(l) == 20,
        l.len() > 0 && !is_white(l[0]) && !is_white(l.last()) ==> ({
            let unit: int = if l[0] == '#' {
                150
            } else if l.len() > 1 && (l[0] == '-' || l[0] == '*') && l[1] == ' ' {
                35
            } else {
                70
            };
            let rows = line_height(l) / unit as nat;
            line_height(l) == rows * unit && (rows - 1) * 50 < l.len() <= rows * 50
        }),
{
    crate::text::lemma_trim_blank(l);
    if l.len() > 0 && !is_white(l[0]) && !is_white(l.last()) {
        assert(trim(l) == l);
        reveal_strlit("- ");
        reveal_strlit("* ");
        if l.len() > 1 {
            assert(l.take(2)[0] == l[0] && l.take(2)[1] == l[1]);
            if l[0] == '-' && l[1] == ' ' {
                assert(l.take(2) =~= "- "@);
            }
            if l[0] == '*' && l[1] == ' ' {
                assert(l.take(2) =~= "* "@);
            }
        }
        if crate::text::starts_with(l, "- "@) {
            assert(l.take(2)[0] == '-' && l.take(2)[1] == ' ');
        }
        if crate::text::starts_with(l, "* "@) {
            assert(l.take(2)[0] == '*' && l.take(2)[1] == ' ');
        }
        let unit: nat = if l[0] == '#' {
            150
        } else if l.len() > 1 && (l[0] == '-' || l[0] == '*') && l[1] == ' ' {
            35
        } else {
            70
        };
        let n = (l.len() + 49) / 50;
        assert(line_height(l) == n * unit);
        assert(n * unit / unit == n) by (nonlinear_arith)
            requires
                unit > 0,
        ;
    }
}

/// The clearance below an image is 15 % of its height, in whole thousandths,
/// and at least 40 units.
pub proof fn law_clearance_below_an_image(h: int)
    requires
        0 <= h,
    ensures
        gap_below(h) >= 40000,
        gap_below(h) * 100 > h * 15 - 100,
        gap_below(h) == 40000 || gap_below(h) * 100 <= h * 15,
{
}

/// No more is reserved than needed: with one placeholder less, the image and
/// its clearance would not fit.
pub proof fn law_no_more_is_reserved_than_needed(png: Seq<u8>)
    ensures
        ({
            let (n, d) = scaled_height(png);
            let r = reserve_lines(png);
            (r - 1) * 70 * d < n + d * 40 || (r - 1) * 1400 * d < n * 23
        }),
{
    let (n, d) = scaled_height(png);
    assert(d >= 1 && n >= 0);
    let tall = (n * 23 + d * 1400 - 1) / (d * 1400);
    let short = (n + d * 40 + d * 70 - 1) / (d * 70);
    assert((tall - 1) * 1400 * d < n * 23) by (nonlinear_arith)
        requires
            tall == (n * 23 + d * 1400 - 1) / (d * 1400),
            d >= 1,
    ;
    assert((short - 1) * 70 * d < n + d * 40) by (nonlinear_arith)
        requires
            short == (n + d * 40 + d * 70 - 1) / (d * 70),
            d >= 1,
    ;
}

// ---------------------------------------------------------------------------
// A page with a table
// ---------------------------------------------------------------------------

/// Whether these can stand as lines: without line feeds, and none of them ends
/// in a carriage return.
pub open spec fn are_lines(ls: Seq<Seq<char>>) -> bool {
    forall|i: int|
        0 <= i < ls.len() ==> !(#[trigger] ls[i]).contains('\n') && (ls[i].len() == 0
            || ls[i].last() != '\r')
}

proof fn lemma_text_add(a: Seq<Seq<char>>, b: Seq<Seq<char>>)
    ensures
        text_of_lines(a + b) == text_of_lines(a) + text_of_lines(b),
    decreases b.len(),
{
    if b.len() == 0 {
        assert(a + b =~= a);
        assert(text_of_lines(b) =~= Seq::<char>::empty());
        assert(text_of_lines(a) + text_of_lines(b) =~= text_of_lines(a));
    } else {
        let d = b.drop_last();
        lemma_text_add(a, d);
        lemma_text_of_lines_push(a + d, b.last());
        lemma_text_of_lines_push(d, b.last());
        assert((a + d).push(b.last()) =~= a + b);
        assert(d.push(b.last()) =~= b);
        assert(text_of_lines(a + b) =~= text_of_lines(a) + text_of_lines(b));
    }
}

proof fn lemma_lines_add(a: Seq<Seq<char>>, b: Seq<Seq<char>>)
    requires
        are_lines(a),
        are_lines(b),
    ensures
        are_lines(a + b),
{
    let s = a + b;
    assert forall|i: int| 0 <= i < s.len() implies !(#[trigger] s[i]).contains('\n') && (
    s[i].len() == 0 || s[i].last() != '\r') by {
        if i < a.len() {
            assert(s[i] == a[i]);
        } else {
            assert(s[i] == b[i - a.len()]);
        }
    }
}

proof fn lemma_feeds_of_lines(ls: Seq<Seq<char>>)
    requires
        are_lines(ls),
    ensures
        ({
            let b = encode_utf8(text_of_lines(ls));
            &&& line_feeds(b, b.len() as int) == ls.len()
            &&& ls.len() > 0 ==> b.len() > 0 && line_feeds(b, b.len() - 1) == ls.len() - 1
        }),
    decreases ls.len(),
{
    let b = encode_utf8(text_of_lines(ls));
    if ls.len() == 0 {
        assert(text_of_lines(ls) =~= Seq::<char>::empty());
        assert(b =~= Seq::<u8>::empty());
    } else {
        let d = ls.drop_last();
        let l = ls.last();
        assert forall|i: int| 0 <= i < d.len() implies !(#[trigger] d[i]).contains('\n') && (
        d[i].len() == 0 || d[i].last() != '\r') by {
            assert(d[i] == ls[i]);
        }
        lemma_feeds_of_lines(d);
        lemma_text_of_lines_push(d, l);
        assert(d.push(l) =~= ls);
        let e = encode_utf8(text_of_lines(d));
        lemma_utf8_add(text_of_lines(d), l.push('\n'));
        lemma_utf8_add(l, seq!['\n']);
        assert(l.push('\n') =~= l + seq!['\n']);
        let x = encode_utf8(l);
        lemma_one_feed();
        let y = seq![10u8];
        assert(b =~= e + (x + y));
        assert(!ls[ls.len() - 1].contains('\n'));
        lemma_feeds_of_text(l);
        lemma_no_pieces(l);
        assert(line_feeds(x, x.len() as int) == 0);
        lemma_feeds_add(x, y, x.len() as int);
        lemma_feeds_add(x, y, x.len() as int + 1);
        assert(line_feeds(y, 0) == 0);
        assert(line_feeds(y, 1) == line_feeds(y, 0) + 1);
        lemma_feeds_add(e, x + y, (e.len() + x.len() + 1) as int);
        lemma_feeds_add(e, x + y, (e.len() + x.len()) as int);
    }
}

proof fn lemma_no_pieces(l: Seq<char>)
    requires
        !l.contains('\n'),
    ensures
        split(l, '\n').len() == 1,
{
    let none = Seq::<char>::empty();
    crate::sync_v3::laws::lemma_split_plain(none, l, '\n');
    assert(none + l =~= l);
}

proof fn lemma_one_feed()
    ensures
        encode_utf8(seq!['\n']) == seq![10u8],
{
    assert(seq!['\n'].drop_first() =~= Seq::<char>::empty());
    assert(encode_utf8(Seq::<char>::empty()) =~= Seq::<u8>::empty());
    assert(10u32 & 0x7f == 10u32) by (bit_vector);
    assert(encode_scalar('\n' as u32) =~= seq![10u8]);
    assert(encode_utf8(seq!['\n']) =~= seq![10u8]);
}

/// The lines of a table are those that its bytes stand on.
pub proof fn law_table_stands_on_its_lines(
    above: Seq<Seq<char>>,
    rows: Seq<Seq<char>>,
    below: Seq<char>,
    span: (usize, usize),
)
    requires
        are_lines(above),
        are_lines(rows),
        rows.len() > 0,
        span.0 == encode_utf8(text_of_lines(above)).len(),
        span.1 == encode_utf8(text_of_lines(above) + text_of_lines(rows)).len(),
    ensures
        line_range(text_of_lines(above) + text_of_lines(rows) + below, span) == (
            above.len(),
            (above.len() + rows.len() - 1) as nat,
        ),
{
    let a = text_of_lines(above);
    let r = text_of_lines(rows);
    lemma_utf8_add(a, r);
    lemma_utf8_add(a + r, below);
    let x = encode_utf8(a);
    let y = encode_utf8(r);
    let z = encode_utf8(below);
    lemma_feeds_of_lines(above);
    lemma_feeds_of_lines(rows);
    lemma_feeds_add(x + y, z, span.0 as int);
    lemma_feeds_add(x + y, z, span.1 - 1);
    lemma_feeds_add(x, y, span.0 as int);
    lemma_feeds_add(x, y, span.1 - 1);
    assert(line_feeds(y, 0) == 0);
}

/// A page of text, a table and more text keeps the text as it is, line by line,
/// with the placeholders of the table's raster between; its one image is that
/// raster, no higher than the text above the table reaches.
pub proof fn law_table_is_replaced_on_its_page(
    above: Seq<Seq<char>>,
    rows: Seq<Seq<char>>,
    below: Seq<Seq<char>>,
    t: TableView,
    png: Seq<u8>,
)
    requires
        are_lines(above),
        are_lines(rows),
        are_lines(below),
        rows.len() >= 2,
        forall|i: int|
            0 <= i < rows.len() ==> (#[trigger] rows[i]).contains('|') && unbroken(rows[i]),
        t.span.0 == encode_utf8(text_of_lines(above)).len(),
        t.span.1 == encode_utf8(text_of_lines(above) + text_of_lines(rows)).len(),
    ensures
        ({
            let md = text_of_lines(above) + text_of_lines(rows) + text_of_lines(below);
            let page = page_input(md, seq![t], seq![Some(png)]);
            &&& page.markdown == text_of_lines(
                above + placeholders(reserve_lines(png) as nat) + below,
            )
            &&& page.images.len() == 1
            &&& page.images[0].png_bytes == png
            &&& page.images[0].y == larger(
                (120 + text_height(above) as int + 80) * 1000,
                280000,
            )
            &&& page_input(md, seq![t], seq![None]).markdown == text_of_lines(above + below)
            &&& page_input(md, seq![t], seq![None]).images.len() == 0
        }),
{
    let md = text_of_lines(above) + text_of_lines(rows) + text_of_lines(below);
    let ls = above + rows + below;
    let ts = seq![t];
    lemma_text_add(above, rows);
    lemma_text_add(above + rows, below);
    assert(md =~= text_of_lines(ls));
    lemma_lines_add(above, rows);
    lemma_lines_add(above + rows, below);
    law_lines_read_back(ls);
    assert(lines(md) == ls);
    law_table_stands_on_its_lines(above, rows, text_of_lines(below), t.span);
    let ranges = table_lines(md, ts);
    let first = above.len();
    let last = (above.len() + rows.len() - 1) as nat;
    assert(ranges.len() == 1);
    assert(ranges[0] == (first, last));
    assert forall|k: int| ranges[0].0 <= k <= ranges[0].1 implies (#[trigger] ls[k]).contains('|')
        && unbroken(ls[k]) by {
        assert(ls[k] == rows[k - first]);
    }
    lemma_page_around(above, rows, below, ranges, reserves(1, seq![Some(png)]));
    lemma_page_around(above, rows, below, ranges, reserves(1, seq![None]));
    law_page_text_is_its_lines(md, ts, seq![Some(png)]);
    law_page_text_is_its_lines(md, ts, seq![None]);
    let none = placeholders(0);
    assert(above + none + below =~= above + below);
    assert(reserve_lines(png) >= 0) by {
        let (n, d) = scaled_height(png);
        assert((n + d * 40 + d * 70 - 1) / (d * 70) >= 0) by (nonlinear_arith)
            requires
                n >= 0,
                d >= 1,
        ;
    }
    assert(reserves(1, seq![Some(png)])[0] == reserve_lines(png) as nat);
    assert forall|k: int| 0 <= k < first implies !in_table(ls, ranges, k) by {
        if in_table(ls, ranges, k) {
            let u = choose|u: int| 0 <= u < ranges.len() && is_row_of(ls, #[trigger] ranges[u], k);
            assert(u == 0);
        }
    }
    law_text_height_adds_up(ls, ranges, 0, first);
    assert(ls.subrange(0, first as int) =~= above);
    let before = heights_before(ls, ranges, reserves(1, seq![Some(png)]));
    assert(before[0] == text_height(above));
    assert(before_table(before, 0) == text_height(above));
    let pngs = seq![Some(png)];
    assert(raster_of(pngs, 0) == Some(png));
    assert(placing(0, pngs, before).images =~= Seq::<ImageView>::empty());
    let p = placing(1, pngs, before);
    assert(p.images =~= Seq::<ImageView>::empty().push(p.images.last()));
    let nothing = seq![None::<Seq<u8>>];
    let zero = heights_before(ls, ranges, reserves(1, nothing));
    assert(raster_of(nothing, 0) is None);
    assert(placing(1, nothing, zero) == placing(0, nothing, zero));
}

proof fn lemma_page_around(
    above: Seq<Seq<char>>,
    rows: Seq<Seq<char>>,
    below: Seq<Seq<char>>,
    ranges: Seq<(nat, nat)>,
    reserve: Seq<nat>,
)
    requires
        rows.len() >= 2,
        ranges.len() == 1,
        reserve.len() == 1,
        ranges[0] == (above.len(), (above.len() + rows.len() - 1) as nat),
        forall|k: int|
            ranges[0].0 <= k <= ranges[0].1 ==> (#[trigger] (above + rows + below)[k]).contains('|')
                && unbroken((above + rows + below)[k]),
    ensures
        flow(above + rows + below, ranges, reserve, (above + rows + below).len()) == above
            + placeholders(reserve[0]) + below,
{
    let ls = above + rows + below;
    let a = above.len();
    let b = (above.len() + rows.len()) as nat;
    law_text_between_tables_stays(ls, ranges, reserve, 0, a);
    assert(ls.subrange(0, a as int) =~= above);
    assert(flow(ls, ranges, reserve, a) =~= above);
    law_table_gives_way_to_placeholders(ls, ranges, reserve, 0);
    law_text_between_tables_stays(ls, ranges, reserve, b, ls.len());
    assert(ls.subrange(b as int, ls.len() as int) =~= below);
}

/// The rasters of a page are those given for it, each for its own table.
pub proof fn law_rasters_belong_to_their_page(
    pngs: Seq<Vec<Option<Vec<u8>>>>,
    i: int,
    t: int,
    count: nat,
)
    requires
        0 <= i < pngs.len(),
        0 <= t < pngs[i]@.len(),
        t < count,
    ensures
        rasters_of_page(pngs, i).len() == pngs[i]@.len(),
        pngs[i]@[t] matches Some(v) ==> rasters_of_page(pngs, i)[t] == Some(v@) && reserves(
            count,
            rasters_of_page(pngs, i),
        )[t] == reserve_lines(v@) as nat,
        pngs[i]@[t] is None ==> rasters_of_page(pngs, i)[t] is None && reserves(
            count,
            rasters_of_page(pngs, i),
        )[t] == 0,
{
}

/// The image of every table stands below the text that the page shows before
/// it, the placeholders of the tables before it among that.
pub proof fn law_page_images_follow_the_text(
    md: Seq<char>,
    ts: Seq<TableView>,
    pngs: Seq<Option<Seq<u8>>>,
    t: int,
)
    requires
        0 <= t < ts.len(),
        raster_of(pngs, t) is Some,
    ensures
        ({
            let images = page_input(md, ts, pngs).images;
            let j = raster_count(pngs, t as nat) as int;
            let above = height_before(
                lines(md),
                table_lines(md, ts),
                reserves(ts.len(), pngs),
                t,
            );
            &&& images.len() == raster_count(pngs, ts.len())
            &&& 0 <= j < images.len()
            &&& images[j].png_bytes == raster_of(pngs, t)->0
            &&& images[j].y >= (120 + above + 80) * 1000
        }),
{
    let before = heights_before(lines(md), table_lines(md, ts), reserves(ts.len(), pngs));
    law_every_raster_is_placed(ts.len(), pngs, before, t);
}

/// A source becomes one page for each of its parts, in order. A page shows its
/// own part: all its lines, where the part has no tables, and an image for each
/// raster that was given for one of its own tables.
pub proof fn law_pages_show_their_own_part(
    md: Seq<char>,
    pngs: Seq<Vec<Option<Vec<u8>>>>,
    i: int,
)
    requires
        0 <= i < split_pages(md).len(),
    ensures
        ({
            let part = split_pages(md)[i];
            let ts = source_tables(part);
            let page = pages_input(md, pngs)[i];
            &&& pages_input(md, pngs).len() == split_pages(md).len()
            &&& ts.len() == 0 ==> page.images.len() == 0 && page.markdown == text_of_lines(
                lines(part),
            )
            &&& page.images.len() == raster_count(rasters_of_page(pngs, i), ts.len())
            &&& forall|t: int|
                0 <= t < ts.len() && #[trigger] raster_of(rasters_of_page(pngs, i), t) is Some
                    ==> exists|j: int|
                    0 <= j < page.images.len() && #[trigger] page.images[j].png_bytes == raster_of(
                        rasters_of_page(pngs, i),
                        t,
                    )->0
        }),
{
    let part = split_pages(md)[i];
    let ts = source_tables(part);
    let rasters = rasters_of_page(pngs, i);
    let page = pages_input(md, pngs)[i];
    law_page_text_is_its_lines(part, ts, rasters);
    let before = heights_before(lines(part), table_lines(part, ts), reserves(ts.len(), rasters));
    lemma_placed(ts.len(), rasters, before);
    assert forall|t: int| 0 <= t < ts.len() && #[trigger] raster_of(rasters, t) is Some implies exists|
        j: int,
    |
        0 <= j < page.images.len() && #[trigger] page.images[j].png_bytes == raster_of(
            rasters,
            t,
        )->0 by {
        law_page_images_follow_the_text(part, ts, rasters, t);
        let j = raster_count(rasters, t as nat) as int;
        assert(page.images[j].png_bytes == raster_of(rasters, t)->0);
    }
}

} // verus!
