//! Tables of a page: their source taken out of the text, and their images put
//! in its place.
//!
//! The typed-text engine of the device has no tables. Each table is drawn,
//! rasterized and embedded as an image; its lines are replaced by as many
//! placeholder paragraphs as the image is tall, so that later text does not
//! run through it.

use vstd::prelude::*;
use vstd::utf8::*;

use crate::events::{
    md_events, parse_events, Alignment, Element, EventView, Inline, InlineView, MdEvent, Role,
    TABLES,
};
use crate::markdown::render::copy_aligns;
use crate::markdown::table::{
    drawable, lemma_rows_view_push, rows_view, table_svg, try_table_svg,
};
use crate::notebook::pages::{split_on_hr, split_pages};
use crate::text::{
    chars_of, copy_bytes, has_char, has_prefix, lemma_split_nonempty, lemma_views_push, lines,
    lines_of, opt_view, split, starts_with, strip_cr, trim, trimmed, views,
};
use crate::v6::page::TEXT_TOP;

verus! {

// ---------------------------------------------------------------------------
// The tables of a source
// ---------------------------------------------------------------------------

/// A table: its column alignments, the texts of its cells, and the bytes of the
/// source that it takes, from the first to one behind the last.
#[derive(Debug)]
pub struct Table {
    pub aligns: Vec<Alignment>,
    pub rows: Vec<Vec<String>>,
    pub span: (usize, usize),
}

/// The mathematical value of a [`Table`].
pub struct TableView {
    pub aligns: Seq<Alignment>,
    pub rows: Seq<Seq<Seq<char>>>,
    pub span: (usize, usize),
}

impl View for Table {
    type V = TableView;

    open spec fn view(&self) -> TableView {
        TableView { aligns: self.aligns@, rows: rows_view(self.rows@), span: self.span }
    }
}

/// How far the tables of a source have been read.
pub struct TablesReading {
    pub tables: Seq<TableView>,
    pub in_table: bool,
    pub aligns: Seq<Alignment>,
    pub span: (usize, usize),
    pub rows: Seq<Seq<Seq<char>>>,
    pub row: Seq<Seq<char>>,
    pub in_cell: bool,
    pub cell: Seq<char>,
}

impl TablesReading {
    /// Nothing read yet.
    pub open spec fn start() -> TablesReading {
        TablesReading {
            tables: Seq::empty(),
            in_table: false,
            aligns: Seq::empty(),
            span: (0, 0),
            rows: Seq::empty(),
            row: Seq::empty(),
            in_cell: false,
            cell: Seq::empty(),
        }
    }

    /// The reading after one more event. A table without rows does not count.
    pub open spec fn after(self, e: EventView) -> TablesReading {
        match e.role {
            Role::Open(Element::Table) => TablesReading {
                in_table: true,
                aligns: e.aligns,
                span: e.span,
                rows: Seq::empty(),
                ..self
            },
            Role::Close(Element::Table) => TablesReading {
                tables: if self.rows.len() > 0 {
                    self.tables.push(
                        TableView { aligns: self.aligns, rows: self.rows, span: self.span },
                    )
                } else {
                    self.tables
                },
                in_table: false,
                ..self
            },
            Role::Open(Element::TableHead) if self.in_table => TablesReading {
                row: Seq::empty(),
                ..self
            },
            Role::Open(Element::TableRow) if self.in_table => TablesReading {
                row: Seq::empty(),
                ..self
            },
            Role::Close(Element::TableHead) if self.in_table => TablesReading {
                rows: self.rows.push(self.row),
                ..self
            },
            Role::Close(Element::TableRow) if self.in_table => TablesReading {
                rows: self.rows.push(self.row),
                ..self
            },
            Role::Open(Element::TableCell) if self.in_table => TablesReading {
                in_cell: true,
                cell: Seq::empty(),
                ..self
            },
            Role::Close(Element::TableCell) if self.in_table => TablesReading {
                in_cell: false,
                row: self.row.push(self.cell),
                ..self
            },
            Role::Leaf => match e.inline {
                InlineView::Text(s) if self.in_cell => TablesReading {
                    cell: self.cell + s,
                    ..self
                },
                InlineView::Code(s) if self.in_cell => TablesReading {
                    cell: self.cell + s,
                    ..self
                },
                _ => self,
            },
            _ => self,
        }
    }
}

/// The reading of a list of events.
pub open spec fn tables_reading(es: Seq<EventView>) -> TablesReading
    decreases es.len(),
{
    if es.len() == 0 {
        TablesReading::start()
    } else {
        tables_reading(es.drop_last()).after(es.last())
    }
}

/// The tables of a list of events.
pub open spec fn tables(es: Seq<EventView>) -> Seq<TableView> {
    tables_reading(es).tables
}

fn copy_row(row: &Vec<String>) -> (r: Vec<String>)
    ensures
        views(r@) == views(row@),
{
    let mut out: Vec<String> = Vec::new();
    let mut i: usize = 0;
    while i < row.len()
        invariant
            i <= row@.len(),
            views(out@) == views(row@).take(i as int),
        decreases row@.len() - i,
    {
        let c = row[i].clone();
        proof {
            lemma_views_push(out@, c);
            assert(views(row@).take(i + 1) =~= views(row@).take(i as int).push(c@));
        }
        out.push(c);
        i += 1;
    }
    proof {
        assert(views(row@).take(i as int) =~= views(row@));
    }
    out
}

fn copy_rows(rows: &Vec<Vec<String>>) -> (r: Vec<Vec<String>>)
    ensures
        rows_view(r@) == rows_view(rows@),
{
    let mut out: Vec<Vec<String>> = Vec::new();
    let mut i: usize = 0;
    while i < rows.len()
        invariant
            i <= rows@.len(),
            rows_view(out@) == rows_view(rows@).take(i as int),
        decreases rows@.len() - i,
    {
        let row = copy_row(&rows[i]);
        proof {
            lemma_rows_view_push(out@, row);
            assert(rows_view(rows@).take(i + 1) =~= rows_view(rows@).take(i as int).push(
                views(row@),
            ));
        }
        out.push(row);
        i += 1;
    }
    proof {
        assert(rows_view(rows@).take(i as int) =~= rows_view(rows@));
    }
    out
}

/// Collects the tables of a list of events.
pub fn tables_of(events: &Vec<MdEvent>) -> (r: Vec<Table>)
    ensures
        views(r@) == tables(views(events@)),
{
    let ghost es = views(events@);
    let mut out: Vec<Table> = Vec::new();
    let mut in_table = false;
    let mut aligns: Vec<Alignment> = Vec::new();
    let mut span: (usize, usize) = (0, 0);
    let mut rows: Vec<Vec<String>> = Vec::new();
    let mut row: Vec<String> = Vec::new();
    let mut in_cell = false;
    let mut cell = String::new();
    let mut i: usize = 0;
    proof {
        assert(views(out@) =~= Seq::<TableView>::empty());
        assert(aligns@ =~= Seq::<Alignment>::empty());
        assert(rows_view(rows@) =~= Seq::<Seq<Seq<char>>>::empty());
        assert(views(row@) =~= Seq::<Seq<char>>::empty());
        assert(cell@ =~= Seq::<char>::empty());
    }
    while i < events.len()
        invariant
            es == views(events@),
            i <= events@.len(),
            ({
                let st = tables_reading(es.take(i as int));
                &&& views(out@) == st.tables
                &&& in_table == st.in_table
                &&& aligns@ == st.aligns
                &&& span == st.span
                &&& rows_view(rows@) == st.rows
                &&& views(row@) == st.row
                &&& in_cell == st.in_cell
                &&& cell@ == st.cell
            }),
        decreases events@.len() - i,
    {
        let e = &events[i];
        proof {
            assert(es.take(i + 1).drop_last() =~= es.take(i as int));
            assert(es.take(i + 1).last() == e@);
        }
        match e.role {
            Role::Open(Element::Table) => {
                in_table = true;
                aligns = copy_aligns(&e.aligns);
                span = e.span;
                rows = Vec::new();
                proof {
                    assert(rows_view(rows@) =~= Seq::<Seq<Seq<char>>>::empty());
                }
            },
            Role::Close(Element::Table) => {
                if rows.len() > 0 {
                    let t = Table { aligns: copy_aligns(&aligns), rows: copy_rows(&rows), span };
                    proof {
                        lemma_views_push(out@, t);
                    }
                    out.push(t);
                }
                in_table = false;
            },
            Role::Open(Element::TableHead) | Role::Open(Element::TableRow) => {
                if in_table {
                    row = Vec::new();
                    proof {
                        assert(views(row@) =~= Seq::<Seq<char>>::empty());
                    }
                }
            },
            Role::Close(Element::TableHead) | Role::Close(Element::TableRow) => {
                if in_table {
                    let r = copy_row(&row);
                    proof {
                        lemma_rows_view_push(rows@, r);
                    }
                    rows.push(r);
                }
            },
            Role::Open(Element::TableCell) => {
                if in_table {
                    in_cell = true;
                    cell = String::new();
                    proof {
                        assert(cell@ =~= Seq::<char>::empty());
                    }
                }
            },
            Role::Close(Element::TableCell) => {
                if in_table {
                    in_cell = false;
                    let c = cell.clone();
                    proof {
                        lemma_views_push(row@, c);
                    }
                    row.push(c);
                }
            },
            Role::Leaf => {
                if in_cell {
                    match &e.inline {
                        Inline::Text(s) => cell.push_str(s.as_str()),
                        Inline::Code(s) => cell.push_str(s.as_str()),
                        _ => {},
                    }
                }
            },
            _ => {},
        }
        i += 1;
    }
    proof {
        assert(es.take(i as int) =~= es);
    }
    out
}

/// The tables of a Markdown source.
pub fn markdown_tables(md: &str) -> (r: Vec<Table>)
    ensures
        views(r@) == source_tables(md@),
{
    let events = parse_events(md, TABLES);
    tables_of(&events)
}

/// The drawing of a table, where its measures fit.
pub fn table_drawing(t: &Table) -> (r: Option<String>)
    ensures
        match r {
            Some(s) => drawable(t@.rows) && s@ == table_svg(t@.rows, t@.aligns),
            None => !drawable(t@.rows),
        },
{
    try_table_svg(&t.rows, &t.aligns)
}

// ---------------------------------------------------------------------------
// Measures
// ---------------------------------------------------------------------------

/// Width and height that the header of a PNG file names.
pub open spec fn png_size(b: Seq<u8>) -> Option<(u32, u32)> {
    if b.len() >= 24 && b.take(8) == seq![0x89u8, 0x50, 0x4E, 0x47, 0x0D, 0x0A, 0x1A, 0x0A] {
        Some((be32(b, 16), be32(b, 20)))
    } else {
        None
    }
}

/// The big-endian number in four bytes.
pub open spec fn be32(b: Seq<u8>, at: int) -> u32 {
    (b[at] * 0x1000000 + b[at + 1] * 0x10000 + b[at + 2] * 0x100 + b[at + 3]) as u32
}

fn read_be32(b: &Vec<u8>, at: usize) -> (r: u32)
    requires
        at + 4 <= b@.len(),
    ensures
        r == be32(b@, at as int),
{
    let len: usize = b.len();
    proof {
        assert(at + 4 <= len);
    }
    let n: u64 = b[at] as u64 * 0x1000000 + b[at + 1] as u64 * 0x10000 + b[at + 2] as u64 * 0x100
        + b[at + 3] as u64;
    n as u32
}

/// Reads the PNG signature and the header chunk for width and height. `None`
/// if the bytes are not a recognisable PNG.
pub fn png_dimensions(bytes: &Vec<u8>) -> (r: Option<(u32, u32)>)
    ensures
        r == png_size(bytes@),
{
    if bytes.len() < 24 {
        return None;
    }
    let signature: [u8; 8] = [0x89, 0x50, 0x4E, 0x47, 0x0D, 0x0A, 0x1A, 0x0A];
    let mut i: usize = 0;
    while i < 8
        invariant
            bytes@.len() >= 24,
            i <= 8,
            signature@ == seq![0x89u8, 0x50, 0x4E, 0x47, 0x0D, 0x0A, 0x1A, 0x0A],
            forall|k: int| 0 <= k < i ==> bytes@[k] == signature@[k],
        decreases 8 - i,
    {
        if bytes[i] != signature[i] {
            proof {
                assert(bytes@.take(8)[i as int] != signature@[i as int]);
            }
            return None;
        }
        i += 1;
    }
    proof {
        assert(bytes@.take(8) =~= signature@);
    }
    Some((read_be32(bytes, 16), read_be32(bytes, 20)))
}

/// Width and height that a raster counts as: those its header names, or 900 by
/// 240 where it has no readable header.
pub open spec fn pixels(png: Seq<u8>) -> (int, int) {
    match png_size(png) {
        Some(s) => (s.0 as int, s.1 as int),
        None => (900, 240),
    }
}

/// The height of a raster on the page, in device units, as a fraction: scaled
/// down with the width where that is more than 900.
pub open spec fn scaled_height(png: Seq<u8>) -> (int, int) {
    let (w, h) = pixels(png);
    if w <= 900 {
        (h, 1)
    } else {
        (h * 900, w)
    }
}

/// Width and height of a raster on the page, in whole thousandths of a device
/// unit: scaled down to 900 units where it is wider.
pub open spec fn raster_size(png: Seq<u8>) -> (int, int) {
    let w = pixels(png).0;
    let (n, d) = scaled_height(png);
    (
        if w <= 900 {
            w * 1000
        } else {
            900000
        },
        n * 1000 / d,
    )
}

/// The clearance below an image of this height: 15 % of it, at least 40 units.
pub open spec fn gap_below(h: int) -> int {
    if h * 15 / 100 < 40000 {
        40000
    } else {
        h * 15 / 100
    }
}

/// The quotient of two numbers, rounded up.
pub open spec fn rounded_up(n: int, d: int) -> int {
    (n + d - 1) / d
}

/// The placeholder paragraphs that stand for an image and its clearance: one
/// for every 70 units or part of them. The height counts in full here, not in
/// whole thousandths.
pub open spec fn reserve_lines(png: Seq<u8>) -> int {
    let (n, d) = scaled_height(png);
    larger(rounded_up(n * 23, d * 1400), rounded_up(n + d * 40, d * 70))
}

/// The placeholder paragraphs for each table; none for a table without an
/// image.
pub open spec fn reserves(count: nat, pngs: Seq<Option<Seq<u8>>>) -> Seq<nat> {
    Seq::new(
        count,
        |i: int|
            match raster_of(pngs, i) {
                Some(png) => reserve_lines(png) as nat,
                None => 0,
            },
    )
}

/// The raster of table `i`.
pub open spec fn raster_of(pngs: Seq<Option<Seq<u8>>>, i: int) -> Option<Seq<u8>> {
    if 0 <= i < pngs.len() {
        pngs[i]
    } else {
        None
    }
}

/// The rasters by value.
pub open spec fn png_views(pngs: Seq<Option<Vec<u8>>>) -> Seq<Option<Seq<u8>>> {
    Seq::new(pngs.len(), |i: int| opt_view(pngs[i]))
}

fn pixels_of(png: &Vec<u8>) -> (r: (i128, i128))
    ensures
        (r.0 as int, r.1 as int) == pixels(png@),
        0 <= r.0 <= u32::MAX,
        0 <= r.1 <= u32::MAX,
{
    match png_dimensions(png) {
        Some(s) => (s.0 as i128, s.1 as i128),
        None => (900, 240),
    }
}

fn height_of_raster(png: &Vec<u8>) -> (r: (i128, i128))
    ensures
        (r.0 as int, r.1 as int) == scaled_height(png@),
        0 <= r.0 <= r.1 * u32::MAX,
        1 <= r.1 <= u32::MAX,
{
    let (w, h) = pixels_of(png);
    if w <= 900 {
        (h, 1)
    } else {
        proof {
            assert(h * 900 <= w * u32::MAX) by (nonlinear_arith)
                requires
                    0 <= h <= u32::MAX,
                    w > 900,
            ;
        }
        (h * 900, w)
    }
}

fn size_of_raster(png: &Vec<u8>) -> (r: (i128, i128))
    ensures
        (r.0 as int, r.1 as int) == raster_size(png@),
        0 <= r.0 <= 900000,
        0 <= r.1 <= 4294967295000,
{
    let (w, _h) = pixels_of(png);
    let (n, d) = height_of_raster(png);
    proof {
        assert(n <= 0xffff_ffff_ffff_ffff) by (nonlinear_arith)
            requires
                n <= d * u32::MAX,
                d <= u32::MAX,
        ;
        let q = n * 1000 / d as int;
        assert(0 <= q <= 4294967295000) by (nonlinear_arith)
            requires
                q == n * 1000 / d as int,
                0 <= n <= d * u32::MAX,
                d >= 1,
        ;
    }
    let h: i128 = n * 1000 / d;
    if w <= 900 {
        (w * 1000, h)
    } else {
        (900000, h)
    }
}

fn reserve_lines_of(png: &Vec<u8>) -> (r: u32)
    ensures
        r == reserve_lines(png@),
{
    let (n, d) = height_of_raster(png);
    proof {
        assert(n <= 0xffff_ffff_ffff_ffff) by (nonlinear_arith)
            requires
                n <= d * u32::MAX,
                d <= u32::MAX,
        ;
    }
    let tall: i128 = (n * 23 + d * 1400 - 1) / (d * 1400);
    let short: i128 = (n + d * 40 + d * 70 - 1) / (d * 70);
    proof {
        assert(0 <= (n * 23 + d * 1400 - 1) / (d * 1400) <= u32::MAX) by (nonlinear_arith)
            requires
                0 <= n <= d * u32::MAX,
                d >= 1,
        ;
        assert(0 <= (n + d * 40 + d * 70 - 1) / (d * 70) <= u32::MAX) by (nonlinear_arith)
            requires
                0 <= n <= d * u32::MAX,
                d >= 1,
        ;
    }
    if tall < short {
        short as u32
    } else {
        tall as u32
    }
}

fn gap_of(h: i128) -> (r: i128)
    requires
        0 <= h <= 4294967295000,
    ensures
        r == gap_below(h as int),
        40000 <= r <= 4294967295000,
{
    if h * 15 / 100 < 40000 {
        40000
    } else {
        h * 15 / 100
    }
}

/// The height of a line of text, in device units: 150 for a line of a heading,
/// 35 of a bullet, 70 of other text, and 20 for a blank line. A line wraps
/// after 50 characters.
pub open spec fn line_height(line: Seq<char>) -> nat {
    let t = trim(line);
    if t.len() == 0 {
        20
    } else {
        let per_line: nat = if t[0] == '#' {
            150
        } else if starts_with(t, "- "@) || starts_with(t, "* "@) {
            35
        } else {
            70
        };
        (t.len() + 49) / 50 * per_line
    }
}

proof fn lemma_trim_len(s: Seq<char>)
    ensures
        trim(s).len() <= s.len(),
{
    lemma_trim_start_len(s);
    lemma_trim_end_len(crate::text::trim_start(s));
}

proof fn lemma_trim_start_len(s: Seq<char>)
    ensures
        crate::text::trim_start(s).len() <= s.len(),
    decreases s.len(),
{
    if s.len() > 0 && crate::text::is_white(s[0]) {
        lemma_trim_start_len(s.skip(1));
    }
}

proof fn lemma_trim_end_len(s: Seq<char>)
    ensures
        crate::text::trim_end(s).len() <= s.len(),
    decreases s.len(),
{
    if s.len() > 0 && crate::text::is_white(s.last()) {
        lemma_trim_end_len(s.drop_last());
    }
}

fn height_of_line(line: &[char]) -> (r: u128)
    ensures
        r == line_height(line@),
        r <= 3 * line@.len() + 150,
{
    let t = trimmed(line);
    proof {
        lemma_trim_len(line@);
    }
    if t.len() == 0 {
        return 20;
    }
    let per_line: u128 = if t[0] == '#' {
        150
    } else if has_prefix(t.as_slice(), "- ") || has_prefix(t.as_slice(), "* ") {
        35
    } else {
        70
    };
    let n: u128 = (t.len() as u128 + 49) / 50;
    proof {
        assert(n * per_line <= n * 150) by (nonlinear_arith)
            requires
                per_line <= 150,
                n >= 0,
        ;
    }
    n * per_line
}

/// Per-line text-height estimate in device units.
pub fn line_height_estimate(line: &str) -> (r: u128)
    ensures
        r == line_height(line@),
{
    height_of_line(chars_of(line).as_slice())
}

// ---------------------------------------------------------------------------
// Taking the tables out
// ---------------------------------------------------------------------------

/// The number of line feeds among the first `n` bytes.
pub open spec fn line_feeds(b: Seq<u8>, n: int) -> nat
    decreases n,
{
    if n <= 0 {
        0
    } else {
        line_feeds(b, n - 1) + if n <= b.len() && b[n - 1] == 10 {
            1nat
        } else {
            0
        }
    }
}

/// The first and the last line of a source that a range of its bytes touches.
pub open spec fn line_range(md: Seq<char>, span: (usize, usize)) -> (nat, nat) {
    let b = encode_utf8(md);
    let first = line_feeds(b, span.0 as int);
    (
        first,
        if span.0 < span.1 {
            line_feeds(b, span.1 - 1)
        } else {
            first
        },
    )
}

/// The lines of each table.
pub open spec fn table_lines(md: Seq<char>, ts: Seq<TableView>) -> Seq<(nat, nat)> {
    Seq::new(ts.len(), |i: int| line_range(md, ts[i].span))
}

/// Whether a line is one line to the parser, which ends lines at a carriage
/// return too.
pub open spec fn unbroken(l: Seq<char>) -> bool {
    !trim(l).contains('\r')
}

/// Whether the header and the delimiter row of a table stand on lines of their
/// own. A table that shares them with other text stays in the text.
pub open spec fn stands_apart(ls: Seq<Seq<char>>, range: (nat, nat)) -> bool {
    range.0 < range.1 && range.0 + 1 < ls.len() && unbroken(ls[range.0 as int + 1])
}

/// Whether a line is a pipe-separated line of this table. A line without pipes
/// directly below the rows is text, though the parser adds it to the table.
pub open spec fn is_row_of(ls: Seq<Seq<char>>, range: (nat, nat), k: int) -> bool {
    &&& stands_apart(ls, range)
    &&& range.0 <= k <= range.1
    &&& ls[k].contains('|')
    &&& k == range.0 || unbroken(ls[k])
}

/// Whether a line is a pipe-separated line of a table.
pub open spec fn in_table(ls: Seq<Seq<char>>, ranges: Seq<(nat, nat)>, k: int) -> bool {
    exists|t: int| 0 <= t < ranges.len() && is_row_of(ls, #[trigger] ranges[t], k)
}

/// The zero-width space that a placeholder paragraph holds: a paragraph with
/// it takes its place on the page and shows nothing.
pub open spec fn placeholder() -> Seq<char> {
    "\u{200b}"@
}

/// `n` placeholder paragraphs, each with a blank line behind it.
pub open spec fn placeholders(n: nat) -> Seq<Seq<char>>
    decreases n,
{
    if n == 0 {
        Seq::empty()
    } else {
        placeholders((n - 1) as nat).push(placeholder()).push(Seq::empty())
    }
}

/// The placeholder paragraphs of table `k`; none for a table that stays in the
/// text.
pub open spec fn reserve_of(
    ls: Seq<Seq<char>>,
    ranges: Seq<(nat, nat)>,
    reserve: Seq<nat>,
    k: int,
) -> nat {
    if 0 <= k < reserve.len() && stands_apart(ls, ranges[k]) {
        reserve[k]
    } else {
        0
    }
}

/// The placeholders for those of the first `m` tables that start at line `k`.
pub open spec fn placeholders_at(
    ls: Seq<Seq<char>>,
    ranges: Seq<(nat, nat)>,
    reserve: Seq<nat>,
    k: int,
    m: nat,
) -> Seq<Seq<char>>
    decreases m,
{
    if m == 0 {
        Seq::empty()
    } else {
        placeholders_at(ls, ranges, reserve, k, (m - 1) as nat) + if ranges[m - 1].0 == k {
            placeholders(reserve_of(ls, ranges, reserve, m - 1))
        } else {
            Seq::empty()
        }
    }
}

/// What is left of the first `n` lines: where a table starts its placeholders,
/// and every line that is none of a table.
pub open spec fn flow(
    ls: Seq<Seq<char>>,
    ranges: Seq<(nat, nat)>,
    reserve: Seq<nat>,
    n: nat,
) -> Seq<Seq<char>>
    decreases n,
{
    if n == 0 {
        Seq::empty()
    } else {
        flow(ls, ranges, reserve, (n - 1) as nat) + placeholders_at(
            ls,
            ranges,
            reserve,
            n - 1,
            ranges.len(),
        ) + if in_table(ls, ranges, n - 1) {
            Seq::empty()
        } else {
            seq![ls[n - 1]]
        }
    }
}

/// The text of these lines, each with a line feed.
pub open spec fn with_feeds(ls: Seq<Seq<char>>) -> Seq<char>
    decreases ls.len(),
{
    if ls.len() == 0 {
        Seq::empty()
    } else {
        with_feeds(ls.drop_last()) + ls.last() + "\n"@
    }
}

/// The height of those of the first `n` lines that are none of a table.
pub open spec fn kept_height(ls: Seq<Seq<char>>, ranges: Seq<(nat, nat)>, n: nat) -> nat
    decreases n,
{
    if n == 0 {
        0
    } else {
        kept_height(ls, ranges, (n - 1) as nat) + if in_table(ls, ranges, n - 1) {
            0
        } else {
            line_height(ls[n - 1])
        }
    }
}

/// The height of the placeholders of the first `t` tables.
pub open spec fn reserved_height(
    ls: Seq<Seq<char>>,
    ranges: Seq<(nat, nat)>,
    reserve: Seq<nat>,
    t: nat,
) -> nat
    decreases t,
{
    if t == 0 {
        0
    } else {
        reserved_height(ls, ranges, reserve, (t - 1) as nat) + reserve_of(
            ls,
            ranges,
            reserve,
            t - 1,
        ) * 70
    }
}

/// The smaller of two numbers.
pub open spec fn smaller(a: nat, b: nat) -> nat {
    if a < b {
        a
    } else {
        b
    }
}

/// The height of the text before table `t`: the lines above it that are none
/// of a table, and the placeholders of the tables before it.
pub open spec fn height_before(
    ls: Seq<Seq<char>>,
    ranges: Seq<(nat, nat)>,
    reserve: Seq<nat>,
    t: int,
) -> nat {
    kept_height(ls, ranges, smaller(ranges[t].0, ls.len())) + reserved_height(
        ls,
        ranges,
        reserve,
        t as nat,
    )
}

/// The height of the text before each table.
pub open spec fn heights_before(
    ls: Seq<Seq<char>>,
    ranges: Seq<(nat, nat)>,
    reserve: Seq<nat>,
) -> Seq<nat> {
    Seq::new(ranges.len(), |t: int| height_before(ls, ranges, reserve, t))
}

proof fn lemma_with_feeds_push(ls: Seq<Seq<char>>, l: Seq<char>)
    ensures
        with_feeds(ls.push(l)) == with_feeds(ls) + l + "\n"@,
{
    assert(ls.push(l).drop_last() =~= ls);
}

proof fn lemma_with_feeds_add(a: Seq<Seq<char>>, b: Seq<Seq<char>>)
    ensures
        with_feeds(a + b) == with_feeds(a) + with_feeds(b),
    decreases b.len(),
{
    if b.len() == 0 {
        assert(a + b =~= a);
        assert(with_feeds(a) + with_feeds(b) =~= with_feeds(a));
    } else {
        assert((a + b).drop_last() =~= a + b.drop_last());
        lemma_with_feeds_add(a, b.drop_last());
        assert(with_feeds(a + b) =~= with_feeds(a) + with_feeds(b));
    }
}

fn push_placeholders(out: &mut String, n: u32)
    ensures
        final(out)@ == old(out)@ + with_feeds(placeholders(n as nat)),
{
    let ghost before = out@;
    let mut i: u32 = 0;
    proof {
        assert(before + with_feeds(placeholders(0)) =~= before);
    }
    while i < n
        invariant
            i <= n,
            out@ == before + with_feeds(placeholders(i as nat)),
        decreases n - i,
    {
        out.push_str("\u{200b}");
        out.push_str("\n");
        out.push_str("\n");
        proof {
            let p = placeholders(i as nat);
            lemma_with_feeds_push(p, placeholder());
            lemma_with_feeds_push(p.push(placeholder()), Seq::empty());
            assert(out@ =~= before + with_feeds(placeholders((i + 1) as nat)));
        }
        i += 1;
    }
}

fn count_line_feeds(b: &[u8], n: usize) -> (r: usize)
    ensures
        r == line_feeds(b@, n as int),
        r <= b@.len(),
{
    let len: usize = b.len();
    let mut count: usize = 0;
    let mut i: usize = 0;
    while i < n && i < len
        invariant
            len == b@.len(),
            i <= n,
            i <= len,
            count <= i,
            count == line_feeds(b@, i as int),
        decreases len - i,
    {
        if b[i] == 10 {
            count += 1;
        }
        i += 1;
    }
    proof {
        if i < n {
            lemma_no_feeds_behind(b@, n as int);
        }
    }
    count
}

proof fn lemma_no_feeds_behind(b: Seq<u8>, n: int)
    requires
        n >= b.len(),
    ensures
        line_feeds(b, n) == line_feeds(b, b.len() as int),
    decreases n,
{
    if n > b.len() {
        lemma_no_feeds_behind(b, n - 1);
    }
}

/// The line ranges in memory, by value.
pub open spec fn range_views(v: Seq<(usize, usize)>) -> Seq<(nat, nat)> {
    Seq::new(v.len(), |i: int| (v[i].0 as nat, v[i].1 as nat))
}

/// The first and the last line of each table of a source.
pub fn lines_of_tables(md: &str, ts: &Vec<Table>) -> (r: Vec<(usize, usize)>)
    ensures
        range_views(r@) == table_lines(md@, views(ts@)),
{
    let ghost want = table_lines(md@, views(ts@));
    let b = md.as_bytes();
    let mut out: Vec<(usize, usize)> = Vec::new();
    let mut i: usize = 0;
    proof {
        assert(views(ts@).len() == ts@.len());
        assert(range_views(out@) =~= want.take(0));
    }
    while i < ts.len()
        invariant
            b@ == encode_utf8(md@),
            want == table_lines(md@, views(ts@)),
            want.len() == ts@.len(),
            i <= ts@.len(),
            range_views(out@) == want.take(i as int),
        decreases ts@.len() - i,
    {
        let span = ts[i].span;
        let first = count_line_feeds(b, span.0);
        let last = if span.0 < span.1 {
            count_line_feeds(b, span.1 - 1)
        } else {
            first
        };
        proof {
            assert(views(ts@)[i as int] == ts@[i as int]@);
            assert(want[i as int] == (first as nat, last as nat));
            assert(range_views(out@.push((first, last))) =~= range_views(out@).push(
                (first as nat, last as nat),
            ));
            assert(want.take(i + 1) =~= want.take(i as int).push(want[i as int]));
        }
        out.push((first, last));
        i += 1;
    }
    proof {
        assert(want.take(i as int) =~= want);
    }
    out
}

fn is_unbroken(line: &Vec<char>) -> (r: bool)
    ensures
        r == unbroken(line@),
{
    !has_char(trimmed(line.as_slice()).as_slice(), '\r')
}

fn table_stands_apart(ls: &Vec<Vec<char>>, range: (usize, usize)) -> (r: bool)
    ensures
        r == stands_apart(views(ls@), (range.0 as nat, range.1 as nat)),
{
    proof {
        assert(views(ls@).len() == ls@.len());
    }
    if range.0 < range.1 && range.0 + 1 < ls.len() {
        proof {
            assert(views(ls@)[range.0 + 1] == ls@[range.0 + 1]@);
        }
        is_unbroken(&ls[range.0 + 1])
    } else {
        false
    }
}

fn belongs_to_table(ls: &Vec<Vec<char>>, ranges: &Vec<(usize, usize)>, k: usize) -> (r: bool)
    requires
        k < ls@.len(),
    ensures
        r == in_table(views(ls@), range_views(ranges@), k as int),
{
    let ghost lv = views(ls@);
    let ghost rv = range_views(ranges@);
    let piped = has_char(ls[k].as_slice(), '|');
    let whole = is_unbroken(&ls[k]);
    let mut t: usize = 0;
    proof {
        assert(lv[k as int] == ls@[k as int]@);
    }
    while t < ranges.len()
        invariant
            lv == views(ls@),
            rv == range_views(ranges@),
            piped == lv[k as int].contains('|'),
            whole == unbroken(lv[k as int]),
            t <= ranges@.len(),
            forall|u: int| 0 <= u < t ==> !is_row_of(lv, #[trigger] rv[u], k as int),
        decreases ranges@.len() - t,
    {
        let range = ranges[t];
        proof {
            assert(rv[t as int] == (range.0 as nat, range.1 as nat));
        }
        if piped && range.0 <= k && k <= range.1 && (whole || k == range.0) && table_stands_apart(
            ls,
            range,
        ) {
            proof {
                assert(is_row_of(lv, rv[t as int], k as int));
            }
            return true;
        }
        t += 1;
    }
    false
}

fn reserve_at(
    ls: &Vec<Vec<char>>,
    ranges: &Vec<(usize, usize)>,
    reserve: &Vec<u32>,
    k: usize,
) -> (r: u32)
    requires
        k < ranges@.len(),
    ensures
        r == reserve_of(views(ls@), range_views(ranges@), small_nats(reserve@), k as int),
{
    if k < reserve.len() && table_stands_apart(ls, ranges[k]) {
        reserve[k]
    } else {
        0
    }
}

fn push_placeholders_at(
    out: &mut String,
    ls: &Vec<Vec<char>>,
    ranges: &Vec<(usize, usize)>,
    reserve: &Vec<u32>,
    k: usize,
)
    ensures
        final(out)@ == old(out)@ + with_feeds(
            placeholders_at(
                views(ls@),
                range_views(ranges@),
                small_nats(reserve@),
                k as int,
                ranges@.len(),
            ),
        ),
{
    let ghost before = out@;
    let ghost lv = views(ls@);
    let ghost rv = range_views(ranges@);
    let ghost rs = small_nats(reserve@);
    let mut t: usize = 0;
    proof {
        assert(before + with_feeds(placeholders_at(lv, rv, rs, k as int, 0)) =~= before);
    }
    while t < ranges.len()
        invariant
            lv == views(ls@),
            rv == range_views(ranges@),
            rs == small_nats(reserve@),
            t <= ranges@.len(),
            out@ == before + with_feeds(placeholders_at(lv, rv, rs, k as int, t as nat)),
        decreases ranges@.len() - t,
    {
        let ghost p = placeholders_at(lv, rv, rs, k as int, t as nat);
        if ranges[t].0 == k {
            let n: u32 = reserve_at(ls, ranges, reserve, t);
            push_placeholders(out, n);
            proof {
                lemma_with_feeds_add(p, placeholders(n as nat));
                assert(out@ =~= before + with_feeds(p + placeholders(n as nat)));
            }
        } else {
            proof {
                assert(p + Seq::<Seq<char>>::empty() =~= p);
            }
        }
        t += 1;
    }
}

/// More than the height of any text that fits in memory.
pub const MAX_HEIGHT: u128 = 0x4000_0000_0000_0000_0000_0000_0000;

/// The total length of texts.
pub open spec fn total_len(ls: Seq<Seq<char>>) -> nat
    decreases ls.len(),
{
    if ls.len() == 0 {
        0
    } else {
        total_len(ls.drop_last()) + ls.last().len()
    }
}

proof fn lemma_total_update(ls: Seq<Seq<char>>, l: Seq<char>)
    requires
        ls.len() > 0,
    ensures
        total_len(ls.update(ls.len() - 1, l)) == total_len(ls) - ls.last().len() + l.len(),
{
    assert(ls.update(ls.len() - 1, l).drop_last() =~= ls.drop_last());
}

proof fn lemma_split_total(s: Seq<char>, sep: char)
    ensures
        total_len(split(s, sep)) + split(s, sep).len() == s.len() + 1,
    decreases s.len(),
{
    if s.len() == 0 {
        let p = seq![Seq::<char>::empty()];
        assert(p.drop_last() =~= Seq::<Seq<char>>::empty());
        assert(total_len(Seq::<Seq<char>>::empty()) == 0);
        assert(p.last().len() == 0);
    } else {
        let h = split(s.drop_last(), sep);
        lemma_split_total(s.drop_last(), sep);
        lemma_split_nonempty(s.drop_last(), sep);
        if s.last() == sep {
            assert(h.push(Seq::empty()).drop_last() =~= h);
        } else {
            lemma_total_update(h, h.last().push(s.last()));
        }
    }
}

proof fn lemma_total_prefix(ls: Seq<Seq<char>>, k: int)
    requires
        0 <= k <= ls.len(),
    ensures
        total_len(ls.take(k)) <= total_len(ls),
    decreases ls.len() - k,
{
    if k < ls.len() {
        assert(ls.take(k + 1).drop_last() =~= ls.take(k));
        lemma_total_prefix(ls, k + 1);
    } else {
        assert(ls.take(k) =~= ls);
    }
}

proof fn lemma_total_shorter(a: Seq<Seq<char>>, b: Seq<Seq<char>>)
    requires
        a.len() == b.len(),
        forall|i: int| 0 <= i < a.len() ==> (#[trigger] a[i]).len() <= b[i].len(),
    ensures
        total_len(a) <= total_len(b),
    decreases a.len(),
{
    if a.len() > 0 {
        assert(a[a.len() - 1].len() <= b[a.len() - 1].len());
        assert forall|i: int| 0 <= i < a.drop_last().len() implies (#[trigger] a.drop_last()[i]).len()
            <= b.drop_last()[i].len() by {
            assert(a[i].len() <= b[i].len());
        }
        lemma_total_shorter(a.drop_last(), b.drop_last());
    }
}

/// The lines of a text are together no longer than the text.
proof fn lemma_lines_total(s: Seq<char>)
    ensures
        total_len(lines(s)) <= s.len(),
        lines(s).len() <= s.len() + 1,
{
    let p = split(s, '\n');
    lemma_split_total(s, '\n');
    lemma_split_nonempty(s, '\n');
    let n = lines(s).len() as int;
    let q = p.take(n);
    lemma_total_prefix(p, n);
    assert forall|i: int| 0 <= i < n implies (#[trigger] lines(s)[i]).len() <= q[i].len() by {
        if i < p.len() - 1 {
            assert(lines(s)[i] == strip_cr(p[i]));
        }
    }
    lemma_total_shorter(lines(s), q);
}

/// Removes the pipe-separated lines of the tables from a Markdown text so the
/// typed-text path does not render them as literal text, and puts `reserve[n]` placeholder
/// paragraphs in the place of table `n`. Also returns the height of the text
/// before each table, the placeholders of earlier tables included.
pub fn strip_table_lines_with_heights(
    md: &str,
    ranges: &Vec<(usize, usize)>,
    reserve: &Vec<u32>,
) -> (r: (String, Vec<u128>))
    ensures
        ({
            let ls = lines(md@);
            let rv = range_views(ranges@);
            let rs = small_nats(reserve@);
            &&& r.0@ == with_feeds(flow(ls, rv, rs, ls.len()))
            &&& wide_nats(r.1@) == heights_before(ls, rv, rs)
        }),
        forall|i: int| 0 <= i < r.1@.len() ==> #[trigger] r.1@[i] <= MAX_HEIGHT,
{
    let ghost rv = range_views(ranges@);
    let ghost rs = small_nats(reserve@);
    let cs = chars_of(md);
    let ls = lines_of(cs.as_slice());
    let ghost all = lines(md@);
    let total: usize = cs.len();
    let n: usize = ls.len();
    proof {
        assert(views(ls@).len() == ls@.len());
        lemma_lines_total(md@);
    }
    let mut out = String::new();
    let mut heights: Vec<u128> = vec![0u128];
    let mut k: usize = 0;
    proof {
        assert(out@ =~= with_feeds(flow(all, rv, rs, 0)));
    }
    while k < n
        invariant
            all == views(ls@),
            all.len() == n,
            n == ls@.len(),
            rv == range_views(ranges@),
            rs == small_nats(reserve@),
            total_len(all) <= total,
            k <= n,
            out@ == with_feeds(flow(all, rv, rs, k as nat)),
            heights@.len() == k + 1,
            forall|i: int|
                0 <= i <= k ==> #[trigger] heights@[i] == kept_height(all, rv, i as nat)
                    && heights@[i] <= 3 * total_len(all.take(i)) + 150 * i,
        decreases n - k,
    {
        let ghost f = flow(all, rv, rs, k as nat);
        let ghost p = placeholders_at(all, rv, rs, k as int, rv.len());
        proof {
            assert(all[k as int] == ls@[k as int]@);
            assert(all.take(k + 1).drop_last() =~= all.take(k as int));
            assert(all.take(k + 1).last() == all[k as int]);
            lemma_total_prefix(all, k + 1);
            lemma_with_feeds_add(f, p);
        }
        push_placeholders_at(&mut out, &ls, ranges, reserve, k);
        let h: u128 = heights[k];
        if belongs_to_table(&ls, ranges, k) {
            proof {
                assert(f + p + Seq::<Seq<char>>::empty() =~= f + p);
            }
            heights.push(h);
        } else {
            out.push_str(string_of_line(&ls[k]).as_str());
            out.push_str("\n");
            proof {
                lemma_with_feeds_push(f + p, all[k as int]);
                assert(f + p + seq![all[k as int]] =~= (f + p).push(all[k as int]));
            }
            heights.push(h + height_of_line(ls[k].as_slice()));
        }
        k += 1;
    }
    let ghost want = heights_before(all, rv, rs);
    let mut before: Vec<u128> = Vec::new();
    let mut reserved: u128 = 0;
    let mut t: usize = 0;
    proof {
        assert(wide_nats(before@) =~= want.take(0));
    }
    while t < ranges.len()
        invariant
            all == views(ls@),
            all.len() == n,
            rv == range_views(ranges@),
            rs == small_nats(reserve@),
            total_len(all) <= total,
            heights@.len() == n + 1,
            forall|i: int|
                0 <= i <= n ==> #[trigger] heights@[i] == kept_height(all, rv, i as nat)
                    && heights@[i] <= 3 * total_len(all.take(i)) + 150 * i,
            want == heights_before(all, rv, rs),
            t <= ranges@.len(),
            reserved == reserved_height(all, rv, rs, t as nat),
            reserved <= t * 0x100_0000_0000,
            wide_nats(before@) == want.take(t as int),
            forall|i: int| 0 <= i < before@.len() ==> #[trigger] before@[i] <= MAX_HEIGHT,
        decreases ranges@.len() - t,
    {
        let first: usize = if ranges[t].0 < n {
            ranges[t].0
        } else {
            n
        };
        proof {
            assert(heights@[first as int] == kept_height(all, rv, first as nat));
            lemma_total_prefix(all, first as int);
            assert(first as nat == smaller(rv[t as int].0, all.len()));
        }
        let h: u128 = heights[first] + reserved;
        proof {
            assert(want[t as int] == h);
            assert(wide_nats(before@.push(h)) =~= wide_nats(before@).push(h as nat));
            assert(want.take(t + 1) =~= want.take(t as int).push(want[t as int]));
        }
        before.push(h);
        reserved = reserved + reserve_at(&ls, ranges, reserve, t) as u128 * 70;
        t += 1;
    }
    proof {
        assert(want.take(t as int) =~= want);
    }
    (out, before)
}

/// A sequence of small machine integers as natural numbers.
pub open spec fn small_nats(v: Seq<u32>) -> Seq<nat> {
    Seq::new(v.len(), |i: int| v[i] as nat)
}

/// A sequence of wide machine integers as natural numbers.
pub open spec fn wide_nats(v: Seq<u128>) -> Seq<nat> {
    Seq::new(v.len(), |i: int| v[i] as nat)
}

fn string_of_line(line: &Vec<char>) -> (r: String)
    ensures
        r@ == line@,
{
    let s = crate::text::string_of(line.as_slice(), 0, line.len());
    proof {
        assert(s@ =~= line@);
    }
    s
}

// ---------------------------------------------------------------------------
// Putting the images in
// ---------------------------------------------------------------------------

/// One image to embed on a page. Coordinates are in thousandths of a device
/// unit; the origin is the middle of the top of the page.
#[derive(Debug)]
pub struct PageImageInput {
    pub png_bytes: Vec<u8>,
    pub x: i128,
    pub y: i128,
    pub w: i128,
    pub h: i128,
}

/// The mathematical value of a [`PageImageInput`].
pub struct ImageView {
    pub png_bytes: Seq<u8>,
    pub x: int,
    pub y: int,
    pub w: int,
    pub h: int,
}

impl View for PageImageInput {
    type V = ImageView;

    open spec fn view(&self) -> ImageView {
        ImageView {
            png_bytes: self.png_bytes@,
            x: self.x as int,
            y: self.y as int,
            w: self.w as int,
            h: self.h as int,
        }
    }
}

/// The images that have been placed, and the height below which the next one
/// may start.
pub struct Placing {
    pub images: Seq<ImageView>,
    pub cursor: int,
}

/// The larger of two numbers.
pub open spec fn larger(a: int, b: int) -> int {
    if a < b {
        b
    } else {
        a
    }
}

/// Where the image of a table belongs by the text before it: below that text,
/// which starts at the top of the text frame.
pub open spec fn text_y(before: nat) -> int {
    larger((TEXT_TOP + before + 80) * 1000, 280000)
}

/// The height of the text before table `k`.
pub open spec fn before_table(before: Seq<nat>, k: int) -> nat {
    if 0 <= k < before.len() {
        before[k]
    } else {
        0
    }
}

/// The placing of the images of the first `n` tables: centred, each below the
/// text before its table and below the image before it.
pub open spec fn placing(n: nat, pngs: Seq<Option<Seq<u8>>>, before: Seq<nat>) -> Placing
    decreases n,
{
    if n == 0 {
        Placing { images: Seq::empty(), cursor: 280000 }
    } else {
        let p = placing((n - 1) as nat, pngs, before);
        match raster_of(pngs, n - 1) {
            None => p,
            Some(png) => {
                let (w, h) = raster_size(png);
                let y = larger(text_y(before_table(before, n - 1)), p.cursor);
                Placing {
                    images: p.images.push(ImageView { png_bytes: png, x: -(w / 2), y, w, h }),
                    cursor: y + h + gap_below(h),
                }
            },
        }
    }
}

fn raster_at(pngs: &Vec<Option<Vec<u8>>>, i: usize) -> (r: Option<&Vec<u8>>)
    ensures
        match r {
            Some(png) => raster_of(png_views(pngs@), i as int) == Some(png@),
            None => raster_of(png_views(pngs@), i as int) is None,
        },
{
    if i < pngs.len() {
        match &pngs[i] {
            Some(png) => Some(png),
            None => None,
        }
    } else {
        None
    }
}

fn place_images(count: usize, pngs: &Vec<Option<Vec<u8>>>, before: &Vec<u128>) -> (r: Vec<
    PageImageInput,
>)
    requires
        forall|i: int| 0 <= i < before@.len() ==> #[trigger] before@[i] <= MAX_HEIGHT,
    ensures
        views(r@) == placing(count as nat, png_views(pngs@), wide_nats(before@)).images,
{
    let ghost pv = png_views(pngs@);
    let ghost bv = wide_nats(before@);
    let mut out: Vec<PageImageInput> = Vec::new();
    let mut cursor: i128 = 280000;
    let mut k: usize = 0;
    proof {
        assert(views(out@) =~= Seq::<ImageView>::empty());
    }
    while k < count
        invariant
            pv == png_views(pngs@),
            bv == wide_nats(before@),
            forall|i: int| 0 <= i < before@.len() ==> #[trigger] before@[i] <= MAX_HEIGHT,
            k <= count,
            0 <= cursor <= (MAX_HEIGHT + 200) * 1000 + 280000 + 0x1000_0000_0000 * k,
            views(out@) == placing(k as nat, pv, bv).images,
            cursor == placing(k as nat, pv, bv).cursor,
        decreases count - k,
    {
        match raster_at(pngs, k) {
            None => {},
            Some(png) => {
                let (w, h) = size_of_raster(png);
                let h_before: i128 = if k < before.len() {
                    before[k] as i128
                } else {
                    0
                };
                let text: i128 = (TEXT_TOP as i128 + h_before + 80) * 1000;
                let text: i128 = if text < 280000 {
                    280000
                } else {
                    text
                };
                let y: i128 = if text < cursor {
                    cursor
                } else {
                    text
                };
                let png_bytes = copy_bytes(png.as_slice());
                let image = PageImageInput { png_bytes, x: -(w / 2), y, w, h };
                proof {
                    lemma_views_push(out@, image);
                    assert(h_before == before_table(bv, k as int));
                }
                out.push(image);
                cursor = y + h + gap_of(h);
            },
        }
        k += 1;
    }
    out
}

fn reserves_of(count: usize, pngs: &Vec<Option<Vec<u8>>>) -> (r: Vec<u32>)
    ensures
        small_nats(r@) == reserves(count as nat, png_views(pngs@)),
{
    let ghost want = reserves(count as nat, png_views(pngs@));
    let mut out: Vec<u32> = Vec::new();
    let mut k: usize = 0;
    proof {
        assert(small_nats(out@) =~= want.take(0));
    }
    while k < count
        invariant
            want == reserves(count as nat, png_views(pngs@)),
            k <= count,
            small_nats(out@) == want.take(k as int),
        decreases count - k,
    {
        let n: u32 = match raster_at(pngs, k) {
            Some(png) => reserve_lines_of(png),
            None => 0,
        };
        proof {
            assert(n == want[k as int]);
            assert(small_nats(out@.push(n)) =~= small_nats(out@).push(n as nat));
            assert(want.take(k + 1) =~= want.take(k as int).push(want[k as int]));
        }
        out.push(n);
        k += 1;
    }
    proof {
        assert(want.take(k as int) =~= want);
    }
    out
}

/// One Markdown page in a multi-page notebook.
#[derive(Debug)]
pub struct PageInput {
    pub markdown: String,
    /// PNG images to embed on this page.
    pub images: Vec<PageImageInput>,
}

/// The mathematical value of a [`PageInput`].
pub struct PageInputView {
    pub markdown: Seq<char>,
    pub images: Seq<ImageView>,
}

impl View for PageInput {
    type V = PageInputView;

    open spec fn view(&self) -> PageInputView {
        PageInputView { markdown: self.markdown@, images: views(self.images@) }
    }
}

/// The lines of the page of a source with these tables and rasters of them.
pub open spec fn page_lines(
    md: Seq<char>,
    ts: Seq<TableView>,
    pngs: Seq<Option<Seq<u8>>>,
) -> Seq<Seq<char>> {
    flow(lines(md), table_lines(md, ts), reserves(ts.len(), pngs), lines(md).len())
}

/// The page of a source with these tables and rasters of them.
pub open spec fn page_input(
    md: Seq<char>,
    ts: Seq<TableView>,
    pngs: Seq<Option<Seq<u8>>>,
) -> PageInputView {
    let before = heights_before(lines(md), table_lines(md, ts), reserves(ts.len(), pngs));
    PageInputView {
        markdown: with_feeds(page_lines(md, ts, pngs)),
        images: placing(ts.len(), pngs, before).images,
    }
}

/// The tables that the parser finds in a source.
pub open spec fn source_tables(md: Seq<char>) -> Seq<TableView> {
    tables(md_events(md, TABLES))
}

/// Lays out the page of a source with these tables.
pub fn lay_out_page(md: &str, ts: &Vec<Table>, pngs: &Vec<Option<Vec<u8>>>) -> (r: PageInput)
    ensures
        r@ == page_input(md@, views(ts@), png_views(pngs@)),
{
    proof {
        assert(views(ts@).len() == ts@.len());
    }
    let reserve = reserves_of(ts.len(), pngs);
    let ranges = lines_of_tables(md, ts);
    let (markdown, before) = strip_table_lines_with_heights(md, &ranges, &reserve);
    let images = place_images(ts.len(), pngs, &before);
    PageInput { markdown, images }
}

/// The rasters of page `i`.
pub open spec fn rasters_of_page(
    pngs: Seq<Vec<Option<Vec<u8>>>>,
    i: int,
) -> Seq<Option<Seq<u8>>> {
    if 0 <= i < pngs.len() {
        png_views(pngs[i]@)
    } else {
        Seq::empty()
    }
}

/// The pages of a source: one for each of its parts, with the part's own tables
/// and rasters.
pub open spec fn pages_input(
    md: Seq<char>,
    pngs: Seq<Vec<Option<Vec<u8>>>>,
) -> Seq<PageInputView> {
    Seq::new(
        split_pages(md).len(),
        |i: int|
            page_input(
                split_pages(md)[i],
                source_tables(split_pages(md)[i]),
                rasters_of_page(pngs, i),
            ),
    )
}

impl PageInput {
    /// Builds a single page from Markdown; see
    /// [`Self::from_markdown_with_tables`].
    pub fn from_markdown(markdown: &str, pngs: &Vec<Option<Vec<u8>>>) -> (r: Self)
        ensures
            r@ == page_input(markdown@, source_tables(markdown@), png_views(pngs@)),
    {
        Self::from_markdown_with_tables(markdown, pngs)
    }

    /// Builds a page from Markdown without any table handling.
    pub fn from_markdown_raw(markdown: &str) -> (r: Self)
        ensures
            r@ == (PageInputView { markdown: markdown@, images: Seq::empty() }),
    {
        let r = PageInput { markdown: markdown.to_owned(), images: Vec::new() };
        proof {
            assert(r@.images =~= Seq::<ImageView>::empty());
        }
        r
    }

    /// Builds a page from Markdown with its tables taken out of the text and
    /// embedded as images. `pngs` holds the raster of each table, as
    /// [`markdown_tables`] lists them.
    pub fn from_markdown_with_tables(markdown: &str, pngs: &Vec<Option<Vec<u8>>>) -> (r: Self)
        ensures
            r@ == page_input(markdown@, source_tables(markdown@), png_views(pngs@)),
    {
        let ts = markdown_tables(markdown);
        lay_out_page(markdown, &ts, pngs)
    }

    /// Splits a source into pages on `---` horizontal-rule lines. `pngs` holds
    /// the rasters of the tables of each page.
    pub fn pages_from_markdown(markdown: &str, pngs: &Vec<Vec<Option<Vec<u8>>>>) -> (r: Vec<Self>)
        ensures
            views(r@) == pages_input(markdown@, pngs@),
            views(r@) == Seq::new(
                split_pages(markdown@).len(),
                |i: int|
                    page_input(
                        split_pages(markdown@)[i],
                        source_tables(split_pages(markdown@)[i]),
                        rasters_of_page(pngs@, i),
                    ),
            ),
    {
        let chunks = split_on_hr(markdown);
        let none: Vec<Option<Vec<u8>>> = Vec::new();
        let ghost cv = split_pages(markdown@);
        let ghost want = Seq::new(
            cv.len(),
            |i: int| page_input(cv[i], source_tables(cv[i]), rasters_of_page(pngs@, i)),
        );
        let mut out: Vec<Self> = Vec::new();
        let mut i: usize = 0;
        proof {
            assert(views(chunks@).len() == chunks@.len());
            assert(png_views(none@) =~= Seq::<Option<Seq<u8>>>::empty());
            assert(views(out@) =~= want.take(0));
        }
        while i < chunks.len()
            invariant
                cv == views(chunks@),
                chunks@.len() == cv.len(),
                png_views(none@) == Seq::<Option<Seq<u8>>>::empty(),
                want == Seq::new(
                    cv.len(),
                    |k: int| page_input(cv[k], source_tables(cv[k]), rasters_of_page(pngs@, k)),
                ),
                i <= chunks@.len(),
                views(out@) == want.take(i as int),
            decreases chunks@.len() - i,
        {
            let page = if i < pngs.len() {
                Self::from_markdown_with_tables(chunks[i].as_str(), &pngs[i])
            } else {
                Self::from_markdown_with_tables(chunks[i].as_str(), &none)
            };
            proof {
                assert(cv[i as int] == chunks@[i as int]@);
                lemma_views_push(out@, page);
                assert(want.take(i + 1) =~= want.take(i as int).push(want[i as int]));
            }
            out.push(page);
            i += 1;
        }
        proof {
            assert(want.take(i as int) =~= want);
        }
        out
    }
}

// ---------------------------------------------------------------------------
// Laws
// ---------------------------------------------------------------------------

proof fn lemma_raster_size(png: Seq<u8>)
    ensures
        raster_size(png).0 >= 0,
        raster_size(png).1 >= 0,
        scaled_height(png).0 >= 0,
        scaled_height(png).1 >= 1,
{
    let (n, d) = scaled_height(png);
    assert(n * 1000 / d >= 0) by (nonlinear_arith)
        requires
            n >= 0,
            d >= 1,
    ;
}

spec fn above_cursor(p: Placing) -> bool {
    forall|i: int| 0 <= i < p.images.len() ==> (#[trigger] p.images[i]).y + p.images[i].h <= p.cursor
}

proof fn lemma_placed_above_cursor(n: nat, pngs: Seq<Option<Seq<u8>>>, before: Seq<nat>)
    ensures
        above_cursor(placing(n, pngs, before)),
    decreases n,
{
    if n > 0 {
        let p = placing((n - 1) as nat, pngs, before);
        let q = placing(n, pngs, before);
        lemma_placed_above_cursor((n - 1) as nat, pngs, before);
        match raster_of(pngs, n - 1) {
            None => {
                assert(q == p);
            },
            Some(png) => {
                lemma_raster_size(png);
                assert forall|i: int| 0 <= i < q.images.len() implies (#[trigger] q.images[i]).y
                    + q.images[i].h <= q.cursor by {
                    if i < p.images.len() {
                        assert(q.images[i] == p.images[i]);
                    }
                }
            },
        }
    }
}

/// The images of tables do not overlap: each starts at or below the bottom of
/// every image before it.
pub proof fn law_tables_do_not_overlap(
    n: nat,
    pngs: Seq<Option<Seq<u8>>>,
    before: Seq<nat>,
    i: int,
    j: int,
)
    requires
        0 <= i < j < placing(n, pngs, before).images.len(),
    ensures
        placing(n, pngs, before).images[j].y >= placing(n, pngs, before).images[i].y + placing(
            n,
            pngs,
            before,
        ).images[i].h,
    decreases n,
{
    if n > 0 {
        let p = placing((n - 1) as nat, pngs, before);
        let q = placing(n, pngs, before);
        match raster_of(pngs, n - 1) {
            None => law_tables_do_not_overlap((n - 1) as nat, pngs, before, i, j),
            Some(png) => {
                assert(q.images[i] == p.images[i]);
                if j < p.images.len() {
                    assert(q.images[j] == p.images[j]);
                    law_tables_do_not_overlap((n - 1) as nat, pngs, before, i, j);
                } else {
                    lemma_placed_above_cursor((n - 1) as nat, pngs, before);
                    assert(p.images[i].y + p.images[i].h <= p.cursor);
                }
            },
        }
    }
}

/// Every raster becomes an image with its own bytes, below the text before its
/// table.
pub proof fn law_image_sits_below_its_text(
    n: nat,
    pngs: Seq<Option<Seq<u8>>>,
    before: Seq<nat>,
    png: Seq<u8>,
)
    requires
        n > 0,
        raster_of(pngs, n - 1) == Some(png),
    ensures
        placing(n, pngs, before).images.len() > 0,
        placing(n, pngs, before).images.last().png_bytes == png,
        placing(n, pngs, before).images.last().y >= (TEXT_TOP + before_table(before, n - 1) + 80)
            * 1000,
{
}

/// The placeholder paragraphs are at least as tall as the image they stand for
/// and its clearance.
pub proof fn law_reserved_space_suffices(png: Seq<u8>)
    ensures
        reserve_lines(png) * 70000 >= raster_size(png).1 + gap_below(raster_size(png).1),
{
    lemma_raster_size(png);
    let (n, d) = scaled_height(png);
    let h = n * 1000 / d;
    let tall = (n * 23 + d * 1400 - 1) / (d * 1400);
    let short = (n + d * 40 + d * 70 - 1) / (d * 70);
    assert(h * d <= n * 1000) by (nonlinear_arith)
        requires
            h == n * 1000 / d,
            d >= 1,
    ;
    assert(tall * 1400 * d >= n * 23) by (nonlinear_arith)
        requires
            tall == (n * 23 + d * 1400 - 1) / (d * 1400),
            d >= 1,
    ;
    assert(short * 70 * d >= n + d * 40) by (nonlinear_arith)
        requires
            short == (n + d * 40 + d * 70 - 1) / (d * 70),
            d >= 1,
    ;
    assert(tall * 7000000 >= h * 115) by (nonlinear_arith)
        requires
            tall * 1400 * d >= n * 23,
            h * d <= n * 1000,
            d >= 1,
    ;
    assert(short * 70000 >= h + 40000) by (nonlinear_arith)
        requires
            short * 70 * d >= n + d * 40,
            h * d <= n * 1000,
            d >= 1,
    ;
}

proof fn lemma_placeholders(n: nat, i: int)
    requires
        0 <= i < placeholders(n).len(),
    ensures
        placeholders(n)[i] == placeholder() || placeholders(n)[i].len() == 0,
    decreases n,
{
    if i < placeholders((n - 1) as nat).len() {
        lemma_placeholders((n - 1) as nat, i);
    }
}

proof fn lemma_placeholders_at(
    ls: Seq<Seq<char>>,
    ranges: Seq<(nat, nat)>,
    reserve: Seq<nat>,
    k: int,
    m: nat,
    i: int,
)
    requires
        0 <= i < placeholders_at(ls, ranges, reserve, k, m).len(),
    ensures
        placeholders_at(ls, ranges, reserve, k, m)[i] == placeholder() || placeholders_at(
            ls,
            ranges,
            reserve,
            k,
            m,
        )[i].len() == 0,
    decreases m,
{
    let p = placeholders_at(ls, ranges, reserve, k, (m - 1) as nat);
    if i < p.len() {
        lemma_placeholders_at(ls, ranges, reserve, k, (m - 1) as nat, i);
    } else {
        lemma_placeholders(reserve_of(ls, ranges, reserve, m - 1), i - p.len());
    }
}

/// Whether a line is a placeholder, empty, or one of the first `n` lines of a
/// source that are none of a table.
pub open spec fn is_flow_line(
    ls: Seq<Seq<char>>,
    ranges: Seq<(nat, nat)>,
    n: nat,
    l: Seq<char>,
) -> bool {
    ||| l == placeholder()
    ||| l.len() == 0
    ||| exists|k: int| 0 <= k < n && !in_table(ls, ranges, k) && #[trigger] ls[k] == l
}

proof fn lemma_flow_lines(
    ls: Seq<Seq<char>>,
    ranges: Seq<(nat, nat)>,
    reserve: Seq<nat>,
    n: nat,
    i: int,
)
    requires
        0 <= i < flow(ls, ranges, reserve, n).len(),
    ensures
        is_flow_line(ls, ranges, n, flow(ls, ranges, reserve, n)[i]),
    decreases n,
{
    let f = flow(ls, ranges, reserve, (n - 1) as nat);
    let p = placeholders_at(ls, ranges, reserve, n - 1, ranges.len());
    let l = flow(ls, ranges, reserve, n)[i];
    if i < f.len() {
        assert(l == f[i]);
        lemma_flow_lines(ls, ranges, reserve, (n - 1) as nat, i);
    } else if i < f.len() + p.len() {
        lemma_placeholders_at(ls, ranges, reserve, n - 1, ranges.len(), i - f.len());
    } else {
        assert(l == ls[n - 1]);
    }
}

proof fn lemma_flow_keeps(
    ls: Seq<Seq<char>>,
    ranges: Seq<(nat, nat)>,
    reserve: Seq<nat>,
    n: nat,
    k: int,
)
    requires
        0 <= k < n,
        !in_table(ls, ranges, k),
    ensures
        flow(ls, ranges, reserve, n).contains(ls[k]),
    decreases n,
{
    let r = flow(ls, ranges, reserve, n);
    let f = flow(ls, ranges, reserve, (n - 1) as nat);
    if k < n - 1 {
        lemma_flow_keeps(ls, ranges, reserve, (n - 1) as nat, k);
        let i = choose|i: int| 0 <= i < f.len() && f[i] == ls[k];
        assert(r[i] == ls[k]);
    } else {
        assert(r[r.len() - 1] == ls[k]);
    }
}

/// No pipe-separated line of a table that the parser reports is left in the
/// text of its page: every line of the text is a placeholder, empty, or a line
/// of the source that is none of those; and every such line of the source is
/// there.
pub proof fn law_no_table_line_is_left(md: Seq<char>, pngs: Seq<Option<Seq<u8>>>)
    ensures
        ({
            let ts = source_tables(md);
            let ranges = table_lines(md, ts);
            let page = page_lines(md, ts, pngs);
            &&& page_input(md, ts, pngs).markdown == with_feeds(page)
            &&& forall|i: int|
                0 <= i < page.len() ==> is_flow_line(
                    lines(md),
                    ranges,
                    lines(md).len(),
                    #[trigger] page[i],
                )
            &&& forall|k: int|
                0 <= k < lines(md).len() && !in_table(lines(md), ranges, k) ==> page.contains(
                    #[trigger] lines(md)[k],
                )
        }),
{
    let ts = source_tables(md);
    let ls = lines(md);
    let ranges = table_lines(md, ts);
    let reserve = reserves(ts.len(), pngs);
    let page = page_lines(md, ts, pngs);
    assert forall|i: int| 0 <= i < page.len() implies is_flow_line(
        ls,
        ranges,
        ls.len(),
        #[trigger] page[i],
    ) by {
        lemma_flow_lines(ls, ranges, reserve, ls.len(), i);
    }
    assert forall|k: int| 0 <= k < ls.len() && !in_table(ls, ranges, k) implies page.contains(
        #[trigger] ls[k],
    ) by {
        lemma_flow_keeps(ls, ranges, reserve, ls.len(), k);
    }
}

/// Whether the tables stand below each other, as the parser lists them.
pub open spec fn in_order(ranges: Seq<(nat, nat)>) -> bool {
    forall|u: int, v: int|
        #![trigger ranges[u], ranges[v]]
        0 <= u < v < ranges.len() ==> ranges[u].1 < ranges[v].0
}

proof fn lemma_feeds_ascend(b: Seq<u8>, m: int, n: int)
    requires
        m <= n,
    ensures
        line_feeds(b, m) <= line_feeds(b, n),
    decreases n - m,
{
    if m < n {
        lemma_feeds_ascend(b, m, n - 1);
    }
}

pub proof fn lemma_feeds_add(a: Seq<u8>, b: Seq<u8>, n: int)
    requires
        0 <= n,
    ensures
        n <= a.len() ==> line_feeds(a + b, n) == line_feeds(a, n),
        n >= a.len() ==> line_feeds(a + b, n) == line_feeds(a, a.len() as int) + line_feeds(
            b,
            n - a.len(),
        ),
    decreases n,
{
    if n > 0 {
        lemma_feeds_add(a, b, n - 1);
    }
}

proof fn lemma_range_ascends(md: Seq<char>, span: (usize, usize))
    ensures
        line_range(md, span).0 <= line_range(md, span).1,
{
    if span.0 < span.1 {
        lemma_feeds_ascend(encode_utf8(md), span.0 as int, span.1 - 1);
    }
}

pub proof fn lemma_utf8_add(a: Seq<char>, b: Seq<char>)
    ensures
        encode_utf8(a + b) == encode_utf8(a) + encode_utf8(b),
    decreases a.len(),
{
    if a.len() == 0 {
        assert(a + b =~= b);
        assert(encode_utf8(a) + encode_utf8(b) =~= encode_utf8(b));
    } else {
        lemma_utf8_add(a.drop_first(), b);
        assert((a + b).drop_first() =~= a.drop_first() + b);
        assert(encode_utf8(a + b) =~= encode_utf8(a) + encode_utf8(b));
    }
}

/// A character brings a line feed in its bytes exactly when it is one.
proof fn lemma_char_feeds(c: char)
    ensures
        line_feeds(encode_scalar(c as u32), encode_scalar(c as u32).len() as int) == if c == '\n' {
            1nat
        } else {
            0
        },
{
    reveal_with_fuel(line_feeds, 5);
    let v = c as u32;
    char_is_scalar(c);
    assert(v <= 0x7f ==> v & 0x7f == v) by (bit_vector);
    assert forall|x: u8| (0x80u8 | x) >= 0x80u8 by {
        assert((0x80u8 | x) >= 0x80u8) by (bit_vector);
    }
    assert forall|x: u8| (0xC0u8 | x) >= 0x80u8 by {
        assert((0xC0u8 | x) >= 0x80u8) by (bit_vector);
    }
    assert forall|x: u8| (0xE0u8 | x) >= 0x80u8 by {
        assert((0xE0u8 | x) >= 0x80u8) by (bit_vector);
    }
    assert forall|x: u8| (0xF0u8 | x) >= 0x80u8 by {
        assert((0xF0u8 | x) >= 0x80u8) by (bit_vector);
    }
}

/// The line feeds in the bytes of a text end its lines.
pub proof fn lemma_feeds_of_text(s: Seq<char>)
    ensures
        line_feeds(encode_utf8(s), encode_utf8(s).len() as int) == split(s, '\n').len() - 1,
    decreases s.len(),
{
    lemma_split_nonempty(s, '\n');
    if s.len() > 0 {
        let d = s.drop_last();
        let c = s.last();
        lemma_feeds_of_text(d);
        lemma_split_nonempty(d, '\n');
        assert(s =~= d + seq![c]);
        lemma_utf8_add(d, seq![c]);
        assert(seq![c].drop_first() =~= Seq::<char>::empty());
        assert(encode_utf8(Seq::<char>::empty()) =~= Seq::<u8>::empty());
        assert(encode_utf8(seq![c]) =~= encode_scalar(c as u32));
        lemma_char_feeds(c);
        lemma_feeds_add(
            encode_utf8(d),
            encode_scalar(c as u32),
            (encode_utf8(d).len() + encode_scalar(c as u32).len()) as int,
        );
    }
}

proof fn lemma_split_append(s: Seq<char>, more: Seq<char>)
    ensures
        split(s, '\n').len() <= split(s + more, '\n').len(),
        forall|k: int|
            0 <= k < split(s, '\n').len() - 1 ==> #[trigger] split(s + more, '\n')[k] == split(
                s,
                '\n',
            )[k],
    decreases more.len(),
{
    lemma_split_nonempty(s, '\n');
    if more.len() == 0 {
        assert(s + more =~= s);
    } else {
        let d = more.drop_last();
        lemma_split_append(s, d);
        lemma_split_nonempty(s + d, '\n');
        assert((s + more).drop_last() =~= s + d);
        assert((s + more).last() == more.last());
    }
}

/// Text behind a source leaves its finished lines as they are.
proof fn lemma_lines_kept(md: Seq<char>, more: Seq<char>, n: nat)
    requires
        n <= line_feeds(encode_utf8(md), encode_utf8(md).len() as int),
    ensures
        n <= lines(md).len(),
        n <= lines(md + more).len(),
        forall|k: int| 0 <= k < n ==> #[trigger] lines(md)[k] == lines(md + more)[k],
{
    lemma_feeds_of_text(md);
    lemma_split_nonempty(md, '\n');
    lemma_split_append(md, more);
    assert forall|k: int| 0 <= k < n implies #[trigger] lines(md)[k] == lines(md + more)[k] by {
        assert(split(md + more, '\n')[k] == split(md, '\n')[k]);
    }
}

/// Two lists of lines and tables that agree above table `t`.
spec fn agree_above(
    a: Seq<Seq<char>>,
    b: Seq<Seq<char>>,
    ra: Seq<(nat, nat)>,
    rb: Seq<(nat, nat)>,
    t: int,
) -> bool {
    &&& 0 <= t < ra.len()
    &&& t < rb.len()
    &&& in_order(ra)
    &&& in_order(rb)
    &&& forall|u: int| 0 <= u <= t ==> #[trigger] ra[u] == rb[u]
    &&& forall|u: int| 0 <= u < ra.len() ==> (#[trigger] ra[u]).0 <= ra[u].1
    &&& forall|u: int| 0 <= u < rb.len() ==> (#[trigger] rb[u]).0 <= rb[u].1
    &&& ra[t].0 <= a.len()
    &&& ra[t].0 <= b.len()
    &&& forall|k: int| 0 <= k < ra[t].0 ==> #[trigger] a[k] == b[k]
}

proof fn lemma_agree_swapped(
    a: Seq<Seq<char>>,
    b: Seq<Seq<char>>,
    ra: Seq<(nat, nat)>,
    rb: Seq<(nat, nat)>,
    t: int,
)
    requires
        agree_above(a, b, ra, rb, t),
    ensures
        agree_above(b, a, rb, ra, t),
{
    assert(ra[t] == rb[t]);
    assert forall|u: int| 0 <= u <= t implies #[trigger] rb[u] == ra[u] by {
        assert(ra[u] == rb[u]);
    }
    assert forall|k: int| 0 <= k < rb[t].0 implies #[trigger] b[k] == a[k] by {
        assert(a[k] == b[k]);
    }
}

proof fn lemma_agree_earlier(
    a: Seq<Seq<char>>,
    b: Seq<Seq<char>>,
    ra: Seq<(nat, nat)>,
    rb: Seq<(nat, nat)>,
    t: int,
    u: int,
)
    requires
        agree_above(a, b, ra, rb, t),
        0 <= u <= t,
    ensures
        agree_above(a, b, ra, rb, u),
{
    if u < t {
        assert(ra[u].1 < ra[t].0);
        assert(ra[u].0 <= ra[u].1);
    }
}

proof fn lemma_same_apart(
    a: Seq<Seq<char>>,
    b: Seq<Seq<char>>,
    ra: Seq<(nat, nat)>,
    rb: Seq<(nat, nat)>,
    t: int,
    u: int,
)
    requires
        agree_above(a, b, ra, rb, t),
        0 <= u < t,
    ensures
        stands_apart(a, ra[u]) == stands_apart(b, rb[u]),
{
    assert(ra[u] == rb[u]);
    assert(ra[u].1 < ra[t].0);
    if ra[u].0 < ra[u].1 {
        assert(a[ra[u].0 as int + 1] == b[ra[u].0 as int + 1]);
    }
}

proof fn lemma_row_in_both(
    a: Seq<Seq<char>>,
    b: Seq<Seq<char>>,
    ra: Seq<(nat, nat)>,
    rb: Seq<(nat, nat)>,
    t: int,
    k: int,
)
    requires
        agree_above(a, b, ra, rb, t),
        0 <= k < ra[t].0,
        in_table(a, ra, k),
    ensures
        in_table(b, rb, k),
{
    let u = choose|u: int| 0 <= u < ra.len() && is_row_of(a, #[trigger] ra[u], k);
    if u > t {
        assert(ra[t].1 < ra[u].0);
        assert(ra[t].0 <= ra[t].1);
    }
    lemma_same_apart(a, b, ra, rb, t, u);
    assert(ra[u] == rb[u]);
    assert(a[k] == b[k]);
    assert(is_row_of(b, rb[u], k));
}

proof fn lemma_same_kept(
    a: Seq<Seq<char>>,
    b: Seq<Seq<char>>,
    ra: Seq<(nat, nat)>,
    rb: Seq<(nat, nat)>,
    t: int,
    n: nat,
)
    requires
        agree_above(a, b, ra, rb, t),
        n <= ra[t].0,
    ensures
        kept_height(a, ra, n) == kept_height(b, rb, n),
    decreases n,
{
    if n > 0 {
        let k = n - 1;
        lemma_same_kept(a, b, ra, rb, t, k as nat);
        assert(a[k] == b[k]);
        assert(ra[t] == rb[t]);
        if in_table(a, ra, k) {
            lemma_row_in_both(a, b, ra, rb, t, k);
        }
        if in_table(b, rb, k) {
            lemma_agree_swapped(a, b, ra, rb, t);
            lemma_row_in_both(b, a, rb, ra, t, k);
        }
    }
}

proof fn lemma_same_reserved(
    a: Seq<Seq<char>>,
    b: Seq<Seq<char>>,
    ra: Seq<(nat, nat)>,
    rb: Seq<(nat, nat)>,
    sa: Seq<nat>,
    sb: Seq<nat>,
    t: int,
    n: nat,
)
    requires
        agree_above(a, b, ra, rb, t),
        n <= t,
        sa.len() == ra.len(),
        sb.len() == rb.len(),
        forall|u: int| 0 <= u < t ==> #[trigger] sa[u] == sb[u],
    ensures
        reserved_height(a, ra, sa, n) == reserved_height(b, rb, sb, n),
    decreases n,
{
    if n > 0 {
        lemma_same_reserved(a, b, ra, rb, sa, sb, t, (n - 1) as nat);
        lemma_same_apart(a, b, ra, rb, t, n - 1);
        assert(sa[n - 1] == sb[n - 1]);
    }
}

/// The number of rasters among those of the first `n` tables.
pub open spec fn raster_count(pngs: Seq<Option<Seq<u8>>>, n: nat) -> nat
    decreases n,
{
    if n == 0 {
        0
    } else {
        raster_count(pngs, (n - 1) as nat) + if raster_of(pngs, n - 1) is Some {
            1nat
        } else {
            0
        }
    }
}

proof fn lemma_placing_len(n: nat, pngs: Seq<Option<Seq<u8>>>, before: Seq<nat>)
    ensures
        placing(n, pngs, before).images.len() == raster_count(pngs, n),
    decreases n,
{
    if n > 0 {
        lemma_placing_len((n - 1) as nat, pngs, before);
    }
}

proof fn lemma_placing_prefix(m: nat, n: nat, pngs: Seq<Option<Seq<u8>>>, before: Seq<nat>)
    requires
        m <= n,
    ensures
        placing(m, pngs, before).images.len() <= placing(n, pngs, before).images.len(),
        placing(n, pngs, before).images.take(placing(m, pngs, before).images.len() as int)
            == placing(m, pngs, before).images,
    decreases n,
{
    let p = placing(m, pngs, before).images;
    if m < n {
        lemma_placing_prefix(m, (n - 1) as nat, pngs, before);
        let q = placing((n - 1) as nat, pngs, before).images;
        assert(placing(n, pngs, before).images.take(p.len() as int) =~= q.take(p.len() as int));
    } else {
        assert(placing(n, pngs, before).images.take(p.len() as int) =~= p);
    }
}

proof fn lemma_same_placing(
    n: nat,
    pa: Seq<Option<Seq<u8>>>,
    pb: Seq<Option<Seq<u8>>>,
    ba: Seq<nat>,
    bb: Seq<nat>,
)
    requires
        forall|u: int| 0 <= u < n ==> #[trigger] raster_of(pa, u) == raster_of(pb, u),
        forall|u: int| 0 <= u < n ==> #[trigger] before_table(ba, u) == before_table(bb, u),
    ensures
        placing(n, pa, ba) == placing(n, pb, bb),
    decreases n,
{
    if n > 0 {
        lemma_same_placing((n - 1) as nat, pa, pb, ba, bb);
        assert(raster_of(pa, n - 1) == raster_of(pb, n - 1));
        assert(before_table(ba, n - 1) == before_table(bb, n - 1));
    }
}

/// The place of a table's image depends on the text before the table alone. Of
/// a source and the same source with more text behind it, where the tables up
/// to table `t` stand on the same lines and have the same rasters, the images
/// of those tables are the same, and with them their places.
pub proof fn law_table_position_ignores_trailing_text(
    md: Seq<char>,
    more: Seq<char>,
    ts: Seq<TableView>,
    more_ts: Seq<TableView>,
    pngs: Seq<Option<Seq<u8>>>,
    more_pngs: Seq<Option<Seq<u8>>>,
    t: int,
)
    requires
        0 <= t < ts.len(),
        t < more_ts.len(),
        in_order(table_lines(md, ts)),
        in_order(table_lines(md + more, more_ts)),
        forall|u: int|
            0 <= u <= t ==> #[trigger] table_lines(md, ts)[u] == table_lines(md + more, more_ts)[u],
        forall|u: int| 0 <= u <= t ==> #[trigger] raster_of(pngs, u) == raster_of(more_pngs, u),
    ensures
        ({
            let a = page_input(md, ts, pngs).images;
            let b = page_input(md + more, more_ts, more_pngs).images;
            let n = raster_count(pngs, (t + 1) as nat) as int;
            &&& n <= a.len()
            &&& n <= b.len()
            &&& a.take(n) == b.take(n)
            &&& raster_of(pngs, t) is Some ==> n > 0 && a[n - 1].y == b[n - 1].y
        }),
{
    let la = lines(md);
    let lb = lines(md + more);
    let ra = table_lines(md, ts);
    let rb = table_lines(md + more, more_ts);
    let sa = reserves(ts.len(), pngs);
    let sb = reserves(more_ts.len(), more_pngs);
    let ba = heights_before(la, ra, sa);
    let bb = heights_before(lb, rb, sb);
    let bytes = encode_utf8(md);
    let from = ts[t].span.0 as int;
    if from <= bytes.len() {
        lemma_feeds_ascend(bytes, from, bytes.len() as int);
    } else {
        lemma_no_feeds_behind(bytes, from);
    }
    assert(ra[t].0 == line_feeds(bytes, from));
    lemma_lines_kept(md, more, ra[t].0);
    assert forall|u: int| 0 <= u < ra.len() implies (#[trigger] ra[u]).0 <= ra[u].1 by {
        lemma_range_ascends(md, ts[u].span);
    }
    assert forall|u: int| 0 <= u < rb.len() implies (#[trigger] rb[u]).0 <= rb[u].1 by {
        lemma_range_ascends(md + more, more_ts[u].span);
    }
    assert(agree_above(la, lb, ra, rb, t));
    assert forall|u: int| 0 <= u < t + 1 implies #[trigger] before_table(ba, u) == before_table(
        bb,
        u,
    ) by {
        lemma_agree_earlier(la, lb, ra, rb, t, u);
        lemma_same_kept(la, lb, ra, rb, u, ra[u].0);
        assert forall|v: int| 0 <= v < u implies #[trigger] sa[v] == sb[v] by {
            assert(raster_of(pngs, v) == raster_of(more_pngs, v));
        }
        lemma_same_reserved(la, lb, ra, rb, sa, sb, u, u as nat);
        assert(ra[u] == rb[u]);
    }
    let m = (t + 1) as nat;
    lemma_same_placing(m, pngs, more_pngs, ba, bb);
    lemma_placing_len(m, pngs, ba);
    lemma_placing_prefix(m, ts.len(), pngs, ba);
    lemma_placing_prefix(m, more_ts.len(), more_pngs, bb);
    let a = page_input(md, ts, pngs).images;
    let b = page_input(md + more, more_ts, more_pngs).images;
    let n = raster_count(pngs, m) as int;
    if raster_of(pngs, t) is Some {
        assert(a.take(n)[n - 1] == a[n - 1]);
        assert(b.take(n)[n - 1] == b[n - 1]);
    }
}

/// Text behind a source moves none of its images: where the parser reports the
/// tables of a source first, at the same bytes, in the source with more text
/// behind it, the page with more text begins with the same images.
pub proof fn law_appended_text_moves_no_image(
    md: Seq<char>,
    more: Seq<char>,
    pngs: Seq<Option<Seq<u8>>>,
)
    requires
        source_tables(md).len() <= source_tables(md + more).len(),
        forall|u: int|
            0 <= u < source_tables(md).len() ==> (#[trigger] source_tables(md)[u]).span
                == source_tables(md + more)[u].span && source_tables(md)[u].span.0
                <= source_tables(md)[u].span.1 <= encode_utf8(md).len(),
        in_order(table_lines(md + more, source_tables(md + more))),
    ensures
        ({
            let a = page_input(md, source_tables(md), pngs).images;
            let b = page_input(md + more, source_tables(md + more), pngs).images;
            &&& a.len() <= b.len()
            &&& b.take(a.len() as int) == a
        }),
{
    let ts = source_tables(md);
    let more_ts = source_tables(md + more);
    let ra = table_lines(md, ts);
    let rb = table_lines(md + more, more_ts);
    let a = page_input(md, ts, pngs).images;
    let b = page_input(md + more, more_ts, pngs).images;
    if ts.len() == 0 {
        assert(a =~= Seq::<ImageView>::empty());
        assert(b.take(0) =~= a);
    } else {
        let t = ts.len() - 1;
        lemma_utf8_add(md, more);
        assert forall|u: int| 0 <= u <= t implies #[trigger] ra[u] == rb[u] by {
            let span = ts[u].span;
            assert(span == more_ts[u].span);
            lemma_feeds_add(encode_utf8(md), encode_utf8(more), span.0 as int);
            if span.0 < span.1 {
                lemma_feeds_add(encode_utf8(md), encode_utf8(more), span.1 - 1);
            }
        }
        assert forall|u: int, v: int|
            #![trigger ra[u], ra[v]]
            0 <= u < v < ra.len() implies ra[u].1 < ra[v].0 by {
            assert(ra[u] == rb[u] && ra[v] == rb[v]);
        }
        law_table_position_ignores_trailing_text(md, more, ts, more_ts, pngs, pngs, t);
        let before = heights_before(lines(md), ra, reserves(ts.len(), pngs));
        lemma_placing_len(ts.len(), pngs, before);
        assert(a.take(a.len() as int) =~= a);
    }
}

} // verus!
