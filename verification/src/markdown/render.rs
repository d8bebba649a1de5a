//! The HTML rendering of a Markdown source.
//!
//! The events of the source fall into pieces: tables, images, and the runs of
//! other events between them. A table is embedded as a raster image where one
//! could be made, and falls back to bullet records. A local image is embedded
//! where it could be read, and falls back to its alternative text.

use vstd::prelude::*;

use crate::events::{
    html_between, md_events, md_html, parse_events, Alignment, Element, EventView, Inline,
    InlineView, MdEvent, Role, RENDERED,
};
use crate::markdown::escape::{html_text, push_html_text};
use crate::markdown::plain::{bullet_table, emit_bullet_table};
use crate::markdown::table::{lemma_rows_view_push, rows_view, try_table_svg};
use crate::text::{
    ascii_lower, chars_of, copy_bytes, decimal, has_prefix, lemma_views_push, opt_view, push_decimal,
    starts_with, str_eq, string_of, to_ascii_lower, views,
};

verus! {

/// A binary asset collected while rendering, ready to be embedded. `name` is
/// the relative path inside the book.
#[derive(Debug)]
pub struct InlineAsset {
    pub name: String,
    pub mime: String,
    pub bytes: Vec<u8>,
}

/// The mathematical value of an [`InlineAsset`].
pub struct AssetView {
    pub name: Seq<char>,
    pub mime: Seq<char>,
    pub bytes: Seq<u8>,
}

impl View for InlineAsset {
    type V = AssetView;

    open spec fn view(&self) -> AssetView {
        AssetView { name: self.name@, mime: self.mime@, bytes: self.bytes@ }
    }
}

/// Result of rendering Markdown: the XHTML fragment plus any embedded assets.
#[derive(Debug)]
pub struct Rendered {
    pub xhtml: String,
    pub assets: Vec<InlineAsset>,
}

/// The mathematical value of a [`Rendered`].
pub struct RenderedView {
    pub xhtml: Seq<char>,
    pub assets: Seq<AssetView>,
}

impl View for Rendered {
    type V = RenderedView;

    open spec fn view(&self) -> RenderedView {
        RenderedView { xhtml: self.xhtml@, assets: views(self.assets@) }
    }
}

/// An image that was found for a piece: the raster of a table, or a local
/// image file.
#[derive(Debug)]
pub struct Embedded {
    pub bytes: Vec<u8>,
    pub mime: String,
    pub ext: String,
}

/// The mathematical value of an [`Embedded`].
pub struct EmbeddedView {
    pub bytes: Seq<u8>,
    pub mime: Seq<char>,
    pub ext: Seq<char>,
}

impl View for Embedded {
    type V = EmbeddedView;

    open spec fn view(&self) -> EmbeddedView {
        EmbeddedView { bytes: self.bytes@, mime: self.mime@, ext: self.ext@ }
    }
}

// ---------------------------------------------------------------------------
// Tables and images among the events
// ---------------------------------------------------------------------------

/// The position of the event that closes an element `e` opened before `j` at
/// nesting `depth`, or the end of the events.
pub open spec fn closing(es: Seq<EventView>, e: Element, j: int, depth: nat) -> int
    decreases es.len() - j,
{
    if j >= es.len() {
        es.len() as int
    } else if es[j].role == Role::Open(e) {
        closing(es, e, j + 1, depth + 1)
    } else if es[j].role == Role::Close(e) {
        if depth <= 1 {
            j
        } else {
            closing(es, e, j + 1, (depth - 1) as nat)
        }
    } else {
        closing(es, e, j + 1, depth)
    }
}

pub proof fn lemma_closing(es: Seq<EventView>, e: Element, j: int, depth: nat)
    requires
        j <= es.len(),
    ensures
        j <= closing(es, e, j, depth) <= es.len(),
    decreases es.len() - j,
{
    if j < es.len() {
        lemma_closing(es, e, j + 1, depth + 1);
        lemma_closing(es, e, j + 1, depth);
        if depth > 1 {
            lemma_closing(es, e, j + 1, (depth - 1) as nat);
        }
    }
}

/// Finds the event that closes an element opened just before `from`.
fn find_closing(events: &Vec<MdEvent>, e: Element, from: usize) -> (r: usize)
    requires
        from <= events@.len(),
    ensures
        r == closing(views(events@), e, from as int, 1),
        from <= r <= events@.len(),
{
    let ghost es = views(events@);
    let mut j: usize = from;
    let mut nested: usize = 0;
    proof {
        lemma_closing(es, e, from as int, 1);
    }
    while j < events.len()
        invariant
            es == views(events@),
            from <= j <= events@.len(),
            nested <= j - from,
            closing(es, e, j as int, nested as nat + 1) == closing(es, e, from as int, 1),
            from <= closing(es, e, from as int, 1) <= events@.len(),
        decreases events@.len() - j,
    {
        proof {
            assert(es[j as int] == events@[j as int]@);
        }
        if events[j].role == Role::Open(e) {
            nested += 1;
        } else if events[j].role == Role::Close(e) {
            if nested == 0 {
                return j;
            }
            nested -= 1;
        }
        j += 1;
    }
    j
}

/// How far a table has been read: its rows, the open row, and the open cell.
pub struct TableReading {
    pub rows: Seq<Seq<Seq<char>>>,
    pub row: Seq<Seq<char>>,
    pub cell: Seq<char>,
    pub in_cell: bool,
}

impl TableReading {
    /// Nothing read yet.
    pub open spec fn start() -> TableReading {
        TableReading {
            rows: Seq::empty(),
            row: Seq::empty(),
            cell: Seq::empty(),
            in_cell: false,
        }
    }

    /// Text added to the open cell, if there is one.
    pub open spec fn added(self, s: Seq<char>) -> TableReading {
        if self.in_cell {
            TableReading { cell: self.cell + s, ..self }
        } else {
            self
        }
    }

    /// The reading after one more event. The header is a row of its own.
    pub open spec fn after(self, e: EventView) -> TableReading {
        match e.role {
            Role::Open(Element::TableHead) => TableReading { row: Seq::empty(), ..self },
            Role::Open(Element::TableRow) => TableReading { row: Seq::empty(), ..self },
            Role::Close(Element::TableHead) => TableReading {
                rows: self.rows.push(self.row),
                row: Seq::empty(),
                ..self
            },
            Role::Close(Element::TableRow) => TableReading {
                rows: self.rows.push(self.row),
                row: Seq::empty(),
                ..self
            },
            Role::Open(Element::TableCell) => TableReading {
                in_cell: true,
                cell: Seq::empty(),
                ..self
            },
            Role::Close(Element::TableCell) => TableReading {
                in_cell: false,
                row: self.row.push(self.cell),
                cell: Seq::empty(),
                ..self
            },
            Role::Leaf => match e.inline {
                InlineView::Text(s) => self.added(s),
                InlineView::Code(s) => self.added(s),
                InlineView::SoftBreak => self.added(seq![' ']),
                InlineView::HardBreak => self.added(seq![' ']),
                InlineView::Nothing => self,
            },
            _ => self,
        }
    }
}

/// The reading of the events `from..to`.
pub open spec fn table_reading(es: Seq<EventView>, from: int, to: int) -> TableReading
    decreases to - from,
{
    if to <= from {
        TableReading::start()
    } else {
        table_reading(es, from, to - 1).after(es[to - 1])
    }
}

/// The rows of the table that opens at `start`.
pub open spec fn table_rows(es: Seq<EventView>, start: int) -> Seq<Seq<Seq<char>>> {
    table_reading(es, start + 1, closing(es, Element::Table, start + 1, 1)).rows
}

/// Reads the table that opens at `start`: where it closes, its alignments and
/// its rows.
pub fn extract_table(events: &Vec<MdEvent>, start: usize) -> (r: (
    usize,
    Vec<Alignment>,
    Vec<Vec<String>>,
))
    requires
        start < events@.len(),
    ensures
        r.0 == closing(views(events@), Element::Table, start + 1, 1),
        start < r.0 <= events@.len(),
        r.1@ == events@[start as int].aligns@,
        rows_view(r.2@) == table_rows(views(events@), start as int),
{
    let ghost es = views(events@);
    let count: usize = events.len();
    proof {
        assert(start < count);
    }
    let end = find_closing(events, Element::Table, start + 1);
    let aligns = copy_aligns(&events[start].aligns);
    let mut rows: Vec<Vec<String>> = Vec::new();
    let mut row: Vec<String> = Vec::new();
    let mut cell = String::new();
    let mut in_cell = false;
    let mut j: usize = start + 1;
    proof {
        assert(rows_view(rows@) =~= Seq::<Seq<Seq<char>>>::empty());
        assert(views(row@) =~= Seq::<Seq<char>>::empty());
        assert(cell@ =~= Seq::<char>::empty());
    }
    while j < end
        invariant
            es == views(events@),
            start < j <= end <= events@.len(),
            ({
                let st = table_reading(es, start + 1, j as int);
                &&& rows_view(rows@) == st.rows
                &&& views(row@) == st.row
                &&& cell@ == st.cell
                &&& in_cell == st.in_cell
            }),
        decreases end - j,
    {
        let e = &events[j];
        let ghost before = table_reading(es, start + 1, j as int);
        proof {
            assert(es[j as int] == e@);
            reveal_strlit(" ");
            assert(" "@ =~= seq![' ']);
        }
        match e.role {
            Role::Open(Element::TableHead) | Role::Open(Element::TableRow) => {
                row = Vec::new();
                proof {
                    assert(views(row@) =~= Seq::<Seq<char>>::empty());
                }
            },
            Role::Close(Element::TableHead) | Role::Close(Element::TableRow) => {
                proof {
                    lemma_rows_view_push(rows@, row);
                }
                rows.push(row);
                row = Vec::new();
                proof {
                    assert(views(row@) =~= Seq::<Seq<char>>::empty());
                }
            },
            Role::Open(Element::TableCell) => {
                in_cell = true;
                cell = String::new();
                proof {
                    assert(cell@ =~= Seq::<char>::empty());
                }
            },
            Role::Close(Element::TableCell) => {
                in_cell = false;
                proof {
                    lemma_views_push(row@, cell);
                }
                row.push(cell);
                cell = String::new();
                proof {
                    assert(cell@ =~= Seq::<char>::empty());
                }
            },
            Role::Leaf => {
                if in_cell {
                    match &e.inline {
                        Inline::Text(s) => cell.push_str(s.as_str()),
                        Inline::Code(s) => cell.push_str(s.as_str()),
                        Inline::SoftBreak => cell.push_str(" "),
                        Inline::HardBreak => cell.push_str(" "),
                        Inline::Nothing => {},
                    }
                }
            },
            _ => {},
        }
        j += 1;
    }
    (end, aligns, rows)
}

/// Copies a list of alignments.
pub(crate) fn copy_aligns(a: &Vec<Alignment>) -> (r: Vec<Alignment>)
    ensures
        r@ == a@,
{
    let mut out: Vec<Alignment> = Vec::new();
    let mut i: usize = 0;
    while i < a.len()
        invariant
            i <= a@.len(),
            out@ == a@.take(i as int),
        decreases a@.len() - i,
    {
        out.push(a[i]);
        i += 1;
        proof {
            assert(a@.take(i as int) =~= a@.take(i - 1).push(a@[i - 1]));
        }
    }
    proof {
        assert(a@.take(i as int) =~= a@);
    }
    out
}

/// The text of the events `from..to`.
pub open spec fn plain_text(es: Seq<EventView>, from: int, to: int) -> Seq<char>
    decreases to - from,
{
    if to <= from {
        Seq::empty()
    } else {
        let head = plain_text(es, from, to - 1);
        match es[to - 1].inline {
            InlineView::Text(s) => head + s,
            InlineView::Code(s) => head + s,
            _ => head,
        }
    }
}

fn plain_text_of(events: &Vec<MdEvent>, from: usize, to: usize) -> (r: String)
    requires
        from <= to <= events@.len(),
    ensures
        r@ == plain_text(views(events@), from as int, to as int),
{
    let ghost es = views(events@);
    let mut out = String::new();
    let mut i: usize = from;
    proof {
        assert(out@ =~= Seq::<char>::empty());
    }
    while i < to
        invariant
            es == views(events@),
            from <= i <= to <= events@.len(),
            out@ == plain_text(es, from as int, i as int),
        decreases to - i,
    {
        proof {
            assert(es[i as int] == events@[i as int]@);
        }
        match &events[i].inline {
            Inline::Text(s) => out.push_str(s.as_str()),
            Inline::Code(s) => out.push_str(s.as_str()),
            _ => {},
        }
        i += 1;
    }
    out
}

// ---------------------------------------------------------------------------
// Pieces
// ---------------------------------------------------------------------------

/// One piece of a source.
#[derive(Debug)]
pub enum Piece {
    /// The events `from..to` as plain HTML.
    Html { from: usize, to: usize },
    /// A table.
    Table { aligns: Vec<Alignment>, rows: Vec<Vec<String>> },
    /// An image with its alternative text.
    Image { dest: String, title: String, alt: String },
}

/// The mathematical value of a [`Piece`].
pub enum PieceView {
    Html { from: int, to: int },
    Table { aligns: Seq<Alignment>, rows: Seq<Seq<Seq<char>>> },
    Image { dest: Seq<char>, title: Seq<char>, alt: Seq<char> },
}

impl View for Piece {
    type V = PieceView;

    open spec fn view(&self) -> PieceView {
        match *self {
            Piece::Html { from, to } => PieceView::Html { from: from as int, to: to as int },
            Piece::Table { aligns, rows } => PieceView::Table {
                aligns: aligns@,
                rows: rows_view(rows@),
            },
            Piece::Image { dest, title, alt } => PieceView::Image {
                dest: dest@,
                title: title@,
                alt: alt@,
            },
        }
    }
}

/// Whether a table or an image opens at an event.
pub open spec fn is_special(e: EventView) -> bool {
    e.role == Role::Open(Element::Table) || e.role == Role::Open(Element::Image)
}

/// The next position at which a table or an image opens, or the end.
pub open spec fn next_special(es: Seq<EventView>, i: int) -> int
    decreases es.len() - i,
{
    if i >= es.len() {
        es.len() as int
    } else if is_special(es[i]) {
        i
    } else {
        next_special(es, i + 1)
    }
}

pub proof fn lemma_next_special(es: Seq<EventView>, i: int)
    requires
        i <= es.len(),
    ensures
        i <= next_special(es, i) <= es.len(),
        i < es.len() && !is_special(es[i]) ==> i < next_special(es, i),
    decreases es.len() - i,
{
    if i < es.len() && !is_special(es[i]) {
        lemma_next_special(es, i + 1);
    }
}

/// The piece that starts at event `i`, and where the next one starts.
pub open spec fn piece_at(es: Seq<EventView>, i: int) -> (PieceView, int) {
    if es[i].role == Role::Open(Element::Table) {
        (
            PieceView::Table { aligns: es[i].aligns, rows: table_rows(es, i) },
            closing(es, Element::Table, i + 1, 1) + 1,
        )
    } else if es[i].role == Role::Open(Element::Image) {
        let end = closing(es, Element::Image, i + 1, 1);
        (
            PieceView::Image {
                dest: es[i].link.dest,
                title: es[i].link.title,
                alt: plain_text(es, i + 1, end),
            },
            end + 1,
        )
    } else {
        (PieceView::Html { from: i, to: next_special(es, i) }, next_special(es, i))
    }
}

pub proof fn lemma_piece_at(es: Seq<EventView>, i: int)
    requires
        0 <= i < es.len(),
    ensures
        i < piece_at(es, i).1 <= es.len() + 1,
{
    lemma_closing(es, Element::Table, i + 1, 1);
    lemma_closing(es, Element::Image, i + 1, 1);
    lemma_next_special(es, i);
}

/// The pieces from event `i` on.
pub open spec fn pieces_from(es: Seq<EventView>, i: int) -> Seq<PieceView>
    decreases es.len() + 1 - i,
{
    if 0 <= i < es.len() {
        proof {
            lemma_piece_at(es, i);
        }
        seq![piece_at(es, i).0] + pieces_from(es, piece_at(es, i).1)
    } else {
        Seq::empty()
    }
}

/// The pieces of a list of events.
pub open spec fn pieces(es: Seq<EventView>) -> Seq<PieceView> {
    pieces_from(es, 0)
}

/// Cuts a list of events into pieces.
pub fn pieces_of(events: &Vec<MdEvent>) -> (r: Vec<Piece>)
    ensures
        views(r@) == pieces(views(events@)),
        forall|k: int|
            0 <= k < r@.len() ==> (#[trigger] r@[k] matches Piece::Html { from, to } ==> from <= to),
{
    let ghost es = views(events@);
    let mut out: Vec<Piece> = Vec::new();
    let mut i: usize = 0;
    let n: usize = events.len();
    proof {
        assert(views(out@) + pieces_from(es, 0) =~= pieces(es));
    }
    while i < n
        invariant
            es == views(events@),
            n == events@.len(),
            views(out@) + pieces_from(es, i as int) == pieces(es),
            forall|k: int|
                0 <= k < out@.len() ==> (#[trigger] out@[k] matches Piece::Html { from, to } ==> from
                    <= to),
        decreases n - i,
    {
        proof {
            assert(es[i as int] == events@[i as int]@);
            lemma_piece_at(es, i as int);
        }
        let ghost at = i as int;
        let piece: Piece;
        let next: usize;
        if events[i].role == Role::Open(Element::Table) {
            let (end, aligns, rows) = extract_table(events, i);
            piece = Piece::Table { aligns, rows };
            next = if end < n {
                end + 1
            } else {
                n
            };
        } else if events[i].role == Role::Open(Element::Image) {
            let end = find_closing(events, Element::Image, i + 1);
            piece = Piece::Image {
                dest: events[i].link.dest.clone(),
                title: events[i].link.title.clone(),
                alt: plain_text_of(events, i + 1, end),
            };
            next = if end < n {
                end + 1
            } else {
                n
            };
        } else {
            let mut j: usize = i;
            while j < n && !(events[j].role == Role::Open(Element::Table) || events[j].role
                == Role::Open(Element::Image))
                invariant
                    es == views(events@),
                    n == events@.len(),
                    i <= j <= n,
                    next_special(es, j as int) == next_special(es, i as int),
                decreases n - j,
            {
                proof {
                    assert(es[j as int] == events@[j as int]@);
                }
                j += 1;
            }
            proof {
                if j < n {
                    assert(es[j as int] == events@[j as int]@);
                }
            }
            piece = Piece::Html { from: i, to: j };
            next = j;
        }
        let ghost before = out@;
        proof {
            assert(piece@ == piece_at(es, at).0);
            lemma_views_push(before, piece);
        }
        out.push(piece);
        i = next;
        proof {
            let after = piece_at(es, at).1;
            assert(pieces_from(es, at) == seq![piece@] + pieces_from(es, after));
            assert(pieces_from(es, after) =~= pieces_from(es, i as int));
            assert(views(before) + (seq![piece@] + pieces_from(es, i as int)) =~= views(before).push(
                piece@,
            ) + pieces_from(es, i as int));
        }
    }
    proof {
        assert(views(out@) + pieces_from(es, i as int) =~= views(out@));
    }
    out
}

/// Cuts a Markdown source into pieces.
pub fn markdown_pieces(content: &str) -> (r: Vec<Piece>)
    ensures
        views(r@) == pieces(md_events(content@, RENDERED)),
        forall|k: int|
            0 <= k < r@.len() ==> (#[trigger] r@[k] matches Piece::Html { from, to } ==> from <= to),
{
    let events = parse_events(content, RENDERED);
    pieces_of(&events)
}

/// The drawing to rasterize for a piece: that of a table with rows, where its
/// measures fit.
pub fn piece_svg(piece: &Piece) -> (r: Option<String>)
    ensures
        match piece@ {
            PieceView::Table { aligns, rows } => match r {
                Some(s) => rows.len() > 0 && crate::markdown::table::drawable(rows) && s@
                    == crate::markdown::table::table_svg(rows, aligns),
                None => rows.len() == 0 || !crate::markdown::table::drawable(rows),
            },
            _ => r is None,
        },
{
    match piece {
        Piece::Table { aligns, rows } => if rows.len() == 0 {
            None
        } else {
            try_table_svg(rows, aligns)
        },
        _ => None,
    }
}

// ---------------------------------------------------------------------------
// Output
// ---------------------------------------------------------------------------

/// `n` in decimal with at least three digits.
pub open spec fn three_digits(n: nat) -> Seq<char> {
    if n < 10 {
        "00"@ + decimal(n)
    } else if n < 100 {
        "0"@ + decimal(n)
    } else {
        decimal(n)
    }
}

/// What has been written: the fragment, the assets, and how many images were
/// numbered.
pub struct Written {
    pub out: Seq<char>,
    pub assets: Seq<AssetView>,
    pub count: nat,
}

/// The file name of the `n`th embedded table.
pub open spec fn table_name(n: nat) -> Seq<char> {
    "table-"@ + three_digits(n) + ".png"@
}

/// The file name of the `n`th embedded image.
pub open spec fn image_name(n: nat, ext: Seq<char>) -> Seq<char> {
    "img-"@ + three_digits(n) + "."@ + ext
}

/// The tag of an embedded image.
pub open spec fn image_tag(src: Seq<char>, title: Seq<char>, alt: Seq<char>) -> Seq<char> {
    if title.len() > 0 {
        "<p><img src=\""@ + html_text(src) + "\" alt=\""@ + html_text(alt) + "\" title=\""@
            + html_text(title) + "\"/></p>\n"@
    } else {
        "<p><img src=\""@ + html_text(src) + "\" alt=\""@ + html_text(alt) + "\"/></p>\n"@
    }
}

/// What a table adds: a numbered image where a raster was made of it, else its
/// records.
pub open spec fn with_table(
    w: Written,
    rows: Seq<Seq<Seq<char>>>,
    found: Option<EmbeddedView>,
) -> Written {
    match found {
        Some(f) if rows.len() > 0 => {
            let name = table_name(w.count + 1);
            Written {
                out: w.out + ("<p><img src=\""@ + html_text(name) + "\" alt=\"table\"/></p>\n"@),
                assets: w.assets.push(AssetView { name, mime: "image/png"@, bytes: f.bytes }),
                count: w.count + 1,
            }
        },
        _ => Written { out: w.out + bullet_table(rows), ..w },
    }
}

/// What an image adds: a numbered image where its file was read, the data URL
/// as it is, or its alternative text.
pub open spec fn with_image(
    w: Written,
    dest: Seq<char>,
    title: Seq<char>,
    alt: Seq<char>,
    found: Option<EmbeddedView>,
) -> Written {
    match found {
        Some(f) => {
            let name = image_name(w.count + 1, f.ext);
            Written {
                out: w.out + image_tag(name, title, alt),
                assets: w.assets.push(AssetView { name, mime: f.mime, bytes: f.bytes }),
                count: w.count + 1,
            }
        },
        None => if starts_with(dest, "data:"@) {
            Written { out: w.out + image_tag(dest, Seq::empty(), alt), ..w }
        } else {
            Written {
                out: w.out + ("<p><em>[image: "@ + html_text(alt) + "]</em></p>\n"@),
                ..w
            }
        },
    }
}

/// What was found for piece `i`.
pub open spec fn found_for(found: Seq<Option<EmbeddedView>>, i: int) -> Option<EmbeddedView> {
    if 0 <= i < found.len() {
        found[i]
    } else {
        None
    }
}

/// What a piece adds.
pub open spec fn with_piece(
    md: Seq<char>,
    w: Written,
    p: PieceView,
    found: Option<EmbeddedView>,
) -> Written {
    match p {
        PieceView::Html { from, to } => Written {
            out: w.out + md_html(md, RENDERED, from, to),
            ..w
        },
        PieceView::Table { aligns, rows } => with_table(w, rows, found),
        PieceView::Image { dest, title, alt } => with_image(w, dest, title, alt, found),
    }
}

/// What the first `n` pieces write.
pub open spec fn written(
    md: Seq<char>,
    ps: Seq<PieceView>,
    found: Seq<Option<EmbeddedView>>,
    n: nat,
) -> Written
    decreases n,
{
    if n == 0 {
        Written { out: Seq::empty(), assets: Seq::empty(), count: 0 }
    } else {
        with_piece(
            md,
            written(md, ps, found, (n - 1) as nat),
            ps[n - 1],
            found_for(found, n - 1),
        )
    }
}

/// The rendering of a source from its pieces and what was found for them.
pub open spec fn rendering(
    md: Seq<char>,
    ps: Seq<PieceView>,
    found: Seq<Option<EmbeddedView>>,
) -> RenderedView {
    let w = written(md, ps, found, ps.len());
    RenderedView { xhtml: w.out, assets: w.assets }
}

/// What was found, by value.
pub open spec fn found_views(found: Seq<Option<Embedded>>) -> Seq<Option<EmbeddedView>> {
    Seq::new(found.len(), |i: int| opt_view(found[i]))
}

fn push_three_digits(out: &mut String, n: u64)
    ensures
        final(out)@ == old(out)@ + three_digits(n as nat),
{
    let ghost before = out@;
    if n < 10 {
        out.push_str("00");
    } else if n < 100 {
        out.push_str("0");
    }
    push_decimal(out, n);
    proof {
        assert(out@ =~= before + three_digits(n as nat));
    }
}

/// The state of a rendering in memory.
pub struct RenderState {
    pub out: String,
    pub assets: Vec<InlineAsset>,
    pub image_counter: u64,
}

impl RenderState {
    /// What has been written.
    pub open spec fn written(&self) -> Written {
        Written {
            out: self.out@,
            assets: views(self.assets@),
            count: self.image_counter as nat,
        }
    }

    /// Nothing written yet.
    pub fn new() -> (r: Self)
        ensures
            r.written() == (Written { out: Seq::empty(), assets: Seq::empty(), count: 0 }),
    {
        let r = RenderState { out: String::new(), assets: Vec::new(), image_counter: 0 };
        proof {
            assert(r.out@ =~= Seq::<char>::empty());
            assert(views(r.assets@) =~= Seq::<AssetView>::empty());
        }
        r
    }

    /// Writes a table.
    pub fn emit_table(&mut self, rows: &Vec<Vec<String>>, found: Option<&Embedded>)
        requires
            old(self).image_counter < u64::MAX,
        ensures
            final(self).written() == with_table(
                old(self).written(),
                rows_view(rows@),
                match found {
                    Some(f) => Some(f@),
                    None => None,
                },
            ),
            final(self).image_counter <= old(self).image_counter + 1,
    {
        let ghost before = self.written();
        match found {
            Some(f) => {
                if rows.len() > 0 {
                    self.image_counter += 1;
                    let mut name = "table-".to_owned();
                    push_three_digits(&mut name, self.image_counter);
                    name.push_str(".png");
                    let asset = InlineAsset {
                        name: name.clone(),
                        mime: "image/png".to_owned(),
                        bytes: copy_bytes(f.bytes.as_slice()),
                    };
                    proof {
                        lemma_views_push(self.assets@, asset);
                    }
                    self.assets.push(asset);
                    let mut tag = "<p><img src=\"".to_owned();
                    push_html_text(&mut tag, name.as_str());
                    tag.push_str("\" alt=\"table\"/></p>\n");
                    self.out.push_str(tag.as_str());
                    return;
                }
            },
            None => {},
        }
        emit_bullet_table(&mut self.out, rows);
    }

    /// Writes an image.
    pub fn emit_image(&mut self, src: &str, title: &str, alt: &str, found: Option<&Embedded>)
        requires
            old(self).image_counter < u64::MAX,
        ensures
            final(self).written() == with_image(
                old(self).written(),
                src@,
                title@,
                alt@,
                match found {
                    Some(f) => Some(f@),
                    None => None,
                },
            ),
            final(self).image_counter <= old(self).image_counter + 1,
    {
        match found {
            Some(f) => {
                self.image_counter += 1;
                let mut name = "img-".to_owned();
                push_three_digits(&mut name, self.image_counter);
                name.push_str(".");
                name.push_str(f.ext.as_str());
                let asset = InlineAsset {
                    name: name.clone(),
                    mime: f.mime.clone(),
                    bytes: copy_bytes(f.bytes.as_slice()),
                };
                proof {
                    lemma_views_push(self.assets@, asset);
                }
                self.assets.push(asset);
                let tag = image_tag_of(name.as_str(), title, alt);
                self.out.push_str(tag.as_str());
            },
            None => {
                if has_prefix(chars_of(src).as_slice(), "data:") {
                    proof {
                        reveal_strlit("");
                        assert(""@ =~= Seq::<char>::empty());
                    }
                    let tag = image_tag_of(src, "", alt);
                    self.out.push_str(tag.as_str());
                } else {
                    let mut tag = "<p><em>[image: ".to_owned();
                    push_html_text(&mut tag, alt);
                    tag.push_str("]</em></p>\n");
                    self.out.push_str(tag.as_str());
                }
            },
        }
    }
}

fn image_tag_of(src: &str, title: &str, alt: &str) -> (r: String)
    ensures
        r@ == image_tag(src@, title@, alt@),
{
    let mut tag = "<p><img src=\"".to_owned();
    push_html_text(&mut tag, src);
    tag.push_str("\" alt=\"");
    push_html_text(&mut tag, alt);
    if title.unicode_len() > 0 {
        tag.push_str("\" title=\"");
        push_html_text(&mut tag, title);
    }
    tag.push_str("\"/></p>\n");
    tag
}

/// Renders the pieces of a source with what was found for them.
pub fn render_pieces(md: &str, ps: &Vec<Piece>, found: &Vec<Option<Embedded>>) -> (r: Rendered)
    requires
        forall|k: int|
            0 <= k < ps@.len() ==> (#[trigger] ps@[k] matches Piece::Html { from, to } ==> from
                <= to),
    ensures
        r@ == rendering(md@, views(ps@), found_views(found@)),
{
    let ghost pv = views(ps@);
    let ghost fv = found_views(found@);
    let mut state = RenderState::new();
    let mut i: usize = 0;
    while i < ps.len()
        invariant
            pv == views(ps@),
            fv == found_views(found@),
            forall|k: int|
                0 <= k < ps@.len() ==> (#[trigger] ps@[k] matches Piece::Html { from, to } ==> from
                    <= to),
            i <= ps@.len(),
            state.image_counter <= i,
            state.written() == written(md@, pv, fv, i as nat),
        decreases ps@.len() - i,
    {
        let here: Option<&Embedded> = if i < found.len() {
            match &found[i] {
                Some(f) => Some(f),
                None => None,
            }
        } else {
            None
        };
        proof {
            assert(pv[i as int] == ps@[i as int]@);
        }
        match &ps[i] {
            Piece::Html { from, to } => {
                let html = html_between(md, RENDERED, *from, *to);
                state.out.push_str(html.as_str());
            },
            Piece::Table { aligns: _, rows } => state.emit_table(rows, here),
            Piece::Image { dest, title, alt } => state.emit_image(
                dest.as_str(),
                title.as_str(),
                alt.as_str(),
                here,
            ),
        }
        i += 1;
    }
    Rendered { xhtml: state.out, assets: state.assets }
}

/// Renders a Markdown source. `found` holds what was found for each of its
/// pieces, as [`markdown_pieces`] lists them; a piece beyond its end found
/// nothing.
pub fn render_markdown(content: &str, found: &Vec<Option<Embedded>>) -> (r: Rendered)
    ensures
        r@ == rendering(
            content@,
            pieces(md_events(content@, RENDERED)),
            found_views(found@),
        ),
{
    let ps = markdown_pieces(content);
    render_pieces(content, &ps, found)
}

/// Renders a Markdown source and keeps the fragment alone.
pub fn markdown_to_html_fragment(content: &str, found: &Vec<Option<Embedded>>) -> (r: String)
    ensures
        r@ == rendering(
            content@,
            pieces(md_events(content@, RENDERED)),
            found_views(found@),
        ).xhtml,
{
    render_markdown(content, found).xhtml
}

// ---------------------------------------------------------------------------
// Local images
// ---------------------------------------------------------------------------

/// Whether an image source may name a local file: no web address and no data
/// URL.
pub open spec fn local_source(src: Seq<char>) -> bool {
    !starts_with(src, "http://"@) && !starts_with(src, "https://"@) && !starts_with(src, "data:"@)
}

/// Whether an image source may name a local file.
pub fn is_local_source(src: &str) -> (r: bool)
    ensures
        r == local_source(src@),
{
    let cs = chars_of(src);
    !has_prefix(cs.as_slice(), "http://") && !has_prefix(cs.as_slice(), "https://") && !has_prefix(
        cs.as_slice(),
        "data:",
    )
}

/// Whether a path lies at or below a directory: its components begin with
/// those of the directory.
pub fn is_beneath(base: &Vec<String>, path: &Vec<String>) -> (r: bool)
    ensures
        r == (base@.len() <= path@.len() && views(path@).take(base@.len() as int) == views(base@)),
{
    if base.len() > path.len() {
        return false;
    }
    let ghost bv = views(base@);
    let ghost head = views(path@).take(base@.len() as int);
    let mut i: usize = 0;
    while i < base.len()
        invariant
            base@.len() <= path@.len(),
            bv == views(base@),
            head == views(path@).take(base@.len() as int),
            i <= base@.len(),
            forall|k: int| 0 <= k < i ==> #[trigger] head[k] == bv[k],
        decreases base@.len() - i,
    {
        proof {
            assert(head[i as int] == path@[i as int]@);
            assert(bv[i as int] == base@[i as int]@);
        }
        if !str_eq(base[i].as_str(), path[i].as_str()) {
            return false;
        }
        i += 1;
    }
    proof {
        assert(head =~= bv);
    }
    true
}

/// The media type of a file with this extension.
pub open spec fn mime_of(ext: Seq<char>) -> Seq<char> {
    if ext == "png"@ {
        "image/png"@
    } else if ext == "jpg"@ || ext == "jpeg"@ {
        "image/jpeg"@
    } else if ext == "gif"@ {
        "image/gif"@
    } else if ext == "svg"@ {
        "image/svg+xml"@
    } else if ext == "webp"@ {
        "image/webp"@
    } else {
        "application/octet-stream"@
    }
}

fn mime_for(ext: &str) -> (r: String)
    ensures
        r@ == mime_of(ext@),
{
    let mime = if str_eq(ext, "png") {
        "image/png"
    } else if str_eq(ext, "jpg") || str_eq(ext, "jpeg") {
        "image/jpeg"
    } else if str_eq(ext, "gif") {
        "image/gif"
    } else if str_eq(ext, "svg") {
        "image/svg+xml"
    } else if str_eq(ext, "webp") {
        "image/webp"
    } else {
        "application/octet-stream"
    };
    mime.to_owned()
}

/// The largest image file that is embedded, in bytes.
pub const MAX_IMAGE_BYTES: usize = 10485760;

/// The extension under which an image is embedded: lower case, `bin` where the
/// file has none.
pub open spec fn embedded_ext(ext: Option<Seq<char>>) -> Seq<char> {
    match ext {
        Some(e) => ascii_lower(e),
        None => "bin"@,
    }
}

/// Accepts the bytes of an image file with this extension, up to ten
/// mebibytes.
pub fn embed_image(bytes: Vec<u8>, ext: Option<&str>) -> (r: Option<Embedded>)
    ensures
        match r {
            Some(f) => {
                let e = embedded_ext(
                    match ext {
                        Some(x) => Some(x@),
                        None => None,
                    },
                );
                bytes@.len() <= MAX_IMAGE_BYTES && f@ == (EmbeddedView {
                    bytes: bytes@,
                    mime: mime_of(e),
                    ext: e,
                })
            },
            None => bytes@.len() > MAX_IMAGE_BYTES,
        },
{
    if bytes.len() > MAX_IMAGE_BYTES {
        return None;
    }
    let ext = match ext {
        Some(x) => {
            let low = to_ascii_lower(chars_of(x).as_slice());
            let s = string_of(low.as_slice(), 0, low.len());
            proof {
                assert(s@ =~= ascii_lower(x@));
            }
            s
        },
        None => "bin".to_owned(),
    };
    let mime = mime_for(ext.as_str());
    Some(Embedded { bytes, mime, ext })
}

// ---------------------------------------------------------------------------
// Laws
// ---------------------------------------------------------------------------

/// The events that the pieces from `i` on stand for, end to end: the next
/// piece starts where the last one ends, and the last ends with the events.
pub open spec fn covers(es: Seq<EventView>, i: int) -> bool
    decreases es.len() + 1 - i,
{
    if 0 <= i < es.len() {
        proof {
            lemma_piece_at(es, i);
        }
        let next = piece_at(es, i).1;
        i < next && covers(es, next)
    } else {
        i >= es.len()
    }
}

/// The pieces leave out no event of the source.
pub proof fn law_pieces_cover_the_source(es: Seq<EventView>, i: int)
    requires
        0 <= i,
    ensures
        covers(es, i),
    decreases es.len() + 1 - i,
{
    if i < es.len() {
        lemma_piece_at(es, i);
        law_pieces_cover_the_source(es, piece_at(es, i).1);
    }
}

/// Every embedded image is an asset: a rendering has one asset for each number
/// it gave, and no more assets than pieces.
pub proof fn law_assets_are_numbered(
    md: Seq<char>,
    ps: Seq<PieceView>,
    found: Seq<Option<EmbeddedView>>,
    n: nat,
)
    requires
        n <= ps.len(),
    ensures
        written(md, ps, found, n).assets.len() == written(md, ps, found, n).count,
        written(md, ps, found, n).count <= n,
    decreases n,
{
    if n > 0 {
        law_assets_are_numbered(md, ps, found, (n - 1) as nat);
    }
}

/// Nothing is embedded that was not found.
pub proof fn law_nothing_found_nothing_embedded(md: Seq<char>, ps: Seq<PieceView>, n: nat)
    requires
        n <= ps.len(),
    ensures
        written(md, ps, Seq::empty(), n).assets.len() == 0,
    decreases n,
{
    if n > 0 {
        law_nothing_found_nothing_embedded(md, ps, (n - 1) as nat);
    }
}

} // verus!
