//! Markdown source as a list of events, read by the `pulldown-cmark` parser.

use pulldown_cmark::{Event, Options, Parser, Tag, TagEnd};
use vstd::prelude::*;

use crate::text::{lemma_views_push, views};

verus! {

/// Parser extension: GFM tables.
pub const TABLES: u32 = 2;

/// Parser extension: footnotes.
pub const FOOTNOTES: u32 = 4;

/// Parser extensions: tables, strikethrough, task lists and smart punctuation.
pub const RENDERED: u32 = 58;

/// Column alignment of a table.
#[derive(Debug, Clone, Copy, PartialEq, Eq, Structural)]
pub enum Alignment {
    Unset,
    Left,
    Center,
    Right,
}

/// The elements whose beginning and end matter to this crate.
#[derive(Debug, Clone, Copy, PartialEq, Eq, Structural)]
pub enum Element {
    Paragraph,
    Heading,
    CodeBlock,
    List,
    Item,
    Footnote,
    Table,
    TableHead,
    TableRow,
    TableCell,
    Image,
    Other,
}

/// What an event does to the nesting of elements.
#[derive(Debug, Clone, Copy, PartialEq, Eq, Structural)]
pub enum Role {
    Open(Element),
    Close(Element),
    Leaf,
}

/// The inline content of an event.
#[derive(Debug)]
pub enum Inline {
    Text(String),
    Code(String),
    SoftBreak,
    HardBreak,
    Nothing,
}

/// The mathematical value of an [`Inline`].
pub enum InlineView {
    Text(Seq<char>),
    Code(Seq<char>),
    SoftBreak,
    HardBreak,
    Nothing,
}

impl View for Inline {
    type V = InlineView;

    open spec fn view(&self) -> InlineView {
        match *self {
            Inline::Text(s) => InlineView::Text(s@),
            Inline::Code(s) => InlineView::Code(s@),
            Inline::SoftBreak => InlineView::SoftBreak,
            Inline::HardBreak => InlineView::HardBreak,
            Inline::Nothing => InlineView::Nothing,
        }
    }
}

/// Destination and title of an image.
#[derive(Debug)]
pub struct ImageLink {
    pub dest: String,
    pub title: String,
}

/// The mathematical value of an [`ImageLink`].
pub struct LinkView {
    pub dest: Seq<char>,
    pub title: Seq<char>,
}

impl View for ImageLink {
    type V = LinkView;

    open spec fn view(&self) -> LinkView {
        LinkView { dest: self.dest@, title: self.title@ }
    }
}

/// One parser event.
#[derive(Debug)]
pub struct MdEvent {
    pub role: Role,
    pub inline: Inline,
    /// The column alignments, where a table opens.
    pub aligns: Vec<Alignment>,
    /// Destination and title, where an image opens; empty otherwise.
    pub link: ImageLink,
    /// The bytes of the source that the element or the text takes, from the
    /// first to one behind the last.
    pub span: (usize, usize),
}

/// The mathematical value of an [`MdEvent`].
pub struct EventView {
    pub role: Role,
    pub inline: InlineView,
    pub aligns: Seq<Alignment>,
    pub link: LinkView,
    pub span: (usize, usize),
}

impl View for MdEvent {
    type V = EventView;

    open spec fn view(&self) -> EventView {
        EventView {
            role: self.role,
            inline: self.inline@,
            aligns: self.aligns@,
            link: self.link@,
            span: self.span,
        }
    }
}

/// The events of a Markdown source under the given parser extensions.
pub uninterp spec fn md_events(md: Seq<char>, options: u32) -> Seq<EventView>;

/// `pulldown_cmark::Parser::new_ext`: for each event in order, what it opens
/// or closes.
#[verifier::external_body]
fn event_roles(md: &str, options: u32) -> (r: Vec<Role>)
    ensures
        r@ == md_events(md@, options).map_values(|e: EventView| e.role),
{
    let element = |t: TagEnd| match t {
        TagEnd::Paragraph => Element::Paragraph, TagEnd::Heading(_) => Element::Heading,
        TagEnd::CodeBlock => Element::CodeBlock, TagEnd::List(_) => Element::List,
        TagEnd::Item => Element::Item, TagEnd::FootnoteDefinition => Element::Footnote,
        TagEnd::Table => Element::Table, TagEnd::TableHead => Element::TableHead,
        TagEnd::TableRow => Element::TableRow, TagEnd::TableCell => Element::TableCell,
        TagEnd::Image => Element::Image, _ => Element::Other,
    };
    Parser::new_ext(md, Options::from_bits_truncate(options)).map(|e| match e {
        Event::Start(t) => Role::Open(element(t.to_end())),
        Event::End(t) => Role::Close(element(t)),
        _ => Role::Leaf,
    }).collect()
}

/// `pulldown_cmark::Parser::new_ext`: for each event in order, its text or
/// line break.
#[verifier::external_body]
fn event_inlines(md: &str, options: u32) -> (r: Vec<Inline>)
    ensures
        views(r@) == md_events(md@, options).map_values(|e: EventView| e.inline),
{
    Parser::new_ext(md, Options::from_bits_truncate(options)).map(|e| match e {
        Event::Text(s) => Inline::Text(s.to_string()),
        Event::Code(s) => Inline::Code(s.to_string()),
        Event::SoftBreak => Inline::SoftBreak,
        Event::HardBreak => Inline::HardBreak,
        _ => Inline::Nothing,
    }).collect()
}

/// `pulldown_cmark::Parser::new_ext`: for each event in order, the column
/// alignments of a table that opens.
#[verifier::external_body]
fn event_aligns(md: &str, options: u32) -> (r: Vec<Vec<Alignment>>)
    ensures
        views(r@) == md_events(md@, options).map_values(|e: EventView| e.aligns),
{
    let align = |a: pulldown_cmark::Alignment| match a {
        pulldown_cmark::Alignment::None => Alignment::Unset,
        pulldown_cmark::Alignment::Left => Alignment::Left,
        pulldown_cmark::Alignment::Center => Alignment::Center,
        pulldown_cmark::Alignment::Right => Alignment::Right,
    };
    Parser::new_ext(md, Options::from_bits_truncate(options)).map(|e| match e {
        Event::Start(Tag::Table(a)) => a.into_iter().map(align).collect(),
        _ => Vec::new(),
    }).collect()
}

/// `pulldown_cmark::Parser::new_ext`: for each event in order, destination and
/// title of an image that opens.
#[verifier::external_body]
fn event_links(md: &str, options: u32) -> (r: Vec<ImageLink>)
    ensures
        views(r@) == md_events(md@, options).map_values(|e: EventView| e.link),
{
    Parser::new_ext(md, Options::from_bits_truncate(options)).map(|e| match e {
        Event::Start(Tag::Image { dest_url, title, .. }) => {
            ImageLink { dest: dest_url.to_string(), title: title.to_string() }
        },
        _ => ImageLink { dest: String::new(), title: String::new() },
    }).collect()
}

/// `pulldown_cmark::Parser::into_offset_iter`: for each event in order, the
/// range of bytes that it maps to in the source.
#[verifier::external_body]
fn event_spans(md: &str, options: u32) -> (r: Vec<(usize, usize)>)
    ensures
        r@ == md_events(md@, options).map_values(|e: EventView| e.span),
{
    Parser::new_ext(md, Options::from_bits_truncate(options)).into_offset_iter().map(
        |(_, range)| (range.start, range.end),
    ).collect()
}

/// The HTML of the events `from..to` of a Markdown source.
pub uninterp spec fn md_html(md: Seq<char>, options: u32, from: int, to: int) -> Seq<char>;

/// `pulldown_cmark::html::push_html` on the events `from..to` of the source: a
/// function of the source, the extensions and the range.
#[verifier::external_body]
pub(crate) fn html_between(md: &str, options: u32, from: usize, to: usize) -> (r: String)
    requires
        from <= to,
    ensures
        r@ == md_html(md@, options, from as int, to as int),
{
    let mut out = String::new();
    let events = Parser::new_ext(md, Options::from_bits_truncate(options));
    pulldown_cmark::html::push_html(&mut out, events.skip(from).take(to - from));
    out
}

/// The events of `md` under the given parser extensions.
pub fn parse_events(md: &str, options: u32) -> (r: Vec<MdEvent>)
    ensures
        views(r@) == md_events(md@, options),
{
    let ghost all = md_events(md@, options);
    let mut roles = event_roles(md, options);
    let mut inlines = event_inlines(md, options);
    let mut aligns = event_aligns(md, options);
    let mut links = event_links(md, options);
    let spans = event_spans(md, options);
    proof {
        assert(spans@.len() == all.len());
        assert(roles@.len() == all.len());
        assert(views(inlines@).len() == all.len());
        assert(views(aligns@).len() == all.len());
        assert(views(links@).len() == all.len());
    }
    let ghost roles0 = roles@;
    let ghost inlines0 = views(inlines@);
    let ghost aligns0 = views(aligns@);
    let ghost links0 = views(links@);
    let mut rev: Vec<MdEvent> = Vec::new();
    let mut i: usize = roles.len();
    while i > 0
        invariant
            i <= all.len(),
            roles0 == all.map_values(|e: EventView| e.role),
            inlines0 == all.map_values(|e: EventView| e.inline),
            aligns0 == all.map_values(|e: EventView| e.aligns),
            links0 == all.map_values(|e: EventView| e.link),
            spans@ == all.map_values(|e: EventView| e.span),
            roles@ == roles0.take(i as int),
            views(inlines@) == inlines0.take(i as int),
            views(aligns@) == aligns0.take(i as int),
            views(links@) == links0.take(i as int),
            rev@.len() == all.len() - i,
            forall|k: int| 0 <= k < rev@.len() ==> (#[trigger] rev@[k])@ == all[all.len() - 1 - k],
        decreases i,
    {
        let ghost in0 = inlines@;
        let ghost al0 = aligns@;
        let ghost li0 = links@;
        proof {
            assert(views(in0).len() == in0.len());
            assert(views(al0).len() == al0.len());
            assert(views(li0).len() == li0.len());
        }
        i -= 1;
        if let (Some(role), Some(inline), Some(al), Some(link)) = (
            roles.pop(),
            inlines.pop(),
            aligns.pop(),
            links.pop(),
        ) {
            proof {
                assert(views(in0)[i as int] == inline@);
                assert(views(al0)[i as int] == al@);
                assert(views(li0)[i as int] == link@);
                assert(views(inlines@) =~= inlines0.take(i as int));
                assert(views(aligns@) =~= aligns0.take(i as int));
                assert(views(links@) =~= links0.take(i as int));
                assert(roles@ =~= roles0.take(i as int));
            }
            rev.push(MdEvent { role, inline, aligns: al, link, span: spans[i] });
        }
    }
    let mut out: Vec<MdEvent> = Vec::new();
    let ghost rev0 = rev@;
    while rev.len() > 0
        invariant
            rev0.len() == all.len(),
            rev@.len() + out@.len() == all.len(),
            rev@ == rev0.take(rev@.len() as int),
            forall|k: int| 0 <= k < rev0.len() ==> (#[trigger] rev0[k])@ == all[all.len() - 1 - k],
            views(out@) == all.take(out@.len() as int),
        decreases rev@.len(),
    {
        let ghost before = rev@;
        if let Some(e) = rev.pop() {
            proof {
                assert(e == rev0[before.len() - 1]);
                lemma_views_push(out@, e);
                assert(all.take(out@.len() as int + 1) =~= all.take(out@.len() as int).push(e@));
                assert(rev@ =~= rev0.take(rev@.len() as int));
            }
            out.push(e);
        }
    }
    proof {
        assert(all.take(all.len() as int) =~= all);
    }
    out
}

} // verus!
