//! Markdown source as the typed text of a page.
//!
//! The device is picky about the layout of the text CRDT:
//!
//! - one text item holds the entire text as a single run, with a line feed
//!   after each paragraph;
//! - its id is `1:16` and it has no neighbours: the first character lives in
//!   slot 16, the next in 17, and so on;
//! - the style of a paragraph is keyed by the id of the line feed that stands
//!   before it; the first paragraph keys at zero.
//!
//! Headings of any depth become headings, paragraphs plain text, items of a
//! list bullets, and items of a nested list second-level bullets. Emphasis and
//! inline code arrive as plain text. Code blocks, images and footnotes are
//! skipped.

use vstd::prelude::*;

use crate::events::{
    md_events, parse_events, Element, EventView, Inline, InlineView, MdEvent, Role, FOOTNOTES,
};
use crate::text::{chars_of, lemma_views_push, string_of, views};
use crate::v6::blocks::{
    ParagraphStyle, RootTextBlock, RootTextView, TextItem, TextItemValue, TextItemView,
    TextValueView,
};
use crate::v6::page::Device;
use crate::v6::stream::{CrdtId, LwwValue};

verus! {

/// Frame defaults for Paper Pro, in hundredths of a device unit, as the
/// reference text document of the format has them. [`Device::text_frame`]
/// gives the frame of each model.
pub const DEFAULT_POS_X: i64 = -46800;

pub const DEFAULT_POS_Y: i64 = 12000;

pub const DEFAULT_WIDTH: i64 = 93600;

/// The slot of the first character. The device leaves the slots below it to
/// system blocks.
pub const FIRST_SLOT: u64 = 16;

/// The id of the first character.
pub fn first_char_id() -> (r: CrdtId)
    ensures
        r == (CrdtId { part1: 1, part2: FIRST_SLOT }),
{
    CrdtId { part1: 1, part2: FIRST_SLOT }
}

/// One typed-text paragraph.
#[derive(Debug)]
pub struct Para {
    pub text: String,
    pub style: ParagraphStyle,
}

/// The mathematical value of a [`Para`].
pub struct ParaView {
    pub text: Seq<char>,
    pub style: ParagraphStyle,
}

impl View for Para {
    type V = ParaView;

    open spec fn view(&self) -> ParaView {
        ParaView { text: self.text@, style: self.style }
    }
}

// ---------------------------------------------------------------------------
// Paragraphs
// ---------------------------------------------------------------------------

/// Whether the content of an element is left out of the typed text.
pub open spec fn left_out(e: Element) -> bool {
    e == Element::CodeBlock || e == Element::Image || e == Element::Footnote
}

/// How far the events have been read: the finished paragraphs, the open one,
/// the nesting of lists, and the nesting of elements that are left out.
pub struct Reading {
    pub done: Seq<ParaView>,
    pub current: Option<ParaView>,
    pub lists: nat,
    pub skipping: nat,
}

impl Reading {
    /// Nothing read yet.
    pub open spec fn start() -> Reading {
        Reading { done: Seq::empty(), current: None, lists: 0, skipping: 0 }
    }

    /// The open paragraph finished.
    pub open spec fn closed(self) -> Reading {
        match self.current {
            Some(p) => Reading { done: self.done.push(p), current: None, ..self },
            None => self,
        }
    }

    /// A new paragraph opened, unless one is open.
    pub open spec fn opened(self, style: ParagraphStyle) -> Reading {
        match self.current {
            Some(_) => self,
            None => Reading { current: Some(ParaView { text: Seq::empty(), style }), ..self },
        }
    }

    /// A block begun: where the open paragraph holds text already, it is
    /// finished and another of its style opened.
    pub open spec fn parted(self) -> Reading {
        match self.current {
            Some(p) if p.text.len() > 0 => self.closed().opened(p.style),
            _ => self,
        }
    }

    /// Text added to the open paragraph, if there is one.
    pub open spec fn added(self, s: Seq<char>) -> Reading {
        match self.current {
            Some(p) => Reading { current: Some(ParaView { text: p.text + s, ..p }), ..self },
            None => self,
        }
    }

    /// The reading after one more event.
    pub open spec fn after(self, e: EventView) -> Reading {
        if self.skipping > 0 {
            match e.role {
                Role::Open(x) if left_out(x) => Reading { skipping: self.skipping + 1, ..self },
                Role::Close(x) if left_out(x) => Reading {
                    skipping: (self.skipping - 1) as nat,
                    ..self
                },
                _ => self,
            }
        } else {
            match e.role {
                Role::Open(Element::Heading) => self.closed().opened(ParagraphStyle::Heading),
                Role::Close(Element::Heading) => self.closed(),
                Role::Open(Element::Paragraph) => self.parted().opened(ParagraphStyle::Plain),
                Role::Close(Element::Paragraph) => if self.lists == 0 {
                    self.closed()
                } else {
                    self
                },
                Role::Open(Element::List) => Reading { lists: self.lists + 1, ..self },
                Role::Close(Element::List) => Reading {
                    lists: if self.lists > 0 {
                        (self.lists - 1) as nat
                    } else {
                        0
                    },
                    ..self
                },
                Role::Open(Element::Item) => self.closed().opened(
                    if self.lists >= 2 {
                        ParagraphStyle::Bullet2
                    } else {
                        ParagraphStyle::Bullet
                    },
                ),
                Role::Close(Element::Item) => self.closed(),
                Role::Open(Element::Image) => Reading { skipping: 1, ..self },
                Role::Open(x) if left_out(x) => Reading { skipping: 1, ..self.parted() },
                Role::Leaf => match e.inline {
                    InlineView::Text(s) => self.opened(ParagraphStyle::Plain).added(s),
                    InlineView::Code(s) => self.opened(ParagraphStyle::Plain).added(s),
                    InlineView::SoftBreak => self.added(seq![' ']),
                    InlineView::HardBreak => self.added(seq![' ']),
                    InlineView::Nothing => self,
                },
                _ => self,
            }
        }
    }
}

/// The reading of a list of events.
pub open spec fn reading(es: Seq<EventView>) -> Reading
    decreases es.len(),
{
    if es.len() == 0 {
        Reading::start()
    } else {
        reading(es.drop_last()).after(es.last())
    }
}

/// The paragraphs that hold text, in order.
pub open spec fn filled_paras(ps: Seq<ParaView>) -> Seq<ParaView>
    decreases ps.len(),
{
    if ps.len() == 0 {
        Seq::empty()
    } else if ps.last().text.len() > 0 {
        filled_paras(ps.drop_last()).push(ps.last())
    } else {
        filled_paras(ps.drop_last())
    }
}

/// The paragraphs of a list of events.
pub open spec fn paragraphs(es: Seq<EventView>) -> Seq<ParaView> {
    filled_paras(reading(es).closed().done)
}

/// The state of the reading in memory.
struct Reader {
    done: Vec<Para>,
    current: Option<Para>,
    lists: usize,
    skipping: usize,
}

impl Reader {
    spec fn is(&self, r: Reading) -> bool {
        &&& views(self.done@) == r.done
        &&& match self.current {
            Some(p) => r.current == Some(p@),
            None => r.current is None,
        }
        &&& self.lists == r.lists
        &&& self.skipping == r.skipping
    }

    fn close(&mut self, Ghost(r): Ghost<Reading>)
        requires
            old(self).is(r),
        ensures
            final(self).is(r.closed()),
    {
        if let Some(p) = self.current.take() {
            proof {
                lemma_views_push(self.done@, p);
            }
            self.done.push(p);
        }
    }

    fn open(&mut self, style: ParagraphStyle, Ghost(r): Ghost<Reading>)
        requires
            old(self).is(r),
        ensures
            final(self).is(r.opened(style)),
    {
        if self.current.is_none() {
            let text = String::new();
            proof {
                assert(text@ =~= Seq::<char>::empty());
            }
            self.current = Some(Para { text, style });
        }
    }

    fn part(&mut self, Ghost(r): Ghost<Reading>)
        requires
            old(self).is(r),
        ensures
            final(self).is(r.parted()),
    {
        let style = match &self.current {
            Some(p) => if p.text.as_str().unicode_len() > 0 {
                Some(p.style)
            } else {
                None
            },
            None => None,
        };
        match style {
            Some(style) => {
                self.close(Ghost(r));
                self.open(style, Ghost(r.closed()));
            },
            None => {},
        }
    }

    fn add(&mut self, s: &str, Ghost(r): Ghost<Reading>)
        requires
            old(self).is(r),
        ensures
            final(self).is(r.added(s@)),
    {
        match self.current.take() {
            Some(p) => {
                let style = p.style;
                let mut text = p.text;
                text.push_str(s);
                self.current = Some(Para { text, style });
            },
            None => {},
        }
    }
}

/// Keeps the paragraphs that hold text.
fn keep_filled(ps: Vec<Para>) -> (r: Vec<Para>)
    ensures
        views(r@) == filled_paras(views(ps@)),
{
    let ghost all = views(ps@);
    let mut out: Vec<Para> = Vec::new();
    let mut i: usize = 0;
    proof {
        assert(views(out@) =~= filled_paras(all.take(0)));
    }
    while i < ps.len()
        invariant
            all == views(ps@),
            i <= ps@.len(),
            views(out@) == filled_paras(all.take(i as int)),
        decreases ps@.len() - i,
    {
        proof {
            assert(all.take(i + 1).drop_last() =~= all.take(i as int));
            assert(all.take(i + 1).last() == ps@[i as int]@);
        }
        if ps[i].text.as_str().unicode_len() > 0 {
            let p = Para { text: ps[i].text.clone(), style: ps[i].style };
            proof {
                lemma_views_push(out@, p);
            }
            out.push(p);
        }
        i += 1;
    }
    proof {
        assert(all.take(i as int) =~= all);
    }
    out
}

/// The paragraphs of a list of events: one for each block of prose, heading
/// and list item that holds text.
pub fn paragraphs_of(events: &Vec<MdEvent>) -> (r: Vec<Para>)
    ensures
        views(r@) == paragraphs(views(events@)),
{
    let ghost es = views(events@);
    let mut w = Reader { done: Vec::new(), current: None, lists: 0, skipping: 0 };
    let mut i: usize = 0;
    proof {
        assert(views(w.done@) =~= Seq::<ParaView>::empty());
    }
    while i < events.len()
        invariant
            es == views(events@),
            i <= events@.len(),
            w.is(reading(es.take(i as int))),
            w.lists <= i,
            w.skipping <= i,
        decreases events@.len() - i,
    {
        let e = &events[i];
        let ghost before = reading(es.take(i as int));
        proof {
            assert(es.take(i + 1).drop_last() =~= es.take(i as int));
            assert(es.take(i + 1).last() == e@);
        }
        if w.skipping > 0 {
            match e.role {
                Role::Open(Element::CodeBlock) => w.skipping += 1,
                Role::Open(Element::Image) => w.skipping += 1,
                Role::Open(Element::Footnote) => w.skipping += 1,
                Role::Close(Element::CodeBlock) => w.skipping -= 1,
                Role::Close(Element::Image) => w.skipping -= 1,
                Role::Close(Element::Footnote) => w.skipping -= 1,
                _ => {},
            }
        } else {
            match e.role {
                Role::Open(Element::Heading) => {
                    w.close(Ghost(before));
                    w.open(ParagraphStyle::Heading, Ghost(before.closed()));
                },
                Role::Close(Element::Heading) => w.close(Ghost(before)),
                Role::Open(Element::Paragraph) => {
                    w.part(Ghost(before));
                    w.open(ParagraphStyle::Plain, Ghost(before.parted()));
                },
                Role::Close(Element::Paragraph) => {
                    if w.lists == 0 {
                        w.close(Ghost(before));
                    }
                },
                Role::Open(Element::List) => w.lists += 1,
                Role::Close(Element::List) => {
                    if w.lists > 0 {
                        w.lists -= 1;
                    }
                },
                Role::Open(Element::Item) => {
                    let style = if w.lists >= 2 {
                        ParagraphStyle::Bullet2
                    } else {
                        ParagraphStyle::Bullet
                    };
                    w.close(Ghost(before));
                    w.open(style, Ghost(before.closed()));
                },
                Role::Close(Element::Item) => w.close(Ghost(before)),
                Role::Open(Element::Image) => w.skipping = 1,
                Role::Open(Element::CodeBlock) | Role::Open(Element::Footnote) => {
                    w.part(Ghost(before));
                    w.skipping = 1;
                },
                Role::Leaf => match &e.inline {
                    Inline::Text(s) => {
                        w.open(ParagraphStyle::Plain, Ghost(before));
                        w.add(s.as_str(), Ghost(before.opened(ParagraphStyle::Plain)));
                    },
                    Inline::Code(s) => {
                        w.open(ParagraphStyle::Plain, Ghost(before));
                        w.add(s.as_str(), Ghost(before.opened(ParagraphStyle::Plain)));
                    },
                    Inline::SoftBreak => {
                        proof {
                            reveal_strlit(" ");
                            assert(" "@ =~= seq![' ']);
                        }
                        w.add(" ", Ghost(before));
                    },
                    Inline::HardBreak => {
                        proof {
                            reveal_strlit(" ");
                            assert(" "@ =~= seq![' ']);
                        }
                        w.add(" ", Ghost(before));
                    },
                    Inline::Nothing => {},
                },
                _ => {},
            }
        }
        i += 1;
    }
    proof {
        assert(es.take(i as int) =~= es);
    }
    w.close(Ghost(reading(es)));
    keep_filled(w.done)
}

/// The paragraphs of a Markdown source.
pub fn parse_paragraphs(md: &str) -> (r: Vec<Para>)
    ensures
        views(r@) == paragraphs(md_events(md@, FOOTNOTES)),
{
    let events = parse_events(md, FOOTNOTES);
    paragraphs_of(&events)
}

// ---------------------------------------------------------------------------
// The text CRDT
// ---------------------------------------------------------------------------

/// The text of the paragraphs, each with a line feed.
pub open spec fn run_text(ps: Seq<ParaView>) -> Seq<char>
    decreases ps.len(),
{
    if ps.len() == 0 {
        Seq::empty()
    } else {
        run_text(ps.drop_last()) + ps.last().text + seq!['\n']
    }
}

/// The style entry of paragraph `i`: keyed by the id of the line feed before
/// it and stamped one slot later, or, for the first, keyed at zero and stamped
/// one slot before the first character.
pub open spec fn style_entry(ps: Seq<ParaView>, i: int) -> (CrdtId, LwwValue<ParagraphStyle>) {
    let slot = FIRST_SLOT + run_text(ps.take(i)).len();
    if i == 0 {
        (
            CrdtId { part1: 0, part2: 0 },
            LwwValue { timestamp: CrdtId { part1: 1, part2: 15 }, value: ps[i].style },
        )
    } else {
        (
            CrdtId { part1: 1, part2: (slot - 1) as u64 },
            LwwValue { timestamp: CrdtId { part1: 1, part2: slot as u64 }, value: ps[i].style },
        )
    }
}

/// The style entries of the paragraphs.
pub open spec fn style_entries(ps: Seq<ParaView>) -> Seq<(CrdtId, LwwValue<ParagraphStyle>)> {
    Seq::new(ps.len(), |i: int| style_entry(ps, i))
}

/// The typed text of the paragraphs on a device.
pub open spec fn root_text_of(ps: Seq<ParaView>, device: Device) -> RootTextView {
    RootTextView {
        min_version: 1,
        current_version: 1,
        block_id: CrdtId { part1: 0, part2: 0 },
        items: if ps.len() == 0 {
            Seq::empty()
        } else {
            seq![
                TextItemView {
                    item_id: CrdtId { part1: 1, part2: 16 },
                    left_id: CrdtId { part1: 0, part2: 0 },
                    right_id: CrdtId { part1: 0, part2: 0 },
                    deleted_length: 0,
                    value: TextValueView::Run(run_text(ps)),
                },
            ]
        },
        styles: style_entries(ps),
        pos_x: device.frame().0,
        pos_y: device.frame().1,
        width: device.frame().2,
        extra_data: Seq::empty(),
    }
}

/// The slots below the first character.
fn system_slots() -> (r: Vec<char>)
    ensures
        r@.len() == FIRST_SLOT,
{
    let mut out: Vec<char> = Vec::new();
    let mut i: u64 = 0;
    while i < FIRST_SLOT
        invariant
            i <= FIRST_SLOT,
            out@.len() == i,
        decreases FIRST_SLOT - i,
    {
        out.push('\n');
        i += 1;
    }
    out
}

/// Lays the paragraphs out in the slots of the text CRDT.
pub fn root_text(ps: &Vec<Para>, device: Device) -> (r: RootTextBlock)
    ensures
        r@ == root_text_of(views(ps@), device),
{
    let ghost all = views(ps@);
    let (pos_x, pos_y, width) = device.text_frame();
    let mut slots: Vec<char> = system_slots();
    let ghost low = slots@;
    let mut styles: Vec<(CrdtId, LwwValue<ParagraphStyle>)> = Vec::new();
    let mut i: usize = 0;
    proof {
        assert(low + run_text(all.take(0)) =~= low);
    }
    while i < ps.len()
        invariant
            all == views(ps@),
            i <= ps@.len(),
            low.len() == FIRST_SLOT,
            slots@ == low + run_text(all.take(i as int)),
            styles@ == style_entries(all).take(i as int),
        decreases ps@.len() - i,
    {
        let slot: u64 = slots.len() as u64;
        proof {
            assert(all.take(i + 1).drop_last() =~= all.take(i as int));
            assert(all.take(i + 1).last() == ps@[i as int]@);
            assert(all[i as int] == ps@[i as int]@);
            assert(style_entries(all).take(i + 1) =~= style_entries(all).take(i as int).push(
                style_entry(all, i as int),
            ));
        }
        let entry = if i == 0 {
            (
                CrdtId { part1: 0, part2: 0 },
                LwwValue { timestamp: CrdtId { part1: 1, part2: 15 }, value: ps[i].style },
            )
        } else {
            (
                CrdtId { part1: 1, part2: slot - 1 },
                LwwValue { timestamp: CrdtId { part1: 1, part2: slot }, value: ps[i].style },
            )
        };
        styles.push(entry);
        let mut text = chars_of(ps[i].text.as_str());
        slots.append(&mut text);
        slots.push('\n');
        proof {
            assert(slots@ =~= low + run_text(all.take(i + 1)));
        }
        i += 1;
    }
    proof {
        assert(all.take(i as int) =~= all);
        assert(style_entries(all).take(i as int) =~= style_entries(all));
    }
    let mut items: Vec<TextItem> = Vec::new();
    if ps.len() > 0 {
        let text = string_of(slots.as_slice(), FIRST_SLOT as usize, slots.len());
        proof {
            assert(text@ =~= run_text(all));
        }
        items.push(
            TextItem {
                item_id: first_char_id(),
                left_id: CrdtId::zero(),
                right_id: CrdtId::zero(),
                deleted_length: 0,
                value: TextItemValue::Run(text),
            },
        );
    }
    let r = RootTextBlock {
        min_version: 1,
        current_version: 1,
        block_id: CrdtId::zero(),
        items,
        styles,
        pos_x,
        pos_y,
        width,
        extra_data: Vec::new(),
    };
    proof {
        assert(r@.items =~= root_text_of(all, device).items);
        assert(r@.styles =~= root_text_of(all, device).styles);
        assert(r@.extra_data =~= root_text_of(all, device).extra_data);
    }
    r
}

/// Converts Markdown into the typed text of a page on the given device.
pub fn markdown_to_root_text_for(md: &str, device: Device) -> (r: RootTextBlock)
    ensures
        r@ == root_text_of(paragraphs(md_events(md@, FOOTNOTES)), device),
{
    let ps = parse_paragraphs(md);
    root_text(&ps, device)
}

/// Converts Markdown into the typed text of a page on a Paper Pro.
pub fn markdown_to_root_text(md: &str) -> (r: RootTextBlock)
    ensures
        r@ == root_text_of(paragraphs(md_events(md@, FOOTNOTES)), Device::PaperPro),
{
    markdown_to_root_text_for(md, Device::PaperPro)
}

// ---------------------------------------------------------------------------
// Laws
// ---------------------------------------------------------------------------

/// While a code block, an image or a footnote is open, nothing reaches the
/// typed text.
pub proof fn law_left_out_adds_nothing(r: Reading, e: EventView)
    requires
        r.skipping > 0,
    ensures
        r.after(e).done == r.done,
        r.after(e).current == r.current,
        r.after(e).lists == r.lists,
{
}

/// The paragraphs of one list item stay apart: where one opens while another
/// holds text, that one is finished and a new one of its style is open.
pub proof fn law_paragraphs_stay_apart(r: Reading, e: EventView)
    requires
        r.skipping == 0,
        e.role == Role::Open(Element::Paragraph),
        r.current matches Some(p) && p.text.len() > 0,
    ensures
        r.after(e).done == r.done.push(r.current->0),
        r.after(e).current == Some(
            ParaView { text: Seq::empty(), style: r.current->0.style },
        ),
{
}

/// Every paragraph of the typed text holds text.
pub proof fn law_paragraphs_hold_text(es: Seq<EventView>, i: int)
    requires
        0 <= i < paragraphs(es).len(),
    ensures
        paragraphs(es)[i].text.len() > 0,
{
    lemma_filled(reading(es).closed().done, i);
}

proof fn lemma_filled(ps: Seq<ParaView>, i: int)
    requires
        0 <= i < filled_paras(ps).len(),
    ensures
        filled_paras(ps)[i].text.len() > 0,
    decreases ps.len(),
{
    if ps.len() > 0 {
        if i < filled_paras(ps.drop_last()).len() {
            lemma_filled(ps.drop_last(), i);
        }
    }
}

pub proof fn lemma_run_prefix(ps: Seq<ParaView>, i: int)
    requires
        0 <= i <= ps.len(),
    ensures
        run_text(ps.take(i)).len() <= run_text(ps).len(),
        run_text(ps).take(run_text(ps.take(i)).len() as int) == run_text(ps.take(i)),
    decreases ps.len() - i,
{
    if i < ps.len() {
        lemma_run_prefix(ps, i + 1);
        assert(ps.take(i + 1).drop_last() =~= ps.take(i));
        let a = run_text(ps.take(i));
        let b = run_text(ps.take(i + 1));
        assert(b.take(a.len() as int) =~= a);
        assert(run_text(ps).take(a.len() as int) =~= b.take(a.len() as int));
    } else {
        assert(ps.take(i) =~= ps);
        assert(run_text(ps).take(run_text(ps).len() as int) =~= run_text(ps));
    }
}

/// The style of every paragraph but the first is keyed by the slot of the line
/// feed before it: the character in that slot is a line feed, and the text of
/// the paragraph begins in the next slot. The slots fit in 64 bits.
pub proof fn law_style_keys_stand_on_line_feeds(ps: Seq<ParaView>, i: int)
    requires
        0 < i < ps.len(),
        FIRST_SLOT + run_text(ps).len() <= u64::MAX,
    ensures
        ({
            let k = style_entries(ps)[i].0.part2 - FIRST_SLOT;
            let n = ps[i].text.len();
            &&& 0 <= k && k + 1 + n < run_text(ps).len()
            &&& run_text(ps)[k] == '\n'
            &&& run_text(ps).subrange(k + 1, k + 1 + n) == ps[i].text
            &&& run_text(ps)[k + 1 + n] == '\n'
        }),
{
    let t = run_text(ps);
    let a = run_text(ps.take(i));
    let b = run_text(ps.take(i + 1));
    lemma_run_prefix(ps, i);
    lemma_run_prefix(ps, i + 1);
    assert(ps.take(i + 1).drop_last() =~= ps.take(i));
    assert(ps.take(i).last() == ps[i - 1]);
    assert(a.len() > 0 && a.last() == '\n');
    let k = a.len() - 1;
    assert(style_entries(ps)[i].0.part2 - FIRST_SLOT == k);
    assert(t[k] == t.take(a.len() as int)[k]);
    let n = ps[i].text.len();
    assert(b =~= a + ps[i].text + seq!['\n']);
    assert forall|j: int| 0 <= j < n implies t.subrange(k + 1, k + 1 + n)[j] == ps[i].text[j] by {
        assert(t[k + 1 + j] == t.take(b.len() as int)[k + 1 + j]);
    }
    assert(t.subrange(k + 1, k + 1 + n) =~= ps[i].text);
    assert(t[k + 1 + n] == t.take(b.len() as int)[k + 1 + n]);
}

/// The style keys ascend, so no two paragraphs share one. The slots fit in 64
/// bits.
pub proof fn law_style_keys_ascend(ps: Seq<ParaView>, i: int, j: int)
    requires
        0 <= i < j < ps.len(),
        FIRST_SLOT + run_text(ps).len() <= u64::MAX,
    ensures
        style_entries(ps)[i].0.part2 < style_entries(ps)[j].0.part2,
{
    assert(ps.take(j).take(i) =~= ps.take(i));
    lemma_run_prefix(ps.take(j), i);
    lemma_run_prefix(ps, j);
    lemma_run_strict(ps, i, j);
}

proof fn lemma_run_strict(ps: Seq<ParaView>, i: int, j: int)
    requires
        0 <= i < j <= ps.len(),
    ensures
        run_text(ps.take(i)).len() < run_text(ps.take(j)).len(),
    decreases j - i,
{
    assert(ps.take(j).drop_last() =~= ps.take(j - 1));
    if i < j - 1 {
        lemma_run_strict(ps, i, j - 1);
    }
}

} // verus!
