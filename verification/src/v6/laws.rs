//! Laws of the typed text: which blocks of a source become which paragraphs.

use vstd::prelude::*;

use crate::events::{Element, EventView, InlineView, Role};
use crate::markdown::wrap::{ink, ink_of, lemma_ink_add};
use crate::text::split;
use crate::v6::blocks::{Block, ParagraphStyle};
use crate::v6::markdown::{
    filled_paras, left_out, lemma_run_prefix, paragraphs, reading, root_text_of, run_text,
    FIRST_SLOT, ParaView, Reading,
};
use crate::v6::page::{id_base, is_page, tree_node_layer_bytes, visible_chars, Device};

verus! {

// ---------------------------------------------------------------------------
// Nesting
// ---------------------------------------------------------------------------

/// How many more elements that are left out were opened than closed.
pub open spec fn left_out_depth(es: Seq<EventView>) -> int
    decreases es.len(),
{
    if es.len() == 0 {
        0
    } else {
        left_out_depth(es.drop_last()) + match es.last().role {
            Role::Open(Element::CodeBlock) | Role::Open(Element::Image) | Role::Open(
                Element::Footnote,
            ) => 1int,
            Role::Close(Element::CodeBlock) | Role::Close(Element::Image) | Role::Close(
                Element::Footnote,
            ) => -1int,
            _ => 0int,
        }
    }
}

/// How many more lists were opened than closed, elements that are left out
/// aside.
pub open spec fn list_depth(es: Seq<EventView>) -> int
    decreases es.len(),
{
    if es.len() == 0 {
        0
    } else {
        list_depth(es.drop_last()) + if left_out_depth(es.drop_last()) > 0 {
            0int
        } else if es.last().role == Role::Open(Element::List) {
            1int
        } else if es.last().role == Role::Close(Element::List) {
            -1int
        } else {
            0int
        }
    }
}

/// Whether nothing is closed that is not open.
pub open spec fn nested(es: Seq<EventView>) -> bool {
    forall|n: int|
        0 <= n <= es.len() ==> left_out_depth(#[trigger] es.take(n)) >= 0 && list_depth(es.take(n))
            >= 0
}

proof fn lemma_nested_prefix(es: Seq<EventView>, m: int)
    requires
        nested(es),
        0 <= m <= es.len(),
    ensures
        nested(es.take(m)),
{
    assert forall|n: int| 0 <= n <= m implies left_out_depth(#[trigger] es.take(m).take(n)) >= 0
        && list_depth(es.take(m).take(n)) >= 0 by {
        assert(es.take(m).take(n) =~= es.take(n));
    }
}

/// The nesting that decides the style of a bullet is the number of lists that
/// were opened less the number that were closed, elements that are left out
/// aside; and text is left out exactly inside those.
pub proof fn law_nesting_counts_open_lists(es: Seq<EventView>)
    requires
        nested(es),
    ensures
        reading(es).lists == list_depth(es),
        reading(es).skipping == left_out_depth(es),
    decreases es.len(),
{
    if es.len() > 0 {
        let d = es.drop_last();
        assert(es.take(es.len() - 1) =~= d);
        assert(es.take(es.len() as int) =~= es);
        lemma_nested_prefix(es, es.len() - 1);
        law_nesting_counts_open_lists(d);
        assert(es.take(d.len() as int) == d);
    }
}

// ---------------------------------------------------------------------------
// One block
// ---------------------------------------------------------------------------

/// The text that an event puts into a line of prose: that of text and code, and
/// a space for a line break.
pub open spec fn prose_of(e: EventView) -> Seq<char> {
    match e.inline {
        InlineView::Text(s) => s,
        InlineView::Code(s) => s,
        InlineView::SoftBreak => seq![' '],
        InlineView::HardBreak => seq![' '],
        InlineView::Nothing => Seq::empty(),
    }
}

/// Whether the events are prose: text, code, breaks and emphasis.
pub open spec fn is_prose(es: Seq<EventView>) -> bool {
    forall|i: int|
        0 <= i < es.len() ==> (#[trigger] es[i]).role == Role::Leaf || (es[i].inline
            == InlineView::Nothing && (es[i].role == Role::Open(Element::Other) || es[i].role
            == Role::Close(Element::Other)))
}

/// The text of prose: that of its events, one after the other.
pub open spec fn prose_text(es: Seq<EventView>) -> Seq<char> {
    es.map_values(|e: EventView| prose_of(e)).flatten()
}

proof fn lemma_prose_push(es: Seq<EventView>, e: EventView)
    ensures
        prose_text(es.push(e)) == prose_text(es) + prose_of(e),
{
    let f = |e: EventView| prose_of(e);
    assert(es.push(e).map_values(f) =~= es.map_values(f).push(prose_of(e)));
    es.map_values(f).lemma_flatten_push(prose_of(e));
}

/// A paragraph, or nothing where it holds no text.
pub open spec fn unless_empty(text: Seq<char>, style: ParagraphStyle) -> Seq<ParaView> {
    if text.len() == 0 {
        Seq::empty()
    } else {
        seq![ParaView { text, style }]
    }
}

/// The style of an item of a list: a bullet, and a second-level bullet where
/// the list stands in another.
pub open spec fn bullet_style(depth: int) -> ParagraphStyle {
    if depth >= 2 {
        ParagraphStyle::Bullet2
    } else {
        ParagraphStyle::Bullet
    }
}

proof fn lemma_step(es: Seq<EventView>, e: EventView)
    ensures
        reading(es.push(e)) == reading(es).after(e),
{
    assert(es.push(e).drop_last() =~= es);
}

proof fn lemma_prose_read(es: Seq<EventView>, mid: Seq<EventView>, p: ParaView)
    requires
        reading(es).skipping == 0,
        reading(es).current == Some(p),
        is_prose(mid),
    ensures
        reading(es + mid) == (Reading {
            current: Some(ParaView { text: p.text + prose_text(mid), style: p.style }),
            ..reading(es)
        }),
    decreases mid.len(),
{
    if mid.len() == 0 {
        assert(es + mid =~= es);
        assert(prose_text(mid) =~= Seq::<char>::empty());
        assert(p.text + prose_text(mid) =~= p.text);
    } else {
        let d = mid.drop_last();
        let e = mid.last();
        assert forall|i: int| 0 <= i < d.len() implies (#[trigger] d[i]).role == Role::Leaf || (
        d[i].inline == InlineView::Nothing && (d[i].role == Role::Open(Element::Other) || d[i].role
            == Role::Close(Element::Other))) by {
            assert(d[i] == mid[i]);
        }
        lemma_prose_read(es, d, p);
        assert(mid[mid.len() - 1] == e);
        assert(es + mid =~= (es + d).push(e));
        lemma_step(es + d, e);
        assert(mid =~= d.push(e));
        lemma_prose_push(d, e);
        assert(p.text + prose_text(mid) =~= p.text + prose_text(d) + prose_of(e));
    }
}

proof fn lemma_filled_push(ps: Seq<ParaView>, p: ParaView)
    ensures
        filled_paras(ps.push(p)) == filled_paras(ps) + unless_empty(p.text, p.style),
{
    assert(ps.push(p).drop_last() =~= ps);
    assert(filled_paras(ps.push(p)) =~= filled_paras(ps) + unless_empty(p.text, p.style));
}

/// A block of prose between its opening and its closing event.
pub open spec fn block(open: EventView, mid: Seq<EventView>, close: EventView) -> Seq<EventView> {
    seq![open] + mid + seq![close]
}

proof fn lemma_block(
    es: Seq<EventView>,
    open: EventView,
    mid: Seq<EventView>,
    close: EventView,
    style: ParagraphStyle,
)
    requires
        is_prose(mid),
        reading(es).after(open) == (Reading {
            done: reading(es).closed().done,
            current: Some(ParaView { text: Seq::empty(), style }),
            ..reading(es)
        }),
        reading(es).skipping == 0,
        forall|r: Reading|
            r.skipping == 0 && r.lists == reading(es).lists ==> #[trigger] r.after(close)
                == r.closed(),
    ensures
        paragraphs(es + block(open, mid, close)) == paragraphs(es) + unless_empty(
            prose_text(mid),
            style,
        ),
        reading(es + block(open, mid, close)).current is None,
        reading(es + block(open, mid, close)).skipping == 0,
        reading(es + block(open, mid, close)).lists == reading(es).lists,
{
    let a = es.push(open);
    lemma_step(es, open);
    lemma_prose_read(a, mid, ParaView { text: Seq::empty(), style });
    assert(Seq::<char>::empty() + prose_text(mid) =~= prose_text(mid));
    lemma_step(a + mid, close);
    assert(es + block(open, mid, close) =~= (a + mid).push(close));
    let r = reading(a + mid);
    assert(r.after(close) == r.closed());
    lemma_filled_push(
        reading(es).closed().done,
        ParaView { text: prose_text(mid), style },
    );
}

/// A heading becomes one paragraph of style heading with its text, behind all
/// others.
pub proof fn law_heading_becomes_a_heading(
    es: Seq<EventView>,
    open: EventView,
    mid: Seq<EventView>,
    close: EventView,
)
    requires
        nested(es),
        left_out_depth(es) == 0,
        open.role == Role::Open(Element::Heading),
        close.role == Role::Close(Element::Heading),
        is_prose(mid),
    ensures
        paragraphs(es + block(open, mid, close)) == paragraphs(es) + unless_empty(
            prose_text(mid),
            ParagraphStyle::Heading,
        ),
{
    law_nesting_counts_open_lists(es);
    lemma_block(es, open, mid, close, ParagraphStyle::Heading);
}

/// An item of a list becomes one bullet with its text, behind all others:
/// second-level where two or more lists are open, first-level otherwise.
pub proof fn law_item_becomes_a_bullet(
    es: Seq<EventView>,
    open: EventView,
    mid: Seq<EventView>,
    close: EventView,
)
    requires
        nested(es),
        left_out_depth(es) == 0,
        open.role == Role::Open(Element::Item),
        close.role == Role::Close(Element::Item),
        is_prose(mid),
    ensures
        paragraphs(es + block(open, mid, close)) == paragraphs(es) + unless_empty(
            prose_text(mid),
            bullet_style(list_depth(es)),
        ),
{
    law_nesting_counts_open_lists(es);
    lemma_block(es, open, mid, close, bullet_style(list_depth(es)));
}

/// Whether the events end between two blocks: nothing was read yet, or the last
/// block was closed, lists and quotes aside.
pub open spec fn between_blocks(es: Seq<EventView>) -> bool
    decreases es.len(),
{
    if es.len() == 0 {
        true
    } else {
        match es.last().role {
            Role::Close(Element::Heading) => true,
            Role::Close(Element::Item) => true,
            Role::Close(Element::Paragraph) => list_depth(es) == 0,
            Role::Open(Element::List) | Role::Close(Element::List) | Role::Open(Element::Other)
            | Role::Close(Element::Other) => between_blocks(es.drop_last()),
            _ => false,
        }
    }
}

proof fn lemma_between_blocks(es: Seq<EventView>)
    requires
        nested(es),
        left_out_depth(es) == 0,
        between_blocks(es),
    ensures
        reading(es).current is None,
    decreases es.len(),
{
    if es.len() > 0 {
        let d = es.drop_last();
        assert(es.take(es.len() - 1) =~= d);
        lemma_nested_prefix(es, es.len() - 1);
        law_nesting_counts_open_lists(es);
        law_nesting_counts_open_lists(d);
        assert(left_out_depth(d) == 0);
        if between_blocks(d) {
            lemma_between_blocks(d);
        }
    }
}

/// A paragraph between blocks and outside lists becomes one plain paragraph
/// with its text, behind all others.
pub proof fn law_paragraph_becomes_plain_text(
    es: Seq<EventView>,
    open: EventView,
    mid: Seq<EventView>,
    close: EventView,
)
    requires
        nested(es),
        left_out_depth(es) == 0,
        list_depth(es) == 0,
        between_blocks(es),
        open.role == Role::Open(Element::Paragraph),
        close.role == Role::Close(Element::Paragraph),
        is_prose(mid),
    ensures
        paragraphs(es + block(open, mid, close)) == paragraphs(es) + unless_empty(
            prose_text(mid),
            ParagraphStyle::Plain,
        ),
{
    law_nesting_counts_open_lists(es);
    lemma_between_blocks(es);
    lemma_block(es, open, mid, close, ParagraphStyle::Plain);
}

/// The paragraphs of an item that holds several.
pub open spec fn loose_body(
    open: EventView,
    mids: Seq<Seq<EventView>>,
    close: EventView,
) -> Seq<EventView> {
    mids.map_values(|mid: Seq<EventView>| block(open, mid, close)).flatten()
}

proof fn lemma_loose(
    es: Seq<EventView>,
    open: EventView,
    mids: Seq<Seq<EventView>>,
    close: EventView,
    style: ParagraphStyle,
)
    requires
        reading(es).skipping == 0,
        reading(es).lists > 0,
        reading(es).current == Some(ParaView { text: Seq::empty(), style }),
        open.role == Role::Open(Element::Paragraph),
        close.role == Role::Close(Element::Paragraph),
        forall|i: int|
            0 <= i < mids.len() ==> is_prose(#[trigger] mids[i]) && prose_text(mids[i]).len() > 0,
    ensures
        ({
            let r = reading(es + loose_body(open, mids, close));
            &&& r.skipping == 0
            &&& r.lists == reading(es).lists
            &&& r.current is Some && r.current->0.style == style
            &&& r.current->0.text.len() > 0 <==> mids.len() > 0
            &&& r.done.push(r.current->0) == if mids.len() == 0 {
                reading(es).done.push(ParaView { text: Seq::empty(), style })
            } else {
                reading(es).done + mids.map_values(
                    |mid: Seq<EventView>| ParaView { text: prose_text(mid), style },
                )
            }
        }),
    decreases mids.len(),
{
    let f = |mid: Seq<EventView>| block(open, mid, close);
    let g = |mid: Seq<EventView>| ParaView { text: prose_text(mid), style };
    if mids.len() == 0 {
        assert(mids.map_values(f).flatten() =~= Seq::<EventView>::empty());
        assert(es + loose_body(open, mids, close) =~= es);
    } else {
        let d = mids.drop_last();
        let mid = mids.last();
        assert(mids[mids.len() - 1] == mid);
        assert forall|i: int| 0 <= i < d.len() implies is_prose(#[trigger] d[i]) && prose_text(
            d[i],
        ).len() > 0 by {
            assert(d[i] == mids[i]);
        }
        lemma_loose(es, open, d, close, style);
        assert(mids.map_values(f) =~= d.map_values(f).push(f(mid)));
        d.map_values(f).lemma_flatten_push(f(mid));
        let a = es + loose_body(open, d, close);
        let r = reading(a);
        assert(es + loose_body(open, mids, close) =~= (a.push(open) + mid).push(close));
        lemma_step(a, open);
        let q = reading(a.push(open));
        assert(q.current == Some(ParaView { text: Seq::empty(), style }));
        lemma_prose_read(a.push(open), mid, ParaView { text: Seq::empty(), style });
        assert(Seq::<char>::empty() + prose_text(mid) =~= prose_text(mid));
        lemma_step(a.push(open) + mid, close);
        let s = reading(es + loose_body(open, mids, close));
        assert(s.current == Some(ParaView { text: prose_text(mid), style }));
        assert(mids.map_values(g) =~= d.map_values(g).push(g(mid)));
        if d.len() == 0 {
            assert(s.done == reading(es).done);
            assert(s.done.push(s.current->0) =~= reading(es).done + mids.map_values(g));
        } else {
            assert(s.done == r.done.push(r.current->0));
            assert(s.done.push(s.current->0) =~= reading(es).done + mids.map_values(g));
        }
    }
}

proof fn lemma_filled_add(ps: Seq<ParaView>, qs: Seq<ParaView>)
    requires
        forall|i: int| 0 <= i < qs.len() ==> (#[trigger] qs[i]).text.len() > 0,
    ensures
        filled_paras(ps + qs) == filled_paras(ps) + qs,
    decreases qs.len(),
{
    if qs.len() == 0 {
        assert(ps + qs =~= ps);
        assert(filled_paras(ps) + qs =~= filled_paras(ps));
    } else {
        let d = qs.drop_last();
        assert forall|i: int| 0 <= i < d.len() implies (#[trigger] d[i]).text.len() > 0 by {
            assert(d[i] == qs[i]);
        }
        lemma_filled_add(ps, d);
        assert(qs[qs.len() - 1].text.len() > 0);
        assert((ps + qs).drop_last() =~= ps + d);
        assert(filled_paras(ps + qs) =~= filled_paras(ps) + qs);
    }
}

/// An item of several paragraphs becomes as many bullets of its level, one for
/// each paragraph, in order.
pub proof fn law_loose_item_becomes_bullets(
    es: Seq<EventView>,
    item: EventView,
    open: EventView,
    mids: Seq<Seq<EventView>>,
    close: EventView,
    end: EventView,
)
    requires
        nested(es),
        left_out_depth(es) == 0,
        list_depth(es) > 0,
        item.role == Role::Open(Element::Item),
        open.role == Role::Open(Element::Paragraph),
        close.role == Role::Close(Element::Paragraph),
        end.role == Role::Close(Element::Item),
        forall|i: int|
            0 <= i < mids.len() ==> is_prose(#[trigger] mids[i]) && prose_text(mids[i]).len() > 0,
    ensures
        paragraphs((es.push(item) + loose_body(open, mids, close)).push(end)) == paragraphs(es)
            + mids.map_values(
            |mid: Seq<EventView>|
                ParaView { text: prose_text(mid), style: bullet_style(list_depth(es)) },
        ),
{
    law_nesting_counts_open_lists(es);
    let style = bullet_style(list_depth(es));
    let g = |mid: Seq<EventView>| ParaView { text: prose_text(mid), style };
    lemma_step(es, item);
    let a = es.push(item);
    lemma_loose(a, open, mids, close, style);
    let b = a + loose_body(open, mids, close);
    lemma_step(b, end);
    let qs = mids.map_values(g);
    let base = reading(es).closed().done;
    if mids.len() == 0 {
        lemma_filled_push(base, ParaView { text: Seq::empty(), style });
        assert(qs =~= Seq::<ParaView>::empty());
        assert(paragraphs(es) + qs =~= paragraphs(es) + unless_empty(Seq::empty(), style));
    } else {
        assert forall|i: int| 0 <= i < qs.len() implies (#[trigger] qs[i]).text.len() > 0 by {
            assert(is_prose(mids[i]));
        }
        lemma_filled_add(base, qs);
    }
    assert(qs =~= mids.map_values(
        |mid: Seq<EventView>|
            ParaView { text: prose_text(mid), style: bullet_style(list_depth(es)) },
    ));
}

// ---------------------------------------------------------------------------
// What is left out
// ---------------------------------------------------------------------------

/// Whether no element that is left out opens or closes here.
pub open spec fn holds_no_left_out(es: Seq<EventView>) -> bool {
    forall|i: int|
        0 <= i < es.len() ==> match (#[trigger] es[i]).role {
            Role::Open(x) => !left_out(x),
            Role::Close(x) => !left_out(x),
            Role::Leaf => true,
        }
}

proof fn lemma_skipped(es: Seq<EventView>, mid: Seq<EventView>)
    requires
        reading(es).skipping > 0,
        holds_no_left_out(mid),
    ensures
        reading(es + mid) == reading(es),
    decreases mid.len(),
{
    if mid.len() == 0 {
        assert(es + mid =~= es);
    } else {
        let d = mid.drop_last();
        assert forall|i: int| 0 <= i < d.len() implies match (#[trigger] d[i]).role {
            Role::Open(x) => !left_out(x),
            Role::Close(x) => !left_out(x),
            Role::Leaf => true,
        } by {
            assert(d[i] == mid[i]);
        }
        lemma_skipped(es, d);
        assert(mid[mid.len() - 1] == mid.last());
        assert(es + mid =~= (es + d).push(mid.last()));
        lemma_step(es + d, mid.last());
    }
}

proof fn lemma_read_on(a: Seq<EventView>, b: Seq<EventView>, tail: Seq<EventView>)
    requires
        reading(a) == reading(b),
    ensures
        reading(a + tail) == reading(b + tail),
    decreases tail.len(),
{
    if tail.len() == 0 {
        assert(a + tail =~= a);
        assert(b + tail =~= b);
    } else {
        let d = tail.drop_last();
        lemma_read_on(a, b, d);
        assert(a + tail =~= (a + d).push(tail.last()));
        assert(b + tail =~= (b + d).push(tail.last()));
        lemma_step(a + d, tail.last());
        lemma_step(b + d, tail.last());
    }
}

/// An image can be taken out of a source, with all that stands in it, and the
/// typed text is the same.
pub proof fn law_images_leave_no_trace(
    es: Seq<EventView>,
    open: EventView,
    mid: Seq<EventView>,
    close: EventView,
    tail: Seq<EventView>,
)
    requires
        nested(es),
        left_out_depth(es) == 0,
        open.role == Role::Open(Element::Image),
        close.role == Role::Close(Element::Image),
        holds_no_left_out(mid),
    ensures
        paragraphs(es + block(open, mid, close) + tail) == paragraphs(es + tail),
{
    law_nesting_counts_open_lists(es);
    lemma_step(es, open);
    lemma_skipped(es.push(open), mid);
    lemma_step(es.push(open) + mid, close);
    assert(es + block(open, mid, close) =~= (es.push(open) + mid).push(close));
    assert(reading(es + block(open, mid, close)) == reading(es));
    lemma_read_on(es + block(open, mid, close), es, tail);
}

/// A code block or a footnote between blocks can be taken out of a source, with
/// all that stands in it, and the typed text is the same.
pub proof fn law_code_and_footnotes_leave_no_trace(
    es: Seq<EventView>,
    open: EventView,
    mid: Seq<EventView>,
    close: EventView,
    tail: Seq<EventView>,
)
    requires
        nested(es),
        left_out_depth(es) == 0,
        between_blocks(es),
        open.role == Role::Open(Element::CodeBlock) || open.role == Role::Open(Element::Footnote),
        close.role == Role::Close(Element::CodeBlock) || close.role == Role::Close(
            Element::Footnote,
        ),
        holds_no_left_out(mid),
    ensures
        paragraphs(es + block(open, mid, close) + tail) == paragraphs(es + tail),
{
    law_nesting_counts_open_lists(es);
    lemma_between_blocks(es);
    lemma_step(es, open);
    lemma_skipped(es.push(open), mid);
    lemma_step(es.push(open) + mid, close);
    assert(es + block(open, mid, close) =~= (es.push(open) + mid).push(close));
    assert(reading(es + block(open, mid, close)) == reading(es));
    lemma_read_on(es + block(open, mid, close), es, tail);
}

// ---------------------------------------------------------------------------
// All of the text
// ---------------------------------------------------------------------------

/// The texts of the text and code events, elements that are left out aside.
pub open spec fn shown_texts(es: Seq<EventView>) -> Seq<Seq<char>>
    decreases es.len(),
{
    if es.len() == 0 {
        Seq::empty()
    } else {
        let before = shown_texts(es.drop_last());
        if left_out_depth(es.drop_last()) == 0 && es.last().role == Role::Leaf {
            match es.last().inline {
                InlineView::Text(s) => before.push(s),
                InlineView::Code(s) => before.push(s),
                _ => before,
            }
        } else {
            before
        }
    }
}

/// The texts of paragraphs.
pub open spec fn para_texts(ps: Seq<ParaView>) -> Seq<Seq<char>> {
    ps.map_values(|p: ParaView| p.text)
}

spec fn open_text(r: Reading) -> Seq<char> {
    match r.current {
        Some(p) => p.text,
        None => Seq::empty(),
    }
}

proof fn lemma_ink_of_push(ts: Seq<Seq<char>>, t: Seq<char>)
    ensures
        ink_of(ts.push(t)) == ink_of(ts) + ink(t),
{
    assert(ts.push(t).drop_last() =~= ts);
}

proof fn lemma_texts_push(ps: Seq<ParaView>, p: ParaView)
    ensures
        para_texts(ps.push(p)) == para_texts(ps).push(p.text),
{
    assert(para_texts(ps.push(p)) =~= para_texts(ps).push(p.text));
}

proof fn lemma_ink_empty()
    ensures
        ink(Seq::<char>::empty()) == Seq::<char>::empty(),
        ink(seq![' ']) == Seq::<char>::empty(),
{
    assert(seq![' '].drop_last() =~= Seq::<char>::empty());
    assert(ink(seq![' ']) == ink(seq![' '].drop_last()));
}

spec fn ink_read(r: Reading) -> Seq<char> {
    ink_of(para_texts(r.done)) + ink(open_text(r))
}

proof fn lemma_ink_closed(r: Reading)
    ensures
        ink_read(r.closed()) == ink_read(r),
        r.closed().current is None,
        ink_of(para_texts(r.closed().done)) == ink_read(r),
{
    lemma_ink_empty();
    match r.current {
        Some(p) => {
            lemma_texts_push(r.done, p);
            lemma_ink_of_push(para_texts(r.done), p.text);
        },
        None => {},
    }
    assert(ink_read(r.closed()) =~= ink_read(r));
    assert(ink_of(para_texts(r.closed().done)) =~= ink_read(r.closed()));
}

proof fn lemma_ink_opened(r: Reading, style: ParagraphStyle)
    ensures
        ink_read(r.opened(style)) == ink_read(r),
{
}

proof fn lemma_ink_added(r: Reading, s: Seq<char>)
    requires
        r.current is Some,
    ensures
        ink_read(r.added(s)) == ink_read(r) + ink(s),
{
    lemma_ink_add(r.current->0.text, s);
    assert(ink_read(r.added(s)) =~= ink_read(r) + ink(s));
}

proof fn lemma_ink_parted(r: Reading)
    ensures
        ink_read(r.parted()) == ink_read(r),
{
    lemma_ink_closed(r);
    match r.current {
        Some(p) => {
            lemma_ink_opened(r.closed(), p.style);
        },
        None => {},
    }
}

proof fn lemma_ink_after(r: Reading, e: EventView)
    requires
        r.skipping == 0,
    ensures
        ink_read(r.after(e)) == ink_read(r) + if e.role == Role::Leaf {
            match e.inline {
                InlineView::Text(s) => ink(s),
                InlineView::Code(s) => ink(s),
                _ => Seq::empty(),
            }
        } else {
            Seq::empty()
        },
{
    lemma_ink_empty();
    lemma_ink_closed(r);
    lemma_ink_opened(r, ParagraphStyle::Plain);
    lemma_ink_opened(r.closed(), ParagraphStyle::Heading);
    lemma_ink_opened(r.closed(), bullet_style(r.lists as int));
    lemma_ink_parted(r);
    lemma_ink_opened(r.parted(), ParagraphStyle::Plain);
    assert(ink_read(r) + Seq::<char>::empty() =~= ink_read(r));
    match e.role {
        Role::Leaf => match e.inline {
            InlineView::Text(s) => lemma_ink_added(r.opened(ParagraphStyle::Plain), s),
            InlineView::Code(s) => lemma_ink_added(r.opened(ParagraphStyle::Plain), s),
            _ => {
                if r.current is Some {
                    lemma_ink_added(r, seq![' ']);
                }
            },
        },
        _ => {},
    }
}

proof fn lemma_ink_reading(es: Seq<EventView>)
    requires
        nested(es),
    ensures
        ink_read(reading(es)) == ink_of(shown_texts(es)),
    decreases es.len(),
{
    lemma_ink_empty();
    if es.len() == 0 {
        assert(para_texts(reading(es).done) =~= Seq::<Seq<char>>::empty());
        assert(ink_read(reading(es)) =~= ink_of(shown_texts(es)));
    } else {
        let d = es.drop_last();
        let e = es.last();
        assert(es.take(es.len() - 1) =~= d);
        lemma_nested_prefix(es, es.len() - 1);
        lemma_ink_reading(d);
        law_nesting_counts_open_lists(d);
        let r = reading(d);
        assert(ink_of(shown_texts(d)) + Seq::<char>::empty() =~= ink_of(shown_texts(d)));
        if r.skipping == 0 {
            lemma_ink_after(r, e);
            if e.role == Role::Leaf {
                match e.inline {
                    InlineView::Text(s) => lemma_ink_of_push(shown_texts(d), s),
                    InlineView::Code(s) => lemma_ink_of_push(shown_texts(d), s),
                    _ => {},
                }
            }
        }
    }
}

proof fn lemma_ink_filled(ps: Seq<ParaView>)
    ensures
        ink_of(para_texts(filled_paras(ps))) == ink_of(para_texts(ps)),
    decreases ps.len(),
{
    if ps.len() > 0 {
        let d = ps.drop_last();
        let p = ps.last();
        lemma_ink_filled(d);
        lemma_ink_empty();
        assert(ps =~= d.push(p));
        lemma_texts_push(d, p);
        lemma_ink_of_push(para_texts(d), p.text);
        if p.text.len() > 0 {
            lemma_texts_push(filled_paras(d), p);
            lemma_ink_of_push(para_texts(filled_paras(d)), p.text);
        } else {
            assert(p.text =~= Seq::<char>::empty());
            assert(ink_of(para_texts(d)) + Seq::<char>::empty() =~= ink_of(para_texts(d)));
        }
    }
}

/// The typed text loses nothing and adds nothing: white space aside, its
/// paragraphs hold the characters of all text and code of the source, in
/// order, but for what stands in a code block, an image or a footnote.
pub proof fn law_typed_text_loses_nothing(es: Seq<EventView>)
    requires
        nested(es),
    ensures
        ink_of(para_texts(paragraphs(es))) == ink_of(shown_texts(es)),
{
    lemma_ink_reading(es);
    lemma_ink_closed(reading(es));
    lemma_ink_filled(reading(es).closed().done);
}

// ---------------------------------------------------------------------------
// The text item
// ---------------------------------------------------------------------------

proof fn lemma_split_run(ps: Seq<ParaView>)
    requires
        forall|i: int| 0 <= i < ps.len() ==> !(#[trigger] ps[i]).text.contains('\n'),
    ensures
        split(run_text(ps), '\n') == para_texts(ps).push(Seq::empty()),
    decreases ps.len(),
{
    if ps.len() == 0 {
        assert(para_texts(ps).push(Seq::<char>::empty()) =~= seq![Seq::<char>::empty()]);
    } else {
        let d = ps.drop_last();
        let t = ps.last().text;
        assert forall|i: int| 0 <= i < d.len() implies !(#[trigger] d[i]).text.contains('\n') by {
            assert(d[i] == ps[i]);
        }
        lemma_split_run(d);
        assert(!ps[ps.len() - 1].text.contains('\n'));
        crate::sync_v3::laws::lemma_split_plain(run_text(d), t, '\n');
        crate::sync_v3::laws::lemma_split_sep(run_text(d) + t, '\n');
        assert(run_text(ps) =~= (run_text(d) + t).push('\n'));
        assert(Seq::<char>::empty() + t =~= t);
        assert(split(run_text(ps), '\n') =~= para_texts(ps).push(Seq::empty()));
    }
}

/// The typed text is one run, which reads back as the paragraphs, one on each
/// line; every paragraph has one style entry, which carries its style and is
/// stamped one slot behind its key.
pub proof fn law_root_text_is_the_paragraphs(ps: Seq<ParaView>, device: Device)
    requires
        forall|i: int| 0 <= i < ps.len() ==> !(#[trigger] ps[i]).text.contains('\n'),
        FIRST_SLOT + run_text(ps).len() <= u64::MAX,
    ensures
        ({
            let r = root_text_of(ps, device);
            &&& ps.len() == 0 <==> r.items.len() == 0
            &&& ps.len() > 0 ==> r.items.len() == 1 && r.items[0].item_id.part1 == 1
                && r.items[0].item_id.part2 == 16 && r.items[0].deleted_length == 0
                && r.items[0].left_id.part2 == 0 && r.items[0].right_id.part2 == 0
            &&& ps.len() > 0 ==> r.items[0].value is Run && split(
                r.items[0].value->Run_0,
                '\n',
            ) == para_texts(ps).push(Seq::empty())
            &&& r.styles.len() == ps.len()
            &&& forall|i: int|
                0 <= i < ps.len() ==> (#[trigger] r.styles[i]).1.value == ps[i].style
                    && r.styles[i].1.timestamp.part1 == 1 && (i > 0 ==> r.styles[i].0.part1 == 1
                    && r.styles[i].1.timestamp.part2 == r.styles[i].0.part2 + 1)
            &&& ps.len() > 0 ==> r.styles[0].0.part1 == 0 && r.styles[0].0.part2 == 0
                && r.styles[0].1.timestamp.part2 == 15
            &&& r.extra_data.len() == 0
        }),
{
    lemma_split_run(ps);
    let r = root_text_of(ps, device);
    assert forall|i: int| 0 <= i < ps.len() implies (#[trigger] r.styles[i]).1.value == ps[i].style
        && r.styles[i].1.timestamp.part1 == 1 && (i > 0 ==> r.styles[i].0.part1 == 1
        && r.styles[i].1.timestamp.part2 == r.styles[i].0.part2 + 1) by {
        if i > 0 {
            lemma_run_prefix(ps, i);
        }
    }
}

// ---------------------------------------------------------------------------
// The page
// ---------------------------------------------------------------------------

/// The typed text of a device is 58 % of its surface wide, centred, and begins
/// 120 units below the top.
pub proof fn law_text_frame_is_centred(ps: Seq<ParaView>, device: Device)
    ensures
        ({
            let r = root_text_of(ps, device);
            &&& r.width == device.surface().0 * 58
            &&& 0 <= r.pos_x * 2 + r.width <= 1
            &&& r.pos_y == 12000
        }),
{
}

/// A page names its author, counts the characters and paragraphs of its text,
/// has the surface of its device, and holds that text.
pub proof fn law_page_holds_its_text(
    blocks: Seq<Block>,
    ps: Seq<ParaView>,
    author: Seq<char>,
    device: Device,
)
    requires
        is_page(blocks, root_text_of(ps, device), author, device),
        run_text(ps).len() <= u32::MAX,
    ensures
        blocks[0] matches Block::AuthorIds(b) && b.authors@.len() == 1 && b.authors@[0].1@ == author,
        blocks[2] matches Block::PageInfo(b) && b.text_chars_count == run_text(ps).len()
            && b.text_lines_count == if ps.len() == 0 {
            1
        } else if ps.len() > u32::MAX {
            u32::MAX as nat
        } else {
            ps.len()
        },
        blocks[3] matches Block::SceneInfo(b) && b.paper_size == Some(device.surface()),
        blocks[5] matches Block::RootText(b) && b@ == root_text_of(ps, device),
{
    let items = root_text_of(ps, device).items;
    assert(visible_chars(Seq::empty()) == 0);
    if ps.len() > 0 {
        assert(items.drop_last() =~= Seq::empty());
        assert(visible_chars(items.drop_last()) == 0);
        assert(visible_chars(items) == run_text(ps).len());
    } else {
        assert(run_text(ps).len() == 0);
        assert(visible_chars(items) == 0);
    }
}

/// Text that stands in no block becomes a plain paragraph of its own.
pub proof fn law_loose_text_is_plain(es: Seq<EventView>, e: EventView, s: Seq<char>)
    requires
        nested(es),
        left_out_depth(es) == 0,
        between_blocks(es),
        e.role == Role::Leaf,
        e.inline == InlineView::Text(s) || e.inline == InlineView::Code(s),
    ensures
        paragraphs(es.push(e)) == paragraphs(es) + unless_empty(s, ParagraphStyle::Plain),
{
    law_nesting_counts_open_lists(es);
    lemma_between_blocks(es);
    lemma_step(es, e);
    assert(Seq::<char>::empty() + s =~= s);
    lemma_filled_push(
        reading(es).done,
        ParaView { text: s, style: ParagraphStyle::Plain },
    );
}

/// The tree of a page holds one layer by name: the text `Layer 1`, behind its
/// length and the length of the field it stands in.
pub proof fn law_layer_has_its_name()
    ensures
        ({
            let b = tree_node_layer_bytes();
            let name = seq![76u8, 97, 121, 101, 114, 32, 49];
            &&& b.subrange(18, 25) == name
            &&& b[16] == name.len()
            &&& b[17] == 1
            &&& b[12] == name.len() + 2
            &&& b[4] == 3 + 5 + b[12]
        }),
{
    assert(tree_node_layer_bytes().subrange(18, 25) =~= seq![76u8, 97, 121, 101, 114, 32, 49]);
}

/// The ids of the images of a page begin behind those of its text, with room to
/// spare, and all of them fit in 64 bits.
pub proof fn law_image_ids_are_free(chars: nat, images: nat)
    requires
        images * 13 + chars + 2000 <= u64::MAX,
    ensures
        id_base(chars, images) >= 1000,
        id_base(chars, images) >= 16 + chars + 100,
        id_base(chars, images) == 1000 || id_base(chars, images) == 16 + chars + 100,
        id_base(chars, images) + images * 13 <= u64::MAX,
{
}

} // verus!
