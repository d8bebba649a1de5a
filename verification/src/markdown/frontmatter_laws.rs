//! Laws of frontmatter: what is read of a block that is written out, and which
//! blocks are left alone.

use vstd::prelude::*;

use crate::markdown::frontmatter::{
    block_from, document_title, find_char, first_h1, frontmatter, h1_of, line_end, line_kind,
    opens_with_dashes, skip_marks, skip_newlines, strict_from, stripped, unquoted, with_line,
    yaml_key, LineView,
};
use crate::notebook::pages::text_of_lines;
use crate::text::{is_blank, is_white, lines, split, trim, trim_end, trim_start};

verus! {

// ---------------------------------------------------------------------------
// Lines of a text
// ---------------------------------------------------------------------------

proof fn lemma_line_end_at(s: Seq<char>, i: int, l: Seq<char>)
    requires
        0 <= i,
        i + l.len() < s.len(),
        s.subrange(i, i + l.len()) == l,
        !l.contains('\n'),
        s[i + l.len()] == '\n',
    ensures
        line_end(s, i) == i + l.len() + 1,
        s.subrange(i, line_end(s, i)) == l.push('\n'),
    decreases l.len(),
{
    if l.len() == 0 {
        assert(s.subrange(i, i + 1) =~= l.push('\n'));
    } else {
        assert(s[i] == s.subrange(i, i + l.len())[0]);
        assert(l[0] != '\n') by {
            if l[0] == '\n' {
                assert(l.contains('\n'));
            }
        }
        let r = l.skip(1);
        assert(s.subrange(i + 1, i + 1 + r.len()) =~= s.subrange(i, i + l.len()).skip(1));
        if r.contains('\n') {
            let k = choose|k: int| 0 <= k < r.len() && r[k] == '\n';
            assert(l[k + 1] == '\n');
        }
        lemma_line_end_at(s, i + 1, r);
        assert(s.subrange(i, line_end(s, i)) =~= l.push('\n'));
    }
}

proof fn lemma_trim_feed(l: Seq<char>)
    ensures
        trim(l.push('\n')) == trim(l),
    decreases l.len(),
{
    let f = l.push('\n');
    if l.len() == 0 {
        assert(f.skip(1) =~= Seq::<char>::empty());
        assert(trim_start(f) == trim_start(f.skip(1)));
        assert(l =~= Seq::<char>::empty());
    } else if is_white(l[0]) {
        assert(f.skip(1) =~= l.skip(1).push('\n'));
        lemma_trim_feed(l.skip(1));
    } else {
        assert(trim_start(f) == f);
        assert(f.drop_last() =~= l);
    }
}

/// A block of lines between dashes, and a body behind it.
pub open spec fn with_block(
    ls: Seq<Seq<char>>,
    close: Seq<char>,
    body: Seq<char>,
) -> Seq<char> {
    seq!['-', '-', '-', '\n'] + text_of_lines(ls) + close.push('\n') + body
}

proof fn lemma_text_front(ls: Seq<Seq<char>>)
    requires
        ls.len() > 0,
    ensures
        text_of_lines(ls) == ls[0].push('\n') + text_of_lines(ls.skip(1)),
    decreases ls.len(),
{
    let f = |l: Seq<char>| l.push('\n');
    let m = ls.map_values(f);
    assert(m.skip(1) =~= ls.skip(1).map_values(f));
    assert(m.drop_first() =~= m.skip(1));
    assert(m.first() == ls[0].push('\n'));
}

proof fn lemma_first_line(s: Seq<char>, i: int, l: Seq<char>, rest: Seq<char>)
    requires
        0 <= i <= s.len(),
        s.skip(i) == l.push('\n') + rest,
        !l.contains('\n'),
    ensures
        line_end(s, i) == i + l.len() + 1,
        s.subrange(i, line_end(s, i)) == l.push('\n'),
        s.skip(line_end(s, i)) == rest,
        i < s.len(),
        line_end(s, i) <= s.len(),
{
    let t = s.skip(i);
    assert(t.len() == l.len() + 1 + rest.len());
    assert(s.subrange(i, i + l.len()) =~= t.take(l.len() as int));
    assert(t.take(l.len() as int) =~= l);
    assert(s[i + l.len()] == t[l.len() as int]);
    lemma_line_end_at(s, i, l);
    assert(s.skip(line_end(s, i)) =~= t.skip(l.len() as int + 1));
    assert(t.skip(l.len() as int + 1) =~= rest);
}

// ---------------------------------------------------------------------------
// Pairs
// ---------------------------------------------------------------------------

/// The pairs of lines, on top of those of `m`: of a line that holds a colon,
/// what stands before the first one, and what stands behind it, both trimmed.
/// A later line counts before an earlier one.
pub open spec fn pairs_of(
    ls: Seq<Seq<char>>,
    m: Map<Seq<char>, Seq<char>>,
) -> Map<Seq<char>, Seq<char>>
    decreases ls.len(),
{
    if ls.len() == 0 {
        m
    } else {
        let l = ls[0];
        let key = split(l, ':')[0];
        pairs_of(
            ls.skip(1),
            if l.contains(':') {
                m.insert(trim(key), trim(l.skip(key.len() as int + 1)))
            } else {
                m
            },
        )
    }
}

proof fn lemma_find_char(s: Seq<char>, c: char)
    ensures
        find_char(s, c) is Some <==> s.contains(c),
        find_char(s, c) matches Some(i) ==> 0 <= i < s.len() && s[i] == c && split(s, c)[0]
            == s.take(i) && split(s, c).len() > 1,
        find_char(s, c) is None ==> split(s, c) == seq![s],
    decreases s.len(),
{
    crate::text::lemma_split_nonempty(s, c);
    if s.len() == 0 {
        assert(s =~= Seq::<char>::empty());
        assert(split(s, c) =~= seq![s]);
    } else {
        let d = s.drop_last();
        lemma_find_char(d, c);
        crate::text::lemma_split_nonempty(d, c);
        assert(s[s.len() - 1] == s.last());
        if d.contains(c) {
            let k = choose|k: int| 0 <= k < d.len() && d[k] == c;
            assert(s[k] == c);
        }
        match find_char(d, c) {
            Some(i) => {
                assert(d.take(i) =~= s.take(i));
                assert(s[i] == c);
            },
            None => {
                if s.contains(c) {
                    let k = choose|k: int| 0 <= k < s.len() && s[k] == c;
                    if k < d.len() {
                        assert(d[k] == c);
                    }
                }
                if s.last() == c {
                    assert(s.take(s.len() - 1) =~= d);
                } else {
                    assert(d.push(s.last()) =~= s);
                    assert(split(s, c) =~= seq![s]);
                }
            },
        }
    }
}

proof fn lemma_find_feed(l: Seq<char>)
    ensures
        find_char(l.push('\n'), ':') == find_char(l, ':'),
{
    assert(l.push('\n').drop_last() =~= l);
}

proof fn lemma_with_line(m: Map<Seq<char>, Seq<char>>, l: Seq<char>)
    ensures
        with_line(m, l.push('\n')) == if l.contains(':') {
            m.insert(trim(split(l, ':')[0]), trim(l.skip(split(l, ':')[0].len() as int + 1)))
        } else {
            m
        },
{
    lemma_find_feed(l);
    lemma_find_char(l, ':');
    match find_char(l, ':') {
        Some(i) => {
            assert(l.push('\n').take(i) =~= l.take(i));
            assert(l.push('\n').skip(i + 1) =~= l.skip(i + 1).push('\n'));
            lemma_trim_feed(l.skip(i + 1));
        },
        None => {},
    }
}

proof fn lemma_block(
    s: Seq<char>,
    i: int,
    m: Map<Seq<char>, Seq<char>>,
    ls: Seq<Seq<char>>,
    close: Seq<char>,
    body: Seq<char>,
)
    requires
        0 <= i <= s.len(),
        s.skip(i) == text_of_lines(ls) + close.push('\n') + body,
        forall|k: int|
            0 <= k < ls.len() ==> !(#[trigger] ls[k]).contains('\n') && trim(ls[k]) != "---"@,
        !close.contains('\n'),
        trim(close) == "---"@,
    ensures
        block_from(s, i, m) is Some,
        (block_from(s, i, m)->0).0 == pairs_of(ls, m),
        s.skip((block_from(s, i, m)->0).1) == body,
    decreases ls.len(),
{
    if ls.len() == 0 {
        assert(text_of_lines(ls) =~= Seq::<char>::empty());
        assert(s.skip(i) =~= close.push('\n') + body);
        lemma_first_line(s, i, close, body);
        lemma_trim_feed(close);
    } else {
        let l = ls[0];
        let r = ls.skip(1);
        lemma_text_front(ls);
        let rest = text_of_lines(r) + close.push('\n') + body;
        assert(s.skip(i) =~= l.push('\n') + rest);
        lemma_first_line(s, i, l, rest);
        lemma_trim_feed(l);
        lemma_with_line(m, l);
        assert forall|k: int| 0 <= k < r.len() implies !(#[trigger] r[k]).contains('\n') && trim(
            r[k],
        ) != "---"@ by {
            assert(r[k] == ls[k + 1]);
        }
        lemma_block(s, line_end(s, i), with_line(m, l.push('\n')), r, close, body);
    }
}

proof fn lemma_opening(rest: Seq<char>)
    ensures
        ({
            let s = seq!['-', '-', '-', '\n'] + rest;
            &&& line_end(s, 0) == 4
            &&& s.skip(4) == rest
            &&& trim(s.take(4)) == "---"@
            &&& opens_with_dashes(s)
        }),
{
    let s = seq!['-', '-', '-', '\n'] + rest;
    let l = seq!['-', '-', '-'];
    reveal_strlit("---");
    assert("---"@ =~= l);
    assert(!l.contains('\n'));
    assert(l.push('\n') =~= seq!['-', '-', '-', '\n']);
    assert(s.skip(0) =~= l.push('\n') + rest);
    lemma_first_line(s, 0, l, rest);
    assert(s.take(4) =~= l.push('\n'));
    lemma_trim_feed(l);
    assert(trim_start(l) == l);
    assert(trim_end(l) == l);
}

/// A block of lines between two lines of dashes at the top of a source is read
/// in full: the pairs are those of its lines, and the body is what stands
/// behind the second line of dashes, to the letter.
pub proof fn law_frontmatter_is_read_in_full(ls: Seq<Seq<char>>, body: Seq<char>)
    requires
        forall|k: int|
            0 <= k < ls.len() ==> !(#[trigger] ls[k]).contains('\n') && trim(ls[k]) != "---"@,
    ensures
        frontmatter(with_block(ls, "---"@, body)).0 == pairs_of(ls, Map::empty()),
        frontmatter(with_block(ls, "---"@, body)).1 == body,
{
    let s = with_block(ls, "---"@, body);
    let rest = text_of_lines(ls) + "---"@.push('\n') + body;
    assert(s =~= seq!['-', '-', '-', '\n'] + rest);
    lemma_opening(rest);
    reveal_strlit("---");
    assert(!"---"@.contains('\n'));
    assert(trim_start("---"@) == "---"@);
    assert(trim_end("---"@) == "---"@);
    lemma_block(s, 4, Map::empty(), ls, "---"@, body);
}

/// A source whose first line is not three dashes has no pairs and is all body.
pub proof fn law_no_dashes_no_frontmatter(s: Seq<char>)
    requires
        lines(s).len() == 0 || trim(s.take(line_end(s, 0))) != "---"@,
    ensures
        frontmatter(s).0 == Map::<Seq<char>, Seq<char>>::empty(),
        frontmatter(s).1 == s,
{
    if s.len() > 0 && lines(s).len() == 0 {
        lemma_no_lines(s);
    }
}

proof fn lemma_no_lines(s: Seq<char>)
    requires
        s.len() > 0,
    ensures
        lines(s).len() > 0,
{
    crate::text::lemma_split_nonempty(s, '\n');
    crate::text::lemma_split_nonempty(s.drop_last(), '\n');
}

/// The title of a document is that of its pairs, where they name one, and
/// otherwise the fallback, where no line names one.
pub proof fn law_title_of_a_document(
    meta: Map<Seq<char>, Seq<char>>,
    body: Seq<char>,
    fallback: Seq<char>,
)
    ensures
        meta.contains_key("title"@) ==> document_title(meta, body, fallback) == meta["title"@],
        !meta.contains_key("title"@) && (forall|i: int|
            0 <= i < lines(body).len() ==> h1_of(#[trigger] lines(body)[i]) is None)
            ==> document_title(meta, body, fallback) == fallback,
{
    if forall|i: int| 0 <= i < lines(body).len() ==> h1_of(#[trigger] lines(body)[i]) is None {
        lemma_no_h1(lines(body));
    }
}

/// Without a title among its pairs a document is named by the first of its
/// lines that names a title.
pub proof fn law_first_heading_is_the_title(
    meta: Map<Seq<char>, Seq<char>>,
    body: Seq<char>,
    fallback: Seq<char>,
    i: int,
)
    requires
        !meta.contains_key("title"@),
        0 <= i < lines(body).len(),
        h1_of(lines(body)[i]) is Some,
        forall|k: int| 0 <= k < i ==> h1_of(#[trigger] lines(body)[k]) is None,
    ensures
        Some(document_title(meta, body, fallback)) == h1_of(lines(body)[i]),
{
    lemma_h1_at(lines(body), i);
}

proof fn lemma_no_h1(ls: Seq<Seq<char>>)
    requires
        forall|i: int| 0 <= i < ls.len() ==> h1_of(#[trigger] ls[i]) is None,
    ensures
        first_h1(ls) is None,
    decreases ls.len(),
{
    if ls.len() > 0 {
        let d = ls.drop_last();
        assert forall|i: int| 0 <= i < d.len() implies h1_of(#[trigger] d[i]) is None by {
            assert(d[i] == ls[i]);
        }
        lemma_no_h1(d);
        assert(h1_of(ls[ls.len() - 1]) is None);
    }
}

proof fn lemma_h1_at(ls: Seq<Seq<char>>, i: int)
    requires
        0 <= i < ls.len(),
        h1_of(ls[i]) is Some,
        forall|k: int| 0 <= k < i ==> h1_of(#[trigger] ls[k]) is None,
    ensures
        first_h1(ls) == h1_of(ls[i]),
    decreases ls.len(),
{
    let d = ls.drop_last();
    if i < d.len() {
        assert forall|k: int| 0 <= k < i implies h1_of(#[trigger] d[k]) is None by {
            assert(d[k] == ls[k]);
        }
        lemma_h1_at(d, i);
    } else {
        assert forall|k: int| 0 <= k < d.len() implies h1_of(#[trigger] d[k]) is None by {
            assert(d[k] == ls[k]);
        }
        lemma_no_h1(d);
    }
}

/// A line `# Title` names its title, trimmed, wherever it is indented; a line
/// that names a title begins with a hash sign and a space, white space aside.
pub proof fn law_headings_name_titles(indent: Seq<char>, title: Seq<char>)
    requires
        is_blank(indent),
    ensures
        h1_of(indent + seq!['#', ' '] + title) == if is_blank(title) {
            None::<Seq<char>>
        } else {
            Some(trim(title))
        },
    decreases indent.len(),
{
    reveal_strlit("# ");
    let hash = seq!['#', ' '];
    let l = indent + hash + title;
    if indent.len() == 0 {
        assert(l =~= hash + title);
        assert(trim_start(l) == l);
        assert(l.take(2) =~= "# "@);
        assert(l.skip(2) =~= title);
        crate::text::lemma_trim_blank(title);
    } else {
        assert(is_white(indent[0]));
        let r = indent.skip(1);
        assert forall|i: int| 0 <= i < r.len() implies is_white(#[trigger] r[i]) by {
            assert(is_white(indent[i + 1]));
        }
        law_headings_name_titles(r, title);
        assert(l.skip(1) =~= r + hash + title);
        assert(trim_start(l) == trim_start(l.skip(1)));
    }
}

// ---------------------------------------------------------------------------
// Strict frontmatter
// ---------------------------------------------------------------------------

/// Whether a line can stand inside a strict block: it holds no line feed, does
/// not close the block, and is no prose.
pub open spec fn is_block_line(l: Seq<char>) -> bool {
    &&& !l.contains('\n')
    &&& trim(l) != "---"@
    &&& trim(l) != "..."@
    &&& line_kind(l.push('\n')) !is NotYaml
}

/// The title that the last line `title: ...` of a block names.
pub open spec fn block_title(ls: Seq<Seq<char>>, before: Option<Seq<char>>) -> Option<Seq<char>>
    decreases ls.len(),
{
    if ls.len() == 0 {
        before
    } else {
        match line_kind(ls.last().push('\n')) {
            LineView::Key(k, v) if k == "title"@ && v.len() > 0 => Some(unquoted(v)),
            _ => block_title(ls.drop_last(), before),
        }
    }
}

proof fn lemma_title_front(ls: Seq<Seq<char>>, before: Option<Seq<char>>)
    requires
        ls.len() > 0,
    ensures
        block_title(ls, before) == block_title(ls.skip(1), block_title(ls.take(1), before)),
    decreases ls.len(),
{
    if ls.len() == 1 {
        assert(ls.take(1) =~= ls);
        assert(ls.skip(1) =~= Seq::<Seq<char>>::empty());
    } else {
        lemma_title_front(ls.drop_last(), before);
        assert(ls.drop_last().skip(1) =~= ls.skip(1).drop_last());
        assert(ls.drop_last().take(1) =~= ls.take(1));
        assert(ls.skip(1).last() == ls.last());
    }
}

/// Whether one of the lines is a pair.
pub open spec fn holds_pair(ls: Seq<Seq<char>>) -> bool {
    exists|k: int| 0 <= k < ls.len() && line_kind((#[trigger] ls[k]).push('\n')) is Key
}

proof fn lemma_strict(
    s: Seq<char>,
    i: int,
    title: Option<Seq<char>>,
    saw: bool,
    ls: Seq<Seq<char>>,
    close: Seq<char>,
    body: Seq<char>,
)
    requires
        0 <= i <= s.len(),
        s.skip(i) == text_of_lines(ls) + close.push('\n') + body,
        forall|k: int| 0 <= k < ls.len() ==> is_block_line(#[trigger] ls[k]),
        !close.contains('\n'),
        trim(close) == "---"@ || trim(close) == "..."@,
    ensures
        strict_from(s, i, title, saw) is Some <==> saw || holds_pair(ls),
        strict_from(s, i, title, saw) is Some ==> (strict_from(s, i, title, saw)->0).0
            == block_title(ls, title) && s.skip((strict_from(s, i, title, saw)->0).1) == body,
    decreases ls.len(),
{
    if ls.len() == 0 {
        assert(text_of_lines(ls) =~= Seq::<char>::empty());
        assert(s.skip(i) =~= close.push('\n') + body);
        lemma_first_line(s, i, close, body);
        lemma_trim_feed(close);
    } else {
        let l = ls[0];
        let r = ls.skip(1);
        lemma_text_front(ls);
        let rest = text_of_lines(r) + close.push('\n') + body;
        assert(s.skip(i) =~= l.push('\n') + rest);
        assert(is_block_line(l));
        lemma_first_line(s, i, l, rest);
        lemma_trim_feed(l);
        assert forall|k: int| 0 <= k < r.len() implies is_block_line(#[trigger] r[k]) by {
            assert(r[k] == ls[k + 1]);
        }
        let title2 = block_title(ls.take(1), title);
        let saw2 = saw || line_kind(l.push('\n')) is Key;
        assert(ls.take(1).last() == l);
        assert(ls.take(1).drop_last() =~= Seq::<Seq<char>>::empty());
        assert(block_title(ls.take(1).drop_last(), title) == title);
        lemma_strict(s, line_end(s, i), title2, saw2, r, close, body);
        lemma_title_front(ls, title);
        assert(strict_from(s, i, title, saw) == strict_from(s, line_end(s, i), title2, saw2));
        if holds_pair(r) {
            let k = choose|k: int|
                0 <= k < r.len() && line_kind((#[trigger] r[k]).push('\n')) is Key;
            assert(ls[k + 1] == r[k]);
        }
        if holds_pair(ls) && !(line_kind(l.push('\n')) is Key) {
            let k = choose|k: int|
                0 <= k < ls.len() && line_kind((#[trigger] ls[k]).push('\n')) is Key;
            assert(r[k - 1] == ls[k]);
        }
    }
}

/// A block of pairs, comments, list items and indented lines between dashes is
/// frontmatter exactly when it holds a pair. Then it is taken off with the line
/// breaks behind it, and the last title in it is the title; otherwise the
/// source is left as it is, and said to be ambiguous.
pub proof fn law_strict_block_is_taken_off(
    ls: Seq<Seq<char>>,
    close: Seq<char>,
    body: Seq<char>,
)
    requires
        forall|k: int| 0 <= k < ls.len() ==> is_block_line(#[trigger] ls[k]),
        close == "---"@ || close == "..."@,
    ensures
        ({
            let s = with_block(ls, close, body);
            let r = stripped(s);
            &&& r.ambiguous <==> !holds_pair(ls)
            &&& holds_pair(ls) ==> r.title == block_title(ls, None) && r.body == skip_newlines(body)
            &&& !holds_pair(ls) ==> r.title is None && r.body == s
        }),
{
    let s = with_block(ls, close, body);
    let rest = text_of_lines(ls) + close.push('\n') + body;
    assert(s =~= seq!['-', '-', '-', '\n'] + rest);
    lemma_opening(rest);
    reveal_strlit("---");
    reveal_strlit("...");
    assert(!close.contains('\n'));
    assert(trim_start(close) == close);
    assert(trim_end(close) == close);
    lemma_strict(s, 4, None, false, ls, close, body);
}

/// A line of prose among the lines keeps a block from being taken off.
pub proof fn law_prose_is_never_taken_off(
    ls: Seq<Seq<char>>,
    prose: Seq<char>,
    rest: Seq<char>,
)
    requires
        forall|k: int| 0 <= k < ls.len() ==> is_block_line(#[trigger] ls[k]),
        !prose.contains('\n'),
        trim(prose) != "---"@,
        trim(prose) != "..."@,
        line_kind(prose.push('\n')) is NotYaml,
    ensures
        ({
            let s = seq!['-', '-', '-', '\n'] + text_of_lines(ls) + prose.push('\n') + rest;
            stripped(s).ambiguous && stripped(s).body == s && stripped(s).title is None
        }),
{
    let more = text_of_lines(ls) + prose.push('\n') + rest;
    let s = seq!['-', '-', '-', '\n'] + text_of_lines(ls) + prose.push('\n') + rest;
    assert(s =~= seq!['-', '-', '-', '\n'] + more);
    lemma_opening(more);
    lemma_prose(s, 4, None, false, ls, prose, rest);
}

proof fn lemma_prose(
    s: Seq<char>,
    i: int,
    title: Option<Seq<char>>,
    saw: bool,
    ls: Seq<Seq<char>>,
    prose: Seq<char>,
    rest: Seq<char>,
)
    requires
        0 <= i <= s.len(),
        s.skip(i) == text_of_lines(ls) + prose.push('\n') + rest,
        forall|k: int| 0 <= k < ls.len() ==> is_block_line(#[trigger] ls[k]),
        !prose.contains('\n'),
        trim(prose) != "---"@,
        trim(prose) != "..."@,
        line_kind(prose.push('\n')) is NotYaml,
    ensures
        strict_from(s, i, title, saw) is None,
    decreases ls.len(),
{
    if ls.len() == 0 {
        assert(text_of_lines(ls) =~= Seq::<char>::empty());
        assert(s.skip(i) =~= prose.push('\n') + rest);
        lemma_first_line(s, i, prose, rest);
        lemma_trim_feed(prose);
    } else {
        let l = ls[0];
        let r = ls.skip(1);
        lemma_text_front(ls);
        let more = text_of_lines(r) + prose.push('\n') + rest;
        assert(s.skip(i) =~= l.push('\n') + more);
        assert(is_block_line(l));
        lemma_first_line(s, i, l, more);
        lemma_trim_feed(l);
        assert forall|k: int| 0 <= k < r.len() implies is_block_line(#[trigger] r[k]) by {
            assert(r[k] == ls[k + 1]);
        }
        match line_kind(l.push('\n')) {
            LineView::Key(k, v) => {
                lemma_prose(s, line_end(s, i), Some(unquoted(v)), true, r, prose, rest);
                lemma_prose(s, line_end(s, i), title, true, r, prose, rest);
            },
            _ => lemma_prose(s, line_end(s, i), title, saw, r, prose, rest),
        }
    }
}

/// A block that nothing closes is left alone.
pub proof fn law_open_block_is_left_alone(ls: Seq<Seq<char>>)
    requires
        forall|k: int| 0 <= k < ls.len() ==> is_block_line(#[trigger] ls[k]),
    ensures
        ({
            let s = seq!['-', '-', '-', '\n'] + text_of_lines(ls);
            stripped(s).ambiguous && stripped(s).body == s && stripped(s).title is None
        }),
{
    let s = seq!['-', '-', '-', '\n'] + text_of_lines(ls);
    lemma_opening(text_of_lines(ls));
    lemma_open(s, 4, None, false, ls);
}

proof fn lemma_open(
    s: Seq<char>,
    i: int,
    title: Option<Seq<char>>,
    saw: bool,
    ls: Seq<Seq<char>>,
)
    requires
        0 <= i <= s.len(),
        s.skip(i) == text_of_lines(ls),
        forall|k: int| 0 <= k < ls.len() ==> is_block_line(#[trigger] ls[k]),
    ensures
        strict_from(s, i, title, saw) is None,
    decreases ls.len(),
{
    if ls.len() == 0 {
        assert(text_of_lines(ls) =~= Seq::<char>::empty());
        assert(s.skip(i).len() == s.len() - i);
    } else {
        let l = ls[0];
        let r = ls.skip(1);
        lemma_text_front(ls);
        assert(is_block_line(l));
        lemma_first_line(s, i, l, text_of_lines(r));
        lemma_trim_feed(l);
        assert forall|k: int| 0 <= k < r.len() implies is_block_line(#[trigger] r[k]) by {
            assert(r[k] == ls[k + 1]);
        }
        match line_kind(l.push('\n')) {
            LineView::Key(k, v) => {
                lemma_open(s, line_end(s, i), Some(unquoted(v)), true, r);
                lemma_open(s, line_end(s, i), title, true, r);
            },
            _ => lemma_open(s, line_end(s, i), title, saw, r),
        }
    }
}

proof fn lemma_trim_end_add(a: Seq<char>, b: Seq<char>)
    requires
        a.len() > 0,
        !is_white(a.last()),
    ensures
        trim_end(a + b) == a + trim_end(b),
    decreases b.len(),
{
    if b.len() == 0 {
        assert(a + b =~= a);
        assert(a + trim_end(b) =~= a);
    } else if is_white(b.last()) {
        assert((a + b).last() == b.last());
        assert((a + b).drop_last() =~= a + b.drop_last());
        lemma_trim_end_add(a, b.drop_last());
    } else {
        assert((a + b).last() == b.last());
    }
}

proof fn lemma_trim_end_first(b: Seq<char>)
    ensures
        trim_end(b).len() > 0 ==> b.len() > 0 && trim_end(b)[0] == b[0],
        trim_end(b).len() <= b.len(),
    decreases b.len(),
{
    if b.len() > 0 && is_white(b.last()) {
        lemma_trim_end_first(b.drop_last());
    }
}

proof fn lemma_trim_of_trim_end(b: Seq<char>)
    ensures
        trim(trim_end(b)) == trim(b),
    decreases b.len(),
{
    if b.len() > 0 && is_white(b.last()) {
        lemma_trim_of_trim_end(b.drop_last());
        assert(b =~= b.drop_last().push(b.last()));
        lemma_trim_white_behind(b.drop_last(), b.last());
    }
}

proof fn lemma_trim_white_behind(b: Seq<char>, c: char)
    requires
        is_white(c),
    ensures
        trim(b.push(c)) == trim(b),
    decreases b.len(),
{
    let f = b.push(c);
    if b.len() == 0 {
        assert(f.skip(1) =~= Seq::<char>::empty());
        assert(trim_start(f) == trim_start(f.skip(1)));
        assert(b =~= Seq::<char>::empty());
    } else if is_white(b[0]) {
        assert(f.skip(1) =~= b.skip(1).push(c));
        lemma_trim_white_behind(b.skip(1), c);
    } else {
        assert(trim_start(f) == f);
        assert(f.drop_last() =~= b);
    }
}

/// A line of a key, a colon and nothing or a space and a value is a pair of the
/// key and the trimmed value; with anything but a space behind the colon it is
/// prose. The key is one of YAML's, begins with no mark of a list or a comment
/// and holds no colon.
pub proof fn law_pairs_are_recognised(key: Seq<char>, value: Seq<char>)
    requires
        yaml_key(key),
        !key.contains(':'),
        !is_white(key[0]),
        !is_white(key.last()),
        key[0] != '#',
        key[0] != '-',
    ensures
        is_blank(value) || value[0] == ' ' ==> line_kind(key.push(':') + value) == LineView::Key(
            key,
            trim(value),
        ),
        !is_blank(value) && value[0] != ' ' ==> line_kind(key.push(':') + value) is NotYaml,
{
    let line = key.push(':') + value;
    let k = key.push(':');
    assert(line[0] == key[0]);
    assert(trim_start(line) == line);
    assert(!is_white(':'));
    lemma_trim_end_add(k, value);
    let t = trim(line);
    let v = trim_end(value);
    assert(t == k + v);
    assert(t[0] == key[0]);
    reveal_strlit("- ");
    reveal_strlit("-");
    assert(!crate::text::starts_with(t, "- "@)) by {
        if crate::text::starts_with(t, "- "@) {
            assert(t.take(2)[0] == "- "@[0]);
        }
    }
    assert(t != "-"@) by {
        if t == "-"@ {
            assert(t[0] == '-');
        }
    }
    lemma_find_char(t, ':');
    assert(t[key.len() as int] == ':');
    assert(t.contains(':'));
    let i = find_char(t, ':')->0;
    lemma_first_colon(key, v);
    assert(i == key.len());
    assert(t.take(i) =~= key);
    assert(t.skip(i + 1) =~= v);
    lemma_trim_end_first(value);
    assert(trim_start(key) == key);
    assert(trim_end(key) == key);
    lemma_trim_of_trim_end(value);
    lemma_blank_end(value);
    assert(' ' != '\t' && is_white(' ') && is_white('\t'));
}

proof fn lemma_blank_end(b: Seq<char>)
    ensures
        is_blank(b) <==> trim_end(b).len() == 0,
    decreases b.len(),
{
    if b.len() > 0 {
        let d = b.drop_last();
        lemma_blank_end(d);
        assert(b[b.len() - 1] == b.last());
        if is_white(b.last()) {
            if is_blank(d) {
                assert forall|i: int| 0 <= i < b.len() implies is_white(#[trigger] b[i]) by {
                    if i < d.len() {
                        assert(is_white(d[i]));
                    }
                }
            }
            if is_blank(b) {
                assert forall|i: int| 0 <= i < d.len() implies is_white(#[trigger] d[i]) by {
                    assert(is_white(b[i]));
                }
            }
        }
    }
}

proof fn lemma_first_colon(key: Seq<char>, v: Seq<char>)
    requires
        !key.contains(':'),
    ensures
        find_char(key.push(':') + v, ':') == Some(key.len() as int),
    decreases v.len(),
{
    let t = key.push(':') + v;
    if v.len() == 0 {
        assert(t =~= key.push(':'));
        assert(t.drop_last() =~= key);
        lemma_find_char(key, ':');
    } else {
        assert(t.drop_last() =~= key.push(':') + v.drop_last());
        lemma_first_colon(key, v.drop_last());
    }
}

/// Blank lines, comments, list items and indented lines are neither pairs nor
/// prose; a line without a colon that is none of these is prose.
pub proof fn law_other_lines_are_told_apart(line: Seq<char>)
    ensures
        is_blank(line) ==> line_kind(line) is Other,
        !is_blank(line) && (line[0] == ' ' || line[0] == '\t') ==> line_kind(line) is Other,
        trim(line).len() > 0 && trim(line)[0] == '#' ==> line_kind(line) is Other,
        trim(line).len() > 1 && trim(line)[0] == '-' && trim(line)[1] == ' ' ==> line_kind(
            line,
        ) is Other,
        trim(line).len() > 0 && trim(line)[0] != '#' && trim(line)[0] != '-' && line[0] != ' '
            && line[0] != '\t' && !trim(line).contains(':') ==> line_kind(line) is NotYaml,
{
    reveal_strlit("- ");
    reveal_strlit("-");
    crate::text::lemma_trim_blank(line);
    let t = trim(line);
    if t.len() > 1 && t[0] == '-' && t[1] == ' ' {
        assert(t.take(2) =~= "- "@);
    }
    if t.len() > 0 && t[0] != '-' {
        assert(!crate::text::starts_with(t, "- "@)) by {
            if crate::text::starts_with(t, "- "@) {
                assert(t.take(2)[0] == "- "@[0]);
            }
        }
        assert(t != "-"@) by {
            if t == "-"@ {
                assert(t[0] == '-');
            }
        }
    }
    lemma_find_char(t, ':');
}

/// A value in quotes of one kind loses them, and only one pair of them; any
/// other value is trimmed.
pub proof fn law_quotes_come_off(inner: Seq<char>, value: Seq<char>)
    ensures
        unquoted(seq!['"'] + inner + seq!['"']) == inner,
        unquoted(seq!['\''] + inner + seq!['\'']) == inner,
        trim(value).len() < 2 || (trim(value)[0] != '"' && trim(value)[0] != '\'') || trim(value)[0]
            != trim(value).last() ==> unquoted(value) == trim(value),
{
    let a = seq!['"'] + inner + seq!['"'];
    assert(trim_start(a) == a);
    assert(a.last() == '"');
    assert(trim_end(a) == a);
    assert(a.subrange(1, a.len() - 1) =~= inner);
    let b = seq!['\''] + inner + seq!['\''];
    assert(trim_start(b) == b);
    assert(b.last() == '\'');
    assert(trim_end(b) == b);
    assert(b.subrange(1, b.len() - 1) =~= inner);
}

/// Line breaks come off the front of a body and nothing else does.
pub proof fn law_line_breaks_come_off(breaks: Seq<char>, body: Seq<char>)
    requires
        forall|i: int| 0 <= i < breaks.len() ==> #[trigger] breaks[i] == '\n' || breaks[i] == '\r',
        body.len() == 0 || (body[0] != '\n' && body[0] != '\r'),
    ensures
        skip_newlines(breaks + body) == body,
    decreases breaks.len(),
{
    let s = breaks + body;
    if breaks.len() == 0 {
        assert(s =~= body);
    } else {
        assert(s[0] == breaks[0]);
        let r = breaks.skip(1);
        assert(s.skip(1) =~= r + body);
        assert forall|i: int| 0 <= i < r.len() implies #[trigger] r[i] == '\n' || r[i] == '\r' by {
            assert(r[i] == breaks[i + 1]);
        }
        law_line_breaks_come_off(r, body);
    }
}

/// A byte order mark before the dashes does not matter.
pub proof fn law_byte_order_marks_do_not_matter(rest: Seq<char>)
    ensures
        opens_with_dashes(seq!['\u{feff}', '-', '-', '-', '\n'] + rest),
{
    let l = seq!['\u{feff}', '-', '-', '-'];
    let s = seq!['\u{feff}', '-', '-', '-', '\n'] + rest;
    assert(!l.contains('\n'));
    assert(s.skip(0) =~= l.push('\n') + rest);
    lemma_first_line(s, 0, l, rest);
    let dashes = seq!['-', '-', '-'];
    reveal_strlit("---");
    assert("---"@ =~= dashes);
    assert(s.take(5) =~= l.push('\n'));
    assert(l.push('\n').skip(1) =~= dashes.push('\n'));
    assert(skip_marks(l.push('\n')) == skip_marks(l.push('\n').skip(1)));
    assert(skip_marks(dashes.push('\n')) == dashes.push('\n'));
    lemma_trim_feed(dashes);
    assert(trim_start(dashes) == dashes);
    assert(trim_end(dashes) == dashes);
}

/// A line names a title only where it begins with one hash sign and a space,
/// white space aside; a heading of another level names none.
pub proof fn law_only_first_level_headings_name_titles(line: Seq<char>)
    requires
        h1_of(line) is Some,
    ensures
        trim_start(line).len() > 2,
        trim_start(line)[0] == '#',
        trim_start(line)[1] == ' ',
        !is_blank(h1_of(line)->0),
{
    reveal_strlit("# ");
    let t = trim_start(line);
    assert(t.take(2)[0] == '#' && t.take(2)[1] == ' ');
    let r = t.skip(2);
    crate::text::lemma_trim_blank(r);
    crate::notebook::pages::law_trimming_takes_white_space(r);
    assert(!is_white(trim(r)[0]));
}

} // verus!
