//! Splitting of a source into pages on horizontal rules.

use vstd::prelude::*;

use crate::markdown::wrap::{ink, ink_of, lemma_ink_add};
use crate::text::{
    blank, chars_of, is_blank, is_white, lemma_views_push, lines, lines_of, split, string_of,
    trim,
    trim_bounds, trim_end, trim_start, trimmed, views,
};

verus! {

/// The number of leading `c` in `s`.
pub open spec fn leading(s: Seq<char>, c: char) -> nat
    decreases s.len(),
{
    if s.len() > 0 && s[0] == c {
        1 + leading(s.skip(1), c)
    } else {
        0
    }
}

fn count_leading(cs: &[char], c: char) -> (r: usize)
    ensures
        r == leading(cs@, c),
        r <= cs@.len(),
{
    let mut i: usize = 0;
    proof {
        assert(cs@.skip(0) =~= cs@);
    }
    while i < cs.len() && cs[i] == c
        invariant
            i <= cs@.len(),
            leading(cs@, c) == i + leading(cs@.skip(i as int), c),
        decreases cs@.len() - i,
    {
        i += 1;
        proof {
            assert(cs@.skip(i - 1).skip(1) =~= cs@.skip(i as int));
        }
    }
    i
}

/// The open fence after a line: a fence opens on three or more backticks or
/// tildes, indented at most three spaces, and closes on a line of the same
/// character, at least as long, with nothing after it.
pub open spec fn fence_after(open: Option<(char, usize)>, line: Seq<char>) -> Option<(char, usize)> {
    let t = trim(line);
    if t.len() == 0 || !(t[0] == '`' || t[0] == '~') {
        open
    } else {
        let run = leading(t, t[0]);
        if leading(line, ' ') > 3 || run < 3 {
            open
        } else {
            match open {
                None => Some((t[0], run as usize)),
                Some((m, n)) => if m == t[0] && run >= n && t.len() == run {
                    None
                } else {
                    open
                },
            }
        }
    }
}

fn fence_after_line(open: Option<(char, usize)>, line: &[char]) -> (r: Option<(char, usize)>)
    ensures
        r == fence_after(open, line@),
{
    let indent = count_leading(line, ' ');
    let t = trimmed(line);
    if t.len() == 0 || !(t[0] == '`' || t[0] == '~') {
        return open;
    }
    let marker = t[0];
    let run = count_leading(t.as_slice(), marker);
    if indent > 3 || run < 3 {
        return open;
    }
    match open {
        None => Some((marker, run)),
        Some((m, n)) => if m == marker && run >= n && t.len() == run {
            None
        } else {
            open
        },
    }
}

/// Tracks fenced-code state across lines.
pub fn next_fence_state(open: Option<(char, usize)>, line: &str) -> (r: Option<(char, usize)>)
    ensures
        r == fence_after(open, line@),
{
    fence_after_line(open, chars_of(line).as_slice())
}

/// Whether a line is a horizontal rule: three or more dashes and nothing else.
pub open spec fn is_rule(line: Seq<char>) -> bool {
    let t = trim(line);
    t.len() >= 3 && forall|i: int| 0 <= i < t.len() ==> #[trigger] t[i] == '-'
}

fn line_is_rule(line: &[char]) -> (r: bool)
    ensures
        r == is_rule(line@),
{
    let t = trimmed(line);
    let mut i: usize = 0;
    while i < t.len()
        invariant
            t@ == trim(line@),
            i <= t@.len(),
            forall|k: int| 0 <= k < i ==> #[trigger] t@[k] == '-',
        decreases t@.len() - i,
    {
        if t[i] != '-' {
            return false;
        }
        i += 1;
    }
    t.len() >= 3
}

/// How far a source has been split: the finished pages, the text of the open
/// one, and the open fence.
pub struct Splitting {
    pub done: Seq<Seq<char>>,
    pub text: Seq<char>,
    pub fence: Option<(char, usize)>,
}

impl Splitting {
    /// The open page finished, unless it is blank.
    pub open spec fn flushed(self) -> Seq<Seq<char>> {
        if is_blank(self.text) {
            self.done
        } else {
            self.done.push(trim(self.text))
        }
    }

    /// Whether a line breaks the page: a horizontal rule outside fenced code.
    pub open spec fn breaks_at(self, line: Seq<char>) -> bool {
        fence_after(self.fence, line) is None && is_rule(line)
    }

    /// The splitting after one more line.
    pub open spec fn after(self, line: Seq<char>) -> Splitting {
        let fence = fence_after(self.fence, line);
        if self.breaks_at(line) {
            Splitting { done: self.flushed(), text: Seq::empty(), fence }
        } else {
            Splitting { done: self.done, text: self.text + line + "\n"@, fence }
        }
    }
}

/// The splitting of a list of lines.
pub open spec fn splitting(ls: Seq<Seq<char>>) -> Splitting
    decreases ls.len(),
{
    if ls.len() == 0 {
        Splitting { done: Seq::empty(), text: Seq::empty(), fence: None }
    } else {
        splitting(ls.drop_last()).after(ls.last())
    }
}

/// The pages of a source: the trimmed text between its page breaks. Blank
/// pages are dropped, but a source without text is one empty page.
pub open spec fn split_pages(md: Seq<char>) -> Seq<Seq<char>> {
    let pages = splitting(lines(md)).flushed();
    if pages.len() == 0 {
        seq![Seq::empty()]
    } else {
        pages
    }
}

fn push_page(out: &mut Vec<String>, text: &Vec<char>)
    ensures
        views(final(out)@) == (if is_blank(text@) {
            views(old(out)@)
        } else {
            views(old(out)@).push(trim(text@))
        }),
{
    if !blank(text.as_slice()) {
        let (from, to) = trim_bounds(text.as_slice());
        let page = string_of(text.as_slice(), from, to);
        proof {
            lemma_views_push(out@, page);
        }
        out.push(page);
    }
}

/// Splits a source on `---` horizontal-rule lines. Each segment is returned
/// trimmed; empty segments are dropped so consecutive rules do not create
/// blank pages. A dash line inside a fenced code block is content, not a page
/// break.
pub fn split_on_hr(md: &str) -> (r: Vec<String>)
    ensures
        views(r@) == split_pages(md@),
{
    let cs = chars_of(md);
    let ls = lines_of(cs.as_slice());
    let ghost all = lines(md@);
    let mut out: Vec<String> = Vec::new();
    let mut text: Vec<char> = Vec::new();
    let mut fence: Option<(char, usize)> = None;
    let mut i: usize = 0;
    proof {
        assert(views(out@) =~= Seq::<Seq<char>>::empty());
        assert(text@ =~= Seq::<char>::empty());
    }
    while i < ls.len()
        invariant
            all == views(ls@),
            all == lines(md@),
            i <= ls@.len(),
            ({
                let st = splitting(all.take(i as int));
                &&& views(out@) == st.done
                &&& text@ == st.text
                &&& fence == st.fence
            }),
        decreases ls@.len() - i,
    {
        proof {
            assert(all.take(i + 1).drop_last() =~= all.take(i as int));
            assert(all.take(i + 1).last() == ls@[i as int]@);
            reveal_strlit("\n");
        }
        fence = fence_after_line(fence, ls[i].as_slice());
        if fence.is_none() && line_is_rule(ls[i].as_slice()) {
            push_page(&mut out, &text);
            text = Vec::new();
            proof {
                assert(text@ =~= Seq::<char>::empty());
            }
        } else {
            let ghost before = text@;
            let mut line = crate::text::sub_vec(ls[i].as_slice(), 0, ls[i].len());
            text.append(&mut line);
            text.push('\n');
            proof {
                assert(text@ =~= before + ls@[i as int]@ + "\n"@);
            }
        }
        i += 1;
    }
    proof {
        assert(all.take(i as int) =~= all);
    }
    push_page(&mut out, &text);
    if out.len() == 0 {
        let page = String::new();
        proof {
            lemma_views_push(out@, page);
            assert(page@ =~= Seq::<char>::empty());
            assert(views(out@) =~= Seq::<Seq<char>>::empty());
            assert(Seq::<Seq<char>>::empty().push(page@) =~= seq![Seq::<char>::empty()]);
        }
        out.push(page);
    }
    out
}

// ---------------------------------------------------------------------------
// Laws
// ---------------------------------------------------------------------------

/// A line inside fenced code, or one that opens it, breaks no page: it goes to
/// the text of its page.
pub proof fn law_fenced_lines_break_no_page(st: Splitting, line: Seq<char>)
    requires
        fence_after(st.fence, line) is Some,
    ensures
        st.after(line).done == st.done,
        st.after(line).text == st.text + line + "\n"@,
{
}

proof fn lemma_flushed_filled(st: Splitting)
    requires
        forall|i: int| 0 <= i < st.done.len() ==> (#[trigger] st.done[i]).len() > 0,
    ensures
        forall|i: int| 0 <= i < st.flushed().len() ==> (#[trigger] st.flushed()[i]).len() > 0,
{
    crate::text::lemma_trim_blank(st.text);
}

proof fn lemma_done_filled(ls: Seq<Seq<char>>)
    ensures
        forall|i: int|
            0 <= i < splitting(ls).done.len() ==> (#[trigger] splitting(ls).done[i]).len() > 0,
    decreases ls.len(),
{
    if ls.len() > 0 {
        lemma_done_filled(ls.drop_last());
        lemma_flushed_filled(splitting(ls.drop_last()));
    }
}

/// A source always has a page, and where it has several, none is empty.
pub proof fn law_no_empty_pages(md: Seq<char>)
    ensures
        split_pages(md).len() >= 1,
        split_pages(md).len() > 1 ==> forall|i: int|
            0 <= i < split_pages(md).len() ==> (#[trigger] split_pages(md)[i]).len() > 0,
{
    lemma_done_filled(lines(md));
    lemma_flushed_filled(splitting(lines(md)));
}

/// The lines that break no page, in order.
pub open spec fn kept_lines(ls: Seq<Seq<char>>) -> Seq<Seq<char>>
    decreases ls.len(),
{
    if ls.len() == 0 {
        Seq::empty()
    } else if splitting(ls.drop_last()).breaks_at(ls.last()) {
        kept_lines(ls.drop_last())
    } else {
        kept_lines(ls.drop_last()).push(ls.last())
    }
}

proof fn lemma_ink_blank(s: Seq<char>)
    requires
        is_blank(s),
    ensures
        ink(s) == Seq::<char>::empty(),
    decreases s.len(),
{
    if s.len() > 0 {
        assert(is_white(s[s.len() - 1]));
        assert(is_blank(s.drop_last())) by {
            assert forall|i: int| 0 <= i < s.drop_last().len() implies is_white(
                #[trigger] s.drop_last()[i],
            ) by {
                assert(is_white(s[i]));
            }
        }
        lemma_ink_blank(s.drop_last());
    }
}

proof fn lemma_ink_trim_start(s: Seq<char>)
    ensures
        ink(trim_start(s)) == ink(s),
    decreases s.len(),
{
    if s.len() > 0 && is_white(s[0]) {
        lemma_ink_trim_start(s.skip(1));
        let one = s.take(1);
        assert(s =~= one + s.skip(1));
        lemma_ink_add(one, s.skip(1));
        assert(is_blank(one));
        lemma_ink_blank(one);
        assert(Seq::<char>::empty() + ink(s.skip(1)) =~= ink(s.skip(1)));
    }
}

proof fn lemma_ink_trim_end(s: Seq<char>)
    ensures
        ink(trim_end(s)) == ink(s),
    decreases s.len(),
{
    if s.len() > 0 && is_white(s.last()) {
        lemma_ink_trim_end(s.drop_last());
    }
}

proof fn lemma_ink_flushed(st: Splitting)
    ensures
        ink_of(st.flushed()) == ink_of(st.done) + ink(st.text),
{
    if is_blank(st.text) {
        lemma_ink_blank(st.text);
        assert(ink_of(st.done) + Seq::<char>::empty() =~= ink_of(st.done));
    } else {
        lemma_ink_trim_start(st.text);
        lemma_ink_trim_end(trim_start(st.text));
        assert(st.flushed().drop_last() =~= st.done);
    }
}

proof fn lemma_ink_splitting(ls: Seq<Seq<char>>)
    ensures
        ink_of(splitting(ls).done) + ink(splitting(ls).text) == ink_of(kept_lines(ls)),
    decreases ls.len(),
{
    let r = splitting(ls);
    if ls.len() == 0 {
        assert(ink_of(r.done) + ink(r.text) =~= ink_of(kept_lines(ls)));
    } else {
        let st = splitting(ls.drop_last());
        let line = ls.last();
        lemma_ink_splitting(ls.drop_last());
        if st.breaks_at(line) {
            lemma_ink_flushed(st);
            assert(ink(Seq::<char>::empty()) =~= Seq::<char>::empty());
            assert(ink_of(r.done) + ink(r.text) =~= ink_of(kept_lines(ls)));
        } else {
            reveal_strlit("\n");
            lemma_ink_add(st.text + line, "\n"@);
            lemma_ink_add(st.text, line);
            assert(is_blank("\n"@)) by {
                assert forall|i: int| 0 <= i < "\n"@.len() implies is_white(
                    #[trigger] "\n"@[i],
                ) by {
                    assert("\n"@[0] == '\n');
                }
            }
            lemma_ink_blank("\n"@);
            assert(kept_lines(ls).drop_last() =~= kept_lines(ls.drop_last()));
            assert(ink_of(r.done) + ink(r.text) =~= ink_of(kept_lines(ls)));
        }
    }
}

/// Splitting loses no text: the pages hold the characters of all lines but the
/// page breaks, white space aside, in order.
pub proof fn law_split_loses_nothing(md: Seq<char>)
    ensures
        ink_of(split_pages(md)) == ink_of(kept_lines(lines(md))),
{
    let st = splitting(lines(md));
    lemma_ink_splitting(lines(md));
    lemma_ink_flushed(st);
    if st.flushed().len() == 0 {
        let e = seq![Seq::<char>::empty()];
        assert(e.drop_last() =~= Seq::<Seq<char>>::empty());
        assert(ink_of(Seq::<Seq<char>>::empty()) =~= Seq::<char>::empty());
        assert(ink(Seq::<char>::empty()) =~= Seq::<char>::empty());
        assert(e.last() == Seq::<char>::empty());
        assert(ink_of(e) =~= Seq::<char>::empty());
        assert(st.flushed() =~= Seq::<Seq<char>>::empty());
    }
}

// ---------------------------------------------------------------------------
// What breaks a page
// ---------------------------------------------------------------------------

/// A text of `n` times the same character.
pub open spec fn repeated(c: char, n: nat) -> Seq<char> {
    Seq::new(n, |i: int| c)
}

/// A horizontal rule breaks the page wherever no fence is open behind it,
/// whatever pages came before: the text so far becomes a page, unless it is
/// blank, and the next page starts empty.
pub proof fn law_rule_breaks_the_page(st: Splitting, line: Seq<char>)
    requires
        fence_after(st.fence, line) is None,
        is_rule(line),
    ensures
        st.after(line).text.len() == 0,
        is_blank(st.text) ==> st.after(line).done == st.done,
        !is_blank(st.text) ==> st.after(line).done == st.done.push(trim(st.text)),
{
}

/// A line that is no horizontal rule goes to the text of its page, whatever
/// fence is open.
pub proof fn law_text_lines_stay(st: Splitting, line: Seq<char>)
    requires
        !is_rule(line),
    ensures
        st.after(line).done == st.done,
        st.after(line).text == st.text + line + "\n"@,
{
}

proof fn lemma_leading(s: Seq<char>, c: char)
    ensures
        leading(s, c) <= s.len(),
        forall|i: int| 0 <= i < leading(s, c) ==> #[trigger] s[i] == c,
        leading(s, c) < s.len() ==> s[leading(s, c) as int] != c,
    decreases s.len(),
{
    if s.len() > 0 && s[0] == c {
        let r = s.skip(1);
        lemma_leading(r, c);
        assert forall|i: int| 0 <= i < leading(s, c) implies #[trigger] s[i] == c by {
            if i > 0 {
                assert(s[i] == r[i - 1]);
            }
        }
        if leading(s, c) < s.len() {
            assert(s[leading(s, c) as int] == r[leading(r, c) as int]);
        }
    }
}

/// Outside fenced code a fence opens exactly on a line that is indented by at
/// most three spaces and begins with three backticks or three tildes; it is as
/// long as their run.
pub proof fn law_fence_opens(line: Seq<char>)
    ensures
        ({
            let t = trim(line);
            let r = fence_after(None, line);
            &&& r is Some <==> (line.len() <= 3 || line[0] != ' ' || line[1] != ' ' || line[2] != ' '
                || line[3] != ' ') && t.len() >= 3 && (t.take(3) == repeated('`', 3) || t.take(3)
                == repeated('~', 3))
            &&& r is Some && t.len() <= usize::MAX ==> 3 <= (r->0).1 <= t.len() && t.take(
                (r->0).1 as int,
            ) == repeated((r->0).0, (r->0).1 as nat) && ((r->0).1 < t.len() ==> t[(r->0).1 as int]
                != (r->0).0)
        }),
{
    let t = trim(line);
    lemma_leading(line, ' ');
    if t.len() > 0 {
        let c = t[0];
        let k = leading(t, c);
        lemma_leading(t, c);
        assert(t.take(k as int) =~= repeated(c, k));
        if k >= 3 {
            assert(t.take(3) =~= repeated(c, 3));
        } else if t.len() >= 3 {
            assert(t.take(3)[k as int] == t[k as int]);
            assert(t.take(3)[0] == c);
            assert(repeated('`', 3)[k as int] == '`' && repeated('`', 3)[0] == '`');
            assert(repeated('~', 3)[k as int] == '~' && repeated('~', 3)[0] == '~');
        }
        if t.len() >= 3 {
            assert(t.take(3)[0] == c);
            assert(repeated('`', 3)[0] == '`');
            assert(repeated('~', 3)[0] == '~');
        }
    }
}

/// Inside fenced code the fence stays as it is, but for a line that is indented
/// by at most three spaces and holds the fence's character alone, at least as
/// often as the line that opened it (and three times): that closes it.
pub proof fn law_fence_closes(c: char, n: usize, line: Seq<char>)
    requires
        c == '`' || c == '~',
        n >= 3,
    ensures
        ({
            let t = trim(line);
            let r = fence_after(Some((c, n)), line);
            &&& r is None || r == Some((c, n))
            &&& r is None <==> (line.len() <= 3 || line[0] != ' ' || line[1] != ' ' || line[2] != ' '
                || line[3] != ' ') && t.len() >= n && t == repeated(c, t.len())
        }),
{
    let t = trim(line);
    lemma_leading(line, ' ');
    if t.len() > 0 {
        let k = leading(t, t[0]);
        lemma_leading(t, t[0]);
        if k == t.len() {
            assert(t =~= repeated(t[0], t.len()));
        } else {
            assert(t[k as int] != t[0]);
            assert(t[k as int] != c || t[0] != c);
            assert(repeated(c, t.len())[k as int] == c && repeated(c, t.len())[0] == c);
        }
        assert(repeated(c, t.len())[0] == c);
    }
}

proof fn lemma_trim_between(a: Seq<char>, s: Seq<char>, b: Seq<char>)
    requires
        is_blank(a),
        is_blank(b),
        s.len() > 0,
        !is_white(s[0]),
        !is_white(s.last()),
    ensures
        trim(a + s + b) == s,
    decreases a.len() + b.len(),
{
    if a.len() > 0 {
        assert(is_white(a[0]));
        assert((a + s + b)[0] == a[0]);
        assert((a + s + b).skip(1) =~= a.skip(1) + s + b);
        assert(is_blank(a.skip(1))) by {
            assert forall|i: int| 0 <= i < a.skip(1).len() implies is_white(
                #[trigger] a.skip(1)[i],
            ) by {
                assert(is_white(a[i + 1]));
            }
        }
        lemma_trim_between(a.skip(1), s, b);
    } else {
        assert(a + s + b =~= s + b);
        assert((s + b)[0] == s[0]);
        assert(trim_start(s + b) == s + b);
        lemma_trim_end_blank(s, b);
    }
}

proof fn lemma_trim_end_blank(s: Seq<char>, b: Seq<char>)
    requires
        is_blank(b),
        s.len() > 0,
        !is_white(s.last()),
    ensures
        trim_end(s + b) == s,
    decreases b.len(),
{
    if b.len() > 0 {
        assert(is_white(b[b.len() - 1]));
        assert((s + b).last() == b.last());
        assert((s + b).drop_last() =~= s + b.drop_last());
        assert(is_blank(b.drop_last())) by {
            assert forall|i: int| 0 <= i < b.drop_last().len() implies is_white(
                #[trigger] b.drop_last()[i],
            ) by {
                assert(is_white(b[i]));
            }
        }
        lemma_trim_end_blank(s, b.drop_last());
    } else {
        assert(s + b =~= s);
    }
}

/// A line of dashes between white space is a horizontal rule exactly when there
/// are three or more.
pub proof fn law_rule_lines(before: Seq<char>, n: nat, behind: Seq<char>)
    requires
        is_blank(before),
        is_blank(behind),
        n > 0,
    ensures
        is_rule(before + repeated('-', n) + behind) <==> n >= 3,
{
    lemma_trim_between(before, repeated('-', n), behind);
}

proof fn lemma_trim_start_part(s: Seq<char>) -> (k: int)
    ensures
        0 <= k <= s.len(),
        trim_start(s) == s.skip(k),
        is_blank(s.take(k)),
    decreases s.len(),
{
    if s.len() > 0 && is_white(s[0]) {
        let k = lemma_trim_start_part(s.skip(1));
        assert(s.skip(1).skip(k) =~= s.skip(k + 1));
        assert forall|i: int| 0 <= i < k + 1 implies is_white(#[trigger] s.take(k + 1)[i]) by {
            if i > 0 {
                assert(s.skip(1).take(k)[i - 1] == s[i]);
            }
        }
        k + 1
    } else {
        assert(s.skip(0) =~= s);
        0
    }
}

proof fn lemma_trim_end_part(s: Seq<char>) -> (k: int)
    ensures
        0 <= k <= s.len(),
        trim_end(s) == s.take(k),
        is_blank(s.skip(k)),
    decreases s.len(),
{
    if s.len() > 0 && is_white(s.last()) {
        let k = lemma_trim_end_part(s.drop_last());
        assert(s.drop_last().take(k) =~= s.take(k));
        assert forall|i: int| 0 <= i < s.skip(k).len() implies is_white(#[trigger] s.skip(k)[i]) by {
            if i < s.len() - k - 1 {
                assert(s.drop_last().skip(k)[i] == s[i + k]);
            }
        }
        k
    } else {
        assert(s.take(s.len() as int) =~= s);
        s.len() as int
    }
}

/// A horizontal rule holds dashes and white space only.
pub proof fn law_rules_hold_dashes(line: Seq<char>)
    requires
        is_rule(line),
    ensures
        line.contains('-'),
        forall|i: int| 0 <= i < line.len() ==> #[trigger] line[i] == '-' || is_white(line[i]),
{
    let a = lemma_trim_start_part(line);
    let t = line.skip(a);
    let b = lemma_trim_end_part(t);
    assert(trim(line) == t.take(b));
    assert(trim(line)[0] == '-');
    assert(line[a] == t.take(b)[0]);
    assert forall|i: int| 0 <= i < line.len() implies #[trigger] line[i] == '-' || is_white(
        line[i],
    ) by {
        if i < a {
            assert(line.take(a)[i] == line[i]);
        } else if i < a + b {
            assert(t.take(b)[i - a] == line[i]);
        } else {
            assert(t.skip(b)[i - a - b] == line[i]);
        }
    }
}

// ---------------------------------------------------------------------------
// Cutting a source in two
// ---------------------------------------------------------------------------

/// The fence that is open behind these lines.
pub open spec fn fence_behind(ls: Seq<Seq<char>>) -> Option<(char, usize)> {
    ls.fold_left(None, |f: Option<(char, usize)>, l: Seq<char>| fence_after(f, l))
}

proof fn lemma_fence(ls: Seq<Seq<char>>)
    ensures
        splitting(ls).fence == fence_behind(ls),
    decreases ls.len(),
{
    if ls.len() > 0 {
        lemma_fence(ls.drop_last());
    }
}

/// The pages of lines; none for lines that are all blank.
pub open spec fn pages_of_lines(ls: Seq<Seq<char>>) -> Seq<Seq<char>> {
    splitting(ls).flushed()
}

proof fn lemma_cut(a: Seq<Seq<char>>, rule: Seq<char>, b: Seq<Seq<char>>)
    requires
        fence_after(splitting(a).fence, rule) is None,
        is_rule(rule),
    ensures
        splitting(a.push(rule) + b).done == splitting(a).flushed() + splitting(b).done,
        splitting(a.push(rule) + b).text == splitting(b).text,
        splitting(a.push(rule) + b).fence == splitting(b).fence,
    decreases b.len(),
{
    let all = a.push(rule) + b;
    if b.len() == 0 {
        assert(all =~= a.push(rule));
        assert(all.drop_last() =~= a);
        assert(splitting(a).flushed() + splitting(b).done =~= splitting(a).flushed());
    } else {
        let d = b.drop_last();
        lemma_cut(a, rule, d);
        assert(all.drop_last() =~= a.push(rule) + d);
        assert(all.last() == b.last());
        assert(splitting(all).done =~= splitting(a).flushed() + splitting(b).done);
    }
}

/// A horizontal rule outside fenced code cuts a source in two: its pages are
/// those of the lines above, then those of the lines below.
pub proof fn law_rule_cuts_the_source(a: Seq<Seq<char>>, rule: Seq<char>, b: Seq<Seq<char>>)
    requires
        fence_behind(a) is None,
        is_rule(rule),
    ensures
        pages_of_lines(a.push(rule) + b) == pages_of_lines(a) + pages_of_lines(b),
{
    lemma_fence(a);
    law_rules_hold_dashes(rule);
    assert(fence_after(None, rule) is None) by {
        let t = trim(rule);
        assert(t[0] == '-');
    }
    lemma_cut(a, rule, b);
    assert(pages_of_lines(a.push(rule) + b) =~= pages_of_lines(a) + pages_of_lines(b));
}

/// The lines with a line feed behind each.
pub open spec fn text_of_lines(ls: Seq<Seq<char>>) -> Seq<char> {
    ls.map_values(|l: Seq<char>| l.push('\n')).flatten()
}

pub proof fn lemma_text_of_lines_push(ls: Seq<Seq<char>>, l: Seq<char>)
    ensures
        text_of_lines(ls.push(l)) == text_of_lines(ls) + l.push('\n'),
{
    let f = |l: Seq<char>| l.push('\n');
    assert(ls.push(l).map_values(f) =~= ls.map_values(f).push(l.push('\n')));
    ls.map_values(f).lemma_flatten_push(l.push('\n'));
}

proof fn lemma_unbroken(ls: Seq<Seq<char>>)
    requires
        forall|k: int|
            0 <= k < ls.len() && is_rule(#[trigger] ls[k]) ==> fence_behind(ls.take(k + 1)) is Some,
    ensures
        splitting(ls).done.len() == 0,
        splitting(ls).text == text_of_lines(ls),
    decreases ls.len(),
{
    if ls.len() == 0 {
        assert(text_of_lines(ls) =~= Seq::<char>::empty());
    } else {
        let d = ls.drop_last();
        assert forall|k: int| 0 <= k < d.len() && is_rule(#[trigger] d[k]) implies fence_behind(
            d.take(k + 1),
        ) is Some by {
            assert(ls[k] == d[k]);
            assert(d.take(k + 1) =~= ls.take(k + 1));
        }
        lemma_unbroken(d);
        lemma_fence(ls);
        assert(ls.take(ls.len() as int) =~= ls);
        assert(ls[ls.len() - 1] == ls.last());
        reveal_strlit("\n");
        lemma_text_of_lines_push(d, ls.last());
        assert(d.push(ls.last()) =~= ls);
        assert(splitting(ls).text =~= text_of_lines(ls));
    }
}

/// Lines without a horizontal rule outside fenced code are one page: their
/// text, trimmed, or none where that is blank.
pub proof fn law_lines_without_a_rule_are_one_page(ls: Seq<Seq<char>>)
    requires
        forall|k: int|
            0 <= k < ls.len() && is_rule(#[trigger] ls[k]) ==> fence_behind(ls.take(k + 1)) is Some,
    ensures
        is_blank(text_of_lines(ls)) ==> pages_of_lines(ls).len() == 0,
        !is_blank(text_of_lines(ls)) ==> pages_of_lines(ls) == seq![trim(text_of_lines(ls))],
{
    lemma_unbroken(ls);
    if !is_blank(text_of_lines(ls)) {
        assert(pages_of_lines(ls) =~= seq![trim(text_of_lines(ls))]);
    }
}

/// The pages of a source are those of its lines, or one empty page.
pub proof fn law_pages_of_source(md: Seq<char>)
    ensures
        pages_of_lines(lines(md)).len() > 0 ==> split_pages(md) == pages_of_lines(lines(md)),
        pages_of_lines(lines(md)).len() == 0 ==> split_pages(md).len() == 1
            && split_pages(md)[0].len() == 0,
{
}

// ---------------------------------------------------------------------------
// Lines, pieces and trimmed text
// ---------------------------------------------------------------------------

/// Pieces with a separator between them.
pub open spec fn put_together(ps: Seq<Seq<char>>, sep: char) -> Seq<char>
    decreases ps.len(),
{
    if ps.len() == 0 {
        Seq::empty()
    } else if ps.len() == 1 {
        ps[0]
    } else {
        put_together(ps.drop_last(), sep).push(sep) + ps.last()
    }
}

/// A text is its pieces with the separator between them, and no piece holds the
/// separator.
pub proof fn law_pieces_make_the_text(s: Seq<char>, sep: char)
    ensures
        split(s, sep).len() > 0,
        put_together(split(s, sep), sep) == s,
        forall|i: int| 0 <= i < split(s, sep).len() ==> !(#[trigger] split(s, sep)[i]).contains(sep),
    decreases s.len(),
{
    let ps = split(s, sep);
    if s.len() == 0 {
        assert(ps =~= seq![Seq::<char>::empty()]);
        assert(put_together(ps, sep) =~= s);
    } else {
        let d = s.drop_last();
        let qs = split(d, sep);
        law_pieces_make_the_text(d, sep);
        if s.last() == sep {
            assert(ps.drop_last() =~= qs);
            assert(put_together(ps, sep) =~= s);
            assert forall|i: int| 0 <= i < ps.len() implies !(#[trigger] ps[i]).contains(sep) by {
                if i < qs.len() {
                    assert(ps[i] == qs[i]);
                }
            }
        } else {
            assert(ps.drop_last() =~= qs.drop_last());
            assert(ps.last() == qs.last().push(s.last()));
            assert(put_together(ps, sep) =~= put_together(qs, sep).push(s.last()));
            assert(put_together(ps, sep) =~= s);
            assert forall|i: int| 0 <= i < ps.len() implies !(#[trigger] ps[i]).contains(sep) by {
                if i < ps.len() - 1 {
                    assert(ps[i] == qs[i]);
                } else {
                    let l = qs.last();
                    assert(!qs[qs.len() - 1].contains(sep));
                    if ps[i].contains(sep) {
                        let k = choose|k: int| 0 <= k < ps[i].len() && ps[i][k] == sep;
                        if k < l.len() {
                            assert(l[k] == sep);
                        }
                    }
                }
            }
        }
    }
}

/// Lines that are written out, each with a line feed, are read back. They hold
/// no line feed and end in no carriage return.
pub proof fn law_lines_read_back(ls: Seq<Seq<char>>)
    requires
        forall|i: int|
            0 <= i < ls.len() ==> !(#[trigger] ls[i]).contains('\n') && (ls[i].len() == 0
                || ls[i].last() != '\r'),
    ensures
        lines(text_of_lines(ls)) == ls,
    decreases ls.len(),
{
    lemma_read_back(ls);
}

proof fn lemma_read_back(ls: Seq<Seq<char>>)
    requires
        forall|i: int|
            0 <= i < ls.len() ==> !(#[trigger] ls[i]).contains('\n') && (ls[i].len() == 0
                || ls[i].last() != '\r'),
    ensures
        lines(text_of_lines(ls)) == ls,
        crate::sync_v3::laws::closed_lines(text_of_lines(ls)),
    decreases ls.len(),
{
    if ls.len() == 0 {
        assert(text_of_lines(ls) =~= Seq::<char>::empty());
        assert(lines(text_of_lines(ls)) =~= ls);
    } else {
        let d = ls.drop_last();
        let l = ls.last();
        assert forall|i: int| 0 <= i < d.len() implies !(#[trigger] d[i]).contains('\n') && (
        d[i].len() == 0 || d[i].last() != '\r') by {
            assert(d[i] == ls[i]);
        }
        lemma_read_back(d);
        assert(!ls[ls.len() - 1].contains('\n'));
        lemma_text_of_lines_push(d, l);
        assert(d.push(l) =~= ls);
        reveal_strlit("\n");
        crate::sync_v3::laws::lemma_lines_append(text_of_lines(d), l);
        assert(text_of_lines(d) + l + "\n"@ =~= text_of_lines(ls));
    }
}

/// Trimming takes white space off both ends and nothing else: what is left is
/// empty or has no white space at its ends, and what comes off is white space.
pub proof fn law_trimming_takes_white_space(s: Seq<char>)
    ensures
        exists|a: Seq<char>, b: Seq<char>|
            is_blank(a) && is_blank(b) && s == #[trigger] (a + trim(s) + b),
        trim(s).len() > 0 ==> !is_white(trim(s)[0]) && !is_white(trim(s).last()),
{
    let k = lemma_trim_start_part(s);
    let t = s.skip(k);
    let m = lemma_trim_end_part(t);
    assert(trim(s) == t.take(m));
    let a = s.take(k);
    let b = t.skip(m);
    assert(s =~= a + trim(s) + b);
    lemma_trim_start_first(s);
    lemma_trim_end_last(t);
    if m > 0 {
        assert(t.take(m)[0] == t[0]);
    }
}

proof fn lemma_trim_start_first(s: Seq<char>)
    ensures
        trim_start(s).len() > 0 ==> !is_white(trim_start(s)[0]),
    decreases s.len(),
{
    if s.len() > 0 && is_white(s[0]) {
        lemma_trim_start_first(s.skip(1));
    }
}

proof fn lemma_trim_end_last(s: Seq<char>)
    ensures
        trim_end(s).len() > 0 ==> !is_white(trim_end(s).last()),
    decreases s.len(),
{
    if s.len() > 0 && is_white(s.last()) {
        lemma_trim_end_last(s.drop_last());
    }
}

} // verus!
