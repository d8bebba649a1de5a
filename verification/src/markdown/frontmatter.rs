//! Frontmatter blocks, titles, and the document they belong to.

use vstd::prelude::*;

use crate::events::{md_events, RENDERED};
use crate::markdown::render::{
    found_views, pieces, render_markdown, rendering, Embedded, Rendered,
};
use crate::text::{
    chars_eq, chars_of, has_prefix, lines, lines_of, opt_view, starts_with, str_eq, string_of,
    sub_vec, trim, trim_start, trimmed, start_of_text, views,
};

verus! {

// ---------------------------------------------------------------------------
// Metadata
// ---------------------------------------------------------------------------

/// The `key: value` pairs of a frontmatter block. Of two pairs with one key the
/// later one counts.
#[derive(Debug)]
pub struct Metadata {
    pub entries: Vec<(String, String)>,
}

/// The map that a list of pairs holds; a later pair replaces an earlier one.
pub open spec fn pairs_map(ps: Seq<(String, String)>) -> Map<Seq<char>, Seq<char>>
    decreases ps.len(),
{
    if ps.len() == 0 {
        Map::empty()
    } else {
        pairs_map(ps.drop_last()).insert(ps.last().0@, ps.last().1@)
    }
}

/// Whether no key occurs twice.
pub open spec fn keys_once(ps: Seq<(String, String)>) -> bool {
    forall|i: int, j: int|
        #![trigger ps[i], ps[j]]
        0 <= i < ps.len() && 0 <= j < ps.len() && i != j ==> ps[i].0@ != ps[j].0@
}

impl View for Metadata {
    type V = Map<Seq<char>, Seq<char>>;

    open spec fn view(&self) -> Map<Seq<char>, Seq<char>> {
        pairs_map(self.entries@)
    }
}

/// Whether `i` is the last position of a key.
spec fn is_last(ps: Seq<(String, String)>, key: Seq<char>, i: int) -> bool {
    &&& 0 <= i < ps.len()
    &&& ps[i].0@ == key
    &&& forall|j: int| i < j < ps.len() ==> (#[trigger] ps[j]).0@ != key
}

proof fn lemma_last_counts(ps: Seq<(String, String)>, key: Seq<char>, i: int)
    requires
        is_last(ps, key, i),
    ensures
        pairs_map(ps).contains_pair(key, ps[i].1@),
    decreases ps.len(),
{
    if i < ps.len() - 1 {
        let d = ps.drop_last();
        assert(ps[ps.len() - 1].0@ != key);
        assert forall|j: int| i < j < d.len() implies (#[trigger] d[j]).0@ != key by {
            assert(d[j] == ps[j]);
        }
        lemma_last_counts(d, key, i);
    }
}

proof fn lemma_key_absent(ps: Seq<(String, String)>, key: Seq<char>)
    requires
        forall|j: int| 0 <= j < ps.len() ==> (#[trigger] ps[j]).0@ != key,
    ensures
        !pairs_map(ps).contains_key(key),
    decreases ps.len(),
{
    if ps.len() > 0 {
        let d = ps.drop_last();
        assert(ps[ps.len() - 1].0@ != key);
        assert forall|j: int| 0 <= j < d.len() implies (#[trigger] d[j]).0@ != key by {
            assert(d[j] == ps[j]);
        }
        lemma_key_absent(d, key);
    }
}

proof fn lemma_replaced(ps: Seq<(String, String)>, i: int, pair: (String, String))
    requires
        is_last(ps, pair.0@, i),
    ensures
        pairs_map(ps.update(i, pair)) == pairs_map(ps).insert(pair.0@, pair.1@),
    decreases ps.len(),
{
    let key = pair.0@;
    let d = ps.drop_last();
    let u = ps.update(i, pair);
    if i == ps.len() - 1 {
        assert(u.drop_last() =~= d);
        assert(pairs_map(u) =~= pairs_map(ps).insert(key, pair.1@));
    } else {
        assert(ps[ps.len() - 1].0@ != key);
        assert forall|j: int| i < j < d.len() implies (#[trigger] d[j]).0@ != key by {
            assert(d[j] == ps[j]);
        }
        lemma_replaced(d, i, pair);
        assert(u.drop_last() =~= d.update(i, pair));
        assert(pairs_map(u) =~= pairs_map(ps).insert(key, pair.1@));
    }
}

impl Metadata {
    /// No key occurs twice.
    pub open spec fn wf(&self) -> bool {
        keys_once(self.entries@)
    }

    /// No pairs.
    pub fn new() -> (r: Self)
        ensures
            r.wf(),
            r@ == Map::<Seq<char>, Seq<char>>::empty(),
    {
        Metadata { entries: Vec::new() }
    }

    /// The last position of a key.
    fn find(&self, key: &str) -> (r: Option<usize>)
        ensures
            match r {
                Some(i) => is_last(self.entries@, key@, i as int),
                None => forall|i: int|
                    0 <= i < self.entries@.len() ==> (#[trigger] self.entries@[i]).0@ != key@,
            },
    {
        let mut i: usize = self.entries.len();
        while i > 0
            invariant
                i <= self.entries@.len(),
                forall|k: int| i <= k < self.entries@.len() ==> (#[trigger] self.entries@[k]).0@
                    != key@,
            decreases i,
        {
            i -= 1;
            if str_eq(self.entries[i].0.as_str(), key) {
                return Some(i);
            }
        }
        None
    }

    /// The value of a key.
    pub fn get(&self, key: &str) -> (r: Option<&String>)
        ensures
            match r {
                Some(v) => self@.contains_key(key@) && self@[key@] == v@,
                None => !self@.contains_key(key@),
            },
    {
        match self.find(key) {
            Some(i) => {
                proof {
                    lemma_last_counts(self.entries@, key@, i as int);
                }
                Some(&self.entries[i].1)
            },
            None => {
                proof {
                    lemma_key_absent(self.entries@, key@);
                }
                None
            },
        }
    }

    /// Whether there are no pairs.
    pub fn is_empty(&self) -> (r: bool)
        ensures
            r == (self@ =~= Map::<Seq<char>, Seq<char>>::empty()),
    {
        proof {
            if self.entries@.len() > 0 {
                assert(self@.contains_key(self.entries@.last().0@));
            }
        }
        self.entries.len() == 0
    }

    /// Sets the value of a key. Where no key occurs twice, none does afterwards.
    pub fn insert(&mut self, key: String, value: String)
        ensures
            final(self)@ == old(self)@.insert(key@, value@),
            old(self).wf() ==> final(self).wf(),
    {
        let ghost before = self.entries@;
        match self.find(key.as_str()) {
            Some(i) => {
                let ghost pair = (key, value);
                self.entries[i] = (key, value);
                proof {
                    let after = self.entries@;
                    lemma_replaced(before, i as int, pair);
                    assert(after == before.update(i as int, pair));
                    assert forall|a: int, b: int|
                        #![trigger after[a], after[b]]
                        keys_once(before) && 0 <= a < after.len() && 0 <= b < after.len() && a
                            != b implies after[a].0@ != after[b].0@ by {
                        assert(before[a].0@ == after[a].0@);
                        assert(before[b].0@ == after[b].0@);
                    }
                }
            },
            None => {
                self.entries.push((key, value));
                proof {
                    let after = self.entries@;
                    assert(after.drop_last() =~= before);
                    assert forall|a: int, b: int|
                        #![trigger after[a], after[b]]
                        keys_once(before) && 0 <= a < after.len() && 0 <= b < after.len() && a
                            != b implies after[a].0@ != after[b].0@ by {
                        if a < before.len() {
                            assert(after[a] == before[a]);
                        }
                        if b < before.len() {
                            assert(after[b] == before[b]);
                        }
                    }
                }
            },
        }
    }
}

// ---------------------------------------------------------------------------
// Lines and fields
// ---------------------------------------------------------------------------

/// The position behind the line that `i` stands in, its line feed included.
pub open spec fn line_end(s: Seq<char>, i: int) -> int
    decreases s.len() - i,
{
    if i >= s.len() {
        s.len() as int
    } else if s[i] == '\n' {
        i + 1
    } else {
        line_end(s, i + 1)
    }
}

pub proof fn lemma_line_end(s: Seq<char>, i: int)
    requires
        0 <= i < s.len(),
    ensures
        i < line_end(s, i) <= s.len(),
    decreases s.len() - i,
{
    if s[i] != '\n' {
        if i + 1 < s.len() {
            lemma_line_end(s, i + 1);
        } else {
            assert(line_end(s, i + 1) == s.len());
        }
    }
}

fn find_line_end(cs: &Vec<char>, i: usize) -> (r: usize)
    requires
        i <= cs@.len(),
    ensures
        r == line_end(cs@, i as int),
        i <= r <= cs@.len(),
{
    let mut j: usize = i;
    while j < cs.len() && cs[j] != '\n'
        invariant
            i <= j <= cs@.len(),
            line_end(cs@, j as int) == line_end(cs@, i as int),
        decreases cs@.len() - j,
    {
        j += 1;
    }
    if j < cs.len() {
        j + 1
    } else {
        j
    }
}

/// The position of the first `c` in `s`.
pub open spec fn find_char(s: Seq<char>, c: char) -> Option<int>
    decreases s.len(),
{
    if s.len() == 0 {
        None
    } else {
        match find_char(s.drop_last(), c) {
            Some(i) => Some(i),
            None => if s.last() == c {
                Some(s.len() - 1)
            } else {
                None
            },
        }
    }
}

proof fn lemma_find_char_prefix(s: Seq<char>, c: char, k: int)
    requires
        0 <= k <= s.len(),
        find_char(s.take(k), c) is Some,
    ensures
        find_char(s, c) == find_char(s.take(k), c),
    decreases s.len() - k,
{
    if k < s.len() {
        assert(s.take(k + 1).drop_last() =~= s.take(k));
        lemma_find_char_prefix(s, c, k + 1);
    } else {
        assert(s.take(k) =~= s);
    }
}

fn position_of_char(cs: &[char], c: char) -> (r: Option<usize>)
    ensures
        match r {
            Some(i) => i < cs@.len() && find_char(cs@, c) == Some(i as int),
            None => find_char(cs@, c) is None,
        },
{
    let mut i: usize = 0;
    while i < cs.len()
        invariant
            i <= cs@.len(),
            find_char(cs@.take(i as int), c) is None,
        decreases cs@.len() - i,
    {
        proof {
            assert(cs@.take(i + 1).drop_last() =~= cs@.take(i as int));
        }
        if cs[i] == c {
            proof {
                lemma_find_char_prefix(cs@, c, i + 1);
            }
            return Some(i);
        }
        i += 1;
    }
    proof {
        assert(cs@.take(i as int) =~= cs@);
    }
    None
}

/// Whether the trimmed text of `cs` is `t`.
fn trims_to(cs: &[char], t: &str) -> (r: bool)
    ensures
        r == (trim(cs@) == t@),
{
    let v = trimmed(cs);
    let w = chars_of(t);
    chars_eq(v.as_slice(), w.as_slice())
}

fn trimmed_string(cs: &[char]) -> (r: String)
    ensures
        r@ == trim(cs@),
{
    let v = trimmed(cs);
    let s = string_of(v.as_slice(), 0, v.len());
    proof {
        assert(s@ =~= trim(cs@));
    }
    s
}

// ---------------------------------------------------------------------------
// Lenient frontmatter
// ---------------------------------------------------------------------------

/// The pairs after one more line: what stands before its first colon is the
/// key, the rest the value, both trimmed.
pub open spec fn with_line(m: Map<Seq<char>, Seq<char>>, line: Seq<char>) -> Map<
    Seq<char>,
    Seq<char>,
> {
    match find_char(line, ':') {
        Some(i) => m.insert(trim(line.take(i)), trim(line.skip(i + 1))),
        None => m,
    }
}

/// The pairs of the lines from `i` on up to a `---` line, and where the body
/// begins; `None` where there is no such line.
pub open spec fn block_from(s: Seq<char>, i: int, m: Map<Seq<char>, Seq<char>>) -> Option<
    (Map<Seq<char>, Seq<char>>, int),
>
    decreases s.len() - i,
{
    if 0 <= i < s.len() {
        proof {
            lemma_line_end(s, i);
        }
        let j = line_end(s, i);
        let line = s.subrange(i, j);
        if trim(line) == "---"@ {
            Some((m, j))
        } else {
            block_from(s, j, with_line(m, line))
        }
    } else {
        None
    }
}

/// The pairs and the body of a source. Without a closed block behind a first
/// line `---`, there are no pairs and the body is the whole source.
pub open spec fn frontmatter(s: Seq<char>) -> (Map<Seq<char>, Seq<char>>, Seq<char>) {
    if s.len() > 0 && trim(s.take(line_end(s, 0))) == "---"@ {
        match block_from(s, line_end(s, 0), Map::empty()) {
            Some((m, j)) => (m, s.skip(j)),
            None => (Map::empty(), s),
        }
    } else {
        (Map::empty(), s)
    }
}

/// Parses a `---`-delimited frontmatter block.
pub fn parse_frontmatter(content: &str) -> (r: (Metadata, String))
    ensures
        r.0.wf(),
        (r.0@, r.1@) == frontmatter(content@),
{
    let cs = chars_of(content);
    let ghost s = content@;
    if cs.len() == 0 {
        return (Metadata::new(), content.to_owned());
    }
    let first = find_line_end(&cs, 0);
    let line = sub_vec(cs.as_slice(), 0, first);
    proof {
        assert(line@ =~= s.take(line_end(s, 0)));
    }
    if !trims_to(line.as_slice(), "---") {
        return (Metadata::new(), content.to_owned());
    }
    let mut meta = Metadata::new();
    let mut i: usize = first;
    while i < cs.len()
        invariant
            cs@ == s,
            s == content@,
            i <= cs@.len(),
            meta.wf(),
            s.len() > 0,
            trim(s.take(line_end(s, 0))) == "---"@,
            block_from(s, line_end(s, 0), Map::empty()) == block_from(s, i as int, meta@),
        decreases cs@.len() - i,
    {
        let j = find_line_end(&cs, i);
        let line = sub_vec(cs.as_slice(), i, j);
        proof {
            lemma_line_end(s, i as int);
        }
        if trims_to(line.as_slice(), "---") {
            let body = string_of(cs.as_slice(), j, cs.len());
            proof {
                assert(body@ =~= s.skip(j as int));
            }
            return (meta, body);
        }
        if let Some(k) = position_of_char(line.as_slice(), ':') {
            let before = sub_vec(line.as_slice(), 0, k);
            let after = sub_vec(line.as_slice(), k + 1, line.len());
            proof {
                assert(before@ =~= line@.take(k as int));
                assert(after@ =~= line@.skip(k + 1));
            }
            meta.insert(trimmed_string(before.as_slice()), trimmed_string(after.as_slice()));
        }
        i = j;
    }
    (Metadata::new(), content.to_owned())
}

// ---------------------------------------------------------------------------
// Strict frontmatter
// ---------------------------------------------------------------------------

/// Whether std takes a character for a letter or a digit.
pub uninterp spec fn alphanumeric(c: char) -> bool;

/// `char::is_alphanumeric`: letter or number after the Unicode tables of std,
/// a function of the character alone; of the ASCII characters, the digits and
/// the letters of both cases.
#[verifier::external_body]
fn is_alphanumeric(c: char) -> (r: bool)
    ensures
        r == alphanumeric(c),
        c <= '\u{7f}' ==> r == ('0' <= c <= '9' || 'A' <= c <= 'Z' || 'a' <= c <= 'z'),
{
    c.is_alphanumeric()
}

/// Whether a character may stand in a YAML key.
pub open spec fn yaml_key_char(c: char) -> bool {
    alphanumeric(c) || c == '_' || c == '-' || c == ' ' || c == '.'
}

/// Whether a text may be a YAML key.
pub open spec fn yaml_key(s: Seq<char>) -> bool {
    s.len() > 0 && forall|i: int| 0 <= i < s.len() ==> yaml_key_char(#[trigger] s[i])
}

/// Whether a character may stand in a YAML key: of the ASCII characters, the
/// digits, the letters, and four marks.
pub fn is_yaml_key_char(c: char) -> (r: bool)
    ensures
        r == yaml_key_char(c),
        c <= '\u{7f}' ==> r == ('0' <= c <= '9' || 'A' <= c <= 'Z' || 'a' <= c <= 'z' || c == '_'
            || c == '-' || c == ' ' || c == '.'),
{
    is_alphanumeric(c) || c == '_' || c == '-' || c == ' ' || c == '.'
}

fn key_chars(cs: &[char]) -> (r: bool)
    ensures
        r == yaml_key(cs@),
{
    let mut i: usize = 0;
    while i < cs.len()
        invariant
            i <= cs@.len(),
            forall|k: int| 0 <= k < i ==> yaml_key_char(#[trigger] cs@[k]),
        decreases cs@.len() - i,
    {
        if !is_yaml_key_char(cs[i]) {
            return false;
        }
        i += 1;
    }
    cs.len() > 0
}

/// Whether a text may be a YAML key.
pub fn is_yaml_key(key: &str) -> (r: bool)
    ensures
        r == yaml_key(key@),
{
    key_chars(chars_of(key).as_slice())
}

/// One line inside a candidate frontmatter block.
#[derive(Debug)]
pub enum FrontmatterLine {
    /// `key: value`; the value may be empty.
    Key(String, String),
    /// Blank, a comment, a list item or an indented continuation.
    Other,
    /// Prose, so the block is not YAML frontmatter.
    NotYaml,
}

/// The mathematical value of a [`FrontmatterLine`].
pub enum LineView {
    Key(Seq<char>, Seq<char>),
    Other,
    NotYaml,
}

impl View for FrontmatterLine {
    type V = LineView;

    open spec fn view(&self) -> LineView {
        match *self {
            FrontmatterLine::Key(k, v) => LineView::Key(k@, v@),
            FrontmatterLine::Other => LineView::Other,
            FrontmatterLine::NotYaml => LineView::NotYaml,
        }
    }
}

/// What a line inside a candidate block is.
pub open spec fn line_kind(line: Seq<char>) -> LineView {
    let t = trim(line);
    if t.len() == 0 || t[0] == '#' || starts_with(t, "- "@) || t == "-"@ {
        LineView::Other
    } else if line[0] == ' ' || line[0] == '\t' {
        LineView::Other
    } else {
        match find_char(t, ':') {
            None => LineView::NotYaml,
            Some(i) => {
                let key = t.take(i);
                let value = t.skip(i + 1);
                if yaml_key(key) && (value.len() == 0 || value[0] == ' ') {
                    LineView::Key(trim(key), trim(value))
                } else {
                    LineView::NotYaml
                }
            },
        }
    }
}

fn kind_of_line(line: &[char]) -> (r: FrontmatterLine)
    ensures
        r@ == line_kind(line@),
{
    let t = trimmed(line);
    if t.len() == 0 || t[0] == '#' || has_prefix(t.as_slice(), "- ") || trims_to(line, "-") {
        return FrontmatterLine::Other;
    }
    proof {
        if line@.len() == 0 {
            assert(trim(line@) =~= Seq::<char>::empty());
        }
    }
    if line[0] == ' ' || line[0] == '\t' {
        return FrontmatterLine::Other;
    }
    match position_of_char(t.as_slice(), ':') {
        None => FrontmatterLine::NotYaml,
        Some(i) => {
            let key = sub_vec(t.as_slice(), 0, i);
            let value = sub_vec(t.as_slice(), i + 1, t.len());
            proof {
                assert(key@ =~= t@.take(i as int));
                assert(value@ =~= t@.skip(i + 1));
            }
            if key_chars(key.as_slice()) && (value.len() == 0 || value[0] == ' ') {
                FrontmatterLine::Key(
                    trimmed_string(key.as_slice()),
                    trimmed_string(value.as_slice()),
                )
            } else {
                FrontmatterLine::NotYaml
            }
        },
    }
}

/// What a line inside a candidate block is.
pub fn classify_frontmatter_line(line: &str) -> (r: FrontmatterLine)
    ensures
        r@ == line_kind(line@),
{
    kind_of_line(chars_of(line).as_slice())
}

/// A value without one pair of quotes around it.
pub open spec fn unquoted(value: Seq<char>) -> Seq<char> {
    let v = trim(value);
    if v.len() >= 2 && ((v[0] == '"' && v.last() == '"') || (v[0] == '\'' && v.last() == '\'')) {
        v.subrange(1, v.len() - 1)
    } else {
        v
    }
}

/// A value without one pair of quotes around it.
pub fn unquote(value: &str) -> (r: String)
    ensures
        r@ == unquoted(value@),
{
    let v = trimmed(chars_of(value).as_slice());
    let n: usize = v.len();
    if n >= 2 && ((v[0] == '"' && v[n - 1] == '"') || (v[0] == '\'' && v[n - 1] == '\'')) {
        string_of(v.as_slice(), 1, n - 1)
    } else {
        let s = string_of(v.as_slice(), 0, n);
        proof {
            assert(s@ =~= v@);
        }
        s
    }
}

/// `s` without leading line feeds and carriage returns.
pub open spec fn skip_newlines(s: Seq<char>) -> Seq<char>
    decreases s.len(),
{
    if s.len() > 0 && (s[0] == '\n' || s[0] == '\r') {
        skip_newlines(s.skip(1))
    } else {
        s
    }
}

/// `s` without leading byte order marks.
pub open spec fn skip_marks(s: Seq<char>) -> Seq<char>
    decreases s.len(),
{
    if s.len() > 0 && s[0] == '\u{feff}' {
        skip_marks(s.skip(1))
    } else {
        s
    }
}

/// The title and the beginning of the body of a block whose lines go on at
/// `i`; `None` where the block is not clearly YAML frontmatter.
pub open spec fn strict_from(s: Seq<char>, i: int, title: Option<Seq<char>>, saw_key: bool) -> Option<
    (Option<Seq<char>>, int),
>
    decreases s.len() - i,
{
    if 0 <= i < s.len() {
        proof {
            lemma_line_end(s, i);
        }
        let j = line_end(s, i);
        let line = s.subrange(i, j);
        if trim(line) == "---"@ || trim(line) == "..."@ {
            if saw_key {
                Some((title, j))
            } else {
                None
            }
        } else {
            match line_kind(line) {
                LineView::Key(k, v) => strict_from(
                    s,
                    j,
                    if k == "title"@ && v.len() > 0 {
                        Some(unquoted(v))
                    } else {
                        title
                    },
                    true,
                ),
                LineView::Other => strict_from(s, j, title, saw_key),
                LineView::NotYaml => None,
            }
        }
    } else {
        None
    }
}

/// The mathematical value of a [`Stripped`].
pub struct StrippedView {
    pub body: Seq<char>,
    pub title: Option<Seq<char>>,
    pub ambiguous: bool,
}

/// Whether a source opens with a `---` line.
pub open spec fn opens_with_dashes(s: Seq<char>) -> bool {
    s.len() > 0 && trim(skip_marks(s.take(line_end(s, 0)))) == "---"@
}

/// A source without its frontmatter: removed only when line 1 is `---`, a
/// closing `---` or `...` line exists, the block holds at least one
/// `key: value` line, and no line in it is prose.
pub open spec fn stripped(s: Seq<char>) -> StrippedView {
    if opens_with_dashes(s) {
        match strict_from(s, line_end(s, 0), None, false) {
            Some((title, j)) => StrippedView {
                body: skip_newlines(s.skip(j)),
                title,
                ambiguous: false,
            },
            None => StrippedView { body: s, title: None, ambiguous: true },
        }
    } else {
        StrippedView { body: s, title: None, ambiguous: false }
    }
}

/// Result of [`strip_yaml_frontmatter`].
#[derive(Debug, PartialEq, Eq)]
pub struct Stripped<'a> {
    /// The document without its frontmatter, or the whole input when nothing
    /// was stripped.
    pub body: &'a str,
    /// `title:` from the frontmatter, when it had one.
    pub title: Option<String>,
    /// The document opens with `---` but the block was left in place because
    /// it is not clearly YAML frontmatter.
    pub ambiguous: bool,
}

impl<'a> View for Stripped<'a> {
    type V = StrippedView;

    open spec fn view(&self) -> StrippedView {
        StrippedView { body: self.body@, title: opt_view(self.title), ambiguous: self.ambiguous }
    }
}

impl<'a> Stripped<'a> {
    /// The whole input, with nothing stripped.
    pub fn untouched(content: &'a str, ambiguous: bool) -> (r: Self)
        ensures
            r@ == (StrippedView { body: content@, title: None, ambiguous }),
    {
        Stripped { body: content, title: None, ambiguous }
    }
}

fn after_marks(cs: &[char]) -> (r: usize)
    ensures
        r <= cs@.len(),
        cs@.skip(r as int) == skip_marks(cs@),
{
    let mut i: usize = 0;
    proof {
        assert(cs@.skip(0) =~= cs@);
    }
    while i < cs.len() && cs[i] == '\u{feff}'
        invariant
            i <= cs@.len(),
            skip_marks(cs@.skip(i as int)) == skip_marks(cs@),
        decreases cs@.len() - i,
    {
        i += 1;
        proof {
            assert(cs@.skip(i - 1).skip(1) =~= cs@.skip(i as int));
        }
    }
    i
}

fn after_newlines(cs: &Vec<char>, from: usize) -> (r: usize)
    requires
        from <= cs@.len(),
    ensures
        from <= r <= cs@.len(),
        cs@.skip(r as int) == skip_newlines(cs@.skip(from as int)),
{
    let mut i: usize = from;
    while i < cs.len() && (cs[i] == '\n' || cs[i] == '\r')
        invariant
            from <= i <= cs@.len(),
            skip_newlines(cs@.skip(i as int)) == skip_newlines(cs@.skip(from as int)),
        decreases cs@.len() - i,
    {
        i += 1;
        proof {
            assert(cs@.skip(i - 1).skip(1) =~= cs@.skip(i as int));
        }
    }
    i
}

/// Strips a leading YAML frontmatter block, strictly.
///
/// Pages are split on dash lines, so frontmatter left in place lands on the
/// tablet as a stray first page. A leading `---` can also be a deliberate page
/// break, so anything that is not clearly frontmatter is returned untouched
/// and flagged `ambiguous`.
pub fn strip_yaml_frontmatter<'a>(content: &'a str) -> (r: Stripped<'a>)
    ensures
        r@ == stripped(content@),
{
    let cs = chars_of(content);
    let ghost s = content@;
    if cs.len() == 0 {
        return Stripped::untouched(content, false);
    }
    let first = find_line_end(&cs, 0);
    let line = sub_vec(cs.as_slice(), 0, first);
    let from = after_marks(line.as_slice());
    let rest = sub_vec(line.as_slice(), from, line.len());
    proof {
        assert(line@ =~= s.take(line_end(s, 0)));
        assert(rest@ =~= skip_marks(line@));
    }
    if !trims_to(rest.as_slice(), "---") {
        return Stripped::untouched(content, false);
    }
    let mut title: Option<String> = None;
    let mut saw_key = false;
    let mut i: usize = first;
    while i < cs.len()
        invariant
            cs@ == s,
            s == content@,
            i <= cs@.len(),
            opens_with_dashes(s),
            strict_from(s, line_end(s, 0), None, false) == strict_from(
                s,
                i as int,
                opt_view(title),
                saw_key,
            ),
        decreases cs@.len() - i,
    {
        let j = find_line_end(&cs, i);
        let line = sub_vec(cs.as_slice(), i, j);
        proof {
            lemma_line_end(s, i as int);
        }
        if trims_to(line.as_slice(), "---") || trims_to(line.as_slice(), "...") {
            if !saw_key {
                return Stripped::untouched(content, true);
            }
            let at = after_newlines(&cs, j);
            let body = content.substring_char(at, cs.len());
            proof {
                assert(body@ =~= s.skip(at as int));
            }
            return Stripped { body, title, ambiguous: false };
        }
        match kind_of_line(line.as_slice()) {
            FrontmatterLine::Key(k, v) => {
                saw_key = true;
                if str_eq(k.as_str(), "title") && v.as_str().unicode_len() > 0 {
                    title = Some(unquote(v.as_str()));
                }
            },
            FrontmatterLine::Other => {},
            FrontmatterLine::NotYaml => return Stripped::untouched(content, true),
        }
        i = j;
    }
    Stripped::untouched(content, true)
}

// ---------------------------------------------------------------------------
// Titles
// ---------------------------------------------------------------------------

/// The title of a line `# Title`.
pub open spec fn h1_of(line: Seq<char>) -> Option<Seq<char>> {
    let t = trim_start(line);
    if starts_with(t, "# "@) && trim(t.skip(2)).len() > 0 {
        Some(trim(t.skip(2)))
    } else {
        None
    }
}

/// The title of the first of the lines that has one.
pub open spec fn first_h1(ls: Seq<Seq<char>>) -> Option<Seq<char>>
    decreases ls.len(),
{
    if ls.len() == 0 {
        None
    } else {
        match first_h1(ls.drop_last()) {
            Some(t) => Some(t),
            None => h1_of(ls.last()),
        }
    }
}

proof fn lemma_first_h1_prefix(ls: Seq<Seq<char>>, k: int)
    requires
        0 <= k <= ls.len(),
        first_h1(ls.take(k)) is Some,
    ensures
        first_h1(ls) == first_h1(ls.take(k)),
    decreases ls.len() - k,
{
    if k < ls.len() {
        assert(ls.take(k + 1).drop_last() =~= ls.take(k));
        lemma_first_h1_prefix(ls, k + 1);
    } else {
        assert(ls.take(k) =~= ls);
    }
}

/// The title of a source, from its first line `# Title`.
pub fn h1_title(content: &str) -> (r: Option<String>)
    ensures
        opt_view(r) == first_h1(lines(content@)),
{
    let cs = chars_of(content);
    let ls = lines_of(cs.as_slice());
    let ghost all = lines(content@);
    let mut i: usize = 0;
    while i < ls.len()
        invariant
            all == views(ls@),
            all == lines(content@),
            i <= ls@.len(),
            first_h1(all.take(i as int)) is None,
        decreases ls@.len() - i,
    {
        let line = &ls[i];
        proof {
            assert(all.take(i + 1).drop_last() =~= all.take(i as int));
            assert(all.take(i + 1).last() == line@);
            reveal_strlit("# ");
        }
        let at = start_of_text(line.as_slice());
        let t = sub_vec(line.as_slice(), at, line.len());
        proof {
            assert(t@ =~= trim_start(line@));
        }
        if has_prefix(t.as_slice(), "# ") {
            let rest = sub_vec(t.as_slice(), 2, t.len());
            proof {
                assert(rest@ =~= t@.skip(2));
            }
            let title = trimmed_string(rest.as_slice());
            if title.as_str().unicode_len() > 0 {
                proof {
                    lemma_first_h1_prefix(all, i + 1);
                }
                return Some(title);
            }
        }
        i += 1;
    }
    proof {
        assert(all.take(i as int) =~= all);
    }
    None
}

/// `o`, or a fallback.
pub open spec fn or_else(o: Option<Seq<char>>, fallback: Seq<char>) -> Seq<char> {
    match o {
        Some(t) => t,
        None => fallback,
    }
}

/// The title of a source, or a fallback.
pub fn extract_h1_title(content: &str, fallback: &str) -> (r: String)
    ensures
        r@ == or_else(first_h1(lines(content@)), fallback@),
{
    match h1_title(content) {
        Some(t) => t,
        None => fallback.to_owned(),
    }
}

// ---------------------------------------------------------------------------
// Documents
// ---------------------------------------------------------------------------

/// A Markdown source bundled with its resolved title and frontmatter.
#[derive(Debug)]
pub struct Document {
    pub title: String,
    pub body_markdown: String,
    pub metadata: Metadata,
}

/// The title of a document: that of its frontmatter, else its first heading,
/// else a fallback.
pub open spec fn document_title(
    meta: Map<Seq<char>, Seq<char>>,
    body: Seq<char>,
    fallback: Seq<char>,
) -> Seq<char> {
    if meta.contains_key("title"@) {
        meta["title"@]
    } else {
        or_else(first_h1(lines(body)), fallback)
    }
}

impl Document {
    /// The document that a source holds.
    pub fn from_string(content: String, fallback_title: &str) -> (r: Self)
        ensures
            r.metadata.wf(),
            (r.metadata@, r.body_markdown@) == frontmatter(content@),
            r.title@ == document_title(r.metadata@, r.body_markdown@, fallback_title@),
    {
        let (metadata, body) = parse_frontmatter(content.as_str());
        let title = match metadata.get("title") {
            Some(t) => t.clone(),
            None => extract_h1_title(body.as_str(), fallback_title),
        };
        Document { title, body_markdown: body, metadata }
    }

    /// Renders to an XHTML fragment and the collected image assets. `found`
    /// holds what was found for each piece of the body.
    pub fn render(&self, found: &Vec<Option<Embedded>>) -> (r: Rendered)
        ensures
            r@ == rendering(
                self.body_markdown@,
                pieces(md_events(self.body_markdown@, RENDERED)),
                found_views(found@),
            ),
    {
        render_markdown(self.body_markdown.as_str(), found)
    }

    /// Renders and discards any assets.
    pub fn to_xhtml_fragment(&self, found: &Vec<Option<Embedded>>) -> (r: String)
        ensures
            r@ == rendering(
                self.body_markdown@,
                pieces(md_events(self.body_markdown@, RENDERED)),
                found_views(found@),
            ).xhtml,
    {
        self.render(found).xhtml
    }
}

// ---------------------------------------------------------------------------
// Laws
// ---------------------------------------------------------------------------

/// Stripping never changes what it leaves: without a clear block the whole
/// source comes back, and otherwise an end of it.
pub proof fn law_strip_keeps_the_body(s: Seq<char>)
    ensures
        stripped(s).ambiguous ==> stripped(s).body == s && stripped(s).title is None
            && opens_with_dashes(s),
        !opens_with_dashes(s) ==> stripped(s).body == s && !stripped(s).ambiguous,
        exists|k: int| 0 <= k <= s.len() && stripped(s).body == #[trigger] s.skip(k),
{
    assert(s.skip(0) =~= s);
    if opens_with_dashes(s) {
        lemma_line_end(s, 0);
        lemma_strict_end(s, line_end(s, 0), None, false);
        match strict_from(s, line_end(s, 0), None, false) {
            Some((title, j)) => {
                let k = lemma_skip_newlines(s, j);
                assert(stripped(s).body == s.skip(k));
            },
            None => {},
        }
    }
}

proof fn lemma_strict_end(s: Seq<char>, i: int, title: Option<Seq<char>>, saw_key: bool)
    requires
        0 <= i <= s.len(),
    ensures
        strict_from(s, i, title, saw_key) matches Some(x) ==> i <= x.1 <= s.len(),
    decreases s.len() - i,
{
    if i < s.len() {
        lemma_line_end(s, i);
        let j = line_end(s, i);
        match line_kind(s.subrange(i, j)) {
            LineView::Key(k, v) => {
                lemma_strict_end(s, j, Some(unquoted(v)), true);
                lemma_strict_end(s, j, title, true);
            },
            LineView::Other => lemma_strict_end(s, j, title, saw_key),
            LineView::NotYaml => {},
        }
    }
}

proof fn lemma_skip_newlines(s: Seq<char>, j: int) -> (k: int)
    requires
        0 <= j <= s.len(),
    ensures
        j <= k <= s.len(),
        skip_newlines(s.skip(j)) == s.skip(k),
    decreases s.len() - j,
{
    let t = s.skip(j);
    if t.len() > 0 && (t[0] == '\n' || t[0] == '\r') {
        assert(t.skip(1) =~= s.skip(j + 1));
        lemma_skip_newlines(s, j + 1)
    } else {
        j
    }
}

/// Frontmatter is removed only from a source that opens with `---`; the body
/// is then an end of the source, and otherwise the whole of it, without pairs.
pub proof fn law_frontmatter_keeps_the_body(s: Seq<char>)
    ensures
        exists|k: int| 0 <= k <= s.len() && frontmatter(s).1 == #[trigger] s.skip(k),
        frontmatter(s).1.len() == s.len() ==> frontmatter(s).0 == Map::<
            Seq<char>,
            Seq<char>,
        >::empty(),
{
    assert(s.skip(0) =~= s);
    if s.len() > 0 {
        lemma_line_end(s, 0);
        lemma_block_end(s, line_end(s, 0), Map::empty());
        match block_from(s, line_end(s, 0), Map::empty()) {
            Some((m, j)) => {
                assert(s.skip(j).len() == s.len() - j);
            },
            None => {},
        }
    }
}

proof fn lemma_block_end(s: Seq<char>, i: int, m: Map<Seq<char>, Seq<char>>)
    requires
        0 <= i <= s.len(),
    ensures
        block_from(s, i, m) matches Some(x) ==> i < x.1 <= s.len(),
    decreases s.len() - i,
{
    if i < s.len() {
        lemma_line_end(s, i);
        lemma_block_end(s, line_end(s, i), with_line(m, s.subrange(i, line_end(s, i))));
    }
}

} // verus!
