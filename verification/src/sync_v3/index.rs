//! Index blobs: their text, their hashes, and the rewrite of the root index.

use vstd::prelude::*;
use vstd::utf8::*;

use crate::codec::{hex_bytes, hex_decode, hex_error, is_hex_text, sha256_hex, sha256_hex_text};
use crate::error::{joined, res_view, Error, ErrorView, Result};
use crate::order::{arranged, order_of, positions, stable_order};
use crate::text::{
    blank, bytes_of, chars_of, debug_text, decimal, is_blank, lemma_views_push, lines, lines_of,
    opt_view, parse_unsigned, push_decimal, split, split_chars, str_debug, str_eq, string_of, trim,
    trimmed, unsigned_value, utf8_error, utf8_text, views,
};

verus! {

/// Index schema identifiers used by the cloud.
#[derive(Debug, Clone, Copy, PartialEq, Eq, Structural)]
pub enum Schema {
    V3,
    V4,
}

impl Schema {
    /// The schema line of an index.
    pub open spec fn text(self) -> Seq<char> {
        match self {
            Schema::V3 => "3"@,
            Schema::V4 => "4"@,
        }
    }

    pub fn as_str(self) -> (r: &'static str)
        ensures
            r@ == self.text(),
    {
        match self {
            Schema::V3 => "3",
            Schema::V4 => "4",
        }
    }

    /// Reads a schema line; white space around it does not matter.
    pub fn from_str(s: &str) -> (r: Result<Self>)
        ensures
            match r {
                Ok(x) => schema_of(s@) == Some(x),
                Err(e) => schema_of(s@) is None && e@ == unknown_schema(s@),
            },
    {
        let cs = chars_of(s);
        let t = trimmed(cs.as_slice());
        let name = string_of(t.as_slice(), 0, t.len());
        proof {
            assert(name@ =~= trim(s@));
            reveal_strlit("3");
            reveal_strlit("4");
        }
        if str_eq(name.as_str(), "3") {
            Ok(Schema::V3)
        } else if str_eq(name.as_str(), "4") {
            Ok(Schema::V4)
        } else {
            Err(Error::InvalidResponse(
                joined("unknown index schema ", debug_text(name.as_str()).as_str()),
            ))
        }
    }
}

/// The schema that a schema line names.
pub open spec fn schema_of(line: Seq<char>) -> Option<Schema> {
    if trim(line) == "3"@ {
        Some(Schema::V3)
    } else if trim(line) == "4"@ {
        Some(Schema::V4)
    } else {
        None
    }
}

/// The error for a schema line that names no known schema.
pub open spec fn unknown_schema(line: Seq<char>) -> ErrorView {
    ErrorView::InvalidResponse("unknown index schema "@ + str_debug(trim(line)))
}

/// One line of an index blob: a child hash plus the name it is stored under.
/// For doc-indexes `id` is the file name (e.g. `<doc>.metadata`); for the root
/// index it is the document id.
#[derive(Debug)]
pub struct IndexEntry {
    pub hash: String,
    pub id: String,
    pub subfiles: u32,
    pub size: u64,
    /// The exact line the server sent for this entry. Set only by
    /// `parse_index`; `serialize_index` re-emits it byte for byte, so
    /// rewriting an index never reinterprets an entry created elsewhere.
    /// `None` for entries built locally.
    pub raw: Option<String>,
}

/// The mathematical value of an [`IndexEntry`].
pub struct EntryView {
    pub hash: Seq<char>,
    pub id: Seq<char>,
    pub subfiles: u32,
    pub size: u64,
    pub raw: Option<Seq<char>>,
}

impl View for IndexEntry {
    type V = EntryView;

    open spec fn view(&self) -> EntryView {
        EntryView {
            hash: self.hash@,
            id: self.id@,
            subfiles: self.subfiles,
            size: self.size,
            raw: opt_view(self.raw),
        }
    }
}

impl Clone for IndexEntry {
    fn clone(&self) -> (r: Self)
        ensures
            r@ == self@,
    {
        IndexEntry {
            hash: self.hash.clone(),
            id: self.id.clone(),
            subfiles: self.subfiles,
            size: self.size,
            raw: match &self.raw {
                Some(s) => Some(s.clone()),
                None => None,
            },
        }
    }
}

/// Copies a list of entries.
pub(crate) fn copy_entries(entries: &[IndexEntry]) -> (r: Vec<IndexEntry>)
    ensures
        views(r@) == views(entries@),
{
    let mut out: Vec<IndexEntry> = Vec::new();
    let mut i: usize = 0;
    while i < entries.len()
        invariant
            i <= entries@.len(),
            views(out@) == views(entries@.take(i as int)),
        decreases entries@.len() - i,
    {
        let e = entries[i].clone();
        proof {
            lemma_views_push(out@, e);
            lemma_views_push(entries@.take(i as int), entries@[i as int]);
            assert(entries@.take(i + 1) =~= entries@.take(i as int).push(entries@[i as int]));
        }
        out.push(e);
        i += 1;
    }
    proof {
        assert(entries@.take(i as int) =~= entries@);
    }
    out
}

// ---------------------------------------------------------------------------
// Reading an index
// ---------------------------------------------------------------------------

/// The lines of `ls` that hold something besides white space, in order.
pub open spec fn filled(ls: Seq<Seq<char>>) -> Seq<Seq<char>>
    decreases ls.len(),
{
    if ls.len() == 0 {
        Seq::empty()
    } else if is_blank(ls.last()) {
        filled(ls.drop_last())
    } else {
        filled(ls.drop_last()).push(ls.last())
    }
}

/// Whether `line` is a totals row: four fields, the first of them `0`.
pub open spec fn totals_row(line: Seq<char>) -> bool {
    split(line, ':').len() == 4 && split(line, ':')[0] == "0"@
}

/// The number of lines before the first entry line: the schema line, and the
/// totals row of a v4 index.
pub open spec fn header_lines(schema: Schema, ls: Seq<Seq<char>>) -> int {
    if schema == Schema::V4 && ls.len() > 1 && totals_row(ls[1]) {
        2
    } else {
        1
    }
}

/// The entry that one `<hash>:<type>:<id>:<subfiles>:<size>` line holds.
pub open spec fn entry_of(line: Seq<char>) -> Option<EntryView> {
    let p = split(line, ':');
    let subfiles = unsigned_value(p[3], u32::MAX as nat);
    let size = unsigned_value(p[4], u64::MAX as nat);
    if p.len() == 5 && p[0].len() > 0 && p[2].len() > 0 && subfiles is Some && size is Some {
        Some(
            EntryView {
                hash: p[0],
                id: p[2],
                subfiles: subfiles->0 as u32,
                size: size->0 as u64,
                raw: Some(line),
            },
        )
    } else {
        None
    }
}

/// The entries that the lines hold, or the first line that holds none.
pub open spec fn entries_of(ls: Seq<Seq<char>>) -> core::result::Result<
    Seq<EntryView>,
    Seq<char>,
>
    decreases ls.len(),
{
    if ls.len() == 0 {
        Ok(Seq::empty())
    } else {
        match entries_of(ls.drop_last()) {
            Err(l) => Err(l),
            Ok(es) => match entry_of(ls.last()) {
                Some(e) => Ok(es.push(e)),
                None => Err(ls.last()),
            },
        }
    }
}

/// The error for a line that is not an entry.
pub open spec fn bad_line(line: Seq<char>) -> ErrorView {
    ErrorView::InvalidResponse(
        "index line is not <hash>:<type>:<id>:<subfiles>:<size>; refusing to continue: "@
            + str_debug(line),
    )
}

/// What the text of an index holds, given its non-blank lines.
pub open spec fn index_of_lines(ls: Seq<Seq<char>>) -> core::result::Result<
    (Schema, Seq<EntryView>),
    ErrorView,
> {
    if ls.len() == 0 {
        Err(ErrorView::InvalidResponse("empty index blob"@))
    } else {
        match schema_of(ls[0]) {
            None => Err(unknown_schema(ls[0])),
            Some(schema) => match entries_of(ls.skip(header_lines(schema, ls))) {
                Err(l) => Err(bad_line(l)),
                Ok(es) => Ok((schema, es)),
            },
        }
    }
}

/// What an index blob holds: its schema and its entries in the order of their
/// lines, or the error that stops the reading.
pub open spec fn parsed_index(body: Seq<u8>) -> core::result::Result<
    (Schema, Seq<EntryView>),
    ErrorView,
> {
    if !valid_utf8(body) {
        Err(ErrorView::InvalidResponse("index blob is not utf-8: "@ + utf8_error(body)))
    } else {
        index_of_lines(filled(lines(decode_utf8(body))))
    }
}

/// Keeps the lines that hold something besides white space.
pub(crate) fn filled_lines(ls: Vec<Vec<char>>) -> (r: Vec<Vec<char>>)
    ensures
        views(r@) == filled(views(ls@)),
{
    let mut out: Vec<Vec<char>> = Vec::new();
    let ghost all = views(ls@);
    let mut i: usize = 0;
    proof {
        assert(views(out@) =~= filled(all.take(0)));
    }
    while i < ls.len()
        invariant
            all == views(ls@),
            i <= ls@.len(),
            views(out@) == filled(all.take(i as int)),
        decreases ls@.len() - i,
    {
        proof {
            assert(all.take(i + 1).drop_last() =~= all.take(i as int));
            assert(all[i as int] == ls@[i as int]@);
        }
        if !blank(ls[i].as_slice()) {
            let line = crate::text::sub_vec(ls[i].as_slice(), 0, ls[i].len());
            proof {
                assert(line@ =~= ls@[i as int]@);
                lemma_views_push(out@, line);
            }
            out.push(line);
        }
        i += 1;
    }
    proof {
        assert(all.take(i as int) =~= all);
    }
    out
}

/// Whether `line` is a totals row.
pub(crate) fn row_is_totals(line: &[char]) -> (r: bool)
    ensures
        r == totals_row(line@),
{
    let parts = split_chars(line, ':');
    proof {
        assert(views(parts@).len() == parts@.len());
        assert(views(parts@)[0] == parts@[0]@);
        reveal_strlit("0");
    }
    if parts.len() != 4 {
        return false;
    }
    let r = parts[0].len() == 1 && parts[0][0] == '0';
    proof {
        if r {
            assert(parts@[0]@ =~= "0"@);
        }
    }
    r
}

/// Whether `line` is a v4 totals row: four colon-separated fields of which the
/// first is `0`.
pub fn is_totals_row(line: &str) -> (r: bool)
    ensures
        r == totals_row(line@),
{
    let cs = chars_of(line);
    row_is_totals(cs.as_slice())
}

/// The error for a line that is not an entry.
pub fn bad_index_line(line: &str) -> (r: Error)
    ensures
        r@ == bad_line(line@),
{
    Error::InvalidResponse(
        joined(
            "index line is not <hash>:<type>:<id>:<subfiles>:<size>; refusing to continue: ",
            debug_text(line).as_str(),
        ),
    )
}

/// Parses one `<hash>:<type>:<id>:<subfiles>:<size>` line, failing closed.
///
/// The root index is rewritten from whatever `parse_index` returns, so a line
/// that cannot be read in full has to stop the operation. Skipping it would
/// drop that document from the account-wide index on the next push, and paired
/// devices act on the index.
pub fn parse_entry_line(line: &str) -> (r: Result<IndexEntry>)
    ensures
        match r {
            Ok(e) => entry_of(line@) == Some(e@),
            Err(e) => entry_of(line@) is None && e@ == bad_line(line@),
        },
{
    let cs = chars_of(line);
    let parts = split_chars(cs.as_slice(), ':');
    let ghost p = split(line@, ':');
    proof {
        assert(p == views(parts@));
        assert(forall|i: int| 0 <= i < parts@.len() ==> #[trigger] p[i] == parts@[i]@);
    }
    if parts.len() != 5 || parts[0].len() == 0 || parts[2].len() == 0 {
        return Err(bad_index_line(line));
    }
    let subfiles: u32 = match parse_unsigned(parts[3].as_slice(), u32::MAX as u64) {
        Some(v) => v as u32,
        None => return Err(bad_index_line(line)),
    };
    let size: u64 = match parse_unsigned(parts[4].as_slice(), u64::MAX) {
        Some(v) => v,
        None => return Err(bad_index_line(line)),
    };
    let hash = string_of(parts[0].as_slice(), 0, parts[0].len());
    let id = string_of(parts[2].as_slice(), 0, parts[2].len());
    proof {
        assert(hash@ =~= p[0]);
        assert(id@ =~= p[2]);
    }
    Ok(IndexEntry { hash, id, subfiles, size, raw: Some(line.to_owned()) })
}

/// Parses a root or doc-index blob body. Format:
/// - line 1: schema id (`3` or `4`);
/// - v4 only: optional totals line `0:<label>:<count>:<totalSize>`;
/// - each further line: `<hash>:<type>:<id>:<subfiles>:<size>`.
///
/// Blank lines do not count.
pub fn parse_index(body: &[u8]) -> (r: Result<(Schema, Vec<IndexEntry>)>)
    ensures
        match r {
            Ok(x) => parsed_index(body@) == Ok::<_, ErrorView>((x.0, views(x.1@))),
            Err(e) => parsed_index(body@) == Err::<(Schema, Seq<EntryView>), _>(e@),
        },
{
    let text = match utf8_text(body) {
        Ok(t) => t,
        Err(m) => return Err(Error::InvalidResponse(joined("index blob is not utf-8: ", m.as_str()))),
    };
    let cs = chars_of(text.as_str());
    let ls = filled_lines(lines_of(cs.as_slice()));
    let ghost all = filled(lines(decode_utf8(body@)));
    proof {
        assert(views(ls@) == all);
        assert(forall|i: int| 0 <= i < ls@.len() ==> #[trigger] all[i] == ls@[i]@);
    }
    if ls.len() == 0 {
        return Err(Error::InvalidResponse("empty index blob".to_owned()));
    }
    let schema_line = string_of(ls[0].as_slice(), 0, ls[0].len());
    proof {
        assert(schema_line@ =~= all[0]);
    }
    let schema = match Schema::from_str(schema_line.as_str()) {
        Ok(s) => s,
        Err(e) => return Err(e),
    };
    let start: usize = if schema == Schema::V4 && ls.len() > 1 && row_is_totals(ls[1].as_slice()) {
        2
    } else {
        1
    };
    let ghost rest = all.skip(start as int);
    let mut entries: Vec<IndexEntry> = Vec::new();
    let mut i: usize = start;
    proof {
        assert(rest.take(0) =~= Seq::<Seq<char>>::empty());
        assert(views(entries@) =~= Seq::<EntryView>::empty());
    }
    while i < ls.len()
        invariant
            start <= i <= ls@.len(),
            all == views(ls@),
            rest == all.skip(start as int),
            forall|k: int| 0 <= k < ls@.len() ==> #[trigger] all[k] == ls@[k]@,
            entries_of(rest.take(i - start)) == Ok::<_, Seq<char>>(views(entries@)),
            valid_utf8(body@),
            all == filled(lines(decode_utf8(body@))),
            all.len() > 0,
            schema_of(all[0]) == Some(schema),
            start == header_lines(schema, all),
        decreases ls@.len() - i,
    {
        let line = string_of(ls[i].as_slice(), 0, ls[i].len());
        let ghost k = i - start;
        proof {
            assert(line@ =~= all[i as int]);
            assert(rest[k] == all[i as int]);
            assert(rest.take(k + 1).drop_last() =~= rest.take(k));
        }
        match parse_entry_line(line.as_str()) {
            Ok(e) => {
                proof {
                    lemma_views_push(entries@, e);
                }
                entries.push(e);
            },
            Err(e) => {
                proof {
                    lemma_first_bad(rest, k + 1);
                }
                return Err(e);
            },
        }
        i += 1;
    }
    proof {
        assert(rest.take(i - start) =~= rest);
    }
    Ok((schema, entries))
}

/// A line that stops the reading of the first lines stops the reading of all.
proof fn lemma_first_bad(ls: Seq<Seq<char>>, k: int)
    requires
        0 <= k <= ls.len(),
        entries_of(ls.take(k)) is Err,
    ensures
        entries_of(ls) == entries_of(ls.take(k)),
    decreases ls.len() - k,
{
    if k < ls.len() {
        assert(ls.take(k + 1).drop_last() =~= ls.take(k));
        lemma_first_bad(ls, k + 1);
    } else {
        assert(ls.take(k) =~= ls);
    }
}

// ---------------------------------------------------------------------------
// Writing an index
// ---------------------------------------------------------------------------

/// The ids of the entries, in order.
pub open spec fn ids(es: Seq<EntryView>) -> Seq<Seq<char>> {
    Seq::new(es.len(), |i: int| es[i].id)
}

/// The entries in ascending order of id; entries with one id keep their order.
pub open spec fn by_id(es: Seq<EntryView>) -> Seq<EntryView> {
    arranged(es, stable_order(ids(es)))
}

/// The type field of an entry written locally: `80000000` in a v3 root index
/// and `0` everywhere else.
pub open spec fn type_field(schema: Schema, is_root: bool) -> Seq<char> {
    if schema == Schema::V3 && is_root {
        "80000000"@
    } else {
        "0"@
    }
}

/// The line of an entry: the one the server sent, if it came from there.
pub open spec fn entry_line(e: EntryView, kind: Seq<char>) -> Seq<char> {
    match e.raw {
        Some(line) => line,
        None => e.hash + ":"@ + kind + ":"@ + e.id + ":"@ + decimal(e.subfiles as nat) + ":"@
            + decimal(e.size as nat),
    }
}

/// The lines of the entries, each with its line feed.
pub open spec fn entry_lines(es: Seq<EntryView>, kind: Seq<char>) -> Seq<char>
    decreases es.len(),
{
    if es.len() == 0 {
        Seq::empty()
    } else {
        entry_lines(es.drop_last(), kind) + entry_line(es.last(), kind) + "\n"@
    }
}

/// The sum of the entries' sizes.
pub open spec fn total_size(es: Seq<EntryView>) -> nat
    decreases es.len(),
{
    if es.len() == 0 {
        0
    } else {
        total_size(es.drop_last()) + es.last().size as nat
    }
}

/// The totals row of a v4 index.
pub open spec fn totals_line(label: Seq<char>, count: nat, total: nat) -> Seq<char> {
    "0:"@ + label + ":"@ + decimal(count) + ":"@ + decimal(total)
}

/// Whether an index with this label holds a totals row.
pub open spec fn has_totals(schema: Schema, label: Seq<char>) -> bool {
    schema == Schema::V4 && label.len() > 0
}

/// What stands before the entry lines of an index.
pub open spec fn index_header(schema: Schema, label: Seq<char>, es: Seq<EntryView>) -> Seq<char> {
    if has_totals(schema, label) {
        schema.text() + "\n"@ + totals_line(label, es.len(), total_size(es)) + "\n"@
    } else {
        schema.text() + "\n"@
    }
}

/// The text of an index.
pub open spec fn index_text(
    schema: Schema,
    label: Seq<char>,
    es: Seq<EntryView>,
    is_root: bool,
) -> Seq<char> {
    index_header(schema, label, es) + entry_lines(by_id(es), type_field(schema, is_root))
}

/// The bytes that a v3 hash digests: the decoded child hashes in order, or the
/// first child hash that is not hexadecimal.
pub open spec fn child_bytes(es: Seq<EntryView>) -> core::result::Result<Seq<u8>, Seq<char>>
    decreases es.len(),
{
    if es.len() == 0 {
        Ok(Seq::empty())
    } else {
        match child_bytes(es.drop_last()) {
            Err(h) => Err(h),
            Ok(b) => if is_hex_text(es.last().hash) {
                Ok(b + hex_bytes(es.last().hash))
            } else {
                Err(es.last().hash)
            },
        }
    }
}

/// The error for a child hash that is not hexadecimal.
pub open spec fn bad_child_hash(h: Seq<char>) -> ErrorView {
    ErrorView::InvalidResponse("bad child hash "@ + str_debug(h) + ": "@ + hex_error(h))
}

/// The hash under which an index goes into its parent.
pub open spec fn index_hash(
    schema: Schema,
    es: Seq<EntryView>,
    body: Seq<u8>,
) -> core::result::Result<Seq<char>, ErrorView> {
    match schema {
        Schema::V4 => Ok(sha256_hex_text(body)),
        Schema::V3 => match child_bytes(by_id(es)) {
            Ok(b) => Ok(sha256_hex_text(b)),
            Err(h) => Err(bad_child_hash(h)),
        },
    }
}

/// The order in which the entries go into an index.
fn entry_order(entries: &[IndexEntry]) -> (r: Vec<usize>)
    ensures
        positions(r@) == stable_order(ids(views(entries@))),
        r@.len() == entries@.len(),
        forall|i: int| 0 <= i < r@.len() ==> #[trigger] r@[i] < entries@.len(),
{
    let mut keys: Vec<Vec<char>> = Vec::new();
    let ghost want = ids(views(entries@));
    let mut i: usize = 0;
    while i < entries.len()
        invariant
            i <= entries@.len(),
            want == ids(views(entries@)),
            views(keys@) == want.take(i as int),
        decreases entries@.len() - i,
    {
        let key = chars_of(entries[i].id.as_str());
        proof {
            lemma_views_push(keys@, key);
            assert(want.take(i + 1) =~= want.take(i as int).push(want[i as int]));
        }
        keys.push(key);
        i += 1;
    }
    proof {
        assert(want.take(i as int) =~= want);
        assert(views(keys@).len() == keys@.len());
    }
    order_of(&keys)
}

/// The sum of the entries' sizes, or `None` where it does not fit.
pub fn sum_sizes(entries: &[IndexEntry]) -> (r: Option<u64>)
    ensures
        match r {
            Some(t) => t == total_size(views(entries@)),
            None => total_size(views(entries@)) > u64::MAX,
        },
{
    let ghost es = views(entries@);
    let mut t: u64 = 0;
    let mut i: usize = 0;
    while i < entries.len()
        invariant
            es == views(entries@),
            i <= entries@.len(),
            t == total_size(es.take(i as int)),
        decreases entries@.len() - i,
    {
        proof {
            assert(es.take(i + 1).drop_last() =~= es.take(i as int));
            assert(es.take(i + 1).last() == entries@[i as int]@);
        }
        if entries[i].size > u64::MAX - t {
            proof {
                lemma_total_prefix(es, i + 1);
            }
            return None;
        }
        t = t + entries[i].size;
        i += 1;
    }
    proof {
        assert(es.take(i as int) =~= es);
    }
    Some(t)
}

proof fn lemma_total_prefix(es: Seq<EntryView>, k: int)
    requires
        0 <= k <= es.len(),
    ensures
        total_size(es.take(k)) <= total_size(es),
    decreases es.len() - k,
{
    if k < es.len() {
        assert(es.take(k + 1).drop_last() =~= es.take(k));
        lemma_total_prefix(es, k + 1);
    } else {
        assert(es.take(k) =~= es);
    }
}

/// Appends the line of an entry, without its line feed.
fn push_entry_line(out: &mut String, e: &IndexEntry, kind: &str)
    ensures
        final(out)@ == old(out)@ + entry_line(e@, kind@),
{
    match &e.raw {
        Some(line) => out.push_str(line.as_str()),
        None => {
            let mut line = e.hash.clone();
            line.push_str(":");
            line.push_str(kind);
            line.push_str(":");
            line.push_str(e.id.as_str());
            line.push_str(":");
            push_decimal(&mut line, e.subfiles as u64);
            line.push_str(":");
            push_decimal(&mut line, e.size);
            out.push_str(line.as_str());
        },
    }
}

/// Serializes an index blob. `label` is the document id for doc-indexes or
/// `"."` for the root. `is_root` controls the type field of the entries built
/// locally; entries that came from the server go back out exactly as they
/// arrived.
pub fn serialize_index(
    schema: Schema,
    label: &str,
    entries: &[IndexEntry],
    is_root: bool,
) -> (r: Vec<u8>)
    requires
        has_totals(schema, label@) ==> total_size(views(entries@)) <= u64::MAX,
    ensures
        r@ == encode_utf8(index_text(schema, label@, views(entries@), is_root)),
{
    let ghost es = views(entries@);
    let order = entry_order(entries);
    let mut out = schema.as_str().to_owned();
    out.push_str("\n");
    let labelled = label.unicode_len() > 0;
    if schema == Schema::V4 && labelled {
        let mut row = "0:".to_owned();
        row.push_str(label);
        row.push_str(":");
        push_decimal(&mut row, entries.len() as u64);
        row.push_str(":");
        let total: u64 = match sum_sizes(entries) {
            Some(t) => t,
            None => 0,
        };
        push_decimal(&mut row, total);
        out.push_str(row.as_str());
        out.push_str("\n");
    }
    let kind = if schema == Schema::V3 && is_root {
        "80000000"
    } else {
        "0"
    };
    let ghost head = out@;
    let ghost sorted = by_id(es);
    let mut i: usize = 0;
    proof {
        assert(head + entry_lines(sorted.take(0), kind@) =~= head);
    }
    while i < order.len()
        invariant
            es == views(entries@),
            sorted == by_id(es),
            positions(order@) == stable_order(ids(es)),
            forall|k: int| 0 <= k < order@.len() ==> #[trigger] order@[k] < entries@.len(),
            order@.len() == sorted.len(),
            i <= order@.len(),
            out@ == head + entry_lines(sorted.take(i as int), kind@),
        decreases order@.len() - i,
    {
        let e = &entries[order[i]];
        let ghost before = out@;
        push_entry_line(&mut out, e, kind);
        out.push_str("\n");
        proof {
            assert(positions(order@)[i as int] == order@[i as int]);
            assert(sorted[i as int] == e@);
            let t = sorted.take(i + 1);
            assert(t.drop_last() =~= sorted.take(i as int));
            assert(t.last() == e@);
            assert(before + entry_line(e@, kind@) + "\n"@ =~= head + (entry_lines(
                sorted.take(i as int),
                kind@,
            ) + entry_line(e@, kind@) + "\n"@));
        }
        i += 1;
    }
    proof {
        assert(sorted.take(i as int) =~= sorted);
        assert(head =~= index_header(schema, label@, es));
    }
    bytes_of(out.as_str())
}

/// Computes the hash that goes into a parent (root pointer or parent entry).
///
/// - v4: SHA-256 over the serialized blob bytes.
/// - v3: SHA-256 over the concatenation of the binary-decoded child hashes,
///   ordered by id.
pub fn hash_index(schema: Schema, entries: &[IndexEntry], body: &[u8]) -> (r: Result<String>)
    ensures
        res_view(r) == index_hash(schema, views(entries@), body@),
        r matches Ok(h) ==> h@.len() == 64 && is_hex_text(h@),
{
    match schema {
        Schema::V4 => Ok(sha256_hex(body)),
        Schema::V3 => {
            let ghost es = views(entries@);
            let order = entry_order(entries);
            let ghost sorted = by_id(es);
            let mut buf: Vec<u8> = Vec::new();
            let mut i: usize = 0;
            while i < order.len()
                invariant
                    es == views(entries@),
                    sorted == by_id(es),
                    positions(order@) == stable_order(ids(es)),
                    forall|k: int| 0 <= k < order@.len() ==> #[trigger] order@[k] < entries@.len(),
                    order@.len() == sorted.len(),
                    i <= order@.len(),
                    child_bytes(sorted.take(i as int)) == Ok::<_, Seq<char>>(buf@),
                    schema == Schema::V3,
                decreases order@.len() - i,
            {
                let e = &entries[order[i]];
                proof {
                    assert(positions(order@)[i as int] == order@[i as int]);
                    assert(sorted[i as int] == e@);
                    let t = sorted.take(i + 1);
                    assert(t.drop_last() =~= sorted.take(i as int));
                    assert(t.last() == e@);
                }
                match hex_decode(e.hash.as_str()) {
                    Ok(mut b) => {
                        buf.append(&mut b);
                    },
                    Err(m) => {
                        let mut msg = "bad child hash ".to_owned();
                        msg.push_str(debug_text(e.hash.as_str()).as_str());
                        msg.push_str(": ");
                        msg.push_str(m.as_str());
                        proof {
                            lemma_first_bad_hash(sorted, i + 1);
                        }
                        return Err(Error::InvalidResponse(msg));
                    },
                }
                i += 1;
            }
            proof {
                assert(sorted.take(i as int) =~= sorted);
            }
            Ok(sha256_hex(buf.as_slice()))
        },
    }
}

proof fn lemma_first_bad_hash(es: Seq<EntryView>, k: int)
    requires
        0 <= k <= es.len(),
        child_bytes(es.take(k)) is Err,
    ensures
        child_bytes(es) == child_bytes(es.take(k)),
    decreases es.len() - k,
{
    if k < es.len() {
        assert(es.take(k + 1).drop_last() =~= es.take(k));
        lemma_first_bad_hash(es, k + 1);
    } else {
        assert(es.take(k) =~= es);
    }
}

// ---------------------------------------------------------------------------
// Rewriting the root
// ---------------------------------------------------------------------------

/// The root pointer and the index it names, as the server returned them.
#[derive(Debug)]
pub struct RootState {
    pub schema: Schema,
    pub root_hash: String,
    pub generation: i64,
    pub entries: Vec<IndexEntry>,
    /// The root index blob exactly as the server returned it. Kept so a dry
    /// run can diff the rewritten index against the real one.
    pub body: String,
}

/// The position of the first entry with this id.
pub open spec fn first_with(es: Seq<EntryView>, id: Seq<char>) -> Option<int>
    decreases es.len(),
{
    if es.len() == 0 {
        None
    } else {
        match first_with(es.drop_last(), id) {
            Some(i) => Some(i),
            None => if es.last().id == id {
                Some(es.len() - 1)
            } else {
                None
            },
        }
    }
}

/// `es` with `e` in the place of the first entry with its id, or behind all
/// others where no entry has it.
pub open spec fn with_entry(es: Seq<EntryView>, e: EntryView) -> Seq<EntryView> {
    match first_with(es, e.id) {
        Some(i) => es.update(i, e),
        None => es.push(e),
    }
}

/// What [`first_with`] finds.
pub proof fn lemma_first_with(es: Seq<EntryView>, id: Seq<char>)
    ensures
        match first_with(es, id) {
            Some(i) => 0 <= i < es.len() && es[i].id == id && forall|k: int|
                0 <= k < i ==> #[trigger] es[k].id != id,
            None => forall|k: int| 0 <= k < es.len() ==> #[trigger] es[k].id != id,
        },
    decreases es.len(),
{
    if es.len() > 0 {
        let d = es.drop_last();
        lemma_first_with(d, id);
        assert forall|k: int| 0 <= k < d.len() implies #[trigger] es[k] == d[k] by {}
    }
}

/// The position of the first entry with this id.
pub(crate) fn position_of(entries: &[IndexEntry], id: &str) -> (r: Option<usize>)
    ensures
        match r {
            Some(i) => i < entries@.len() && first_with(views(entries@), id@) == Some(i as int),
            None => first_with(views(entries@), id@) is None,
        },
{
    let ghost es = views(entries@);
    let mut i: usize = 0;
    while i < entries.len()
        invariant
            es == views(entries@),
            i <= entries@.len(),
            first_with(es.take(i as int), id@) is None,
        decreases entries@.len() - i,
    {
        proof {
            assert(es.take(i + 1).drop_last() =~= es.take(i as int));
            assert(es.take(i + 1).last() == entries@[i as int]@);
        }
        if str_eq(entries[i].id.as_str(), id) {
            proof {
                lemma_first_with_prefix(es, id@, i + 1);
            }
            return Some(i);
        }
        i += 1;
    }
    proof {
        assert(es.take(i as int) =~= es);
    }
    None
}

proof fn lemma_first_with_prefix(es: Seq<EntryView>, id: Seq<char>, k: int)
    requires
        0 <= k <= es.len(),
        first_with(es.take(k), id) is Some,
    ensures
        first_with(es, id) == first_with(es.take(k), id),
    decreases es.len() - k,
{
    if k < es.len() {
        assert(es.take(k + 1).drop_last() =~= es.take(k));
        lemma_first_with_prefix(es, id, k + 1);
    } else {
        assert(es.take(k) =~= es);
    }
}

/// Inserts `entry` into `entries`, replacing the existing entry with the same
/// id.
pub fn replace_or_append(entries: Vec<IndexEntry>, entry: IndexEntry) -> (r: Vec<IndexEntry>)
    ensures
        views(r@) == with_entry(views(entries@), entry@),
{
    let mut out = entries;
    match position_of(out.as_slice(), entry.id.as_str()) {
        Some(i) => {
            let ghost before = out@;
            out[i] = entry;
            proof {
                assert(views(out@) =~= views(before).update(i as int, entry@));
            }
        },
        None => {
            proof {
                lemma_views_push(out@, entry);
            }
            out.push(entry);
        },
    }
    out
}

/// Index-layer output of a push, computed without touching the network.
#[derive(Debug)]
pub struct NewRoot {
    pub doc_body: Vec<u8>,
    pub doc_index_hash: String,
    pub root_body: Vec<u8>,
    pub root_hash: String,
}

/// The mathematical value of a [`NewRoot`].
pub struct NewRootView {
    pub doc_body: Seq<u8>,
    pub doc_index_hash: Seq<char>,
    pub root_body: Seq<u8>,
    pub root_hash: Seq<char>,
}

impl View for NewRoot {
    type V = NewRootView;

    open spec fn view(&self) -> NewRootView {
        NewRootView {
            doc_body: self.doc_body@,
            doc_index_hash: self.doc_index_hash@,
            root_body: self.root_body@,
            root_hash: self.root_hash@,
        }
    }
}

/// The root entry of a document with these files.
pub open spec fn document_entry(
    doc_uuid: Seq<char>,
    doc_entries: Seq<EntryView>,
    doc_index_hash: Seq<char>,
) -> EntryView {
    EntryView {
        hash: doc_index_hash,
        id: doc_uuid,
        subfiles: (doc_entries.len() % 0x1_0000_0000) as u32,
        size: total_size(doc_entries) as u64,
        raw: None,
    }
}

/// The bytes of the document's own index.
pub open spec fn doc_index_body(
    schema: Schema,
    doc_uuid: Seq<char>,
    doc_entries: Seq<EntryView>,
) -> Seq<u8> {
    encode_utf8(index_text(schema, doc_uuid, doc_entries, false))
}

/// The root entries after the push of a document.
pub open spec fn pushed_entries(
    root_entries: Seq<EntryView>,
    doc_uuid: Seq<char>,
    doc_entries: Seq<EntryView>,
    doc_index_hash: Seq<char>,
) -> Seq<EntryView> {
    with_entry(root_entries, document_entry(doc_uuid, doc_entries, doc_index_hash))
}

/// The index layer of a push: the document index, and the root index with the
/// document's entry, each with its hash.
pub open spec fn planned_root(
    schema: Schema,
    root_entries: Seq<EntryView>,
    doc_uuid: Seq<char>,
    doc_entries: Seq<EntryView>,
) -> core::result::Result<NewRootView, ErrorView> {
    let doc_body = doc_index_body(schema, doc_uuid, doc_entries);
    match index_hash(schema, doc_entries, doc_body) {
        Err(e) => Err(e),
        Ok(doc_index_hash) => {
            let es = pushed_entries(root_entries, doc_uuid, doc_entries, doc_index_hash);
            let root_body = encode_utf8(index_text(schema, "."@, es, true));
            match index_hash(schema, es, root_body) {
                Err(e) => Err(e),
                Ok(root_hash) => Ok(
                    NewRootView { doc_body, doc_index_hash, root_body, root_hash },
                ),
            }
        },
    }
}

/// Whether the sizes that a push adds up fit in 64 bits.
pub open spec fn sizes_fit(
    schema: Schema,
    root_entries: Seq<EntryView>,
    doc_uuid: Seq<char>,
    doc_entries: Seq<EntryView>,
) -> bool {
    &&& total_size(doc_entries) <= u64::MAX
    &&& schema == Schema::V4 ==> total_size(
        with_entry(root_entries, document_entry(doc_uuid, doc_entries, Seq::empty())),
    ) <= u64::MAX
}

/// The sum of sizes does not depend on the entries' hashes.
proof fn lemma_total_same_sizes(a: Seq<EntryView>, b: Seq<EntryView>)
    requires
        a.len() == b.len(),
        forall|i: int| 0 <= i < a.len() ==> #[trigger] a[i].size == b[i].size,
    ensures
        total_size(a) == total_size(b),
    decreases a.len(),
{
    if a.len() > 0 {
        assert(a[a.len() - 1].size == b[a.len() - 1].size);
        assert forall|i: int| 0 <= i < a.drop_last().len() implies #[trigger] a.drop_last()[i].size
            == b.drop_last()[i].size by {
            assert(a[i].size == b[i].size);
        }
        lemma_total_same_sizes(a.drop_last(), b.drop_last());
    }
}

proof fn lemma_fit_any_hash(
    root_entries: Seq<EntryView>,
    doc_uuid: Seq<char>,
    doc_entries: Seq<EntryView>,
    h: Seq<char>,
)
    ensures
        total_size(with_entry(root_entries, document_entry(doc_uuid, doc_entries, h)))
            == total_size(
            with_entry(root_entries, document_entry(doc_uuid, doc_entries, Seq::empty())),
        ),
{
    lemma_first_with(root_entries, doc_uuid);
    lemma_total_same_sizes(
        with_entry(root_entries, document_entry(doc_uuid, doc_entries, h)),
        with_entry(root_entries, document_entry(doc_uuid, doc_entries, Seq::empty())),
    );
}

/// The root entry of a document with these files.
fn new_document_entry(doc_uuid: &str, doc_entries: &[IndexEntry], hash: String) -> (r: IndexEntry)
    requires
        total_size(views(doc_entries@)) <= u64::MAX,
    ensures
        r@ == document_entry(doc_uuid@, views(doc_entries@), hash@),
{
    let size: u64 = match sum_sizes(doc_entries) {
        Some(t) => t,
        None => 0,
    };
    IndexEntry {
        hash,
        id: doc_uuid.to_owned(),
        subfiles: (doc_entries.len() as u64 % 0x1_0000_0000) as u32,
        size,
        raw: None,
    }
}

/// Whether the sizes that `plan_root` adds up fit in 64 bits.
pub fn push_sizes_fit(root: &RootState, doc_uuid: &str, doc_entries: &[IndexEntry]) -> (r: bool)
    ensures
        r == sizes_fit(root.schema, views(root.entries@), doc_uuid@, views(doc_entries@)),
{
    if sum_sizes(doc_entries).is_none() {
        return false;
    }
    if root.schema == Schema::V3 {
        return true;
    }
    let entry = new_document_entry(doc_uuid, doc_entries, String::new());
    let all = replace_or_append(copy_entries(root.entries.as_slice()), entry);
    sum_sizes(all.as_slice()).is_some()
}

/// Builds the document index and the rewritten root index for one document.
/// The rewritten root holds every entry of the old one, and one for the
/// document.
pub fn plan_root(root: &RootState, doc_uuid: &str, doc_entries: &[IndexEntry]) -> (r: Result<
    NewRoot,
>)
    requires
        sizes_fit(root.schema, views(root.entries@), doc_uuid@, views(doc_entries@)),
    ensures
        res_view(r) == planned_root(
            root.schema,
            views(root.entries@),
            doc_uuid@,
            views(doc_entries@),
        ),
        r matches Ok(n) ==> n.doc_index_hash@.len() == 64 && is_hex_text(n.doc_index_hash@)
            && n.root_hash@.len() == 64 && is_hex_text(n.root_hash@),
{
    let doc_body = serialize_index(root.schema, doc_uuid, doc_entries, false);
    let doc_index_hash = match hash_index(root.schema, doc_entries, doc_body.as_slice()) {
        Ok(h) => h,
        Err(e) => return Err(e),
    };
    let entry = new_document_entry(doc_uuid, doc_entries, doc_index_hash.clone());
    let entries = replace_or_append(copy_entries(root.entries.as_slice()), entry);
    proof {
        lemma_fit_any_hash(
            views(root.entries@),
            doc_uuid@,
            views(doc_entries@),
            doc_index_hash@,
        );
    }
    let root_body = serialize_index(root.schema, ".", entries.as_slice(), true);
    let root_hash = match hash_index(root.schema, entries.as_slice(), root_body.as_slice()) {
        Ok(h) => h,
        Err(e) => return Err(e),
    };
    Ok(NewRoot { doc_body, doc_index_hash, root_body, root_hash })
}

// ---------------------------------------------------------------------------
// Comparing two roots
// ---------------------------------------------------------------------------

/// Line-level comparison of the root index before and after a push.
#[derive(Debug, Clone, PartialEq, Eq)]
pub struct RootDiff {
    pub old_totals: Option<String>,
    pub new_totals: Option<String>,
    pub old_entries: usize,
    pub new_entries: usize,
    /// Entry lines present before and missing after. Must be empty.
    pub removed: Vec<String>,
    /// Entry lines present after and not before. Exactly one for a push.
    pub added: Vec<String>,
    /// True when the new index, with `added` taken out, lists the old entry
    /// lines in the same order, byte for byte.
    pub order_preserved: bool,
}

/// The mathematical value of a [`RootDiff`].
pub struct RootDiffView {
    pub old_totals: Option<Seq<char>>,
    pub new_totals: Option<Seq<char>>,
    pub old_entries: nat,
    pub new_entries: nat,
    pub removed: Seq<Seq<char>>,
    pub added: Seq<Seq<char>>,
    pub order_preserved: bool,
}

impl View for RootDiff {
    type V = RootDiffView;

    open spec fn view(&self) -> RootDiffView {
        RootDiffView {
            old_totals: opt_view(self.old_totals),
            new_totals: opt_view(self.new_totals),
            old_entries: self.old_entries as nat,
            new_entries: self.new_entries as nat,
            removed: views(self.removed@),
            added: views(self.added@),
            order_preserved: self.order_preserved,
        }
    }
}

/// The totals row of an index text, if it has one.
pub open spec fn totals_of(schema: Schema, body: Seq<char>) -> Option<Seq<char>> {
    let ls = filled(lines(body));
    if header_lines(schema, ls) == 2 {
        Some(ls[1])
    } else {
        None
    }
}

/// The entry lines of an index text.
pub open spec fn lines_after_header(schema: Schema, body: Seq<char>) -> Seq<Seq<char>> {
    let ls = filled(lines(body));
    if ls.len() == 0 {
        Seq::empty()
    } else {
        ls.skip(header_lines(schema, ls))
    }
}

/// The lines of `a` that do not occur in `b`, in `a`'s order.
pub open spec fn missing(a: Seq<Seq<char>>, b: Seq<Seq<char>>) -> Seq<Seq<char>>
    decreases a.len(),
{
    if a.len() == 0 {
        Seq::empty()
    } else if b.contains(a.last()) {
        missing(a.drop_last(), b)
    } else {
        missing(a.drop_last(), b).push(a.last())
    }
}

/// The comparison of two root index texts.
pub open spec fn root_diff(
    schema: Schema,
    old_body: Seq<char>,
    new_body: Seq<char>,
) -> RootDiffView {
    let a = lines_after_header(schema, old_body);
    let b = lines_after_header(schema, new_body);
    RootDiffView {
        old_totals: totals_of(schema, old_body),
        new_totals: totals_of(schema, new_body),
        old_entries: a.len(),
        new_entries: b.len(),
        removed: missing(a, b),
        added: missing(b, a),
        order_preserved: missing(b, missing(b, a)) == a,
    }
}

/// Splits an index body into its optional v4 totals row and its entry lines.
pub fn split_index(schema: Schema, body: &str) -> (r: (Option<String>, Vec<String>))
    ensures
        opt_view(r.0) == totals_of(schema, body@),
        views(r.1@) == lines_after_header(schema, body@),
{
    let cs = chars_of(body);
    let ls = filled_lines(lines_of(cs.as_slice()));
    let ghost all = filled(lines(body@));
    proof {
        assert(views(ls@) == all);
        assert(all.len() == ls@.len());
        assert(forall|i: int| 0 <= i < ls@.len() ==> #[trigger] all[i] == ls@[i]@);
    }
    let mut totals: Option<String> = None;
    let mut rest: Vec<String> = Vec::new();
    if ls.len() == 0 {
        proof {
            assert(views(rest@) =~= Seq::<Seq<char>>::empty());
        }
        return (totals, rest);
    }
    let mut start: usize = 1;
    if schema == Schema::V4 && ls.len() > 1 && row_is_totals(ls[1].as_slice()) {
        start = 2;
        let row = string_of(ls[1].as_slice(), 0, ls[1].len());
        proof {
            assert(row@ =~= all[1]);
        }
        totals = Some(row);
    }
    let mut i: usize = start;
    proof {
        assert(all.subrange(start as int, start as int) =~= Seq::<Seq<char>>::empty());
        assert(views(rest@) =~= Seq::<Seq<char>>::empty());
    }
    while i < ls.len()
        invariant
            start <= i <= ls@.len(),
            all == views(ls@),
            all.len() == ls@.len(),
            forall|k: int| 0 <= k < ls@.len() ==> #[trigger] all[k] == ls@[k]@,
            views(rest@) == all.subrange(start as int, i as int),
        decreases ls@.len() - i,
    {
        let line = string_of(ls[i].as_slice(), 0, ls[i].len());
        proof {
            assert(line@ =~= all[i as int]);
            lemma_views_push(rest@, line);
            assert(all.subrange(start as int, i + 1) =~= all.subrange(start as int, i as int).push(
                all[i as int],
            ));
        }
        rest.push(line);
        i += 1;
    }
    proof {
        assert(all.subrange(start as int, i as int) =~= all.skip(start as int));
    }
    (totals, rest)
}

/// Whether `line` is one of `lines`.
fn holds_line(lines: &Vec<String>, line: &str) -> (r: bool)
    ensures
        r == views(lines@).contains(line@),
{
    let mut i: usize = 0;
    while i < lines.len()
        invariant
            i <= lines@.len(),
            forall|k: int| 0 <= k < i ==> views(lines@)[k] != line@,
        decreases lines@.len() - i,
    {
        if str_eq(lines[i].as_str(), line) {
            proof {
                assert(views(lines@)[i as int] == line@);
            }
            return true;
        }
        i += 1;
    }
    false
}

/// Lines of `a` that do not appear in `b`, in `a`'s order.
pub fn lines_missing_from(a: &Vec<String>, b: &Vec<String>) -> (r: Vec<String>)
    ensures
        views(r@) == missing(views(a@), views(b@)),
{
    let ghost va = views(a@);
    let mut out: Vec<String> = Vec::new();
    let mut i: usize = 0;
    proof {
        assert(views(out@) =~= missing(va.take(0), views(b@)));
    }
    while i < a.len()
        invariant
            va == views(a@),
            i <= a@.len(),
            views(out@) == missing(va.take(i as int), views(b@)),
        decreases a@.len() - i,
    {
        proof {
            assert(va.take(i + 1).drop_last() =~= va.take(i as int));
            assert(va.take(i + 1).last() == a@[i as int]@);
        }
        if !holds_line(b, a[i].as_str()) {
            let line = a[i].clone();
            proof {
                lemma_views_push(out@, line);
            }
            out.push(line);
        }
        i += 1;
    }
    proof {
        assert(va.take(i as int) =~= va);
    }
    out
}

/// Whether two lists hold the same lines in the same order.
fn same_lines(a: &Vec<String>, b: &Vec<String>) -> (r: bool)
    ensures
        r == (views(a@) == views(b@)),
{
    proof {
        assert(views(a@).len() == a@.len());
        assert(views(b@).len() == b@.len());
    }
    if a.len() != b.len() {
        return false;
    }
    let mut i: usize = 0;
    while i < a.len()
        invariant
            a@.len() == b@.len(),
            i <= a@.len(),
            forall|k: int| 0 <= k < i ==> views(a@)[k] == views(b@)[k],
        decreases a@.len() - i,
    {
        if !str_eq(a[i].as_str(), b[i].as_str()) {
            proof {
                assert(views(a@)[i as int] != views(b@)[i as int]);
            }
            return false;
        }
        i += 1;
    }
    proof {
        assert(views(a@) =~= views(b@));
    }
    true
}

/// Compares the root index before and after a push, line by line.
pub fn diff_root(schema: Schema, old_body: &str, new_body: &str) -> (r: RootDiff)
    ensures
        r@ == root_diff(schema, old_body@, new_body@),
{
    let (old_totals, old_lines) = split_index(schema, old_body);
    let (new_totals, new_lines) = split_index(schema, new_body);
    let removed = lines_missing_from(&old_lines, &new_lines);
    let added = lines_missing_from(&new_lines, &old_lines);
    let kept = lines_missing_from(&new_lines, &added);
    let order_preserved = same_lines(&kept, &old_lines);
    proof {
        assert(views(old_lines@).len() == old_lines@.len());
        assert(views(new_lines@).len() == new_lines@.len());
    }
    RootDiff {
        old_totals,
        new_totals,
        old_entries: old_lines.len(),
        new_entries: new_lines.len(),
        removed,
        added,
        order_preserved,
    }
}

} // verus!
