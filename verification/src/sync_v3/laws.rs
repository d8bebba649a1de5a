//! Laws of the index layer: what reading, writing and rewriting an index keep.

use vstd::prelude::*;
use vstd::utf8::*;

use crate::codec::{is_hex_digit, is_hex_text, law_hex_round_trip, sha256};
use crate::error::ErrorView;
use crate::order::{
    keys_of, law_sorting_forgets_order, law_stable_order, lemma_order_covers, lex_lt, place,
    same_members, stable_order,
};
use crate::sync_v3::index::{
    by_id, child_bytes, doc_index_body, document_entry, entries_of, entry_line, entry_lines,
    entry_of, filled, first_with, has_totals, header_lines, ids, index_hash, index_header,
    index_of_lines, index_text, lemma_first_with, lines_after_header, missing, parsed_index,
    planned_root, root_diff, schema_of, total_size, totals_line, totals_row, type_field,
    with_entry, EntryView, NewRootView, Schema,
};
use crate::text::{
    decimal, is_blank, is_digit, is_white, law_decimal_round_trip, lemma_decimal_digits,
    lemma_split_nonempty, lines, split, strip_cr, trim_end, trim_start,
};

verus! {

// ---------------------------------------------------------------------------
// Splitting and lines
// ---------------------------------------------------------------------------

/// Text without the separator goes into the last piece.
pub proof fn lemma_split_plain(t: Seq<char>, l: Seq<char>, sep: char)
    requires
        !l.contains(sep),
    ensures
        split(t + l, sep) == split(t, sep).update(
            split(t, sep).len() - 1,
            split(t, sep).last() + l,
        ),
        split(t, sep).len() >= 1,
    decreases l.len(),
{
    lemma_split_nonempty(t, sep);
    let s = split(t, sep);
    if l.len() == 0 {
        assert(t + l =~= t);
        assert(s.last() + l =~= s.last());
        assert(s.update(s.len() - 1, s.last() + l) =~= s);
    } else {
        let d = l.drop_last();
        assert forall|c: char| d.contains(c) implies l.contains(c) by {
            let k = choose|k: int| 0 <= k < d.len() && d[k] == c;
            assert(l[k] == c);
        }
        lemma_split_plain(t, d, sep);
        assert((t + l).drop_last() =~= t + d);
        assert(l[l.len() - 1] == l.last());
        assert((t + l).last() == l.last());
        assert((s.last() + d).push(l.last()) =~= s.last() + l);
        assert(split(t + l, sep) =~= s.update(s.len() - 1, s.last() + l));
    }
}

/// A separator closes the last piece.
pub proof fn lemma_split_sep(t: Seq<char>, sep: char)
    ensures
        split(t.push(sep), sep) == split(t, sep).push(Seq::empty()),
{
    assert(t.push(sep).drop_last() =~= t);
}

/// No piece holds the separator.
pub proof fn lemma_pieces_plain(s: Seq<char>, sep: char, i: int)
    requires
        0 <= i < split(s, sep).len(),
    ensures
        !split(s, sep)[i].contains(sep),
    decreases s.len(),
{
    if s.len() == 0 {
        assert(split(s, sep)[i] =~= Seq::<char>::empty());
    } else {
        let d = s.drop_last();
        lemma_split_nonempty(d, sep);
        let h = split(d, sep);
        if s.last() == sep {
            if i < h.len() {
                lemma_pieces_plain(d, sep, i);
            } else {
                assert(split(s, sep)[i] =~= Seq::<char>::empty());
            }
        } else {
            lemma_pieces_plain(d, sep, i);
            if i == h.len() - 1 {
                let p = h.last().push(s.last());
                assert(split(s, sep)[i] == p);
                if p.contains(sep) {
                    let k = choose|k: int| 0 <= k < p.len() && p[k] == sep;
                    assert(k < h.last().len());
                    assert(h.last()[k] == sep);
                }
            }
        }
    }
}

/// A text whose last piece is not empty ends with the end of that piece.
pub proof fn lemma_last_piece_ends(s: Seq<char>, sep: char)
    requires
        split(s, sep).last().len() > 0,
    ensures
        s.len() > 0,
        s.last() == split(s, sep).last().last(),
{
    if s.len() > 0 {
        lemma_split_nonempty(s.drop_last(), sep);
    }
}

/// Whether `t` is a sequence of complete lines.
pub open spec fn closed_lines(t: Seq<char>) -> bool {
    split(t, '\n').last().len() == 0
}

/// Whether `l` can stand as one line that comes back unchanged.
pub open spec fn plain_line(l: Seq<char>) -> bool {
    !l.contains('\n') && strip_cr(l) == l
}

/// A complete line added to complete lines is the last of the lines.
pub proof fn lemma_lines_append(t: Seq<char>, l: Seq<char>)
    requires
        closed_lines(t),
        plain_line(l),
    ensures
        closed_lines(t + l + "\n"@),
        lines(t + l + "\n"@) == lines(t).push(l),
{
    reveal_strlit("\n");
    assert(t + l + "\n"@ =~= (t + l).push('\n'));
    lemma_split_plain(t, l, '\n');
    lemma_split_sep(t + l, '\n');
    let s = split(t, '\n');
    let n = split(t + l + "\n"@, '\n');
    assert(s.last() + l =~= l);
    assert(n =~= s.update(s.len() - 1, l).push(Seq::empty()));
    assert(lines(t + l + "\n"@) =~= lines(t).push(l));
}

/// Every line of a text is free of line feeds.
pub proof fn lemma_lines_plain(t: Seq<char>, i: int)
    requires
        0 <= i < lines(t).len(),
    ensures
        !lines(t)[i].contains('\n'),
{
    let s = split(t, '\n');
    lemma_split_nonempty(t, '\n');
    lemma_pieces_plain(t, '\n', i);
    let l = lines(t)[i];
    if i < s.len() - 1 {
        assert(l == strip_cr(s[i]));
        if l.contains('\n') {
            let k = choose|k: int| 0 <= k < l.len() && l[k] == '\n';
            assert(s[i][k] == '\n');
        }
    } else {
        assert(l == s.last());
    }
}

proof fn lemma_filled_from(ls: Seq<Seq<char>>, i: int)
    requires
        0 <= i < filled(ls).len(),
    ensures
        ls.contains(filled(ls)[i]),
        !is_blank(filled(ls)[i]),
    decreases ls.len(),
{
    if ls.len() > 0 {
        let d = ls.drop_last();
        if !is_blank(ls.last()) && i == filled(d).len() {
            assert(ls[ls.len() - 1] == filled(ls)[i]);
        } else {
            lemma_filled_from(d, i);
            let k = choose|k: int| 0 <= k < d.len() && d[k] == filled(d)[i];
            assert(ls[k] == filled(ls)[i]);
        }
    }
}

proof fn lemma_filled_all(ls: Seq<Seq<char>>)
    requires
        forall|i: int| 0 <= i < ls.len() ==> !is_blank(#[trigger] ls[i]),
    ensures
        filled(ls) == ls,
    decreases ls.len(),
{
    if ls.len() > 0 {
        let d = ls.drop_last();
        assert forall|i: int| 0 <= i < d.len() implies !is_blank(#[trigger] d[i]) by {
            assert(d[i] == ls[i]);
        }
        lemma_filled_all(d);
        assert(!is_blank(ls[ls.len() - 1]));
        assert(d.push(ls.last()) =~= ls);
    } else {
        assert(filled(ls) =~= ls);
    }
}

// ---------------------------------------------------------------------------
// Entry lines
// ---------------------------------------------------------------------------

/// Whether `s` holds neither a field separator nor a line feed.
pub open spec fn plain_field(s: Seq<char>) -> bool {
    s.len() > 0 && !s.contains(':') && !s.contains('\n')
}

/// Whether an entry comes back unchanged when its line is read: an entry built
/// locally whose hash and id are plain fields, or one that was read from its
/// own line.
pub open spec fn writable(e: EntryView) -> bool {
    match e.raw {
        None => plain_field(e.hash) && plain_field(e.id),
        Some(l) => entry_of(l) == Some(e) && !l.contains('\n'),
    }
}

/// The entry that reading the line of `e` gives.
pub open spec fn read_back(e: EntryView, kind: Seq<char>) -> EntryView {
    EntryView { raw: Some(entry_line(e, kind)), ..e }
}

/// A line that holds an entry ends in a digit.
proof fn lemma_entry_line_ends(l: Seq<char>)
    requires
        entry_of(l) is Some,
    ensures
        l.len() > 0,
        is_digit(l.last()),
{
    let p = split(l, ':');
    let s = p[4];
    let d = if s.len() > 0 && s[0] == '+' {
        s.skip(1)
    } else {
        s
    };
    assert(p.last() == s);
    assert(d.len() > 0);
    assert(is_digit(d[d.len() - 1]));
    assert(d.last() == s.last());
    lemma_last_piece_ends(l, ':');
}

proof fn lemma_ends_in_digit(l: Seq<char>)
    requires
        l.len() > 0,
        is_digit(l.last()),
    ensures
        strip_cr(l) == l,
        !is_blank(l),
{
    assert(!is_white(l[l.len() - 1]));
}

proof fn lemma_not_contains_add(a: Seq<char>, b: Seq<char>, c: char)
    requires
        !a.contains(c),
        !b.contains(c),
    ensures
        !(a + b).contains(c),
{
    if (a + b).contains(c) {
        let k = choose|k: int| 0 <= k < (a + b).len() && (a + b)[k] == c;
        if k < a.len() {
            assert(a[k] == c);
        } else {
            assert(b[k - a.len()] == c);
        }
    }
}

proof fn lemma_decimal_plain(n: nat, c: char)
    requires
        !is_digit(c),
    ensures
        !decimal(n).contains(c),
{
    lemma_decimal_digits(n);
    if decimal(n).contains(c) {
        let k = choose|k: int| 0 <= k < decimal(n).len() && decimal(n)[k] == c;
        assert(is_digit(decimal(n)[k]));
    }
}

proof fn lemma_literals(kind: Seq<char>)
    requires
        kind == "0"@ || kind == "80000000"@,
    ensures
        ":"@ == seq![':'],
        !":"@.contains('\n'),
        plain_field(kind),
{
    reveal_strlit(":");
    reveal_strlit("0");
    reveal_strlit("80000000");
    assert(":"@ =~= seq![':']);
    if kind.contains(':') {
        let k = choose|k: int| 0 <= k < kind.len() && kind[k] == ':';
        assert(kind[k] == '0' || kind[k] == '8');
    }
    if kind.contains('\n') {
        let k = choose|k: int| 0 <= k < kind.len() && kind[k] == '\n';
        assert(kind[k] == '0' || kind[k] == '8');
    }
}

/// One more field: a separator and a text without one.
proof fn lemma_split_field(t: Seq<char>, f: Seq<char>)
    requires
        !f.contains(':'),
    ensures
        split(t + ":"@ + f, ':') == split(t, ':').push(f),
{
    reveal_strlit(":");
    assert(t + ":"@ =~= t.push(':'));
    lemma_split_sep(t, ':');
    lemma_split_plain(t.push(':'), f, ':');
    let s = split(t, ':').push(Seq::<char>::empty());
    assert(Seq::<char>::empty() + f =~= f);
    assert(s.update(s.len() - 1, f) =~= split(t, ':').push(f));
}

/// The line of a locally built entry reads back as that entry.
proof fn lemma_local_line(e: EntryView, kind: Seq<char>)
    requires
        e.raw is None,
        writable(e),
        kind == "0"@ || kind == "80000000"@,
    ensures
        entry_of(entry_line(e, kind)) == Some(read_back(e, kind)),
        !entry_line(e, kind).contains('\n'),
{
    lemma_literals(kind);
    let n = decimal(e.subfiles as nat);
    let z = decimal(e.size as nat);
    lemma_decimal_plain(e.subfiles as nat, ':');
    lemma_decimal_plain(e.size as nat, ':');
    lemma_decimal_plain(e.subfiles as nat, '\n');
    lemma_decimal_plain(e.size as nat, '\n');
    let t0 = e.hash;
    let t1 = t0 + ":"@ + kind;
    let t2 = t1 + ":"@ + e.id;
    let t3 = t2 + ":"@ + n;
    let t4 = t3 + ":"@ + z;
    assert(t4 == entry_line(e, kind));
    lemma_split_plain(Seq::empty(), t0, ':');
    assert(Seq::<char>::empty() + t0 =~= t0);
    assert(split(t0, ':') =~= seq![t0]);
    lemma_split_field(t0, kind);
    lemma_split_field(t1, e.id);
    lemma_split_field(t2, n);
    lemma_split_field(t3, z);
    assert(split(t4, ':') =~= seq![e.hash, kind, e.id, n, z]);
    law_decimal_round_trip(e.subfiles as nat, u32::MAX as nat);
    law_decimal_round_trip(e.size as nat, u64::MAX as nat);
    lemma_not_contains_add(t0, ":"@, '\n');
    lemma_not_contains_add(t0 + ":"@, kind, '\n');
    lemma_not_contains_add(t1, ":"@, '\n');
    lemma_not_contains_add(t1 + ":"@, e.id, '\n');
    lemma_not_contains_add(t2, ":"@, '\n');
    lemma_not_contains_add(t2 + ":"@, n, '\n');
    lemma_not_contains_add(t3, ":"@, '\n');
    lemma_not_contains_add(t3 + ":"@, z, '\n');
}

/// The line of a writable entry is one plain, non-blank line, and reading it
/// gives the entry.
pub proof fn lemma_entry_line(e: EntryView, kind: Seq<char>)
    requires
        writable(e),
        kind == "0"@ || kind == "80000000"@,
    ensures
        plain_line(entry_line(e, kind)),
        !is_blank(entry_line(e, kind)),
        entry_of(entry_line(e, kind)) == Some(read_back(e, kind)),
{
    if e.raw is None {
        lemma_local_line(e, kind);
    }
    lemma_entry_line_ends(entry_line(e, kind));
    lemma_ends_in_digit(entry_line(e, kind));
}

/// The lines of the entries, as a list.
pub open spec fn line_list(es: Seq<EntryView>, kind: Seq<char>) -> Seq<Seq<char>> {
    Seq::new(es.len(), |i: int| entry_line(es[i], kind))
}

/// Whether every entry is writable.
pub open spec fn all_writable(es: Seq<EntryView>) -> bool {
    forall|i: int| 0 <= i < es.len() ==> writable(#[trigger] es[i])
}

proof fn lemma_lines_of_entries(head: Seq<char>, es: Seq<EntryView>, kind: Seq<char>)
    requires
        closed_lines(head),
        all_writable(es),
        kind == "0"@ || kind == "80000000"@,
    ensures
        closed_lines(head + entry_lines(es, kind)),
        lines(head + entry_lines(es, kind)) == lines(head) + line_list(es, kind),
    decreases es.len(),
{
    if es.len() == 0 {
        assert(head + entry_lines(es, kind) =~= head);
        assert(lines(head) + line_list(es, kind) =~= lines(head));
    } else {
        let d = es.drop_last();
        assert forall|i: int| 0 <= i < d.len() implies writable(#[trigger] d[i]) by {
            assert(d[i] == es[i]);
        }
        lemma_lines_of_entries(head, d, kind);
        let l = entry_line(es.last(), kind);
        assert(writable(es[es.len() - 1]));
        lemma_entry_line(es.last(), kind);
        let t = head + entry_lines(d, kind);
        lemma_lines_append(t, l);
        assert(t + l + "\n"@ =~= head + entry_lines(es, kind));
        assert((lines(head) + line_list(d, kind)).push(l) =~= lines(head) + line_list(es, kind));
    }
}

proof fn lemma_read_line_list(es: Seq<EntryView>, kind: Seq<char>)
    requires
        all_writable(es),
        kind == "0"@ || kind == "80000000"@,
    ensures
        entries_of(line_list(es, kind)) == Ok::<_, Seq<char>>(
            Seq::new(es.len(), |i: int| read_back(es[i], kind)),
        ),
    decreases es.len(),
{
    let want = Seq::new(es.len(), |i: int| read_back(es[i], kind));
    if es.len() == 0 {
        assert(want =~= Seq::<EntryView>::empty());
    } else {
        let d = es.drop_last();
        assert forall|i: int| 0 <= i < d.len() implies writable(#[trigger] d[i]) by {
            assert(d[i] == es[i]);
        }
        lemma_read_line_list(d, kind);
        assert(writable(es[es.len() - 1]));
        lemma_entry_line(es.last(), kind);
        assert(line_list(es, kind).drop_last() =~= line_list(d, kind));
        assert(Seq::new(d.len(), |i: int| read_back(d[i], kind)).push(read_back(es.last(), kind))
            =~= want);
    }
}

// ---------------------------------------------------------------------------
// The header
// ---------------------------------------------------------------------------

/// Whether `label` can stand in a totals row.
pub open spec fn plain_label(label: Seq<char>) -> bool {
    !label.contains(':') && !label.contains('\n')
}

/// The lines of an index header.
spec fn header_list(schema: Schema, label: Seq<char>, es: Seq<EntryView>) -> Seq<Seq<char>> {
    if has_totals(schema, label) {
        seq![schema.text(), totals_line(label, es.len(), total_size(es))]
    } else {
        seq![schema.text()]
    }
}

proof fn lemma_schema_text(schema: Schema)
    ensures
        plain_line(schema.text()),
        !is_blank(schema.text()),
        schema_of(schema.text()) == Some(schema),
        split(schema.text(), ':').len() == 1,
{
    reveal_strlit("3");
    reveal_strlit("4");
    let t = schema.text();
    assert(t.len() == 1 && !is_white(t[0]));
    assert(trim_start(t) == t);
    assert(t.last() == t[0]);
    assert(trim_end(t) == t);
    if t.contains('\n') {
        let k = choose|k: int| 0 <= k < t.len() && t[k] == '\n';
        assert(k == 0);
    }
    if t.contains(':') {
        let k = choose|k: int| 0 <= k < t.len() && t[k] == ':';
        assert(k == 0);
    }
    lemma_split_plain(Seq::empty(), t, ':');
    assert(Seq::<char>::empty() + t =~= t);
    assert("3"@[0] != "4"@[0]);
}

proof fn lemma_totals_line(label: Seq<char>, count: nat, total: nat)
    requires
        plain_label(label),
    ensures
        plain_line(totals_line(label, count, total)),
        !is_blank(totals_line(label, count, total)),
        totals_row(totals_line(label, count, total)),
{
    reveal_strlit("0");
    reveal_strlit("0:");
    reveal_strlit(":");
    let n = decimal(count);
    let z = decimal(total);
    lemma_decimal_plain(count, ':');
    lemma_decimal_plain(total, ':');
    lemma_decimal_plain(count, '\n');
    lemma_decimal_plain(total, '\n');
    lemma_literals("0"@);
    let t1 = "0"@ + ":"@ + label;
    let t2 = t1 + ":"@ + n;
    let t3 = t2 + ":"@ + z;
    assert("0:"@ =~= "0"@ + ":"@);
    assert(t3 == totals_line(label, count, total));
    lemma_split_plain(Seq::empty(), "0"@, ':');
    assert(Seq::<char>::empty() + "0"@ =~= "0"@);
    assert(split("0"@, ':') =~= seq!["0"@]);
    lemma_split_field("0"@, label);
    lemma_split_field(t1, n);
    lemma_split_field(t2, z);
    assert(split(t3, ':') =~= seq!["0"@, label, n, z]);
    lemma_not_contains_add("0"@, ":"@, '\n');
    lemma_not_contains_add("0"@ + ":"@, label, '\n');
    lemma_not_contains_add(t1, ":"@, '\n');
    lemma_not_contains_add(t1 + ":"@, n, '\n');
    lemma_not_contains_add(t2, ":"@, '\n');
    lemma_not_contains_add(t2 + ":"@, z, '\n');
    lemma_decimal_digits(total);
    assert(t3.last() == z.last());
    assert(is_digit(z[z.len() - 1]));
    lemma_ends_in_digit(t3);
}

proof fn lemma_header_lines(schema: Schema, label: Seq<char>, es: Seq<EntryView>)
    requires
        has_totals(schema, label) ==> plain_label(label),
    ensures
        closed_lines(index_header(schema, label, es)),
        lines(index_header(schema, label, es)) == header_list(schema, label, es),
{
    let e = Seq::<char>::empty();
    lemma_schema_text(schema);
    assert(closed_lines(e));
    assert(lines(e) =~= Seq::<Seq<char>>::empty());
    lemma_lines_append(e, schema.text());
    assert(e + schema.text() + "\n"@ =~= schema.text() + "\n"@);
    let t = schema.text() + "\n"@;
    assert(lines(t) =~= seq![schema.text()]);
    if has_totals(schema, label) {
        let row = totals_line(label, es.len(), total_size(es));
        lemma_totals_line(label, es.len(), total_size(es));
        lemma_lines_append(t, row);
        assert(lines(t + row + "\n"@) =~= header_list(schema, label, es));
    }
}

proof fn lemma_by_id_from(es: Seq<EntryView>)
    ensures
        by_id(es).len() == es.len(),
        forall|i: int|
            0 <= i < by_id(es).len() ==> es.contains(#[trigger] by_id(es)[i]),
{
    law_stable_order(ids(es));
    let p = stable_order(ids(es));
    assert forall|i: int| 0 <= i < by_id(es).len() implies es.contains(
        #[trigger] by_id(es)[i],
    ) by {
        assert(0 <= p[i] < es.len());
        assert(es[p[i]] == by_id(es)[i]);
    }
}

proof fn lemma_by_id_writable(es: Seq<EntryView>)
    requires
        all_writable(es),
    ensures
        all_writable(by_id(es)),
        by_id(es).len() == es.len(),
{
    lemma_by_id_from(es);
    assert forall|i: int| 0 <= i < by_id(es).len() implies writable(#[trigger] by_id(es)[i]) by {
        assert(es.contains(by_id(es)[i]));
        let k = choose|k: int| 0 <= k < es.len() && es[k] == by_id(es)[i];
        assert(writable(es[k]));
    }
}

/// The non-blank lines of a serialized index: its header, then the lines of
/// the entries by id.
pub proof fn lemma_index_lines(
    schema: Schema,
    label: Seq<char>,
    es: Seq<EntryView>,
    is_root: bool,
)
    requires
        all_writable(es),
        has_totals(schema, label) ==> plain_label(label),
    ensures
        ({
            let t = index_text(schema, label, es, is_root);
            let ls = filled(lines(t));
            let h: int = if has_totals(schema, label) {
                2
            } else {
                1
            };
            &&& ls.len() == h + es.len()
            &&& ls[0] == schema.text()
            &&& has_totals(schema, label) ==> ls[1] == totals_line(
                label,
                es.len(),
                total_size(es),
            )
            &&& header_lines(schema, ls) == h
            &&& ls.skip(h) == line_list(by_id(es), type_field(schema, is_root))
        }),
{
    let kind = type_field(schema, is_root);
    let sorted = by_id(es);
    let hl = header_list(schema, label, es);
    let all = hl + line_list(sorted, kind);
    lemma_header_lines(schema, label, es);
    lemma_by_id_writable(es);
    lemma_lines_of_entries(index_header(schema, label, es), sorted, kind);
    assert forall|i: int| 0 <= i < all.len() implies !is_blank(#[trigger] all[i]) by {
        if i < hl.len() {
            lemma_schema_text(schema);
            if i == 1 {
                lemma_totals_line(label, es.len(), total_size(es));
            }
        } else {
            assert(writable(sorted[i - hl.len()]));
            lemma_entry_line(sorted[i - hl.len()], kind);
        }
    }
    lemma_filled_all(all);
    let h = hl.len() as int;
    assert(all.skip(h) =~= line_list(sorted, kind));
    if has_totals(schema, label) {
        lemma_totals_line(label, es.len(), total_size(es));
    } else if schema == Schema::V4 && all.len() > 1 {
        assert(writable(sorted[0]));
        lemma_entry_line(sorted[0], kind);
        assert(all[1] == entry_line(sorted[0], kind));
        assert(split(all[1], ':').len() == 5);
    }
}

/// Reading a serialized index gives back its schema and its entries, ordered
/// by id, each with the line it stands on. The entries are writable, and the
/// label of a totals row holds no separator.
pub proof fn law_serialize_round_trip(
    schema: Schema,
    label: Seq<char>,
    es: Seq<EntryView>,
    is_root: bool,
)
    requires
        all_writable(es),
        has_totals(schema, label) ==> plain_label(label),
    ensures
        parsed_index(encode_utf8(index_text(schema, label, es, is_root))) == Ok::<_, ErrorView>(
            (
                schema,
                Seq::new(
                    es.len(),
                    |i: int| read_back(by_id(es)[i], type_field(schema, is_root)),
                ),
            ),
        ),
{
    let t = index_text(schema, label, es, is_root);
    encode_utf8_valid_utf8(t);
    encode_utf8_decode_utf8(t);
    lemma_index_lines(schema, label, es, is_root);
    lemma_schema_text(schema);
    lemma_by_id_writable(es);
    lemma_read_line_list(by_id(es), type_field(schema, is_root));
    assert(Seq::new(by_id(es).len(), |i: int| read_back(by_id(es)[i], type_field(schema, is_root)))
        =~= Seq::new(es.len(), |i: int| read_back(by_id(es)[i], type_field(schema, is_root))));
}

proof fn lemma_entries_of(ls: Seq<Seq<char>>)
    ensures
        entries_of(ls) matches Ok(es) ==> es.len() == ls.len() && forall|i: int|
            0 <= i < ls.len() ==> entry_of(#[trigger] ls[i]) == Some(es[i]),
    decreases ls.len(),
{
    if ls.len() > 0 {
        let d = ls.drop_last();
        lemma_entries_of(d);
        if entries_of(ls) is Ok {
            let es = entries_of(ls)->Ok_0;
            let ds = entries_of(d)->Ok_0;
            assert forall|i: int| 0 <= i < ls.len() implies entry_of(#[trigger] ls[i])
                == Some(es[i]) by {
                if i < d.len() {
                    assert(ls[i] == d[i]);
                    assert(es[i] == ds[i]);
                }
            }
        }
    }
}

/// Reading fails closed: where it succeeds, every non-blank line behind the
/// header is one entry, in order, and the entry carries that very line.
pub proof fn law_parse_keeps_every_line(body: Seq<u8>)
    ensures
        parsed_index(body) matches Ok(x) ==> {
            let ls = lines_after_header(x.0, decode_utf8(body));
            &&& x.1.len() == ls.len()
            &&& forall|i: int| 0 <= i < ls.len() ==> #[trigger] x.1[i].raw == Some(ls[i])
        },
{
    if parsed_index(body) is Ok {
        let x = parsed_index(body)->Ok_0;
        let all = filled(lines(decode_utf8(body)));
        let ls = all.skip(header_lines(x.0, all));
        lemma_entries_of(ls);
        assert forall|i: int| 0 <= i < ls.len() implies #[trigger] x.1[i].raw == Some(ls[i]) by {
            assert(entry_of(ls[i]) == Some(x.1[i]));
        }
    }
}

/// The entries of a root that was read are writable: each goes back out as it
/// came.
pub proof fn law_parsed_entries_writable(body: Seq<u8>)
    ensures
        parsed_index(body) matches Ok(x) ==> all_writable(x.1),
{
    if parsed_index(body) is Ok {
        let x = parsed_index(body)->Ok_0;
        lemma_parsed_text_writable(decode_utf8(body));
    }
}

proof fn lemma_parsed_text_writable(text: Seq<char>)
    ensures
        index_of_lines(filled(lines(text))) matches Ok(x) ==> all_writable(x.1) && {
            let ls = lines_after_header(x.0, text);
            &&& x.1.len() == ls.len()
            &&& forall|i: int| 0 <= i < ls.len() ==> #[trigger] x.1[i].raw == Some(ls[i])
        },
{
    let all = filled(lines(text));
    if index_of_lines(all) is Ok {
        let x = index_of_lines(all)->Ok_0;
        let h = header_lines(x.0, all);
        let ls = all.skip(h);
        lemma_entries_of(ls);
        assert forall|i: int| 0 <= i < x.1.len() implies writable(#[trigger] x.1[i])
            && x.1[i].raw == Some(ls[i]) by {
            assert(entry_of(ls[i]) == Some(x.1[i]));
            lemma_filled_from(lines(text), i + h);
            assert(all[i + h] == ls[i]);
            let k = choose|k: int| 0 <= k < lines(text).len() && lines(text)[k] == ls[i];
            lemma_lines_plain(text, k);
        }
    }
}

// ---------------------------------------------------------------------------
// The rewrite of the root
// ---------------------------------------------------------------------------

/// Putting an entry in adds at most one entry, keeps every entry with another
/// id in its place, and leaves an entry with the new id.
pub proof fn law_replace_or_append(es: Seq<EntryView>, e: EntryView)
    ensures
        with_entry(es, e).len() == es.len() + if first_with(es, e.id) is None {
            1int
        } else {
            0int
        },
        forall|i: int|
            0 <= i < es.len() && es[i].id != e.id ==> #[trigger] with_entry(es, e)[i] == es[i],
        with_entry(es, e).contains(e),
{
    lemma_first_with(es, e.id);
    match first_with(es, e.id) {
        Some(i) => {
            assert(with_entry(es, e)[i] == e);
        },
        None => {
            assert(with_entry(es, e)[es.len() as int] == e);
        },
    }
}

/// Every entry occurs among the entries by id.
pub proof fn law_sorting_loses_nothing(es: Seq<EntryView>)
    ensures
        by_id(es).len() == es.len(),
        forall|i: int| 0 <= i < es.len() ==> by_id(es).contains(#[trigger] es[i]),
        forall|i: int| 0 <= i < by_id(es).len() ==> es.contains(#[trigger] by_id(es)[i]),
{
    lemma_by_id_from(es);
    let p = stable_order(ids(es));
    law_stable_order(ids(es));
    assert forall|i: int| 0 <= i < es.len() implies by_id(es).contains(#[trigger] es[i]) by {
        lemma_order_covers(ids(es), i);
        let k = choose|k: int| 0 <= k < p.len() && p[k] == i;
        assert(by_id(es)[k] == es[i]);
    }
}

proof fn lemma_place_at(keys: Seq<Seq<char>>, prev: Seq<int>, n: int) -> (pos: int)
    ensures
        0 <= pos <= prev.len(),
        place(keys, prev, n) == prev.take(pos).push(n) + prev.skip(pos),
    decreases prev.len(),
{
    if prev.len() > 0 && lex_lt(keys[n], keys[prev.last()]) {
        let pos = lemma_place_at(keys, prev.drop_last(), n);
        assert(place(keys, prev, n) =~= prev.take(pos).push(n) + prev.skip(pos));
        pos
    } else {
        assert(place(keys, prev, n) =~= prev.take(prev.len() as int).push(n) + prev.skip(
            prev.len() as int,
        ));
        prev.len() as int
    }
}

/// An entry behind all others goes to one place among the sorted others.
proof fn lemma_by_id_push(es: Seq<EntryView>, e: EntryView) -> (pos: int)
    ensures
        0 <= pos <= es.len(),
        by_id(es).len() == es.len(),
        by_id(es.push(e)) == by_id(es).take(pos).push(e) + by_id(es).skip(pos),
{
    let keys = ids(es.push(e));
    let prev = stable_order(ids(es));
    law_stable_order(ids(es));
    assert(keys.drop_last() =~= ids(es));
    let pos = lemma_place_at(keys, prev, es.len() as int);
    let p = stable_order(keys);
    assert(p == prev.take(pos).push(es.len() as int) + prev.skip(pos));
    let want = by_id(es).take(pos).push(e) + by_id(es).skip(pos);
    assert forall|i: int| 0 <= i < p.len() implies by_id(es.push(e))[i] == want[i] by {
        if i < pos {
            assert(p[i] == prev[i]);
        } else if i > pos {
            assert(p[i] == prev[i - 1]);
        }
    }
    assert(by_id(es.push(e)) =~= want);
    pos
}

/// Whether the ids of the entries ascend.
pub open spec fn ascending(es: Seq<EntryView>) -> bool {
    forall|i: int, j: int|
        #![trigger es[i], es[j]]
        0 <= i < j < es.len() ==> !lex_lt(es[j].id, es[i].id)
}

proof fn lemma_order_of_ascending(keys: Seq<Seq<char>>)
    requires
        forall|i: int, j: int|
            #![trigger keys[i], keys[j]]
            0 <= i < j < keys.len() ==> !lex_lt(keys[j], keys[i]),
    ensures
        stable_order(keys) == Seq::new(keys.len(), |i: int| i),
    decreases keys.len(),
{
    let want = Seq::new(keys.len(), |i: int| i);
    if keys.len() > 0 {
        let d = keys.drop_last();
        lemma_order_of_ascending(d);
        let prev = stable_order(d);
        if prev.len() > 0 {
            assert(!lex_lt(keys[keys.len() - 1], keys[prev.len() - 1]));
        }
    }
    assert(stable_order(keys) =~= want);
}

/// Sorting entries that ascend already changes nothing.
pub proof fn law_sorting_keeps_sorted(es: Seq<EntryView>)
    requires
        ascending(es),
    ensures
        by_id(es) == es,
{
    lemma_order_of_ascending(ids(es));
    assert(by_id(es) =~= es);
}

proof fn lemma_missing_none(a: Seq<Seq<char>>, b: Seq<Seq<char>>)
    requires
        forall|i: int| 0 <= i < a.len() ==> b.contains(#[trigger] a[i]),
    ensures
        missing(a, b) == Seq::<Seq<char>>::empty(),
    decreases a.len(),
{
    if a.len() > 0 {
        let d = a.drop_last();
        assert(b.contains(a[a.len() - 1]));
        assert forall|i: int| 0 <= i < d.len() implies b.contains(#[trigger] d[i]) by {
            assert(b.contains(a[i]));
        }
        lemma_missing_none(d, b);
    }
}

proof fn lemma_missing_all(a: Seq<Seq<char>>, b: Seq<Seq<char>>)
    requires
        forall|i: int| 0 <= i < a.len() ==> !b.contains(#[trigger] a[i]),
    ensures
        missing(a, b) == a,
    decreases a.len(),
{
    if a.len() > 0 {
        let d = a.drop_last();
        assert(!b.contains(a[a.len() - 1]));
        assert forall|i: int| 0 <= i < d.len() implies !b.contains(#[trigger] d[i]) by {
            assert(!b.contains(a[i]));
        }
        lemma_missing_all(d, b);
        assert(d.push(a.last()) =~= a);
    } else {
        assert(missing(a, b) =~= a);
    }
}

proof fn lemma_missing_add(a: Seq<Seq<char>>, c: Seq<Seq<char>>, b: Seq<Seq<char>>)
    ensures
        missing(a + c, b) == missing(a, b) + missing(c, b),
    decreases c.len(),
{
    if c.len() == 0 {
        assert(a + c =~= a);
        assert(missing(a, b) + missing(c, b) =~= missing(a, b));
    } else {
        assert((a + c).drop_last() =~= a + c.drop_last());
        assert((a + c).last() == c.last());
        lemma_missing_add(a, c.drop_last(), b);
        assert(missing(a + c, b) =~= missing(a, b) + missing(c, b));
    }
}

/// Comparing an index with itself shows no change.
pub proof fn law_diff_of_same(schema: Schema, body: Seq<char>)
    ensures
        root_diff(schema, body, body).removed.len() == 0,
        root_diff(schema, body, body).added.len() == 0,
        root_diff(schema, body, body).order_preserved,
{
    let a = lines_after_header(schema, body);
    lemma_missing_none(a, a);
    lemma_missing_all(a, Seq::empty());
}

proof fn lemma_diff_of_insert(
    a: Seq<Seq<char>>,
    b1: Seq<Seq<char>>,
    b2: Seq<Seq<char>>,
    line: Seq<char>,
)
    requires
        forall|i: int| 0 <= i < b1.len() ==> a.contains(#[trigger] b1[i]),
        forall|i: int| 0 <= i < b2.len() ==> a.contains(#[trigger] b2[i]),
        forall|i: int| 0 <= i < a.len() ==> (b1 + b2).contains(#[trigger] a[i]),
        !a.contains(line),
    ensures
        missing(b1 + seq![line] + b2, a) == seq![line],
        missing(a, b1 + seq![line] + b2) == Seq::<Seq<char>>::empty(),
        b1 + b2 == a ==> missing(b1 + seq![line] + b2, seq![line]) == a,
{
    let m = seq![line];
    let b = b1 + m + b2;
    lemma_missing_none(b1, a);
    lemma_missing_none(b2, a);
    lemma_missing_all(m, a);
    lemma_missing_add(b1 + m, b2, a);
    lemma_missing_add(b1, m, a);
    assert(missing(b, a) =~= m);
    assert forall|i: int| 0 <= i < a.len() implies b.contains(#[trigger] a[i]) by {
        let k = choose|k: int| 0 <= k < (b1 + b2).len() && (b1 + b2)[k] == a[i];
        if k < b1.len() {
            assert(b[k] == a[i]);
        } else {
            assert(b[k + 1] == a[i]);
        }
    }
    lemma_missing_none(a, b);
    if b1 + b2 == a {
        assert forall|i: int| 0 <= i < b1.len() implies !m.contains(#[trigger] b1[i]) by {
            assert(a.contains(b1[i]));
        }
        assert forall|i: int| 0 <= i < b2.len() implies !m.contains(#[trigger] b2[i]) by {
            assert(a.contains(b2[i]));
        }
        lemma_missing_all(b1, m);
        lemma_missing_all(b2, m);
        assert(m.contains(m[0]));
        lemma_missing_none(m, m);
        lemma_missing_add(b1 + m, b2, m);
        lemma_missing_add(b1, m, m);
        assert(missing(b, m) =~= b1 + b2);
    }
}

proof fn lemma_root_label()
    ensures
        plain_label("."@),
        "."@.len() > 0,
{
    reveal_strlit(".");
    if "."@.contains(':') {
        let k = choose|k: int| 0 <= k < "."@.len() && "."@[k] == ':';
        assert(k == 0);
    }
    if "."@.contains('\n') {
        let k = choose|k: int| 0 <= k < "."@.len() && "."@[k] == '\n';
        assert(k == 0);
    }
}

/// The entry lines before and after a push of a new document.
proof fn lemma_lines_of_push(schema: Schema, body: Seq<char>, es: Seq<EntryView>, e: EntryView)
    requires
        index_of_lines(filled(lines(body))) == Ok::<_, ErrorView>((schema, es)),
        e.raw is None,
        writable(e),
        first_with(es, e.id) is None,
    ensures
        all_writable(es),
        with_entry(es, e) == es.push(e),
        lines_after_header(schema, body) == line_list(es, type_field(schema, true)),
        lines_after_header(schema, index_text(schema, "."@, es.push(e), true)) == line_list(
            by_id(es.push(e)),
            type_field(schema, true),
        ),
        by_id(es.push(e)).len() == es.len() + 1,
        !line_list(es, type_field(schema, true)).contains(
            entry_line(e, type_field(schema, true)),
        ),
{
    let kind = type_field(schema, true);
    let all = es.push(e);
    lemma_parsed_text_writable(body);
    lemma_first_with(es, e.id);
    assert forall|i: int| 0 <= i < all.len() implies writable(#[trigger] all[i]) by {
        if i < es.len() {
            assert(writable(es[i]));
        }
    }
    lemma_root_label();
    lemma_index_lines(schema, "."@, all, true);
    lemma_by_id_writable(all);
    let a = lines_after_header(schema, body);
    assert(a =~= line_list(es, kind)) by {
        assert forall|i: int| 0 <= i < a.len() implies a[i] == #[trigger] line_list(es, kind)[i] by {
            assert(es[i].raw == Some(a[i]));
        }
    }
    let line = entry_line(e, kind);
    lemma_entry_line(e, kind);
    if a.contains(line) {
        let i = choose|i: int| 0 <= i < a.len() && a[i] == line;
        assert(writable(es[i]));
        lemma_entry_line(es[i], kind);
        assert(es[i].id != e.id);
        assert(entry_of(a[i])->0.id == es[i].id);
    }
}

/// The lines of the sorted entries, with one more among them, against the
/// lines of the entries as they came.
proof fn lemma_diff_of_push(es: Seq<EntryView>, e: EntryView, kind: Seq<char>)
    requires
        !line_list(es, kind).contains(entry_line(e, kind)),
    ensures
        ({
            let a = line_list(es, kind);
            let b = line_list(by_id(es.push(e)), kind);
            let m = seq![entry_line(e, kind)];
            &&& missing(b, a) == m
            &&& missing(a, b) == Seq::<Seq<char>>::empty()
            &&& ascending(es) ==> missing(b, m) == a
        }),
{
    let line = entry_line(e, kind);
    let a = line_list(es, kind);
    let pos = lemma_by_id_push(es, e);
    let s = by_id(es);
    let b1 = line_list(s.take(pos), kind);
    let b2 = line_list(s.skip(pos), kind);
    assert(line_list(by_id(es.push(e)), kind) =~= b1 + seq![line] + b2);
    law_sorting_loses_nothing(es);
    assert forall|i: int| 0 <= i < s.len() implies a.contains(entry_line(#[trigger] s[i], kind)) by {
        let k = choose|k: int| 0 <= k < es.len() && es[k] == s[i];
        assert(a[k] == entry_line(s[i], kind));
    }
    assert forall|i: int| 0 <= i < b1.len() implies a.contains(#[trigger] b1[i]) by {
        assert(b1[i] == entry_line(s[i], kind));
    }
    assert forall|i: int| 0 <= i < b2.len() implies a.contains(#[trigger] b2[i]) by {
        assert(b2[i] == entry_line(s[i + pos], kind));
    }
    assert forall|i: int| 0 <= i < a.len() implies (b1 + b2).contains(#[trigger] a[i]) by {
        assert(s.contains(es[i]));
        let k = choose|k: int| 0 <= k < s.len() && s[k] == es[i];
        assert((b1 + b2)[k] == a[i]);
    }
    lemma_diff_of_insert(a, b1, b2, line);
    if ascending(es) {
        law_sorting_keeps_sorted(es);
        assert(b1 + b2 =~= a);
    }
}

/// A push of a new document rewrites the root without loss: against the index
/// the server sent, no line is removed, exactly one is added (the document's),
/// and the order of the old lines is kept where they were sorted by id.
pub proof fn law_push_keeps_every_line(
    schema: Schema,
    body: Seq<char>,
    es: Seq<EntryView>,
    e: EntryView,
)
    requires
        index_of_lines(filled(lines(body))) == Ok::<_, ErrorView>((schema, es)),
        e.raw is None,
        writable(e),
        first_with(es, e.id) is None,
    ensures
        ({
            let new_body = index_text(schema, "."@, with_entry(es, e), true);
            let d = root_diff(schema, body, new_body);
            &&& d.removed.len() == 0
            &&& d.added == seq![entry_line(e, type_field(schema, true))]
            &&& d.old_entries == es.len()
            &&& d.new_entries == es.len() + 1
            &&& ascending(es) ==> d.order_preserved
        }),
{
    let kind = type_field(schema, true);
    lemma_lines_of_push(schema, body, es, e);
    lemma_diff_of_push(es, e, kind);
}

/// A rewritten root re-emits, byte for byte, the line of every entry that has
/// another id than the document, and holds the document's own line; it has one
/// line more than before, or as many where the document was there already.
pub proof fn law_rewrite_keeps_other_lines(
    schema: Schema,
    body: Seq<char>,
    es: Seq<EntryView>,
    e: EntryView,
)
    requires
        index_of_lines(filled(lines(body))) == Ok::<_, ErrorView>((schema, es)),
        e.raw is None,
        writable(e),
    ensures
        ({
            let old = lines_after_header(schema, body);
            let new = lines_after_header(schema, index_text(schema, "."@, with_entry(es, e), true));
            &&& old.len() == es.len()
            &&& new.len() == es.len() + if first_with(es, e.id) is None {
                1int
            } else {
                0int
            }
            &&& new.contains(entry_line(e, type_field(schema, true)))
            &&& forall|k: int|
                0 <= k < es.len() && es[k].id != e.id ==> new.contains(#[trigger] old[k])
        }),
{
    let kind = type_field(schema, true);
    let all = with_entry(es, e);
    lemma_parsed_text_writable(body);
    lemma_first_with(es, e.id);
    law_replace_or_append(es, e);
    assert forall|i: int| 0 <= i < all.len() implies writable(#[trigger] all[i]) by {
        if i < es.len() {
            assert(writable(es[i]));
        }
    }
    lemma_root_label();
    lemma_index_lines(schema, "."@, all, true);
    law_sorting_loses_nothing(all);
    let s = by_id(all);
    let new = lines_after_header(schema, index_text(schema, "."@, all, true));
    assert(new =~= line_list(s, kind));
    let j = choose|j: int| 0 <= j < all.len() && all[j] == e;
    assert(s.contains(all[j]));
    let p = choose|p: int| 0 <= p < s.len() && s[p] == e;
    assert(new[p] == entry_line(e, kind));
    let old = lines_after_header(schema, body);
    assert forall|k: int| 0 <= k < es.len() && es[k].id != e.id implies new.contains(
        #[trigger] old[k],
    ) by {
        assert(es[k].raw == Some(old[k]));
        assert(all[k] == es[k]);
        assert(s.contains(all[k]));
        let q = choose|q: int| 0 <= q < s.len() && s[q] == es[k];
        assert(new[q] == entry_line(es[k], kind));
    }
}

proof fn lemma_hash_is_hex(schema: Schema, es: Seq<EntryView>, body: Seq<u8>)
    ensures
        index_hash(schema, es, body) matches Ok(h) ==> is_hex_text(h),
{
    law_hex_round_trip(sha256(body));
    if let Ok(b) = child_bytes(by_id(es)) {
        law_hex_round_trip(sha256(b));
    }
}

/// The index layer that a push plans keeps every line of the root it was
/// planned on. The root's entries are those its text holds, the document id is
/// a plain field that no entry has yet, and the document hash is not empty.
pub proof fn law_planned_root_keeps_every_line(
    schema: Schema,
    body: Seq<char>,
    es: Seq<EntryView>,
    doc_uuid: Seq<char>,
    doc_entries: Seq<EntryView>,
    planned: NewRootView,
)
    requires
        index_of_lines(filled(lines(body))) == Ok::<_, ErrorView>((schema, es)),
        plain_field(doc_uuid),
        first_with(es, doc_uuid) is None,
        planned_root(schema, es, doc_uuid, doc_entries) == Ok::<_, ErrorView>(planned),
        planned.doc_index_hash.len() > 0,
    ensures
        ({
            let d = root_diff(schema, body, decode_utf8(planned.root_body));
            let e = document_entry(doc_uuid, doc_entries, planned.doc_index_hash);
            &&& d.removed.len() == 0
            &&& d.added == seq![entry_line(e, type_field(schema, true))]
            &&& d.old_entries == es.len()
            &&& d.new_entries == es.len() + 1
            &&& ascending(es) ==> d.order_preserved
        }),
{
    let h = planned.doc_index_hash;
    let e = document_entry(doc_uuid, doc_entries, h);
    lemma_hash_is_hex(schema, doc_entries, doc_index_body(schema, doc_uuid, doc_entries));
    if h.contains(':') {
        let k = choose|k: int| 0 <= k < h.len() && h[k] == ':';
        assert(is_hex_digit(h[k]));
    }
    if h.contains('\n') {
        let k = choose|k: int| 0 <= k < h.len() && h[k] == '\n';
        assert(is_hex_digit(h[k]));
    }
    encode_utf8_decode_utf8(index_text(schema, "."@, with_entry(es, e), true));
    law_push_keeps_every_line(schema, body, es, e);
}

// ---------------------------------------------------------------------------
// The order in which entries are given
// ---------------------------------------------------------------------------

/// Whether no two entries have one id.
pub open spec fn distinct_ids(es: Seq<EntryView>) -> bool {
    forall|i: int, j: int|
        #![trigger es[i], es[j]]
        0 <= i < es.len() && 0 <= j < es.len() && i != j ==> es[i].id != es[j].id
}

proof fn lemma_total_size_remove(es: Seq<EntryView>, i: int)
    requires
        0 <= i < es.len(),
    ensures
        total_size(es) == total_size(es.remove(i)) + es[i].size,
    decreases es.len(),
{
    let last = es.len() - 1;
    if i == last {
        assert(es.remove(i) =~= es.drop_last());
    } else {
        lemma_total_size_remove(es.drop_last(), i);
        assert(es.remove(i).drop_last() =~= es.drop_last().remove(i));
        assert(es.remove(i).last() == es.last());
    }
}

proof fn lemma_same_entries_total(a: Seq<EntryView>, b: Seq<EntryView>)
    requires
        distinct_ids(a),
        distinct_ids(b),
        same_members(a, b),
    ensures
        a.len() == b.len(),
        total_size(a) == total_size(b),
    decreases a.len(),
{
    if a.len() == 0 {
        if b.len() > 0 {
            assert(a.contains(b[0]));
        }
    } else {
        let x = a.last();
        assert(b.contains(a[a.len() - 1]));
        let i = choose|i: int| 0 <= i < b.len() && b[i] == x;
        let a1 = a.drop_last();
        let b1 = b.remove(i);
        assert forall|k: int| 0 <= k < a1.len() implies b1.contains(#[trigger] a1[k]) by {
            assert(b.contains(a[k]));
            let m = choose|m: int| 0 <= m < b.len() && b[m] == a[k];
            assert(a[k].id != a[a.len() - 1].id);
            if m < i {
                assert(b1[m] == a1[k]);
            } else {
                assert(b1[m - 1] == a1[k]);
            }
        }
        assert forall|k: int| 0 <= k < b1.len() implies a1.contains(#[trigger] b1[k]) by {
            let kk = if k < i {
                k
            } else {
                k + 1
            };
            assert(b[kk] == b1[k]);
            assert(a.contains(b[kk]));
            let m = choose|m: int| 0 <= m < a.len() && a[m] == b[kk];
            assert(b[kk].id != b[i].id);
            assert(a1[m] == b1[k]);
        }
        assert(distinct_ids(b1)) by {
            assert forall|p: int, q: int|
                #![trigger b1[p], b1[q]]
                0 <= p < b1.len() && 0 <= q < b1.len() && p != q implies b1[p].id != b1[q].id by {
                let pp = if p < i {
                    p
                } else {
                    p + 1
                };
                let qq = if q < i {
                    q
                } else {
                    q + 1
                };
                assert(b[pp] == b1[p] && b[qq] == b1[q]);
            }
        }
        assert(distinct_ids(a1)) by {
            assert forall|p: int, q: int|
                #![trigger a1[p], a1[q]]
                0 <= p < a1.len() && 0 <= q < a1.len() && p != q implies a1[p].id != a1[q].id by {
                assert(a[p] == a1[p] && a[q] == a1[q]);
            }
        }
        lemma_same_entries_total(a1, b1);
        lemma_total_size_remove(b, i);
    }
}

/// The text and the hash of an index do not depend on the order in which its
/// entries are given, as long as no two have one id.
pub proof fn law_index_ignores_order(
    schema: Schema,
    label: Seq<char>,
    a: Seq<EntryView>,
    b: Seq<EntryView>,
    is_root: bool,
    body: Seq<u8>,
)
    requires
        distinct_ids(a),
        distinct_ids(b),
        same_members(a, b),
    ensures
        index_text(schema, label, a, is_root) == index_text(schema, label, b, is_root),
        index_hash(schema, a, body) == index_hash(schema, b, body),
{
    let key = |e: EntryView| e.id;
    assert(ids(a) =~= keys_of(a, key));
    assert(ids(b) =~= keys_of(b, key));
    law_sorting_forgets_order(a, b, key);
    lemma_same_entries_total(a, b);
}

} // verus!
