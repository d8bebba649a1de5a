//! Laws of a planned push: what its index blobs hold and what they are stored
//! under, and of the comparison of two roots.

use vstd::prelude::*;
use vstd::utf8::*;

use crate::codec::{
    hex_bytes, hex_text, is_hex_digit, is_hex_text, json_string, law_hex_round_trip, sha256,
};
use crate::error::ErrorView;
use crate::notebook::bundle_laws::{holds_in_order, lemma_longer_text, lemma_one_more_part};
use crate::order::{arranged, law_sorting_is_permutation, law_stable_order, lex_lt, stable_order};
use crate::sync_v3::index::{
    by_id, child_bytes, document_entry, entry_line, entry_of, filled, ids, index_hash, index_text,
    lines_after_header, missing, parsed_index, planned_root, pushed_entries, root_diff, total_size,
    totals_of, type_field, with_entry, EntryView, NewRootView, Schema,
};
use crate::sync_v3::laws::{
    all_writable, ascending, law_replace_or_append, law_serialize_round_trip,
    law_sorting_loses_nothing, lemma_entry_line, lemma_index_lines, lemma_split_plain,
    lemma_split_sep, line_list, plain_field, plain_label, read_back, writable,
};
use crate::sync_v3::upload::{redirection, root_update_json, success};
use crate::text::{decimal, is_blank, lines, signed_decimal, split, unsigned_value};

verus! {

// ---------------------------------------------------------------------------
// Hashes
// ---------------------------------------------------------------------------

/// The decoded hashes of entries, one behind the other.
pub open spec fn decoded_hashes(es: Seq<EntryView>) -> Seq<u8> {
    es.map_values(|e: EntryView| hex_bytes(e.hash)).flatten()
}

/// Whether every hash is hexadecimal.
pub open spec fn all_hex(es: Seq<EntryView>) -> bool {
    forall|i: int| 0 <= i < es.len() ==> is_hex_text((#[trigger] es[i]).hash)
}

proof fn lemma_child_bytes(es: Seq<EntryView>)
    ensures
        child_bytes(es) is Ok <==> all_hex(es),
        child_bytes(es) matches Ok(b) ==> b == decoded_hashes(es),
    decreases es.len(),
{
    let f = |e: EntryView| hex_bytes(e.hash);
    if es.len() == 0 {
        assert(decoded_hashes(es) =~= Seq::<u8>::empty());
    } else {
        let d = es.drop_last();
        lemma_child_bytes(d);
        assert(es.map_values(f) =~= d.map_values(f).push(f(es.last())));
        d.map_values(f).lemma_flatten_push(f(es.last()));
        if all_hex(es) {
            assert forall|i: int| 0 <= i < d.len() implies is_hex_text((#[trigger] d[i]).hash) by {
                assert(es[i] == d[i]);
            }
            assert(is_hex_text(es[es.len() - 1].hash));
        }
        if all_hex(d) && is_hex_text(es.last().hash) {
            assert forall|i: int| 0 <= i < es.len() implies is_hex_text((#[trigger] es[i]).hash) by {
                if i < d.len() {
                    assert(es[i] == d[i]);
                }
            }
        }
    }
}

proof fn lemma_hex_by_id(es: Seq<EntryView>)
    ensures
        all_hex(by_id(es)) <==> all_hex(es),
{
    law_sorting_loses_nothing(es);
    let s = by_id(es);
    if all_hex(s) {
        assert forall|i: int| 0 <= i < es.len() implies is_hex_text((#[trigger] es[i]).hash) by {
            assert(s.contains(es[i]));
            let k = choose|k: int| 0 <= k < s.len() && s[k] == es[i];
            assert(is_hex_text(s[k].hash));
        }
    }
    if all_hex(es) {
        assert forall|i: int| 0 <= i < s.len() implies is_hex_text((#[trigger] s[i]).hash) by {
            assert(es.contains(s[i]));
            let k = choose|k: int| 0 <= k < es.len() && es[k] == s[i];
            assert(is_hex_text(es[k].hash));
        }
    }
}

/// Under schema 4 every index blob of a push is stored under the SHA-256 of its
/// own bytes: the document index, and the root index.
pub proof fn law_blobs_are_stored_under_their_hash(
    root_entries: Seq<EntryView>,
    doc_uuid: Seq<char>,
    doc_entries: Seq<EntryView>,
)
    ensures
        planned_root(Schema::V4, root_entries, doc_uuid, doc_entries) is Ok,
        ({
            let n = planned_root(Schema::V4, root_entries, doc_uuid, doc_entries)->Ok_0;
            &&& n.doc_index_hash == hex_text(sha256(n.doc_body))
            &&& n.root_hash == hex_text(sha256(n.root_body))
        }),
{
}

proof fn lemma_read_hashes(es: Seq<EntryView>, kind: Seq<char>)
    ensures
        decoded_hashes(Seq::new(es.len(), |i: int| read_back(by_id(es)[i], kind)))
            == decoded_hashes(by_id(es)),
{
    law_sorting_loses_nothing(es);
    let f = |e: EntryView| hex_bytes(e.hash);
    let r = Seq::new(es.len(), |i: int| read_back(by_id(es)[i], kind));
    assert(r.map_values(f) =~= by_id(es).map_values(f));
}

/// Under schema 3 each index of a push is named by the SHA-256 of the decoded
/// hashes of the entries that its blob holds, in the order of its lines.
pub proof fn law_old_indexes_are_named_by_their_children(
    root_entries: Seq<EntryView>,
    doc_uuid: Seq<char>,
    doc_entries: Seq<EntryView>,
    n: NewRootView,
)
    requires
        planned_root(Schema::V3, root_entries, doc_uuid, doc_entries) == Ok::<_, ErrorView>(n),
        all_writable(doc_entries),
    ensures
        parsed_index(n.doc_body) is Ok,
        n.doc_index_hash == hex_text(sha256(decoded_hashes((parsed_index(n.doc_body)->Ok_0).1))),
        all_writable(root_entries) && plain_field(doc_uuid) && n.doc_index_hash.len() > 0
            ==> parsed_index(n.root_body) is Ok && n.root_hash == hex_text(
            sha256(decoded_hashes((parsed_index(n.root_body)->Ok_0).1)),
        ),
{
    law_serialize_round_trip(Schema::V3, doc_uuid, doc_entries, false);
    lemma_read_hashes(doc_entries, type_field(Schema::V3, false));
    lemma_child_bytes(by_id(doc_entries));
    let es = pushed_entries(root_entries, doc_uuid, doc_entries, n.doc_index_hash);
    lemma_child_bytes(by_id(es));
    if all_writable(root_entries) && plain_field(doc_uuid) && n.doc_index_hash.len() > 0 {
        lemma_pushed_writable(Schema::V3, root_entries, doc_uuid, doc_entries, n);
        law_serialize_round_trip(Schema::V3, "."@, es, true);
        lemma_read_hashes(es, type_field(Schema::V3, true));
    }
}

proof fn lemma_hash_field(data: Seq<u8>)
    requires
        hex_text(sha256(data)).len() > 0,
    ensures
        plain_field(hex_text(sha256(data))),
{
    law_hex_round_trip(sha256(data));
    let h = hex_text(sha256(data));
    if h.contains(':') {
        let k = choose|k: int| 0 <= k < h.len() && h[k] == ':';
        assert(is_hex_digit(h[k]));
    }
    if h.contains('\n') {
        let k = choose|k: int| 0 <= k < h.len() && h[k] == '\n';
        assert(is_hex_digit(h[k]));
    }
}

proof fn lemma_pushed_writable(
    schema: Schema,
    root_entries: Seq<EntryView>,
    doc_uuid: Seq<char>,
    doc_entries: Seq<EntryView>,
    n: NewRootView,
)
    requires
        planned_root(schema, root_entries, doc_uuid, doc_entries) == Ok::<_, ErrorView>(n),
        all_writable(root_entries),
        plain_field(doc_uuid),
        n.doc_index_hash.len() > 0,
    ensures
        all_writable(pushed_entries(root_entries, doc_uuid, doc_entries, n.doc_index_hash)),
{
    let e = document_entry(doc_uuid, doc_entries, n.doc_index_hash);
    let es = with_entry(root_entries, e);
    match schema {
        Schema::V4 => lemma_hash_field(n.doc_body),
        Schema::V3 => {
            if let Ok(b) = child_bytes(by_id(doc_entries)) {
                lemma_hash_field(b);
            }
        },
    }
    assert(writable(e));
    crate::sync_v3::index::lemma_first_with(root_entries, doc_uuid);
    assert forall|i: int| 0 <= i < es.len() implies writable(#[trigger] es[i]) by {
        if es[i] != e {
            assert(es[i] == root_entries[i]);
        }
    }
}

/// Planning a push fails exactly under schema 3, where a hash that goes into an
/// index is not hexadecimal.
pub proof fn law_planning_fails_on_bad_hashes_alone(
    schema: Schema,
    root_entries: Seq<EntryView>,
    doc_uuid: Seq<char>,
    doc_entries: Seq<EntryView>,
)
    ensures
        planned_root(schema, root_entries, doc_uuid, doc_entries) is Ok <==> (schema == Schema::V4
            || (all_hex(doc_entries) && all_hex(
            with_entry(root_entries, document_entry(doc_uuid, doc_entries, Seq::empty())),
        ))),
{
    if schema == Schema::V3 {
        lemma_child_bytes(by_id(doc_entries));
        lemma_hex_by_id(doc_entries);
        if all_hex(doc_entries) {
            let h = index_hash(
                schema,
                doc_entries,
                crate::sync_v3::index::doc_index_body(schema, doc_uuid, doc_entries),
            )->Ok_0;
            law_hex_round_trip(sha256(child_bytes(by_id(doc_entries))->Ok_0));
            assert(is_hex_text(h));
            let a = pushed_entries(root_entries, doc_uuid, doc_entries, h);
            let b = with_entry(root_entries, document_entry(doc_uuid, doc_entries, Seq::empty()));
            lemma_child_bytes(by_id(a));
            lemma_hex_by_id(a);
            crate::sync_v3::index::lemma_first_with(root_entries, doc_uuid);
            assert(a.len() == b.len());
            assert forall|i: int| 0 <= i < a.len() implies is_hex_text((#[trigger] a[i]).hash)
                == is_hex_text(b[i].hash) by {
                assert(is_hex_text(Seq::<char>::empty()));
            }
            if all_hex(b) {
                assert forall|i: int| 0 <= i < a.len() implies is_hex_text(
                    (#[trigger] a[i]).hash,
                ) by {
                    assert(is_hex_text(b[i].hash));
                }
            }
            if all_hex(a) {
                assert forall|i: int| 0 <= i < b.len() implies is_hex_text(
                    (#[trigger] b[i]).hash,
                ) by {
                    assert(is_hex_text(a[i].hash));
                }
            }
        }
    }
}

// ---------------------------------------------------------------------------
// What the blobs hold
// ---------------------------------------------------------------------------

/// What an entry says: hash, id, number of files and size.
pub open spec fn fields_of(es: Seq<EntryView>) -> Seq<(Seq<char>, Seq<char>, u32, u64)> {
    es.map_values(|e: EntryView| (e.hash, e.id, e.subfiles, e.size))
}

proof fn lemma_fields_by_id(es: Seq<EntryView>)
    ensures
        fields_of(by_id(es)).to_multiset() == fields_of(es).to_multiset(),
        ascending(by_id(es)),
{
    law_stable_order(ids(es));
    law_sorting_is_permutation(fields_of(es), ids(es));
    let p = stable_order(ids(es));
    assert(fields_of(by_id(es)) =~= arranged(fields_of(es), p));
    let s = by_id(es);
    assert forall|i: int, j: int| #![trigger s[i], s[j]] 0 <= i < j < s.len() implies !lex_lt(
        s[j].id,
        s[i].id,
    ) by {
        crate::order::law_lex_trichotomy(s[i].id, s[j].id);
        assert(p[i] != p[j]);
        assert(ids(es)[p[i]] == es[p[i]].id && ids(es)[p[j]] == es[p[j]].id);
    }
}

/// An index blob lists exactly its entries, in ascending order of id: what is
/// read from it says the same as what went in, entry by entry, each as often.
pub proof fn law_blob_lists_its_entries(
    schema: Schema,
    label: Seq<char>,
    es: Seq<EntryView>,
    is_root: bool,
)
    requires
        all_writable(es),
        schema == Schema::V4 && label.len() > 0 ==> plain_label(label),
    ensures
        ({
            let r = parsed_index(encode_utf8(index_text(schema, label, es, is_root)));
            &&& r is Ok
            &&& (r->Ok_0).0 == schema
            &&& fields_of((r->Ok_0).1).to_multiset() == fields_of(es).to_multiset()
            &&& ascending((r->Ok_0).1)
        }),
{
    law_serialize_round_trip(schema, label, es, is_root);
    lemma_fields_by_id(es);
    let kind = type_field(schema, is_root);
    law_sorting_loses_nothing(es);
    let r = Seq::new(es.len(), |i: int| read_back(by_id(es)[i], kind));
    assert(fields_of(r) =~= fields_of(by_id(es)));
    assert forall|i: int, j: int| #![trigger r[i], r[j]] 0 <= i < j < r.len() implies !lex_lt(
        r[j].id,
        r[i].id,
    ) by {
        assert(r[i].id == by_id(es)[i].id && r[j].id == by_id(es)[j].id);
    }
}

/// The sizes of entries add up.
pub proof fn law_sizes_add_up(a: Seq<EntryView>, b: Seq<EntryView>)
    ensures
        total_size(a + b) == total_size(a) + total_size(b),
        a.len() == 1 ==> total_size(a) == a[0].size,
    decreases b.len(),
{
    if a.len() == 1 {
        assert(a.drop_last() =~= Seq::<EntryView>::empty());
        assert(total_size(a.drop_last()) == 0);
    }
    if b.len() == 0 {
        assert(a + b =~= a);
    } else {
        law_sizes_add_up(a, b.drop_last());
        assert((a + b).drop_last() =~= a + b.drop_last());
    }
}

/// An index begins with its schema, `3` or `4`. Under schema 4 a line of totals
/// follows, with the label, the number of entries and their size; then comes
/// one line for each entry and nothing else.
pub proof fn law_index_begins_with_its_totals(
    schema: Schema,
    label: Seq<char>,
    es: Seq<EntryView>,
    is_root: bool,
)
    requires
        all_writable(es),
        plain_label(label),
        label.len() > 0,
    ensures
        ({
            let ls = filled(lines(index_text(schema, label, es, is_root)));
            &&& schema == Schema::V3 ==> ls.len() == 1 + es.len() && ls[0] == seq!['3']
            &&& schema == Schema::V4 ==> ls.len() == 2 + es.len() && ls[0] == seq!['4'] && split(
                ls[1],
                ':',
            ) == seq![seq!['0'], label, decimal(es.len()), decimal(total_size(es))]
        }),
{
    lemma_index_lines(schema, label, es, is_root);
    reveal_strlit("3");
    reveal_strlit("4");
    assert("3"@ =~= seq!['3']);
    assert("4"@ =~= seq!['4']);
    if schema == Schema::V4 {
        lemma_totals_fields(label, es.len(), total_size(es));
    }
}

proof fn lemma_totals_fields(label: Seq<char>, count: nat, total: nat)
    requires
        !label.contains(':'),
    ensures
        split(crate::sync_v3::index::totals_line(label, count, total), ':') == seq![
            seq!['0'],
            label,
            decimal(count),
            decimal(total),
        ],
{
    reveal_strlit("0:");
    reveal_strlit(":");
    let none = Seq::<char>::empty();
    let zero = seq!['0'];
    assert(!zero.contains(':'));
    lemma_no_colon(count);
    lemma_no_colon(total);
    lemma_split_plain(none, zero, ':');
    assert(none + zero =~= zero);
    assert(split(zero, ':') =~= seq![zero]);
    lemma_field(zero, label);
    let a = zero.push(':') + label;
    lemma_field(a, decimal(count));
    let b = a.push(':') + decimal(count);
    lemma_field(b, decimal(total));
    assert(crate::sync_v3::index::totals_line(label, count, total) =~= b.push(':') + decimal(
        total,
    ));
    assert(split(b.push(':') + decimal(total), ':') =~= seq![
        zero,
        label,
        decimal(count),
        decimal(total),
    ]);
}

proof fn lemma_no_colon(n: nat)
    ensures
        !decimal(n).contains(':'),
{
    crate::text::lemma_decimal_digits(n);
    let d = decimal(n);
    if d.contains(':') {
        let k = choose|k: int| 0 <= k < d.len() && d[k] == ':';
        assert(crate::text::is_digit(d[k]));
    }
}

proof fn lemma_field(s: Seq<char>, f: Seq<char>)
    requires
        !f.contains(':'),
    ensures
        split(s.push(':') + f, ':') == split(s, ':').push(f),
{
    lemma_split_sep(s, ':');
    lemma_split_plain(s.push(':'), f, ':');
    let p = split(s, ':').push(Seq::<char>::empty());
    assert(Seq::<char>::empty() + f =~= f);
    assert(p.update(p.len() - 1, f) =~= split(s, ':').push(f));
}

/// The root that a push plans names the document once more or anew: one entry
/// with its id, the hash of its index, the number of its files and their size,
/// on a line of type `80000000` under schema 3 and `0` under schema 4. Every
/// entry with another id is there as before, and there is no other entry.
pub proof fn law_planned_root_names_the_document(
    schema: Schema,
    root_entries: Seq<EntryView>,
    doc_uuid: Seq<char>,
    doc_entries: Seq<EntryView>,
    n: NewRootView,
)
    requires
        planned_root(schema, root_entries, doc_uuid, doc_entries) == Ok::<_, ErrorView>(n),
        all_writable(root_entries),
        plain_field(doc_uuid),
        n.doc_index_hash.len() > 0,
        doc_entries.len() <= u32::MAX,
        total_size(doc_entries) <= u64::MAX,
    ensures
        parsed_index(n.root_body) is Ok,
        ({
            let (s, rs) = parsed_index(n.root_body)->Ok_0;
            &&& s == schema
            &&& ascending(rs)
            &&& exists|j: int|
                0 <= j < rs.len() && (#[trigger] rs[j]).id == doc_uuid && rs[j].hash
                    == n.doc_index_hash && rs[j].subfiles == doc_entries.len() && rs[j].size
                    == total_size(doc_entries) && rs[j].raw is Some && split(rs[j].raw->0, ':')[1]
                    == (if schema == Schema::V3 {
                    "80000000"@
                } else {
                    "0"@
                })
            &&& forall|i: int|
                0 <= i < root_entries.len() && (#[trigger] root_entries[i]).id != doc_uuid
                    ==> exists|j: int|
                    0 <= j < rs.len() && (#[trigger] rs[j]).id == root_entries[i].id && rs[j].hash
                        == root_entries[i].hash && rs[j].subfiles == root_entries[i].subfiles
                        && rs[j].size == root_entries[i].size && (root_entries[i].raw is Some
                        ==> rs[j].raw == root_entries[i].raw)
            &&& rs.len() == root_entries.len() + if exists|i: int|
                0 <= i < root_entries.len() && (#[trigger] root_entries[i]).id == doc_uuid {
                0int
            } else {
                1int
            }
        }),
{
    let e = document_entry(doc_uuid, doc_entries, n.doc_index_hash);
    let es = with_entry(root_entries, e);
    let kind = type_field(schema, true);
    lemma_pushed_writable(schema, root_entries, doc_uuid, doc_entries, n);
    reveal_strlit(".");
    assert(!"."@.contains(':') && !"."@.contains('\n'));
    law_serialize_round_trip(schema, "."@, es, true);
    law_blob_lists_its_entries(schema, "."@, es, true);
    law_replace_or_append(root_entries, e);
    law_sorting_loses_nothing(es);
    crate::sync_v3::index::lemma_first_with(root_entries, doc_uuid);
    let sorted = by_id(es);
    let rs = Seq::new(es.len(), |i: int| read_back(sorted[i], kind));
    assert(es.contains(e));
    let a = choose|a: int| 0 <= a < es.len() && es[a] == e;
    assert(sorted.contains(es[a]));
    let j = choose|j: int| 0 <= j < sorted.len() && sorted[j] == e;
    assert(writable(e)) by {
        assert(writable(es[a]));
    }
    lemma_line_type(e, kind, schema);
    assert(rs[j] == read_back(e, kind));
    assert(rs[j].id == doc_uuid);
    assert forall|i: int|
        0 <= i < root_entries.len() && (#[trigger] root_entries[i]).id != doc_uuid implies exists|
        j: int,
    |
        0 <= j < rs.len() && (#[trigger] rs[j]).id == root_entries[i].id && rs[j].hash
            == root_entries[i].hash && rs[j].subfiles == root_entries[i].subfiles && rs[j].size
            == root_entries[i].size && (root_entries[i].raw is Some ==> rs[j].raw
            == root_entries[i].raw) by {
        assert(es[i] == root_entries[i]);
        assert(sorted.contains(es[i]));
        let k = choose|k: int| 0 <= k < sorted.len() && sorted[k] == es[i];
        assert(rs[k] == read_back(root_entries[i], kind));
    }
}

proof fn lemma_line_type(e: EntryView, kind: Seq<char>, schema: Schema)
    requires
        e.raw is None,
        writable(e),
        kind == type_field(schema, true),
    ensures
        split(entry_line(e, kind), ':')[1] == kind,
        kind == (if schema == Schema::V3 {
            "80000000"@
        } else {
            "0"@
        }),
{
    reveal_strlit(":");
    reveal_strlit("0");
    reveal_strlit("80000000");
    assert(!kind.contains(':'));
    let none = Seq::<char>::empty();
    lemma_split_plain(none, e.hash, ':');
    assert(none + e.hash =~= e.hash);
    assert(split(e.hash, ':') =~= seq![e.hash]);
    lemma_field(e.hash, kind);
    let a = e.hash.push(':') + kind;
    lemma_field(a, e.id);
    let b = a.push(':') + e.id;
    lemma_no_colon(e.subfiles as nat);
    lemma_no_colon(e.size as nat);
    lemma_field(b, decimal(e.subfiles as nat));
    let c = b.push(':') + decimal(e.subfiles as nat);
    lemma_field(c, decimal(e.size as nat));
    assert(entry_line(e, kind) =~= c.push(':') + decimal(e.size as nat));
    assert(split(c.push(':') + decimal(e.size as nat), ':')[1] == kind);
}

// ---------------------------------------------------------------------------
// Lines
// ---------------------------------------------------------------------------

/// A line of five fields is an entry exactly when its hash and its id are not
/// empty and the last two fields are numbers that fit; it says what its fields
/// say and keeps the line.
pub proof fn law_entry_says_what_its_fields_say(
    hash: Seq<char>,
    kind: Seq<char>,
    id: Seq<char>,
    files: Seq<char>,
    size: Seq<char>,
)
    requires
        !hash.contains(':'),
        !kind.contains(':'),
        !id.contains(':'),
        !files.contains(':'),
        !size.contains(':'),
    ensures
        ({
            let line = hash.push(':') + kind.push(':') + id.push(':') + files.push(':') + size;
            let r = entry_of(line);
            let f = unsigned_value(files, u32::MAX as nat);
            let z = unsigned_value(size, u64::MAX as nat);
            &&& r is Some <==> hash.len() > 0 && id.len() > 0 && f is Some && z is Some
            &&& r is Some ==> r->0.hash == hash && r->0.id == id && r->0.subfiles == f->0
                && r->0.size == z->0 && r->0.raw == Some(line)
        }),
{
    let line = hash.push(':') + kind.push(':') + id.push(':') + files.push(':') + size;
    let none = Seq::<char>::empty();
    lemma_split_plain(none, hash, ':');
    assert(none + hash =~= hash);
    assert(split(hash, ':') =~= seq![hash]);
    lemma_field(hash, kind);
    let a = hash.push(':') + kind;
    lemma_field(a, id);
    let b = a.push(':') + id;
    lemma_field(b, files);
    let c = b.push(':') + files;
    lemma_field(c, size);
    assert(line =~= c.push(':') + size);
    assert(split(line, ':') =~= seq![hash, kind, id, files, size]);
}

/// A line with fewer or more than five fields is no entry.
pub proof fn law_entries_have_five_fields(fields: Seq<Seq<char>>, line: Seq<char>)
    requires
        split(line, ':') == fields,
        fields.len() != 5,
    ensures
        entry_of(line) is None,
{
}

// ---------------------------------------------------------------------------
// Comparing two roots
// ---------------------------------------------------------------------------

proof fn lemma_missing(a: Seq<Seq<char>>, b: Seq<Seq<char>>, l: Seq<char>)
    ensures
        missing(a, b).contains(l) <==> a.contains(l) && !b.contains(l),
        missing(a, b).len() <= a.len(),
    decreases a.len(),
{
    if a.len() > 0 {
        let d = a.drop_last();
        let x = a.last();
        lemma_missing(d, b, l);
        assert(a[a.len() - 1] == x);
        if a.contains(l) {
            let k = choose|k: int| 0 <= k < a.len() && a[k] == l;
            if k < d.len() {
                assert(d[k] == l);
            }
        }
        if d.contains(l) {
            let k = choose|k: int| 0 <= k < d.len() && d[k] == l;
            assert(a[k] == l);
        }
        let m = missing(d, b);
        let r = missing(a, b);
        if !b.contains(x) {
            assert(r[m.len() as int] == x);
            if m.contains(l) {
                let k = choose|k: int| 0 <= k < m.len() && m[k] == l;
                assert(r[k] == l);
            }
            if r.contains(l) {
                let k = choose|k: int| 0 <= k < r.len() && r[k] == l;
                if k < m.len() {
                    assert(m[k] == l);
                }
            }
        }
    } else {
        assert(!missing(a, b).contains(l));
        assert(!a.contains(l));
    }
}

/// A comparison tells every change: a line counts as removed exactly when it is
/// in the old root and not in the new one, and as added exactly when it is in
/// the new one and not in the old one. It counts the lines of both.
pub proof fn law_diff_tells_every_change(
    schema: Schema,
    old_body: Seq<char>,
    new_body: Seq<char>,
    line: Seq<char>,
)
    ensures
        ({
            let d = root_diff(schema, old_body, new_body);
            let a = lines_after_header(schema, old_body);
            let b = lines_after_header(schema, new_body);
            &&& d.removed.contains(line) <==> a.contains(line) && !b.contains(line)
            &&& d.added.contains(line) <==> b.contains(line) && !a.contains(line)
            &&& d.old_entries == a.len()
            &&& d.new_entries == b.len()
            &&& d.old_totals == totals_of(schema, old_body)
            &&& d.new_totals == totals_of(schema, new_body)
        }),
{
    lemma_missing(lines_after_header(schema, old_body), lines_after_header(schema, new_body), line);
    lemma_missing(lines_after_header(schema, new_body), lines_after_header(schema, old_body), line);
}

proof fn lemma_missing_subsequence(a: Seq<Seq<char>>, b: Seq<Seq<char>>) -> (at: Seq<int>)
    ensures
        at.len() == missing(a, b).len(),
        forall|i: int|
            0 <= i < at.len() ==> 0 <= #[trigger] at[i] < a.len() && a[at[i]] == missing(a, b)[i],
        forall|i: int, j: int| 0 <= i < j < at.len() ==> #[trigger] at[i] < #[trigger] at[j],
    decreases a.len(),
{
    if a.len() == 0 {
        Seq::empty()
    } else {
        let d = a.drop_last();
        let at = lemma_missing_subsequence(d, b);
        if b.contains(a.last()) {
            assert forall|i: int| 0 <= i < at.len() implies 0 <= #[trigger] at[i] < a.len()
                && a[at[i]] == missing(a, b)[i] by {
                assert(d[at[i]] == a[at[i]]);
            }
            at
        } else {
            let r = at.push(a.len() - 1);
            assert forall|i: int| 0 <= i < r.len() implies 0 <= #[trigger] r[i] < a.len()
                && a[r[i]] == missing(a, b)[i] by {
                if i < at.len() {
                    assert(r[i] == at[i]);
                    assert(d[at[i]] == a[at[i]]);
                }
            }
            assert forall|i: int, j: int| 0 <= i < j < r.len() implies #[trigger] r[i]
                < #[trigger] r[j] by {
                assert(r[i] == at[i]);
                if j < at.len() {
                    assert(r[j] == at[j]);
                }
            }
            r
        }
    }
}

/// Where a comparison says that the order is kept, the old lines all stand in
/// the new root, in their order.
pub proof fn law_kept_order_means_kept_lines(
    schema: Schema,
    old_body: Seq<char>,
    new_body: Seq<char>,
)
    requires
        root_diff(schema, old_body, new_body).order_preserved,
    ensures
        ({
            let a = lines_after_header(schema, old_body);
            let b = lines_after_header(schema, new_body);
            exists|at: Seq<int>|
                #![trigger at.len()]
                at.len() == a.len() && (forall|i: int|
                    0 <= i < at.len() ==> 0 <= #[trigger] at[i] < b.len() && b[at[i]] == a[i]) && (
                forall|i: int, j: int|
                    0 <= i < j < at.len() ==> #[trigger] at[i] < #[trigger] at[j])
        }),
{
    let a = lines_after_header(schema, old_body);
    let b = lines_after_header(schema, new_body);
    let at = lemma_missing_subsequence(b, missing(b, a));
    assert(missing(b, missing(b, a)) == a);
    assert(at.len() == a.len());
}

/// The lines of a document index that were written here are of type `0` under
/// both schemas.
pub proof fn law_document_lines_are_of_type_zero(
    schema: Schema,
    root_entries: Seq<EntryView>,
    doc_uuid: Seq<char>,
    doc_entries: Seq<EntryView>,
    n: NewRootView,
    j: int,
)
    requires
        planned_root(schema, root_entries, doc_uuid, doc_entries) == Ok::<_, ErrorView>(n),
        all_writable(doc_entries),
        plain_label(doc_uuid),
        forall|i: int| 0 <= i < doc_entries.len() ==> (#[trigger] doc_entries[i]).raw is None,
        0 <= j < doc_entries.len(),
    ensures
        parsed_index(n.doc_body) is Ok,
        (parsed_index(n.doc_body)->Ok_0).1.len() == doc_entries.len(),
        (parsed_index(n.doc_body)->Ok_0).1[j].raw is Some,
        split((parsed_index(n.doc_body)->Ok_0).1[j].raw->0, ':')[1] == seq!['0'],
{
    law_serialize_round_trip(schema, doc_uuid, doc_entries, false);
    law_sorting_loses_nothing(doc_entries);
    let s = by_id(doc_entries);
    assert(doc_entries.contains(s[j]));
    let k = choose|k: int| 0 <= k < doc_entries.len() && doc_entries[k] == s[j];
    assert(writable(doc_entries[k]));
    assert(doc_entries[k].raw is None);
    let kind = type_field(schema, false);
    reveal_strlit("0");
    assert("0"@ =~= seq!['0']);
    lemma_second_field(s[j], kind);
}

proof fn lemma_second_field(e: EntryView, kind: Seq<char>)
    requires
        e.raw is None,
        writable(e),
        !kind.contains(':'),
    ensures
        split(entry_line(e, kind), ':')[1] == kind,
{
    reveal_strlit(":");
    let none = Seq::<char>::empty();
    lemma_split_plain(none, e.hash, ':');
    assert(none + e.hash =~= e.hash);
    assert(split(e.hash, ':') =~= seq![e.hash]);
    lemma_field(e.hash, kind);
    let a = e.hash.push(':') + kind;
    lemma_field(a, e.id);
    let b = a.push(':') + e.id;
    lemma_no_colon(e.subfiles as nat);
    lemma_no_colon(e.size as nat);
    lemma_field(b, decimal(e.subfiles as nat));
    let c = b.push(':') + decimal(e.subfiles as nat);
    lemma_field(c, decimal(e.size as nat));
    assert(entry_line(e, kind) =~= c.push(':') + decimal(e.size as nat));
    assert(split(c.push(':') + decimal(e.size as nat), ':')[1] == kind);
}

/// Reading an index passes over blank lines and no others.
pub proof fn law_only_blank_lines_are_passed_over(
    a: Seq<Seq<char>>,
    b: Seq<Seq<char>>,
    l: Seq<char>,
)
    ensures
        filled(a + b) == filled(a) + filled(b),
        is_blank(l) ==> filled(seq![l]).len() == 0,
        !is_blank(l) ==> filled(seq![l]) == seq![l],
    decreases b.len(),
{
    let none = Seq::<Seq<char>>::empty();
    assert(seq![l].drop_last() =~= none);
    assert(filled(none) =~= none);
    assert(none.push(l) =~= seq![l]);
    if b.len() == 0 {
        assert(a + b =~= a);
        assert(filled(a) + filled(b) =~= filled(a));
    } else {
        law_only_blank_lines_are_passed_over(a, b.drop_last(), l);
        assert((a + b).drop_last() =~= a + b.drop_last());
        assert(filled(a + b) =~= filled(a) + filled(b));
    }
}

/// The body of the request that moves the root pointer names the hash, then the
/// generation that guards the move.
pub proof fn law_root_update_names_hash_and_generation(hash: Seq<char>, generation: int)
    ensures
        holds_in_order(
            root_update_json(hash, generation),
            seq![json_string(hash), signed_decimal(generation)],
        ),
{
    let e = Seq::<char>::empty();
    let none = Seq::<Seq<char>>::empty();
    let g = "{\"broadcast\":true,\"hash\":"@;
    let h = json_string(hash);
    lemma_one_more_part(e, none, g, h);
    assert(e + g =~= g);
    let t = g + h;
    let s = none.push(h);
    let n = signed_decimal(generation);
    lemma_one_more_part(t, s, ",\"generation\":"@, n);
    lemma_longer_text(t + ",\"generation\":"@ + n, "}"@, s.push(n));
    assert(s.push(n) =~= seq![h, n]);
}

/// A status is one of success when its first digit is 2, and a redirection when
/// it is 3; a server's answer is never both.
pub proof fn law_statuses_by_their_first_digit(status: u16)
    ensures
        success(status) <==> status / 100 == 2,
        redirection(status) <==> status / 100 == 3,
{
}

/// A refused request keeps the server's status and words. A second try is worth
/// it after a lost connection, a timeout, a full or failing server, and after
/// nothing else.
pub proof fn law_second_tries(e: ErrorView)
    ensures
        e is Api ==> (e.retryable() <==> (e->Api_status == 408 || e->Api_status == 429
            || e->Api_status == 500 || (502 <= e->Api_status <= 504))),
        e is Network ==> e.retryable() == (e->timeout || e->connect || e->request),
        e is RateLimited ==> e.retryable(),
        e is Unauthorized || e is NotAuthenticated || e is AuthExpired ==> !e.retryable(),
        e is InvalidResponse || e is Other || e is Cancelled || e is Json ==> !e.retryable(),
{
}

/// What is written is found again: the line of totals of an index, where it has
/// one, and behind it one line for each entry, in ascending order of id.
pub proof fn law_written_lines_are_found(
    schema: Schema,
    label: Seq<char>,
    es: Seq<EntryView>,
    is_root: bool,
)
    requires
        all_writable(es),
        plain_label(label),
        label.len() > 0,
    ensures
        ({
            let t = index_text(schema, label, es, is_root);
            &&& schema == Schema::V3 ==> totals_of(schema, t) is None
            &&& schema == Schema::V4 ==> totals_of(schema, t) is Some && split(
                totals_of(schema, t)->0,
                ':',
            ) == seq![seq!['0'], label, decimal(es.len()), decimal(total_size(es))]
            &&& lines_after_header(schema, t).len() == es.len()
            &&& forall|i: int|
                0 <= i < es.len() ==> entry_of(#[trigger] lines_after_header(schema, t)[i]) is Some
        }),
{
    lemma_index_lines(schema, label, es, is_root);
    law_sorting_loses_nothing(es);
    let kind = type_field(schema, is_root);
    let t = index_text(schema, label, es, is_root);
    if schema == Schema::V4 {
        lemma_totals_fields(label, es.len(), total_size(es));
    }
    let s = by_id(es);
    assert forall|i: int| 0 <= i < es.len() implies entry_of(
        #[trigger] lines_after_header(schema, t)[i],
    ) is Some by {
        assert(lines_after_header(schema, t)[i] == line_list(s, kind)[i]);
        assert(es.contains(s[i]));
        let k = choose|k: int| 0 <= k < es.len() && es[k] == s[i];
        assert(writable(es[k]));
        lemma_entry_line(s[i], kind);
    }
}

} // verus!
