//! The listing of a library: what could and what could not be read.

use vstd::prelude::*;

use crate::error::{Error, ErrorView, Result};
use crate::notebook::bundle_laws::{
    holds_in_order, lemma_longer_text, lemma_one_more_part, lemma_parts_add,
};
use crate::order::{
    arranged, distinct_keys, keys_of, law_lex_trichotomy, law_sorting_forgets_order,
    law_sorting_is_permutation, law_stable_order, lex_lt, order_of, positions, stable_order,
};
use crate::sync_v3::index::{parse_index, parsed_index, EntryView, IndexEntry};
use crate::text::{
    chars_of, decimal, ends_with, has_suffix, lemma_views_push, opt_view, push_decimal,
    push_wide_decimal, str_eq, views,
};

verus! {

/// One row of a listing.
#[derive(Debug)]
pub struct DocumentInfo {
    pub id: String,
    pub visible_name: String,
    /// Either `"DocumentType"` or `"CollectionType"` (folder), matching the
    /// device-side metadata format.
    pub doc_type: String,
    pub parent: Option<String>,
    pub deleted: bool,
}

/// The mathematical value of a [`DocumentInfo`].
pub struct DocumentView {
    pub id: Seq<char>,
    pub visible_name: Seq<char>,
    pub doc_type: Seq<char>,
    pub parent: Option<Seq<char>>,
    pub deleted: bool,
}

impl View for DocumentInfo {
    type V = DocumentView;

    open spec fn view(&self) -> DocumentView {
        DocumentView {
            id: self.id@,
            visible_name: self.visible_name@,
            doc_type: self.doc_type@,
            parent: opt_view(self.parent),
            deleted: self.deleted,
        }
    }
}

impl DocumentView {
    /// Whether the item is a folder.
    pub open spec fn folder(self) -> bool {
        self.doc_type == "CollectionType"@
    }
}

/// Copies an optional string.
pub(crate) fn copy_option(o: &Option<String>) -> (r: Option<String>)
    ensures
        opt_view(r) == opt_view(*o),
{
    match o {
        Some(s) => Some(s.clone()),
        None => None,
    }
}

impl Clone for DocumentInfo {
    fn clone(&self) -> (r: Self)
        ensures
            r@ == self@,
    {
        DocumentInfo {
            id: self.id.clone(),
            visible_name: self.visible_name.clone(),
            doc_type: self.doc_type.clone(),
            parent: copy_option(&self.parent),
            deleted: self.deleted,
        }
    }
}

impl DocumentInfo {
    /// Whether the item is a folder.
    pub fn is_folder(&self) -> (r: bool)
        ensures
            r == self@.folder(),
    {
        str_eq(self.doc_type.as_str(), "CollectionType")
    }
}

/// A root entry whose metadata could not be fetched or decoded.
#[derive(Debug)]
pub struct SkippedEntry {
    pub id: String,
    pub error: String,
}

/// The mathematical value of a [`SkippedEntry`].
pub struct SkippedView {
    pub id: Seq<char>,
    pub error: Seq<char>,
}

impl View for SkippedEntry {
    type V = SkippedView;

    open spec fn view(&self) -> SkippedView {
        SkippedView { id: self.id@, error: self.error@ }
    }
}

impl Clone for SkippedEntry {
    fn clone(&self) -> (r: Self)
        ensures
            r@ == self@,
    {
        SkippedEntry { id: self.id.clone(), error: self.error.clone() }
    }
}

/// What a listing could and could not read.
///
/// A listing that hides an entry can read as data loss, or mask it, so
/// `skipped` travels with the documents and callers must surface it.
#[derive(Debug)]
pub struct Listing {
    pub docs: Vec<DocumentInfo>,
    pub skipped: Vec<SkippedEntry>,
}

/// One line per skipped entry.
pub open spec fn skip_lines(ss: Seq<SkippedView>) -> Seq<char>
    decreases ss.len(),
{
    if ss.len() == 0 {
        Seq::empty()
    } else {
        skip_lines(ss.drop_last()) + "\n  "@ + ss.last().id + "  ("@ + ss.last().error + ")"@
    }
}

/// The text that says what a listing leaves out: `None` when every root entry
/// was read.
pub open spec fn incomplete_text(docs: nat, skipped: Seq<SkippedView>) -> Option<Seq<char>> {
    if skipped.len() == 0 {
        None
    } else {
        Some(
            "INCOMPLETE: "@ + decimal(skipped.len()) + " of "@ + decimal(docs + skipped.len())
                + " root entries"@ + " could not be read and are not shown:"@ + skip_lines(skipped),
        )
    }
}

impl Listing {
    /// `None` when every root entry was read. Otherwise the text `rr ls`
    /// prints: how many entries are missing from the listing, and which.
    pub fn incomplete_summary(&self) -> (r: Option<String>)
        ensures
            opt_view(r) == incomplete_text(self.docs@.len(), views(self.skipped@)),
    {
        if self.skipped.len() == 0 {
            return None;
        }
        let k: usize = self.skipped.len();
        let total: u128 = self.docs.len() as u128 + k as u128;
        let mut out = "INCOMPLETE: ".to_owned();
        push_decimal(&mut out, k as u64);
        out.push_str(" of ");
        push_wide_decimal(&mut out, total);
        out.push_str(" root entries");
        out.push_str(" could not be read and are not shown:");
        let ghost head = out@;
        let ghost ss = views(self.skipped@);
        let mut i: usize = 0;
        proof {
            assert(head + skip_lines(ss.take(0)) =~= head);
        }
        while i < self.skipped.len()
            invariant
                ss == views(self.skipped@),
                i <= self.skipped@.len(),
                out@ == head + skip_lines(ss.take(i as int)),
            decreases self.skipped@.len() - i,
        {
            let s = &self.skipped[i];
            let ghost before = out@;
            out.push_str("\n  ");
            out.push_str(s.id.as_str());
            out.push_str("  (");
            out.push_str(s.error.as_str());
            out.push_str(")");
            proof {
                let t = ss.take(i + 1);
                assert(t.drop_last() =~= ss.take(i as int));
                assert(t.last() == s@);
                assert(out@ =~= head + skip_lines(t));
            }
            i += 1;
        }
        proof {
            assert(ss.take(i as int) =~= ss);
        }
        Some(out)
    }
}

/// What came of reading one root entry.
pub type FetchOutcome = core::result::Result<DocumentInfo, SkippedEntry>;

/// The documents that were read, in the order of the results.
pub open spec fn read_docs(rs: Seq<FetchOutcome>) -> Seq<DocumentView>
    decreases rs.len(),
{
    if rs.len() == 0 {
        Seq::empty()
    } else {
        match rs.last() {
            Ok(d) => read_docs(rs.drop_last()).push(d@),
            Err(_) => read_docs(rs.drop_last()),
        }
    }
}

/// The entries that could not be read, in the order of the results.
pub open spec fn read_skips(rs: Seq<FetchOutcome>) -> Seq<SkippedView>
    decreases rs.len(),
{
    if rs.len() == 0 {
        Seq::empty()
    } else {
        match rs.last() {
            Ok(_) => read_skips(rs.drop_last()),
            Err(s) => read_skips(rs.drop_last()).push(s@),
        }
    }
}

/// The lower-case form of a text.
pub uninterp spec fn lowercase(s: Seq<char>) -> Seq<char>;

/// `str::to_lowercase`: the lower-case form after the Unicode tables of std, a
/// function of the text alone.
#[verifier::external_body]
pub(crate) fn to_lower(s: &str) -> (r: String)
    ensures
        r@ == lowercase(s@),
{
    s.to_lowercase()
}

/// What documents are ordered by: folders first, then the name without regard
/// to case.
pub open spec fn doc_key(d: DocumentView) -> Seq<char> {
    seq![
        if d.folder() {
            '0'
        } else {
            '1'
        },
    ] + lowercase(d.visible_name)
}

/// The sort keys of the documents.
pub open spec fn doc_keys(ds: Seq<DocumentView>) -> Seq<Seq<char>> {
    Seq::new(ds.len(), |i: int| doc_key(ds[i]))
}

/// The sort keys of the skipped entries.
pub open spec fn skip_keys(ss: Seq<SkippedView>) -> Seq<Seq<char>> {
    Seq::new(ss.len(), |i: int| ss[i].id)
}

/// The ids of the documents.
pub open spec fn doc_ids(ds: Seq<DocumentView>) -> Seq<Seq<char>> {
    Seq::new(ds.len(), |i: int| ds[i].id)
}

/// The documents by id.
pub open spec fn docs_by_id(ds: Seq<DocumentView>) -> Seq<DocumentView> {
    arranged(ds, stable_order(doc_ids(ds)))
}

/// The documents, folders first, then by name, and by id where the names are
/// the same.
pub open spec fn sorted_docs(ds: Seq<DocumentView>) -> Seq<DocumentView> {
    arranged(docs_by_id(ds), stable_order(doc_keys(docs_by_id(ds))))
}

/// The skipped entries by id.
pub open spec fn sorted_skips(ss: Seq<SkippedView>) -> Seq<SkippedView> {
    arranged(ss, stable_order(skip_keys(ss)))
}

fn arrange_docs(docs: &Vec<DocumentInfo>, keys: &Vec<Vec<char>>) -> (r: Vec<DocumentInfo>)
    requires
        keys@.len() == docs@.len(),
    ensures
        views(r@) == arranged(views(docs@), stable_order(views(keys@))),
{
    let ghost ds = views(docs@);
    let ghost want = arranged(ds, stable_order(views(keys@)));
    let order = order_of(keys);
    let mut out: Vec<DocumentInfo> = Vec::new();
    let mut k: usize = 0;
    while k < order.len()
        invariant
            ds == views(docs@),
            want == arranged(ds, positions(order@)),
            forall|j: int| 0 <= j < order@.len() ==> #[trigger] order@[j] < docs@.len(),
            k <= order@.len(),
            views(out@) == want.take(k as int),
        decreases order@.len() - k,
    {
        let d = docs[order[k]].clone();
        proof {
            assert(positions(order@)[k as int] == order@[k as int]);
            lemma_views_push(out@, d);
            assert(want.take(k + 1) =~= want.take(k as int).push(d@));
        }
        out.push(d);
        k += 1;
    }
    proof {
        assert(want.take(k as int) =~= want);
    }
    out
}

fn sort_docs(docs: Vec<DocumentInfo>) -> (r: Vec<DocumentInfo>)
    ensures
        views(r@) == sorted_docs(views(docs@)),
{
    let ghost ds = views(docs@);
    let mut ids: Vec<Vec<char>> = Vec::new();
    let mut i: usize = 0;
    while i < docs.len()
        invariant
            ds == views(docs@),
            i <= docs@.len(),
            ids@.len() == i,
            views(ids@) == doc_ids(ds).take(i as int),
        decreases docs@.len() - i,
    {
        let id = chars_of(docs[i].id.as_str());
        proof {
            assert(ds[i as int] == docs@[i as int]@);
            lemma_views_push(ids@, id);
            assert(doc_ids(ds).take(i + 1) =~= doc_ids(ds).take(i as int).push(id@));
        }
        ids.push(id);
        i += 1;
    }
    proof {
        assert(doc_ids(ds).take(i as int) =~= doc_ids(ds));
    }
    let sorted = arrange_docs(&docs, &ids);
    let ghost ss = views(sorted@);
    let mut keys: Vec<Vec<char>> = Vec::new();
    let mut k: usize = 0;
    while k < sorted.len()
        invariant
            ss == views(sorted@),
            k <= sorted@.len(),
            keys@.len() == k,
            views(keys@) == doc_keys(ss).take(k as int),
        decreases sorted@.len() - k,
    {
        let mut key: Vec<char> = Vec::new();
        key.push(
            if sorted[k].is_folder() {
                '0'
            } else {
                '1'
            },
        );
        let mut low = chars_of(to_lower(sorted[k].visible_name.as_str()).as_str());
        key.append(&mut low);
        proof {
            assert(ss[k as int] == sorted@[k as int]@);
            assert(key@ =~= doc_key(ss[k as int]));
            lemma_views_push(keys@, key);
            assert(doc_keys(ss).take(k + 1) =~= doc_keys(ss).take(k as int).push(key@));
        }
        keys.push(key);
        k += 1;
    }
    proof {
        assert(doc_keys(ss).take(k as int) =~= doc_keys(ss));
    }
    arrange_docs(&sorted, &keys)
}

fn sort_skips(skips: Vec<SkippedEntry>) -> (r: Vec<SkippedEntry>)
    ensures
        views(r@) == sorted_skips(views(skips@)),
{
    let ghost ss = views(skips@);
    let mut keys: Vec<Vec<char>> = Vec::new();
    let mut i: usize = 0;
    while i < skips.len()
        invariant
            ss == views(skips@),
            i <= skips@.len(),
            views(keys@) == skip_keys(ss).take(i as int),
        decreases skips@.len() - i,
    {
        let key = chars_of(skips[i].id.as_str());
        proof {
            assert(ss[i as int] == skips@[i as int]@);
            lemma_views_push(keys@, key);
            assert(skip_keys(ss).take(i + 1) =~= skip_keys(ss).take(i as int).push(
                skip_keys(ss)[i as int],
            ));
        }
        keys.push(key);
        i += 1;
    }
    proof {
        assert(skip_keys(ss).take(i as int) =~= skip_keys(ss));
        assert(views(keys@).len() == keys@.len());
    }
    let order = order_of(&keys);
    let mut out: Vec<SkippedEntry> = Vec::new();
    let mut k: usize = 0;
    while k < order.len()
        invariant
            ss == views(skips@),
            positions(order@) == stable_order(skip_keys(ss)),
            forall|j: int| 0 <= j < order@.len() ==> #[trigger] order@[j] < skips@.len(),
            k <= order@.len(),
            views(out@) == sorted_skips(ss).take(k as int),
            sorted_skips(ss).len() == order@.len(),
        decreases order@.len() - k,
    {
        let s = skips[order[k]].clone();
        proof {
            assert(positions(order@)[k as int] == order@[k as int]);
            lemma_views_push(out@, s);
            assert(sorted_skips(ss).take(k + 1) =~= sorted_skips(ss).take(k as int).push(s@));
        }
        out.push(s);
        k += 1;
    }
    proof {
        assert(sorted_skips(ss).take(k as int) =~= sorted_skips(ss));
    }
    out
}

/// Splits per-entry results into readable documents and skipped entries.
/// Documents sort folders first, then by name and by id; skipped entries sort
/// by id, so the output is the same whatever order the fetches finished in.
pub fn partition_listing(results: Vec<FetchOutcome>) -> (r: Listing)
    ensures
        views(r.docs@) == sorted_docs(read_docs(results@)),
        views(r.skipped@) == sorted_skips(read_skips(results@)),
{
    let mut docs: Vec<DocumentInfo> = Vec::new();
    let mut skipped: Vec<SkippedEntry> = Vec::new();
    let mut i: usize = 0;
    proof {
        assert(views(docs@) =~= read_docs(results@.take(0)));
        assert(views(skipped@) =~= read_skips(results@.take(0)));
    }
    while i < results.len()
        invariant
            i <= results@.len(),
            views(docs@) == read_docs(results@.take(i as int)),
            views(skipped@) == read_skips(results@.take(i as int)),
        decreases results@.len() - i,
    {
        proof {
            assert(results@.take(i + 1).drop_last() =~= results@.take(i as int));
        }
        match &results[i] {
            Ok(d) => {
                let d2 = d.clone();
                proof {
                    lemma_views_push(docs@, d2);
                }
                docs.push(d2);
            },
            Err(s) => {
                let s2 = s.clone();
                proof {
                    lemma_views_push(skipped@, s2);
                }
                skipped.push(s2);
            },
        }
        i += 1;
    }
    proof {
        assert(results@.take(i as int) =~= results@);
    }
    Listing { docs: sort_docs(docs), skipped: sort_skips(skipped) }
}

/// The two groups of a listing have one member for each result.
proof fn lemma_partition_counts(rs: Seq<FetchOutcome>)
    ensures
        read_docs(rs).len() + read_skips(rs).len() == rs.len(),
    decreases rs.len(),
{
    if rs.len() > 0 {
        lemma_partition_counts(rs.drop_last());
    }
}

/// A listing loses nothing: its two groups hold the results that were read and
/// those that were not, each as often as it came, and together they number the
/// results.
pub proof fn law_partition_loses_nothing(rs: Seq<FetchOutcome>)
    ensures
        sorted_docs(read_docs(rs)).to_multiset() == read_docs(rs).to_multiset(),
        sorted_skips(read_skips(rs)).to_multiset() == read_skips(rs).to_multiset(),
        sorted_docs(read_docs(rs)).len() + sorted_skips(read_skips(rs)).len() == rs.len(),
{
    lemma_partition_counts(rs);
    let ds = read_docs(rs);
    law_sorting_is_permutation(ds, doc_ids(ds));
    law_sorting_is_permutation(docs_by_id(ds), doc_keys(docs_by_id(ds)));
    law_sorting_is_permutation(read_skips(rs), skip_keys(read_skips(rs)));
}

/// The results by value.
pub open spec fn outcome_views(
    rs: Seq<FetchOutcome>,
) -> Seq<core::result::Result<DocumentView, SkippedView>> {
    Seq::new(
        rs.len(),
        |i: int|
            match rs[i] {
                Ok(d) => Ok(d@),
                Err(s) => Err(s@),
            },
    )
}

/// The id of the root entry that a result is about.
pub open spec fn outcome_id(r: core::result::Result<DocumentView, SkippedView>) -> Seq<char> {
    match r {
        Ok(d) => d.id,
        Err(s) => s.id,
    }
}

/// Whether no two results are about one root entry.
pub open spec fn distinct_outcomes(
    rs: Seq<core::result::Result<DocumentView, SkippedView>>,
) -> bool {
    forall|i: int, j: int|
        #![trigger rs[i], rs[j]]
        0 <= i < rs.len() && 0 <= j < rs.len() && i != j ==> outcome_id(rs[i]) != outcome_id(rs[j])
}

proof fn lemma_read_members(rs: Seq<FetchOutcome>)
    requires
        distinct_outcomes(outcome_views(rs)),
    ensures
        forall|d: DocumentView| #[trigger]
            read_docs(rs).contains(d) <==> outcome_views(rs).contains(Ok(d)),
        forall|s: SkippedView| #[trigger]
            read_skips(rs).contains(s) <==> outcome_views(rs).contains(Err(s)),
        distinct_keys(read_docs(rs), |d: DocumentView| d.id),
        distinct_keys(read_skips(rs), |s: SkippedView| s.id),
    decreases rs.len(),
{
    let vs = outcome_views(rs);
    if rs.len() > 0 {
        let c = rs.drop_last();
        let vc = outcome_views(c);
        let n = rs.len() - 1;
        assert(vs.drop_last() =~= vc);
        assert(vs[n] == vs.last());
        assert forall|i: int, j: int|
            #![trigger vc[i], vc[j]]
            0 <= i < vc.len() && 0 <= j < vc.len() && i != j implies outcome_id(vc[i])
            != outcome_id(vc[j]) by {
            assert(vc[i] == vs[i] && vc[j] == vs[j]);
        }
        lemma_read_members(c);
        assert forall|v: core::result::Result<DocumentView, SkippedView>| #[trigger]
            vs.contains(v) <==> vc.contains(v) || v == vs[n] by {
            if vs.contains(v) {
                let k = choose|k: int| 0 <= k < vs.len() && vs[k] == v;
                if k < n {
                    assert(vc[k] == v);
                }
            }
            if vc.contains(v) {
                let k = choose|k: int| 0 <= k < vc.len() && vc[k] == v;
                assert(vs[k] == v);
            }
        }
        assert forall|v: core::result::Result<DocumentView, SkippedView>| #[trigger]
            vc.contains(v) implies outcome_id(v) != outcome_id(vs[n]) by {
            let k = choose|k: int| 0 <= k < vc.len() && vc[k] == v;
            assert(vs[k] == v);
        }
        match rs.last() {
            Ok(d) => {
                let p = read_docs(c);
                let q = read_docs(rs);
                assert(vs[n] == Ok::<DocumentView, SkippedView>(d@));
                assert forall|x: DocumentView| #[trigger] q.contains(x) <==> p.contains(x) || x
                    == d@ by {
                    lemma_contains_push(p, d@, x);
                }
                assert forall|i: int| 0 <= i < p.len() implies #[trigger] p[i].id != d@.id by {
                    assert(p.contains(p[i]));
                    assert(vc.contains(Ok(p[i])));
                }
                assert forall|i: int, j: int|
                    #![trigger q[i], q[j]]
                    0 <= i < q.len() && 0 <= j < q.len() && i != j implies q[i].id != q[j].id by {
                    if i < p.len() {
                        assert(q[i] == p[i]);
                    }
                    if j < p.len() {
                        assert(q[j] == p[j]);
                    }
                }
            },
            Err(s) => {
                let p = read_skips(c);
                let q = read_skips(rs);
                assert(vs[n] == Err::<DocumentView, SkippedView>(s@));
                assert forall|x: SkippedView| #[trigger] q.contains(x) <==> p.contains(x) || x
                    == s@ by {
                    lemma_contains_push(p, s@, x);
                }
                assert forall|i: int| 0 <= i < p.len() implies #[trigger] p[i].id != s@.id by {
                    assert(p.contains(p[i]));
                    assert(vc.contains(Err(p[i])));
                }
                assert forall|i: int, j: int|
                    #![trigger q[i], q[j]]
                    0 <= i < q.len() && 0 <= j < q.len() && i != j implies q[i].id != q[j].id by {
                    if i < p.len() {
                        assert(q[i] == p[i]);
                    }
                    if j < p.len() {
                        assert(q[j] == p[j]);
                    }
                }
            },
        }
    }
}

proof fn lemma_contains_push<T>(p: Seq<T>, e: T, x: T)
    ensures
        p.push(e).contains(x) <==> p.contains(x) || x == e,
{
    let q = p.push(e);
    if q.contains(x) {
        let k = choose|k: int| 0 <= k < q.len() && q[k] == x;
        if k < p.len() {
            assert(p[k] == x);
        }
    }
    if p.contains(x) {
        let k = choose|k: int| 0 <= k < p.len() && p[k] == x;
        assert(q[k] == x);
    }
    if x == e {
        assert(q[p.len() as int] == x);
    }
}

/// A listing does not depend on the order in which the fetches finished: two
/// lists of the same results, no two about one root entry, give the same
/// documents and the same skipped entries in the same order.
pub proof fn law_listing_forgets_order(a: Seq<FetchOutcome>, b: Seq<FetchOutcome>)
    requires
        outcome_views(a).to_multiset() == outcome_views(b).to_multiset(),
        distinct_outcomes(outcome_views(a)),
    ensures
        sorted_docs(read_docs(a)) == sorted_docs(read_docs(b)),
        sorted_skips(read_skips(a)) == sorted_skips(read_skips(b)),
{
    let va = outcome_views(a);
    let vb = outcome_views(b);
    lemma_distinct_permuted(va, vb);
    lemma_read_members(a);
    lemma_read_members(b);
    assert forall|v: core::result::Result<DocumentView, SkippedView>| #[trigger]
        va.contains(v) <==> vb.contains(v) by {
        va.to_multiset_ensures();
        vb.to_multiset_ensures();
        assert(va.to_multiset().count(v) == vb.to_multiset().count(v));
    }
    let da = read_docs(a);
    let db = read_docs(b);
    let sa = read_skips(a);
    let sb = read_skips(b);
    assert forall|i: int| 0 <= i < da.len() implies db.contains(#[trigger] da[i]) by {
        assert(da.contains(da[i]));
        assert(va.contains(Ok(da[i])));
    }
    assert forall|i: int| 0 <= i < db.len() implies da.contains(#[trigger] db[i]) by {
        assert(db.contains(db[i]));
        assert(vb.contains(Ok(db[i])));
    }
    assert forall|i: int| 0 <= i < sa.len() implies sb.contains(#[trigger] sa[i]) by {
        assert(sa.contains(sa[i]));
        assert(va.contains(Err(sa[i])));
    }
    assert forall|i: int| 0 <= i < sb.len() implies sa.contains(#[trigger] sb[i]) by {
        assert(sb.contains(sb[i]));
        assert(vb.contains(Err(sb[i])));
    }
    let doc_id = |d: DocumentView| d.id;
    let skip_id = |s: SkippedView| s.id;
    law_sorting_forgets_order(da, db, doc_id);
    law_sorting_forgets_order(sa, sb, skip_id);
    assert(doc_ids(da) =~= keys_of(da, doc_id));
    assert(doc_ids(db) =~= keys_of(db, doc_id));
    assert(skip_keys(sa) =~= keys_of(sa, skip_id));
    assert(skip_keys(sb) =~= keys_of(sb, skip_id));
}

/// A permutation of results about distinct entries is about distinct entries.
proof fn lemma_distinct_permuted(
    a: Seq<core::result::Result<DocumentView, SkippedView>>,
    b: Seq<core::result::Result<DocumentView, SkippedView>>,
)
    requires
        a.to_multiset() == b.to_multiset(),
        distinct_outcomes(a),
    ensures
        distinct_outcomes(b),
{
    a.to_multiset_ensures();
    b.to_multiset_ensures();
    assert(a.no_duplicates()) by {
        assert forall|i: int, j: int| 0 <= i < j < a.len() implies a[i] != a[j] by {
            assert(outcome_id(a[i]) != outcome_id(a[j]));
        }
    }
    a.lemma_multiset_has_no_duplicates();
    b.lemma_multiset_has_no_duplicates_conv();
    assert forall|i: int, j: int|
        #![trigger b[i], b[j]]
        0 <= i < b.len() && 0 <= j < b.len() && i != j implies outcome_id(b[i]) != outcome_id(
        b[j],
    ) by {
        assert(b.contains(b[i]) && b.contains(b[j]));
        assert(a.to_multiset().count(b[i]) > 0 && a.to_multiset().count(b[j]) > 0);
        let m = choose|m: int| 0 <= m < a.len() && a[m] == b[i];
        let n = choose|n: int| 0 <= n < a.len() && a[n] == b[j];
        assert(b[i] != b[j]);
        assert(m != n);
        assert(outcome_id(a[m]) != outcome_id(a[n]));
    }
}

/// A listing says that it is incomplete exactly when a result was not read.
pub proof fn law_incomplete_iff_skipped(rs: Seq<FetchOutcome>)
    ensures
        incomplete_text(
            sorted_docs(read_docs(rs)).len(),
            sorted_skips(read_skips(rs)),
        ) is None <==> (forall|i: int| 0 <= i < rs.len() ==> (#[trigger] rs[i]) is Ok),
{
    law_partition_loses_nothing(rs);
    law_sorting_is_permutation(read_skips(rs), skip_keys(read_skips(rs)));
    lemma_no_skips(rs);
}

proof fn lemma_no_skips(rs: Seq<FetchOutcome>)
    ensures
        read_skips(rs).len() == 0 <==> (forall|i: int| 0 <= i < rs.len() ==> (#[trigger] rs[i]) is Ok),
    decreases rs.len(),
{
    if rs.len() > 0 {
        let d = rs.drop_last();
        lemma_no_skips(d);
        assert(rs[rs.len() - 1] == rs.last());
        if read_skips(rs).len() == 0 {
            assert forall|i: int| 0 <= i < rs.len() implies (#[trigger] rs[i]) is Ok by {
                if i < d.len() {
                    assert(d[i] is Ok);
                }
            }
        } else if rs.last() is Ok {
            let i = choose|i: int| 0 <= i < d.len() && !((#[trigger] d[i]) is Ok);
            assert(rs[i] == d[i]);
        }
    }
}

/// The fields of a `.metadata` blob that a listing needs. Every field is
/// optional: old documents predate the current schema and may omit pieces.
#[derive(Debug)]
pub struct DocMetaBlob {
    pub visible_name: Option<String>,
    pub type_field: Option<String>,
    pub parent: Option<String>,
    pub deleted: Option<bool>,
}

/// `o`, or the empty text.
pub open spec fn or_empty(o: Option<Seq<char>>) -> Seq<char> {
    match o {
        Some(s) => s,
        None => Seq::empty(),
    }
}

/// The listing row of a document with this metadata. An empty parent is the
/// top level.
pub open spec fn document_of(id: Seq<char>, m: DocMetaBlob) -> DocumentView {
    DocumentView {
        id,
        visible_name: or_empty(opt_view(m.visible_name)),
        doc_type: or_empty(opt_view(m.type_field)),
        parent: match m.parent {
            Some(p) if p@.len() > 0 => Some(p@),
            _ => None,
        },
        deleted: m.deleted == Some(true),
    }
}

fn text_or_empty(o: Option<String>) -> (r: String)
    ensures
        r@ == or_empty(opt_view(o)),
{
    match o {
        Some(s) => s,
        None => String::new(),
    }
}

/// The listing row of a document with this metadata.
pub fn document_info(id: &str, meta: DocMetaBlob) -> (r: DocumentInfo)
    ensures
        r@ == document_of(id@, meta),
{
    let parent = match meta.parent {
        Some(p) => if p.as_str().unicode_len() > 0 {
            Some(p)
        } else {
            None
        },
        None => None,
    };
    DocumentInfo {
        id: id.to_owned(),
        visible_name: text_or_empty(meta.visible_name),
        doc_type: text_or_empty(meta.type_field),
        parent,
        deleted: match meta.deleted {
            Some(b) => b,
            None => false,
        },
    }
}

/// The position of the first entry whose id ends in `.metadata`.
pub open spec fn first_metadata(es: Seq<EntryView>) -> Option<int>
    decreases es.len(),
{
    if es.len() == 0 {
        None
    } else {
        match first_metadata(es.drop_last()) {
            Some(i) => Some(i),
            None => if ends_with(es.last().id, ".metadata"@) {
                Some(es.len() - 1)
            } else {
                None
            },
        }
    }
}

proof fn lemma_first_metadata_prefix(es: Seq<EntryView>, k: int)
    requires
        0 <= k <= es.len(),
        first_metadata(es.take(k)) is Some,
    ensures
        first_metadata(es) == first_metadata(es.take(k)),
    decreases es.len() - k,
{
    if k < es.len() {
        assert(es.take(k + 1).drop_last() =~= es.take(k));
        lemma_first_metadata_prefix(es, k + 1);
    } else {
        assert(es.take(k) =~= es);
    }
}

/// The error for a document without a `.metadata` entry.
pub open spec fn no_metadata(doc_id: Seq<char>) -> ErrorView {
    ErrorView::InvalidResponse("doc "@ + doc_id + " has no .metadata entry"@)
}

/// The entry of a document index that holds the document's metadata.
pub fn metadata_entry<'a>(doc_id: &str, entries: &'a [IndexEntry]) -> (r: Result<&'a IndexEntry>)
    ensures
        match r {
            Ok(e) => first_metadata(views(entries@)) matches Some(i) && 0 <= i < entries@.len()
                && *e == entries@[i],
            Err(e) => first_metadata(views(entries@)) is None && e@ == no_metadata(doc_id@),
        },
{
    let ghost es = views(entries@);
    let mut i: usize = 0;
    while i < entries.len()
        invariant
            es == views(entries@),
            i <= entries@.len(),
            first_metadata(es.take(i as int)) is None,
        decreases entries@.len() - i,
    {
        proof {
            assert(es.take(i + 1).drop_last() =~= es.take(i as int));
            assert(es.take(i + 1).last() == entries@[i as int]@);
        }
        if has_suffix(chars_of(entries[i].id.as_str()).as_slice(), ".metadata") {
            proof {
                lemma_first_metadata_prefix(es, i + 1);
            }
            return Ok(&entries[i]);
        }
        i += 1;
    }
    proof {
        assert(es.take(i as int) =~= es);
    }
    let mut msg = "doc ".to_owned();
    msg.push_str(doc_id);
    msg.push_str(" has no .metadata entry");
    Err(Error::InvalidResponse(msg))
}

/// Reads a document index for the blob that holds the document's metadata: its
/// hash and its name.
pub fn metadata_request(doc_id: &str, index_body: &[u8]) -> (r: Result<(String, String)>)
    ensures
        match parsed_index(index_body@) {
            Ok((_, es)) => match first_metadata(es) {
                Some(i) => r matches Ok(x) && x.0@ == es[i].hash && x.1@ == es[i].id,
                None => r matches Err(e) && e@ == no_metadata(doc_id@),
            },
            Err(want) => r matches Err(e) && e@ == want,
        },
{
    match parse_index(index_body) {
        Ok((_, entries)) => match metadata_entry(doc_id, entries.as_slice()) {
            Ok(e) => Ok((e.hash.clone(), e.id.clone())),
            Err(e) => Err(e),
        },
        Err(e) => Err(e),
    }
}

/// The error for metadata that cannot be decoded.
pub fn metadata_error(doc_id: &str, why: &str) -> (r: Error)
    ensures
        r@ == ErrorView::InvalidResponse("decode metadata for "@ + doc_id@ + ": "@ + why@),
{
    let mut msg = "decode metadata for ".to_owned();
    msg.push_str(doc_id);
    msg.push_str(": ");
    msg.push_str(why);
    Error::InvalidResponse(msg)
}

/// Whether a root entry is fetched a second time: once, and only after an
/// error that a second try may mend.
pub fn should_refetch(fetched: &Result<DocumentInfo>) -> (r: bool)
    ensures
        r == (fetched matches Err(e) && e@.retryable()),
{
    match fetched {
        Ok(_) => false,
        Err(e) => e.is_retryable(),
    }
}

/// What is kept of a fetch: the document, or the entry with its error.
pub fn fetch_outcome(id: &str, fetched: Result<DocumentInfo>) -> (r: FetchOutcome)
    ensures
        match (fetched, r) {
            (Ok(d), Ok(k)) => k == d,
            (Err(e), Err(s)) => s@ == (SkippedView { id: id@, error: e@.text() }),
            _ => false,
        },
{
    match fetched {
        Ok(d) => Ok(d),
        Err(e) => Err(SkippedEntry { id: id.to_owned(), error: e.message() }),
    }
}

// ---------------------------------------------------------------------------
// Order and completeness
// ---------------------------------------------------------------------------

/// A listing shows folders before documents, each by name without regard to
/// case, and those of one name by id.
pub proof fn law_listing_is_in_order(ds: Seq<DocumentView>, i: int, j: int)
    requires
        0 <= i < j < sorted_docs(ds).len(),
    ensures
        ({
            let a = sorted_docs(ds)[i];
            let b = sorted_docs(ds)[j];
            let x = lowercase(a.visible_name);
            let y = lowercase(b.visible_name);
            let is_folder = |d: DocumentView| d.doc_type == "CollectionType"@;
            ||| is_folder(a) && !is_folder(b)
            ||| is_folder(a) == is_folder(b) && lex_lt(x, y)
            ||| is_folder(a) == is_folder(b) && x == y && !lex_lt(b.id, a.id)
        }),
{
    let ids = docs_by_id(ds);
    let p = stable_order(doc_keys(ids));
    let q = stable_order(doc_ids(ds));
    law_stable_order(doc_keys(ids));
    law_stable_order(doc_ids(ds));
    let a = ids[p[i]];
    let b = ids[p[j]];
    assert(0 <= p[i] < ids.len() && 0 <= p[j] < ids.len());
    assert(sorted_docs(ds)[i] == a && sorted_docs(ds)[j] == b);
    assert(doc_keys(ids)[p[i]] == doc_key(a) && doc_keys(ids)[p[j]] == doc_key(b));
    let x = lowercase(a.visible_name);
    let y = lowercase(b.visible_name);
    assert(doc_key(a).skip(1) =~= x);
    assert(doc_key(b).skip(1) =~= y);
    if doc_key(a) == doc_key(b) {
        assert(doc_key(a)[0] == doc_key(b)[0]);
        law_lex_trichotomy(doc_key(a), doc_key(a));
        assert(p[i] < p[j]);
        assert(ids[p[i]].id == doc_ids(ds)[q[p[i]]]);
        assert(ids[p[j]].id == doc_ids(ds)[q[p[j]]]);
        law_lex_trichotomy(a.id, b.id);
    } else {
        assert(lex_lt(doc_key(a), doc_key(b)));
    }
}

/// The skipped entries are listed by id.
pub proof fn law_skipped_are_in_order(ss: Seq<SkippedView>, i: int, j: int)
    requires
        0 <= i < j < sorted_skips(ss).len(),
    ensures
        !lex_lt(sorted_skips(ss)[j].id, sorted_skips(ss)[i].id),
{
    let p = stable_order(skip_keys(ss));
    law_stable_order(skip_keys(ss));
    assert(0 <= p[i] < ss.len() && 0 <= p[j] < ss.len());
    assert(skip_keys(ss)[p[i]] == ss[p[i]].id && skip_keys(ss)[p[j]] == ss[p[j]].id);
    law_lex_trichotomy(ss[p[i]].id, ss[p[j]].id);
}

proof fn lemma_skip_lines(ss: Seq<SkippedView>)
    ensures
        holds_in_order(skip_lines(ss), skip_parts(ss)),
    decreases ss.len(),
{
    if ss.len() > 0 {
        let d = ss.drop_last();
        let s = ss.last();
        lemma_skip_lines(d);
        let t0 = skip_lines(d);
        lemma_one_more_part(t0, skip_parts(d), "\n  "@, s.id);
        let t1 = t0 + "\n  "@ + s.id;
        lemma_one_more_part(t1, skip_parts(d).push(s.id), "  ("@, s.error);
        lemma_longer_text(
            t1 + "  ("@ + s.error,
            ")"@,
            skip_parts(d).push(s.id).push(s.error),
        );
        let f = |s: SkippedView| seq![s.id, s.error];
        assert(ss.map_values(f) =~= d.map_values(f).push(f(s)));
        d.map_values(f).lemma_flatten_push(f(s));
        assert(skip_parts(ss) =~= skip_parts(d).push(s.id).push(s.error));
    }
}

/// The id and the error of each skipped entry.
pub open spec fn skip_parts(ss: Seq<SkippedView>) -> Seq<Seq<char>> {
    ss.map_values(|s: SkippedView| seq![s.id, s.error]).flatten()
}

/// The summary of an incomplete listing says how many entries are missing of
/// how many, and names each of them with its error.
pub proof fn law_summary_names_every_skipped_entry(docs: nat, ss: Seq<SkippedView>)
    requires
        ss.len() > 0,
    ensures
        incomplete_text(docs, ss) is Some,
        holds_in_order(
            incomplete_text(docs, ss)->0,
            seq![decimal(ss.len()), decimal(docs + ss.len())] + skip_parts(ss),
        ),
{
    let e = Seq::<char>::empty();
    let none = Seq::<Seq<char>>::empty();
    let p0 = decimal(ss.len());
    let p1 = decimal(docs + ss.len());
    lemma_one_more_part(e, none, "INCOMPLETE: "@, p0);
    assert(e + "INCOMPLETE: "@ =~= "INCOMPLETE: "@);
    let t0 = "INCOMPLETE: "@ + p0;
    lemma_one_more_part(t0, none.push(p0), " of "@, p1);
    let t1 = t0 + " of "@ + p1;
    let s1 = none.push(p0).push(p1);
    lemma_longer_text(t1, " root entries"@, s1);
    let t2 = t1 + " root entries"@;
    lemma_longer_text(t2, " could not be read and are not shown:"@, s1);
    let t3 = t2 + " could not be read and are not shown:"@;
    lemma_skip_lines(ss);
    lemma_parts_add(t3, s1, skip_lines(ss), skip_parts(ss));
    assert(s1 =~= seq![p0, p1]);
}

/// The metadata of a document is read from the first entry of its index whose
/// name ends in `.metadata`.
pub proof fn law_metadata_is_found(es: Seq<EntryView>, i: int)
    requires
        0 <= i < es.len(),
        ends_with(es[i].id, ".metadata"@),
        forall|k: int| 0 <= k < i ==> !ends_with((#[trigger] es[k]).id, ".metadata"@),
    ensures
        first_metadata(es) == Some(i),
    decreases es.len(),
{
    let d = es.drop_last();
    if i < d.len() {
        assert forall|k: int| 0 <= k < i implies !ends_with((#[trigger] d[k]).id, ".metadata"@) by {
            assert(d[k] == es[k]);
        }
        law_metadata_is_found(d, i);
    } else {
        assert forall|k: int| 0 <= k < d.len() implies !ends_with(
            (#[trigger] d[k]).id,
            ".metadata"@,
        ) by {
            assert(d[k] == es[k]);
        }
        law_missing_metadata(d);
    }
}

/// Where no name ends in `.metadata`, there is no metadata to read.
pub proof fn law_missing_metadata(es: Seq<EntryView>)
    requires
        forall|k: int| 0 <= k < es.len() ==> !ends_with((#[trigger] es[k]).id, ".metadata"@),
    ensures
        first_metadata(es) is None,
    decreases es.len(),
{
    if es.len() > 0 {
        let d = es.drop_last();
        assert forall|k: int| 0 <= k < d.len() implies !ends_with(
            (#[trigger] d[k]).id,
            ".metadata"@,
        ) by {
            assert(d[k] == es[k]);
        }
        law_missing_metadata(d);
        assert(!ends_with(es[es.len() - 1].id, ".metadata"@));
    }
}

/// A row of a listing says what the metadata says: the id it was asked under,
/// the name, the type and the parent that are there, and whether the item is
/// deleted. An item without a parent, or with an empty one, is at the top.
pub proof fn law_rows_say_what_the_metadata_says(id: Seq<char>, m: DocMetaBlob)
    ensures
        ({
            let d = document_of(id, m);
            &&& d.id == id
            &&& m.visible_name matches Some(n) ==> d.visible_name == n@
            &&& m.type_field matches Some(t) ==> d.doc_type == t@
            &&& m.visible_name is None ==> d.visible_name.len() == 0
            &&& m.parent is Some && m.parent->0@.len() > 0 ==> d.parent == Some(m.parent->0@)
            &&& m.parent is None || m.parent->0@.len() == 0 ==> d.parent is None
            &&& d.deleted <==> m.deleted is Some && m.deleted->0
        }),
{
}

/// Every result of a fetch goes to its group, in the order of the results: what
/// was read to the documents, what was not to the skipped entries.
pub proof fn law_results_go_to_their_group(
    a: Seq<FetchOutcome>,
    b: Seq<FetchOutcome>,
    r: FetchOutcome,
)
    ensures
        read_docs(a + b) == read_docs(a) + read_docs(b),
        read_skips(a + b) == read_skips(a) + read_skips(b),
        r matches Ok(d) ==> read_docs(seq![r]) == seq![d@] && read_skips(seq![r]).len() == 0,
        r matches Err(s) ==> read_skips(seq![r]) == seq![s@] && read_docs(seq![r]).len() == 0,
    decreases b.len(),
{
    let none = Seq::<FetchOutcome>::empty();
    assert(seq![r].drop_last() =~= none);
    assert(read_docs(none) =~= Seq::<DocumentView>::empty());
    assert(read_skips(none) =~= Seq::<SkippedView>::empty());
    match r {
        Ok(d) => {
            assert(read_docs(seq![r]) =~= seq![d@]);
        },
        Err(s) => {
            assert(read_skips(seq![r]) =~= seq![s@]);
        },
    }
    if b.len() == 0 {
        assert(a + b =~= a);
        assert(read_docs(a) + read_docs(b) =~= read_docs(a));
        assert(read_skips(a) + read_skips(b) =~= read_skips(a));
    } else {
        law_results_go_to_their_group(a, b.drop_last(), r);
        assert((a + b).drop_last() =~= a + b.drop_last());
        assert(read_docs(a + b) =~= read_docs(a) + read_docs(b));
        assert(read_skips(a + b) =~= read_skips(a) + read_skips(b));
    }
}

} // verus!
