//! `rr inspect`: read-only discovery of how one document or folder is stored
//! in the cloud.
//!
//! It only downloads: the root index (the current one, or an older one named
//! by hash), the item's own index, and the item's `.metadata` and `.content`
//! blobs. The requests of an inspection have no kind that writes.

use vstd::prelude::*;

use crate::error::{Error, ErrorView, Result};
use crate::sync_v3::index::{
    first_with, parse_index, parsed_index, position_of, EntryView, IndexEntry, RootState,
};
use crate::text::{
    chars_of, ends_with, has_suffix, lemma_views_push, lossy_text, utf8_lossy, views,
};

verus! {

/// One JSON blob of the inspected item, body included.
#[derive(Debug)]
pub struct InspectedBlob {
    pub name: String,
    pub hash: String,
    pub body: String,
}

/// The mathematical value of an [`InspectedBlob`].
pub struct BlobView {
    pub name: Seq<char>,
    pub hash: Seq<char>,
    pub body: Seq<char>,
}

impl View for InspectedBlob {
    type V = BlobView;

    open spec fn view(&self) -> BlobView {
        BlobView { name: self.name@, hash: self.hash@, body: self.body@ }
    }
}

/// Everything `rr inspect` prints.
#[derive(Debug)]
pub struct Inspection {
    pub root_hash: String,
    /// `None` when an older root was named: a generation belongs to the
    /// current root pointer only.
    pub generation: Option<i64>,
    pub root_entries: usize,
    /// The item's line in the root index, exactly as the server sent it.
    pub root_line: String,
    pub doc_index_hash: String,
    pub doc_index_body: String,
    pub blobs: Vec<InspectedBlob>,
}

/// The error for an id that a root does not hold.
pub open spec fn not_in_root(id: Seq<char>) -> ErrorView {
    ErrorView::Other("id "@ + id + " is not in that root"@)
}

/// The root entry for `id`, or an error that names the id.
pub fn find_entry<'a>(entries: &'a [IndexEntry], id: &str) -> (r: Result<&'a IndexEntry>)
    ensures
        match r {
            Ok(e) => first_with(views(entries@), id@) matches Some(i) && 0 <= i < entries@.len()
                && *e == entries@[i],
            Err(e) => first_with(views(entries@), id@) is None && e@ == not_in_root(id@),
        },
{
    match position_of(entries, id) {
        Some(i) => Ok(&entries[i]),
        None => {
            let mut msg = "id ".to_owned();
            msg.push_str(id);
            msg.push_str(" is not in that root");
            Err(Error::Other(msg))
        },
    }
}

/// Whether a blob of this name is a small JSON document worth printing.
pub open spec fn json_name(name: Seq<char>) -> bool {
    ends_with(name, ".metadata"@) || ends_with(name, ".content"@)
}

/// The entries whose bodies are small JSON documents, in order.
pub open spec fn json_blobs(es: Seq<EntryView>) -> Seq<EntryView>
    decreases es.len(),
{
    if es.len() == 0 {
        Seq::empty()
    } else if json_name(es.last().id) {
        json_blobs(es.drop_last()).push(es.last())
    } else {
        json_blobs(es.drop_last())
    }
}

/// Whether a blob of this name is a small JSON document worth printing.
pub fn is_json_blob(name: &str) -> (r: bool)
    ensures
        r == json_name(name@),
{
    let cs = chars_of(name);
    has_suffix(cs.as_slice(), ".metadata") || has_suffix(cs.as_slice(), ".content")
}

/// The views of referenced entries.
pub open spec fn ref_views(s: Seq<&IndexEntry>) -> Seq<EntryView> {
    Seq::new(s.len(), |i: int| s[i]@)
}

/// The entries whose bodies are small JSON documents worth printing. Page
/// data, thumbnails and `.rm` stroke files are left alone.
pub fn json_entries<'a>(doc_entries: &'a [IndexEntry]) -> (r: Vec<&'a IndexEntry>)
    ensures
        ref_views(r@) == json_blobs(views(doc_entries@)),
{
    let ghost es = views(doc_entries@);
    let mut out: Vec<&'a IndexEntry> = Vec::new();
    let mut i: usize = 0;
    proof {
        assert(ref_views(out@) =~= json_blobs(es.take(0)));
    }
    while i < doc_entries.len()
        invariant
            es == views(doc_entries@),
            i <= doc_entries@.len(),
            ref_views(out@) == json_blobs(es.take(i as int)),
        decreases doc_entries@.len() - i,
    {
        let e = &doc_entries[i];
        proof {
            assert(es.take(i + 1).drop_last() =~= es.take(i as int));
            assert(es.take(i + 1).last() == e@);
        }
        if is_json_blob(e.id.as_str()) {
            let ghost before = out@;
            out.push(e);
            proof {
                assert(ref_views(out@) =~= ref_views(before).push(e@));
            }
        }
        i += 1;
    }
    proof {
        assert(es.take(i as int) =~= es);
    }
    out
}

/// What is reported of a blob: its name and hash, and its bytes as text.
pub open spec fn blob_report(entry: EntryView, body: Seq<u8>) -> BlobView {
    BlobView { name: entry.id, hash: entry.hash, body: utf8_lossy(body) }
}

/// One inspected blob: its name and hash, and its bytes as text.
pub fn inspected_blob(entry: &IndexEntry, body: &[u8]) -> (r: InspectedBlob)
    ensures
        r@ == blob_report(entry@, body@),
{
    InspectedBlob { name: entry.id.clone(), hash: entry.hash.clone(), body: lossy_text(body) }
}

/// The report on one item: where its root entry stands, its own index and its
/// JSON blobs.
pub fn inspection(
    root_hash: String,
    generation: Option<i64>,
    root_entries: usize,
    entry: &IndexEntry,
    index_body: &[u8],
    blobs: Vec<InspectedBlob>,
) -> (r: Inspection)
    ensures
        r.root_hash == root_hash,
        r.generation == generation,
        r.root_entries == root_entries,
        r.root_line@ == (match entry.raw {
            Some(line) => line@,
            None => Seq::empty(),
        }),
        r.doc_index_hash@ == entry.hash@,
        r.doc_index_body@ == utf8_lossy(index_body@),
        r.blobs == blobs,
{
    let root_line = match &entry.raw {
        Some(line) => line.clone(),
        None => String::new(),
    };
    Inspection {
        root_hash,
        generation,
        root_entries,
        root_line,
        doc_index_hash: entry.hash.clone(),
        doc_index_body: lossy_text(index_body),
        blobs,
    }
}

/// The name under which the index of a document is fetched.
pub fn doc_schema_name(id: &str) -> (r: String)
    ensures
        r@ == id@ + ".docSchema"@,
{
    let mut out = id.to_owned();
    out.push_str(".docSchema");
    out
}

// ---------------------------------------------------------------------------
// The requests of an inspection
// ---------------------------------------------------------------------------

/// The entry of an item and the root it was found in.
#[derive(Debug)]
pub struct FoundItem {
    pub root_hash: String,
    pub generation: Option<i64>,
    pub root_entries: usize,
    pub entry: IndexEntry,
}

/// Where an inspection stands.
#[derive(Debug)]
pub enum InspectStage {
    /// The current root is to be read.
    CurrentRoot,
    /// The older root with this hash is to be read.
    NamedRoot(String),
    /// The index of the item is to be read.
    ItemIndex(FoundItem),
    /// The blobs in `wanted` are to be read; `blobs` are the first of them.
    Blobs {
        found: FoundItem,
        index_body: Vec<u8>,
        wanted: Vec<IndexEntry>,
        blobs: Vec<InspectedBlob>,
    },
    /// All is read.
    Done(Inspection),
    /// The inspection gave up.
    Failed(Error),
}

/// An inspection in progress.
#[derive(Debug)]
pub struct Inspect {
    pub id: String,
    pub stage: InspectStage,
}

/// What came back from the request that an inspection asked for.
#[derive(Debug)]
pub enum InspectEvent {
    /// The root was read.
    Root(RootState),
    /// The blob was read.
    Blob(Vec<u8>),
    /// The request failed.
    Failed(Error),
}

/// The next request of an inspection. Both kinds only read.
#[derive(Debug)]
pub enum InspectRequest<'a> {
    /// Read the current root.
    Root,
    /// Read the blob with this hash and name.
    Blob { hash: &'a str, name: String },
}

/// Whether a report is that of an item, its index and its blobs.
pub open spec fn reports(
    i: Inspection,
    found: FoundItem,
    index_body: Seq<u8>,
    blobs: Seq<BlobView>,
) -> bool {
    &&& i.root_hash@ == found.root_hash@
    &&& i.generation == found.generation
    &&& i.root_entries == found.root_entries
    &&& i.root_line@ == (match found.entry.raw {
        Some(line) => line@,
        None => Seq::empty(),
    })
    &&& i.doc_index_hash@ == found.entry.hash@
    &&& i.doc_index_body@ == utf8_lossy(index_body)
    &&& views(i.blobs@) == blobs
}

fn locate(
    root_hash: String,
    generation: Option<i64>,
    entries: &Vec<IndexEntry>,
    id: &str,
) -> (r: InspectStage)
    ensures
        located(r, root_hash@, generation, views(entries@), id@),
{
    match find_entry(entries.as_slice(), id) {
        Ok(e) => InspectStage::ItemIndex(
            FoundItem { root_hash, generation, root_entries: entries.len(), entry: e.clone() },
        ),
        Err(e) => InspectStage::Failed(e),
    }
}

/// Whether a stage is the one after the entries of a root were read: the item
/// is found, or the inspection gives up.
pub open spec fn located(
    stage: InspectStage,
    root_hash: Seq<char>,
    generation: Option<i64>,
    es: Seq<EntryView>,
    id: Seq<char>,
) -> bool {
    match first_with(es, id) {
        Some(i) => stage matches InspectStage::ItemIndex(f) && {
            &&& f.root_hash@ == root_hash
            &&& f.generation == generation
            &&& f.root_entries == es.len()
            &&& f.entry@ == es[i]
        },
        None => stage matches InspectStage::Failed(e) && e@ == not_in_root(id),
    }
}

fn read_on(
    found: FoundItem,
    index_body: Vec<u8>,
    wanted: Vec<IndexEntry>,
    blobs: Vec<InspectedBlob>,
) -> (r: InspectStage)
    requires
        blobs@.len() <= wanted@.len(),
    ensures
        reading(r, found, index_body, views(wanted@), views(blobs@)),
{
    if blobs.len() < wanted.len() {
        InspectStage::Blobs { found, index_body, wanted, blobs }
    } else {
        let FoundItem { root_hash, generation, root_entries, entry } = found;
        InspectStage::Done(
            inspection(root_hash, generation, root_entries, &entry, index_body.as_slice(), blobs),
        )
    }
}

/// Whether a stage is the one after these blobs were read: the next blob is to
/// be read, or the report is done.
pub open spec fn reading(
    stage: InspectStage,
    found: FoundItem,
    index_body: Vec<u8>,
    wanted: Seq<EntryView>,
    blobs: Seq<BlobView>,
) -> bool {
    if blobs.len() < wanted.len() {
        stage matches InspectStage::Blobs { found: f, index_body: ib, wanted: t, blobs: b } && {
            &&& f == found
            &&& ib == index_body
            &&& views(t@) == wanted
            &&& views(b@) == blobs
        }
    } else {
        stage matches InspectStage::Done(i) && reports(i, found, index_body@, blobs)
    }
}

impl Inspect {
    /// The invariant of an inspection: there is a blob left to read in the
    /// stage that reads them.
    pub open spec fn wf(&self) -> bool {
        self.stage matches InspectStage::Blobs { wanted, blobs, .. } ==> blobs@.len() < wanted@.len()
    }

    /// The inspection of the item `id` under the current root, or under an
    /// older one.
    pub fn start(id: String, root_hash: Option<String>) -> (r: Self)
        ensures
            r.wf(),
            r.id == id,
            r.stage == (match root_hash {
                Some(h) => InspectStage::NamedRoot(h),
                None => InspectStage::CurrentRoot,
            }),
    {
        let stage = match root_hash {
            Some(h) => InspectStage::NamedRoot(h),
            None => InspectStage::CurrentRoot,
        };
        Inspect { id, stage }
    }

    /// The hash of the blob that is to be read next.
    pub open spec fn asks_for(&self) -> Option<Seq<char>> {
        match self.stage {
            InspectStage::NamedRoot(h) => Some(h@),
            InspectStage::ItemIndex(f) => Some(f.entry.hash@),
            InspectStage::Blobs { wanted, blobs, .. } => Some(
                wanted@[blobs@.len() as int].hash@,
            ),
            _ => None,
        }
    }

    /// Whether the current root is to be read next.
    pub open spec fn asks_for_root(&self) -> bool {
        self.stage is CurrentRoot
    }

    /// The request that comes next, or `None` when the inspection has ended.
    pub fn request<'a>(&'a self) -> (r: Option<InspectRequest<'a>>)
        requires
            self.wf(),
        ensures
            match self.stage {
                InspectStage::CurrentRoot => r matches Some(InspectRequest::Root),
                InspectStage::NamedRoot(h) => r matches Some(InspectRequest::Blob { hash, name })
                    && hash@ == h@ && name@ == "root.docSchema"@,
                InspectStage::ItemIndex(f) => r matches Some(InspectRequest::Blob { hash, name })
                    && hash@ == f.entry.hash@ && name@ == self.id@ + ".docSchema"@,
                InspectStage::Blobs { wanted, blobs, .. } => r matches Some(
                    InspectRequest::Blob { hash, name },
                ) && hash@ == wanted@[blobs@.len() as int].hash@ && name@
                    == wanted@[blobs@.len() as int].id@,
                InspectStage::Done(_) => r is None,
                InspectStage::Failed(_) => r is None,
            },
            match r {
                Some(InspectRequest::Root) => self.asks_for_root(),
                Some(InspectRequest::Blob { hash, name }) => self.asks_for() == Some(hash@),
                None => !self.asks_for_root() && self.asks_for() is None,
            },
    {
        match &self.stage {
            InspectStage::CurrentRoot => Some(InspectRequest::Root),
            InspectStage::NamedRoot(h) => Some(
                InspectRequest::Blob { hash: h.as_str(), name: "root.docSchema".to_owned() },
            ),
            InspectStage::ItemIndex(f) => Some(
                InspectRequest::Blob {
                    hash: f.entry.hash.as_str(),
                    name: doc_schema_name(self.id.as_str()),
                },
            ),
            InspectStage::Blobs { wanted, blobs, .. } => Some(
                InspectRequest::Blob {
                    hash: wanted[blobs.len()].hash.as_str(),
                    name: wanted[blobs.len()].id.clone(),
                },
            ),
            InspectStage::Done(_) => None,
            InspectStage::Failed(_) => None,
        }
    }

    /// Whether an event answers the request of the stage.
    pub open spec fn answers(&self, event: InspectEvent) -> bool {
        match (self.stage, event) {
            (InspectStage::Done(_), _) => false,
            (InspectStage::Failed(_), _) => false,
            (_, InspectEvent::Failed(_)) => true,
            (InspectStage::CurrentRoot, InspectEvent::Root(_)) => true,
            (InspectStage::CurrentRoot, _) => false,
            (_, InspectEvent::Blob(_)) => true,
            _ => false,
        }
    }

    /// Where the inspection stands after an event. Both indexes are read as a
    /// push reads them, so a line that cannot be read ends it.
    pub open spec fn moves_to(&self, event: InspectEvent, after: Inspect) -> bool {
        &&& after.id == self.id
        &&& match (self.stage, event) {
            (_, InspectEvent::Failed(e)) => after.stage == InspectStage::Failed(e),
            (InspectStage::CurrentRoot, InspectEvent::Root(root)) => located(
                after.stage,
                root.root_hash@,
                Some(root.generation),
                views(root.entries@),
                self.id@,
            ),
            (InspectStage::NamedRoot(h), InspectEvent::Blob(b)) => match parsed_index(b@) {
                Ok((_, es)) => located(after.stage, h@, None, es, self.id@),
                Err(want) => after.stage matches InspectStage::Failed(e) && e@ == want,
            },
            (InspectStage::ItemIndex(f), InspectEvent::Blob(b)) => match parsed_index(b@) {
                Ok((_, es)) => reading(after.stage, f, b, json_blobs(es), Seq::empty()),
                Err(want) => after.stage matches InspectStage::Failed(e) && e@ == want,
            },
            (
                InspectStage::Blobs { found, index_body, wanted, blobs },
                InspectEvent::Blob(b),
            ) => reading(
                after.stage,
                found,
                index_body,
                views(wanted@),
                views(blobs@).push(blob_report(views(wanted@)[blobs@.len() as int], b@)),
            ),
            _ => false,
        }
    }

    /// Takes the answer to the current request.
    pub fn step(self, event: InspectEvent) -> (r: Inspect)
        requires
            self.wf(),
            self.answers(event),
        ensures
            r.wf(),
            self.moves_to(event, r),
    {
        let id = self.id;
        let stage = match (self.stage, event) {
            (_, InspectEvent::Failed(e)) => InspectStage::Failed(e),
            (_, InspectEvent::Root(root)) => {
                let RootState { root_hash, generation, entries, .. } = root;
                locate(root_hash, Some(generation), &entries, id.as_str())
            },
            (InspectStage::NamedRoot(h), InspectEvent::Blob(b)) => match parse_index(b.as_slice()) {
                Ok((_, entries)) => locate(h, None, &entries, id.as_str()),
                Err(e) => InspectStage::Failed(e),
            },
            (InspectStage::ItemIndex(f), InspectEvent::Blob(b)) => match parse_index(b.as_slice()) {
                Ok((_, entries)) => {
                    let wanted = copy_refs(&json_entries(entries.as_slice()));
                    let blobs: Vec<InspectedBlob> = Vec::new();
                    proof {
                        assert(views(blobs@) =~= Seq::<BlobView>::empty());
                    }
                    read_on(f, b, wanted, blobs)
                },
                Err(e) => InspectStage::Failed(e),
            },
            (
                InspectStage::Blobs { found, index_body, wanted, blobs },
                InspectEvent::Blob(b),
            ) => {
                let mut blobs = blobs;
                let blob = inspected_blob(&wanted[blobs.len()], b.as_slice());
                proof {
                    lemma_views_push(blobs@, blob);
                }
                blobs.push(blob);
                read_on(found, index_body, wanted, blobs)
            },
            (stage, _) => stage,
        };
        Inspect { id, stage }
    }

    /// The part of its work that an inspection is at, counted down.
    pub open spec fn phase(&self) -> int {
        match self.stage {
            InspectStage::CurrentRoot => 3,
            InspectStage::NamedRoot(_) => 3,
            InspectStage::ItemIndex(_) => 2,
            InspectStage::Blobs { .. } => 1,
            InspectStage::Done(_) => 0,
            InspectStage::Failed(_) => 0,
        }
    }

    /// The blobs that are still to be read.
    pub open spec fn blobs_left(&self) -> int {
        match self.stage {
            InspectStage::Blobs { wanted, blobs, .. } => wanted@.len() - blobs@.len(),
            _ => 0,
        }
    }

    /// Whether the blobs read so far hold what `store` holds under their
    /// entries.
    pub open spec fn faithful(&self, store: spec_fn(EntryView) -> Seq<u8>) -> bool {
        match self.stage {
            InspectStage::Blobs { wanted, blobs, .. } => views(blobs@) == blob_reports(
                views(wanted@),
                store,
            ).take(blobs@.len() as int),
            _ => true,
        }
    }
}

/// What is reported of these blobs of a store.
pub open spec fn blob_reports(
    wanted: Seq<EntryView>,
    store: spec_fn(EntryView) -> Seq<u8>,
) -> Seq<BlobView> {
    Seq::new(wanted.len(), |k: int| blob_report(wanted[k], store(wanted[k])))
}

fn copy_refs(es: &Vec<&IndexEntry>) -> (r: Vec<IndexEntry>)
    ensures
        views(r@) == ref_views(es@),
{
    let mut out: Vec<IndexEntry> = Vec::new();
    let mut i: usize = 0;
    proof {
        assert(views(out@) =~= ref_views(es@).take(0));
    }
    while i < es.len()
        invariant
            i <= es@.len(),
            views(out@) == ref_views(es@).take(i as int),
        decreases es@.len() - i,
    {
        let e = es[i].clone();
        proof {
            lemma_views_push(out@, e);
            assert(ref_views(es@).take(i + 1) =~= ref_views(es@).take(i as int).push(e@));
        }
        out.push(e);
        i += 1;
    }
    proof {
        assert(ref_views(es@).take(i as int) =~= ref_views(es@));
    }
    out
}

/// Every answer brings an inspection nearer to its end.
pub proof fn law_inspection_ends(before: Inspect, event: InspectEvent, after: Inspect)
    requires
        before.wf(),
        before.answers(event),
        before.moves_to(event, after),
    ensures
        after.wf(),
        after.phase() < before.phase() || (after.phase() == before.phase() && 0
            <= after.blobs_left() < before.blobs_left()),
{
    if let InspectStage::Blobs { wanted, blobs, .. } = after.stage {
        assert(views(wanted@).len() == wanted@.len());
        assert(views(blobs@).len() == blobs@.len());
    }
    if let InspectStage::Blobs { wanted, blobs, .. } = before.stage {
        assert(views(wanted@).len() == wanted@.len());
        assert(views(blobs@).len() == blobs@.len());
    }
}

/// An inspection reports the JSON blobs of its item, each with what the store
/// holds: answered from the store at every step, it ends with all of them.
pub proof fn law_inspection_is_faithful(
    before: Inspect,
    event: InspectEvent,
    after: Inspect,
    store: spec_fn(EntryView) -> Seq<u8>,
)
    requires
        before.wf(),
        before.answers(event),
        before.moves_to(event, after),
        before.faithful(store),
        before.stage is Blobs && event is Blob ==> event->Blob_0@ == store(
            before.stage->wanted@[before.stage->blobs@.len() as int]@,
        ),
    ensures
        after.faithful(store),
        before.stage is Blobs && after.stage is Done ==> views(after.stage->Done_0.blobs@)
            == blob_reports(views(before.stage->wanted@), store),
{
    if let InspectStage::Blobs { wanted, blobs, .. } = before.stage {
        if let InspectEvent::Blob(b) = event {
            let all = blob_reports(views(wanted@), store);
            let n = blobs@.len() as int;
            assert(views(wanted@)[n] == wanted@[n]@);
            assert(all.take(n + 1) =~= all.take(n).push(all[n]));
            if after.stage is Done {
                assert(all.take(n + 1) =~= all);
            }
        }
    }
    if let InspectStage::Blobs { wanted, blobs, .. } = after.stage {
        assert(views(blobs@).len() == blobs@.len());
        if before.stage is ItemIndex {
            assert(blob_reports(views(wanted@), store).take(0) =~= Seq::<BlobView>::empty());
        }
    }
}

/// Whether all that an inspection holds so far is what `store` holds under the
/// hashes it names: the index of the item, and each blob that was read.
pub open spec fn holds_what_is_stored(
    i: Inspect,
    store: spec_fn(Seq<char>) -> Seq<u8>,
) -> bool {
    match i.stage {
        InspectStage::Blobs { found, index_body, wanted, blobs } => {
            &&& index_body@ == store(found.entry.hash@)
            &&& forall|k: int|
                0 <= k < blobs@.len() ==> (#[trigger] blobs@[k]).body@ == utf8_lossy(
                    store(blobs@[k].hash@),
                )
        },
        InspectStage::Done(r) => {
            &&& r.doc_index_body@ == utf8_lossy(store(r.doc_index_hash@))
            &&& forall|k: int|
                0 <= k < r.blobs@.len() ==> (#[trigger] r.blobs@[k]).body@ == utf8_lossy(
                    store(r.blobs@[k].hash@),
                )
        },
        _ => true,
    }
}

/// An inspection reports what is stored: where every blob that it asks for is
/// answered with the bytes under the hash it asks for, its report holds, under
/// each hash that it names, the text of those bytes.
pub proof fn law_inspection_reports_what_is_stored(
    before: Inspect,
    event: InspectEvent,
    after: Inspect,
    store: spec_fn(Seq<char>) -> Seq<u8>,
)
    requires
        before.wf(),
        before.answers(event),
        before.moves_to(event, after),
        holds_what_is_stored(before, store),
        event matches InspectEvent::Blob(b) ==> before.asks_for() matches Some(h) && b@ == store(h),
    ensures
        holds_what_is_stored(after, store),
{
    if let InspectEvent::Blob(b) = event {
        if let InspectStage::Blobs { found, index_body, wanted, blobs } = before.stage {
            let n = blobs@.len() as int;
            let report = blob_report(views(wanted@)[n], b@);
            assert(views(wanted@)[n] == wanted@[n]@);
            let all = views(blobs@).push(report);
            assert forall|k: int| 0 <= k < all.len() implies (#[trigger] all[k]).body
                == utf8_lossy(store(all[k].hash)) by {
                if k < n {
                    assert(all[k] == blobs@[k]@);
                }
            }
            match after.stage {
                InspectStage::Blobs { blobs: kept, .. } => lemma_reports_stored(kept@, all, store),
                InspectStage::Done(r) => lemma_reports_stored(r.blobs@, all, store),
                _ => {},
            }
        }
        if let InspectStage::ItemIndex(f) = before.stage {
            let none = Seq::<BlobView>::empty();
            match after.stage {
                InspectStage::Blobs { blobs: kept, .. } => lemma_reports_stored(kept@, none, store),
                InspectStage::Done(r) => lemma_reports_stored(r.blobs@, none, store),
                _ => {},
            }
        }
    }
}

proof fn lemma_reports_stored(
    blobs: Seq<InspectedBlob>,
    all: Seq<BlobView>,
    store: spec_fn(Seq<char>) -> Seq<u8>,
)
    requires
        views(blobs) == all,
        forall|k: int|
            0 <= k < all.len() ==> (#[trigger] all[k]).body == utf8_lossy(store(all[k].hash)),
    ensures
        forall|k: int|
            0 <= k < blobs.len() ==> (#[trigger] blobs[k]).body@ == utf8_lossy(
                store(blobs[k].hash@),
            ),
{
    assert(views(blobs).len() == blobs.len());
    assert forall|k: int| 0 <= k < blobs.len() implies (#[trigger] blobs[k]).body@ == utf8_lossy(
        store(blobs[k].hash@),
    ) by {
        assert(all[k] == blobs[k]@);
    }
}

/// An inspection prints the small JSON documents of an item, and only those, in
/// the order of its index: blobs named `.metadata` or `.content`.
pub proof fn law_json_documents_are_printed(a: Seq<EntryView>, b: Seq<EntryView>, e: EntryView)
    ensures
        json_blobs(a + b) == json_blobs(a) + json_blobs(b),
        ends_with(e.id, ".metadata"@) || ends_with(e.id, ".content"@) ==> json_blobs(seq![e])
            == seq![e],
        !ends_with(e.id, ".metadata"@) && !ends_with(e.id, ".content"@) ==> json_blobs(
            seq![e],
        ).len() == 0,
    decreases b.len(),
{
    let none = Seq::<EntryView>::empty();
    assert(seq![e].drop_last() =~= none);
    assert(json_blobs(none) =~= none);
    assert(none.push(e) =~= seq![e]);
    if b.len() == 0 {
        assert(a + b =~= a);
        assert(json_blobs(a) + json_blobs(b) =~= json_blobs(a));
    } else {
        law_json_documents_are_printed(a, b.drop_last(), e);
        assert((a + b).drop_last() =~= a + b.drop_last());
        assert(json_blobs(a + b) =~= json_blobs(a) + json_blobs(b));
    }
}

/// An inspection looks at the item it was asked for, in the root it was asked
/// about: the entry it goes on with has the item's id and is one of that
/// root's, and the report names that root.
pub proof fn law_inspection_finds_the_item(before: Inspect, event: InspectEvent, after: Inspect)
    requires
        before.wf(),
        before.answers(event),
        before.moves_to(event, after),
        after.stage is ItemIndex,
    ensures
        ({
            let f = after.stage->ItemIndex_0;
            &&& f.entry@.id == before.id@
            &&& event matches InspectEvent::Root(root) ==> views(root.entries@).contains(f.entry@)
                && f.root_hash@ == root.root_hash@ && f.generation == Some(root.generation)
                && f.root_entries == root.entries@.len()
            &&& event matches InspectEvent::Blob(b) ==> f.generation is None && parsed_index(
                b@,
            ) is Ok && (parsed_index(b@)->Ok_0).1.contains(f.entry@) && before.asks_for() == Some(
                f.root_hash@,
            )
        }),
{
    if let InspectEvent::Root(root) = event {
        let es = views(root.entries@);
        crate::sync_v3::index::lemma_first_with(es, before.id@);
        let i = first_with(es, before.id@)->0;
        assert(es[i] == after.stage->ItemIndex_0.entry@);
    }
    if let InspectEvent::Blob(b) = event {
        if before.stage is NamedRoot {
            let es = (parsed_index(b@)->Ok_0).1;
            crate::sync_v3::index::lemma_first_with(es, before.id@);
            let i = first_with(es, before.id@)->0;
            assert(es[i] == after.stage->ItemIndex_0.entry@);
        }
    }
}

/// A blob is reported under its name and its hash in the index, with the text
/// of its bytes.
pub proof fn law_blobs_are_reported_under_their_names(e: EntryView, body: Seq<u8>)
    ensures
        blob_report(e, body).name == e.id,
        blob_report(e, body).hash == e.hash,
        blob_report(e, body).body == utf8_lossy(body),
{
}

/// The report of an inspection is about the item that was found: it names the
/// root and the generation it was found under, the number of that root's
/// entries, the item's line there to the letter, and the hash of its index.
pub proof fn law_report_is_about_the_item(before: Inspect, event: InspectEvent, after: Inspect)
    requires
        before.wf(),
        before.answers(event),
        before.moves_to(event, after),
        after.stage is Done,
    ensures
        before.stage is ItemIndex || before.stage is Blobs,
        ({
            let found = if before.stage is ItemIndex {
                before.stage->ItemIndex_0
            } else {
                before.stage->Blobs_found
            };
            let r = after.stage->Done_0;
            &&& r.root_hash@ == found.root_hash@
            &&& r.generation == found.generation
            &&& r.root_entries == found.root_entries
            &&& r.doc_index_hash@ == found.entry.hash@
            &&& found.entry.raw matches Some(line) ==> r.root_line@ == line@
        }),
        before.stage is ItemIndex && event is Blob ==> after.stage->Done_0.blobs@.len() == 0
            && json_blobs((parsed_index(event->Blob_0@)->Ok_0).1).len() == 0,
        before.stage is Blobs ==> after.stage->Done_0.blobs@.len()
            == before.stage->Blobs_wanted@.len(),
{
    if before.stage is Blobs {
        let wanted = before.stage->Blobs_wanted;
        let blobs = before.stage->Blobs_blobs;
        assert(views(wanted@).len() == wanted@.len());
        assert(views(blobs@).len() == blobs@.len());
        let r = after.stage->Done_0;
        assert(views(r.blobs@).len() == r.blobs@.len());
    } else if before.stage is ItemIndex {
        let r = after.stage->Done_0;
        assert(views(r.blobs@).len() == r.blobs@.len());
    }
}

} // verus!
