//! Laws of an upload from its first request to its last: what is stored before
//! the root pointer moves, and what it moves to.

use vstd::prelude::*;

use crate::codec::{hex_text, law_hex_round_trip, sha256};
use crate::error::ErrorView;
use crate::sync_v3::index::{parsed_index, planned_root, EntryView, NewRootView, RootState, Schema};
use crate::sync_v3::laws::plain_field;
use crate::sync_v3::plan_laws::{fields_of, law_blob_lists_its_entries};
use crate::sync_v3::upload::{
    approved_host, file_entries, moved_to, put_error_of, put_outcome, url_complaint, AskView,
    FileView, UpdateRootOutcome, Upload, UploadEvent, UploadStage, UrlView,
};
use crate::text::{trim, utf8_lossy, views};

verus! {

/// Whether these are the states of an upload from its start, each reached from
/// the one before by the answer to its request.
pub open spec fn is_run(us: Seq<Upload>, evs: Seq<UploadEvent>) -> bool {
    &&& us.len() == evs.len() + 1
    &&& us[0].wf()
    &&& us[0].begins()
    &&& forall|i: int|
        0 <= i < evs.len() ==> us[i].answers(#[trigger] evs[i]) && us[i].moves_to(
            evs[i],
            us[i + 1],
        ) && us[i + 1].wf()
}

/// Whether these bytes were stored under this hash and name.
pub open spec fn stored(
    us: Seq<Upload>,
    evs: Seq<UploadEvent>,
    hash: Seq<char>,
    bytes: Seq<u8>,
    name: Seq<char>,
) -> bool {
    exists|i: int|
        0 <= i < evs.len() && #[trigger] evs[i] == UploadEvent::Stored && us[i].asks() == Some(
            AskView::Store { hash, bytes, name },
        )
}

spec fn files_stored(us: Seq<Upload>, evs: Seq<UploadEvent>, n: int) -> bool {
    forall|k: int|
        0 <= k < n ==> {
            let f = #[trigger] us[0].files@[k];
            stored(us, evs, hex_text(sha256(f.bytes@)), f.bytes@, f.cloud_name@)
        }
}

spec fn progress(us: Seq<Upload>, evs: Seq<UploadEvent>) -> bool {
    let u = us.last();
    let n = us[0].files@.len() as int;
    &&& u.files == us[0].files
    &&& u.doc_uuid == us[0].doc_uuid
    &&& match u.stage {
        UploadStage::StoreFile(i) => files_stored(us, evs, i as int),
        UploadStage::LoadRoot => files_stored(us, evs, n),
        UploadStage::StoreDocIndex { root, planned } => files_stored(us, evs, n) && evs.contains(
            UploadEvent::Loaded(root),
        ),
        UploadStage::StoreRootIndex { root, planned } => files_stored(us, evs, n) && evs.contains(
            UploadEvent::Loaded(root),
        ) && stored(
            us,
            evs,
            planned.doc_index_hash@,
            planned.doc_body@,
            us[0].doc_uuid@ + ".docSchema"@,
        ),
        UploadStage::SwapRoot { root, planned } => files_stored(us, evs, n) && evs.contains(
            UploadEvent::Loaded(root),
        ) && stored(
            us,
            evs,
            planned.doc_index_hash@,
            planned.doc_body@,
            us[0].doc_uuid@ + ".docSchema"@,
        ) && stored(us, evs, planned.root_hash@, planned.root_body@, "root.docSchema"@),
        _ => true,
    }
}

proof fn lemma_stored_longer(
    us: Seq<Upload>,
    evs: Seq<UploadEvent>,
    hash: Seq<char>,
    bytes: Seq<u8>,
    name: Seq<char>,
)
    requires
        evs.len() > 0,
        us.len() == evs.len() + 1,
        stored(us.drop_last(), evs.drop_last(), hash, bytes, name),
    ensures
        stored(us, evs, hash, bytes, name),
{
    let a = us.drop_last();
    let b = evs.drop_last();
    let i = choose|i: int|
        0 <= i < b.len() && #[trigger] b[i] == UploadEvent::Stored && a[i].asks() == Some(
            AskView::Store { hash, bytes, name },
        );
    assert(evs[i] == b[i] && us[i] == a[i]);
}

proof fn lemma_files_longer(us: Seq<Upload>, evs: Seq<UploadEvent>, n: int)
    requires
        evs.len() > 0,
        us.len() == evs.len() + 1,
        files_stored(us.drop_last(), evs.drop_last(), n),
    ensures
        files_stored(us, evs, n),
{
    assert(us.drop_last()[0] == us[0]);
    assert forall|k: int| 0 <= k < n implies {
        let f = #[trigger] us[0].files@[k];
        stored(us, evs, hex_text(sha256(f.bytes@)), f.bytes@, f.cloud_name@)
    } by {
        let f = us.drop_last()[0].files@[k];
        lemma_stored_longer(us, evs, hex_text(sha256(f.bytes@)), f.bytes@, f.cloud_name@);
    }
}

proof fn lemma_contains_longer(evs: Seq<UploadEvent>, e: UploadEvent)
    requires
        evs.len() > 0,
        evs.drop_last().contains(e),
    ensures
        evs.contains(e),
{
    let d = evs.drop_last();
    let k = choose|k: int| 0 <= k < d.len() && d[k] == e;
    assert(evs[k] == e);
}

/// One more answer to an upload.
spec fn is_step(us: Seq<Upload>, evs: Seq<UploadEvent>) -> bool {
    &&& evs.len() > 0
    &&& us.len() == evs.len() + 1
    &&& progress(us.drop_last(), evs.drop_last())
    &&& us[evs.len() - 1].wf()
    &&& us[evs.len() - 1].answers(evs.last())
    &&& us[evs.len() - 1].moves_to(evs.last(), us.last())
}

proof fn lemma_step_file(us: Seq<Upload>, evs: Seq<UploadEvent>)
    requires
        is_step(us, evs),
        us[evs.len() - 1].stage is StoreFile,
    ensures
        progress(us, evs),
{
    let last = evs.len() - 1;
    let u = us[last];
    let n = us[0].files@.len() as int;
    let i = u.stage->StoreFile_0;
    assert(us.drop_last().last() == u);
    assert(us.drop_last()[0] == us[0]);
    assert(evs[last] == evs.last());
    if evs.last() == UploadEvent::Stored {
        lemma_files_longer(us, evs, i as int);
        let f = us[0].files@[i as int];
        assert(u.asks() == Some(
            AskView::Store {
                hash: hex_text(sha256(f.bytes@)),
                bytes: f.bytes@,
                name: f.cloud_name@,
            },
        ));
        assert(stored(us, evs, hex_text(sha256(f.bytes@)), f.bytes@, f.cloud_name@));
        assert(files_stored(us, evs, i + 1));
        assert(i < n);
    }
}

proof fn lemma_step_load(us: Seq<Upload>, evs: Seq<UploadEvent>)
    requires
        is_step(us, evs),
        us[evs.len() - 1].stage is LoadRoot,
    ensures
        progress(us, evs),
{
    let last = evs.len() - 1;
    assert(us.drop_last().last() == us[last]);
    assert(us.drop_last()[0] == us[0]);
    assert(evs[last] == evs.last());
    lemma_files_longer(us, evs, us[0].files@.len() as int);
    assert(evs.contains(evs.last()));
}

proof fn lemma_step_doc(us: Seq<Upload>, evs: Seq<UploadEvent>)
    requires
        is_step(us, evs),
        us[evs.len() - 1].stage is StoreDocIndex,
    ensures
        progress(us, evs),
{
    let last = evs.len() - 1;
    let u = us[last];
    assert(us.drop_last().last() == u);
    assert(us.drop_last()[0] == us[0]);
    assert(evs[last] == evs.last());
    lemma_files_longer(us, evs, us[0].files@.len() as int);
    lemma_contains_longer(evs, UploadEvent::Loaded(u.stage->StoreDocIndex_root));
    let planned = u.stage->StoreDocIndex_planned;
    if evs.last() == UploadEvent::Stored {
        assert(stored(
            us,
            evs,
            planned.doc_index_hash@,
            planned.doc_body@,
            us[0].doc_uuid@ + ".docSchema"@,
        ));
    }
}

proof fn lemma_step_root(us: Seq<Upload>, evs: Seq<UploadEvent>)
    requires
        is_step(us, evs),
        us[evs.len() - 1].stage is StoreRootIndex,
    ensures
        progress(us, evs),
{
    let last = evs.len() - 1;
    let u = us[last];
    assert(us.drop_last().last() == u);
    assert(us.drop_last()[0] == us[0]);
    assert(evs[last] == evs.last());
    lemma_files_longer(us, evs, us[0].files@.len() as int);
    lemma_contains_longer(evs, UploadEvent::Loaded(u.stage->StoreRootIndex_root));
    let planned = u.stage->StoreRootIndex_planned;
    lemma_stored_longer(
        us,
        evs,
        planned.doc_index_hash@,
        planned.doc_body@,
        us[0].doc_uuid@ + ".docSchema"@,
    );
    if evs.last() == UploadEvent::Stored {
        assert(stored(us, evs, planned.root_hash@, planned.root_body@, "root.docSchema"@));
    }
}

proof fn lemma_step_swap(us: Seq<Upload>, evs: Seq<UploadEvent>)
    requires
        is_step(us, evs),
        us[evs.len() - 1].stage is SwapRoot,
    ensures
        progress(us, evs),
{
    let last = evs.len() - 1;
    assert(us.drop_last().last() == us[last]);
    assert(us.drop_last()[0] == us[0]);
    lemma_files_longer(us, evs, us[0].files@.len() as int);
}

proof fn lemma_progress(us: Seq<Upload>, evs: Seq<UploadEvent>)
    requires
        is_run(us, evs),
    ensures
        progress(us, evs),
    decreases evs.len(),
{
    if evs.len() > 0 {
        let a = us.drop_last();
        let b = evs.drop_last();
        let last = evs.len() - 1;
        assert(a[0] == us[0]);
        assert forall|i: int| 0 <= i < b.len() implies a[i].answers(#[trigger] b[i])
            && a[i].moves_to(b[i], a[i + 1]) && a[i + 1].wf() by {
            assert(b[i] == evs[i]);
        }
        lemma_progress(a, b);
        assert(us[last].answers(evs[last]));
        if last > 0 {
            assert(us[last - 1].answers(evs[last - 1]));
            assert(us[last - 1 + 1].wf());
        }
        assert(us[last + 1] == us.last());
        assert(is_step(us, evs));
        match us[last].stage {
            UploadStage::StoreFile(_) => lemma_step_file(us, evs),
            UploadStage::LoadRoot => lemma_step_load(us, evs),
            UploadStage::StoreDocIndex { .. } => lemma_step_doc(us, evs),
            UploadStage::StoreRootIndex { .. } => lemma_step_root(us, evs),
            UploadStage::SwapRoot { .. } => lemma_step_swap(us, evs),
            _ => {},
        }
    } else {
        assert(us.last() == us[0]);
    }
}

/// Whether the upload asks to move the root pointer to the root index `n`, which
/// was planned on `root`; `root` was read, and both indexes of `n` were stored.
pub open spec fn swaps_to(
    us: Seq<Upload>,
    evs: Seq<UploadEvent>,
    root: RootState,
    n: NewRootView,
) -> bool {
    &&& evs.contains(UploadEvent::Loaded(root))
    &&& planned_root(
        root.schema,
        views(root.entries@),
        us[0].doc_uuid@,
        file_entries(views(us[0].files@)),
    ) == Ok::<_, ErrorView>(n)
    &&& us.last().asks() == Some(
        AskView::Swap { hash: n.root_hash, generation: root.generation as int },
    )
    &&& stored(us, evs, n.root_hash, n.root_body, "root.docSchema"@)
    &&& stored(us, evs, n.doc_index_hash, n.doc_body, us[0].doc_uuid@ + ".docSchema"@)
}

/// The root pointer is moved only when all is stored that the new root names:
/// every file under the SHA-256 of its bytes and its own name, the document
/// index, and the root index. It is moved to the hash of that root index,
/// guarded by the generation of a root that was read in this upload and that
/// the index layer was planned on.
pub proof fn law_all_is_stored_before_the_swap(us: Seq<Upload>, evs: Seq<UploadEvent>)
    requires
        is_run(us, evs),
        us.last().asks() is Some,
        us.last().asks()->0 is Swap,
    ensures
        forall|k: int|
            0 <= k < us[0].files@.len() ==> {
                let f = #[trigger] us[0].files@[k];
                stored(us, evs, hex_text(sha256(f.bytes@)), f.bytes@, f.cloud_name@)
            },
        exists|root: RootState, n: NewRootView| #[trigger] swaps_to(us, evs, root, n),
{
    lemma_progress(us, evs);
    let u = us.last();
    if evs.len() > 0 {
        assert(us[evs.len() - 1 + 1] == u);
        assert(us[evs.len() - 1].answers(evs[evs.len() - 1]));
        assert(u.wf());
    } else {
        assert(us[0] == u);
    }
    match u.stage {
        UploadStage::SwapRoot { root, planned } => {
            assert(u.plan_fits(root, planned));
            assert(swaps_to(us, evs, root, planned@));
        },
        _ => {},
    }
}

/// An upload that is done has moved the root pointer: its last request was the
/// move, the server took it, and the summary names the root it moved to, the
/// generation that came of it, and the root and the generation before.
pub proof fn law_done_means_moved(before: Upload, event: UploadEvent, after: Upload)
    requires
        before.wf(),
        before.answers(event),
        before.moves_to(event, after),
        after.stage is Done,
    ensures
        before.asks() is Some,
        before.asks()->0 is Swap,
        event is Swapped,
        event->Swapped_0 is Updated,
        ({
            let u = after.stage->Done_0;
            &&& before.asks() == Some(
                AskView::Swap {
                    hash: u.new_root_hash@,
                    generation: u.previous_generation as int,
                },
            )
            &&& u.new_generation == event->Swapped_0->new_generation
            &&& u.doc_id@ == before.doc_uuid@
            &&& before.stage matches UploadStage::SwapRoot { root, planned }
                && u.previous_root_hash@ == root.root_hash@ && u.previous_generation
                == root.generation && u.doc_index_hash@ == planned.doc_index_hash@
        }),
{
}

/// A failed request ends the upload with its error, wherever it stood; and a
/// root that moved meanwhile is read anew twice, then the upload gives up.
pub proof fn law_failures_end_the_upload(before: Upload, event: UploadEvent, after: Upload)
    requires
        before.wf(),
        before.answers(event),
        before.moves_to(event, after),
    ensures
        event matches UploadEvent::Failed(e) ==> after.stage == UploadStage::Failed(e),
        event matches UploadEvent::Swapped(UpdateRootOutcome::GenerationRace) ==> (if before.attempt
            < 2 {
            after.asks() == Some(AskView::Load) && after.attempt == before.attempt + 1
        } else {
            after.stage is Failed
        }),
        after.attempt == before.attempt || event matches UploadEvent::Swapped(
            UpdateRootOutcome::GenerationRace,
        ),
{
}

// ---------------------------------------------------------------------------
// The document index
// ---------------------------------------------------------------------------

/// The index entry of a file names the SHA-256 of its bytes, its name and its
/// size.
pub proof fn law_entries_name_their_files(fs: Seq<FileView>, i: int)
    requires
        0 <= i < fs.len(),
        fs[i].bytes.len() <= u64::MAX,
    ensures
        file_entries(fs).len() == fs.len(),
        file_entries(fs)[i].hash == hex_text(sha256(fs[i].bytes)),
        file_entries(fs)[i].id == fs[i].cloud_name,
        file_entries(fs)[i].size == fs[i].bytes.len(),
        file_entries(fs)[i].raw is None,
{
}

/// The document index that a push stores lists exactly the files of the
/// document: each under its name, with the SHA-256 of its bytes and its size.
pub proof fn law_document_index_lists_the_files(
    schema: Schema,
    root_entries: Seq<EntryView>,
    doc_uuid: Seq<char>,
    fs: Seq<FileView>,
    n: NewRootView,
)
    requires
        planned_root(schema, root_entries, doc_uuid, file_entries(fs)) == Ok::<_, ErrorView>(n),
        plain_field(doc_uuid),
        forall|i: int|
            0 <= i < fs.len() ==> plain_field((#[trigger] fs[i]).cloud_name) && fs[i].bytes.len()
                <= u64::MAX && sha256(fs[i].bytes).len() > 0,
    ensures
        parsed_index(n.doc_body) is Ok,
        (parsed_index(n.doc_body)->Ok_0).0 == schema,
        fields_of((parsed_index(n.doc_body)->Ok_0).1).to_multiset() == Seq::new(
            fs.len(),
            |i: int|
                (
                    hex_text(sha256(fs[i].bytes)),
                    fs[i].cloud_name,
                    0u32,
                    fs[i].bytes.len() as u64,
                ),
        ).to_multiset(),
{
    let es = file_entries(fs);
    assert forall|i: int| 0 <= i < es.len() implies crate::sync_v3::laws::writable(
        #[trigger] es[i],
    ) by {
        assert(plain_field(fs[i].cloud_name));
        assert(hex_text(sha256(fs[i].bytes)).len() > 0);
        lemma_hash_plain(fs[i].bytes);
    }
    law_blob_lists_its_entries(schema, doc_uuid, es, false);
    assert(fields_of(es) =~= Seq::new(
        fs.len(),
        |i: int|
            (hex_text(sha256(fs[i].bytes)), fs[i].cloud_name, 0u32, fs[i].bytes.len() as u64),
    ));
}

proof fn lemma_hash_plain(data: Seq<u8>)
    requires
        hex_text(sha256(data)).len() > 0,
    ensures
        plain_field(hex_text(sha256(data))),
{
    law_hex_round_trip(sha256(data));
    let h = hex_text(sha256(data));
    if h.contains(':') {
        let k = choose|k: int| 0 <= k < h.len() && h[k] == ':';
        assert(crate::codec::is_hex_digit(h[k]));
    }
    if h.contains('\n') {
        let k = choose|k: int| 0 <= k < h.len() && h[k] == '\n';
        assert(crate::codec::is_hex_digit(h[k]));
    }
}

// ---------------------------------------------------------------------------
// Answers
// ---------------------------------------------------------------------------

/// A blob counts as stored exactly after a status of the 200s; its bytes go to
/// another address exactly after a status of the 300s that names one, and then
/// to that address.
pub proof fn law_blobs_are_stored_on_success(status: u16, location: Option<String>)
    ensures
        put_outcome(status, location).0 <==> status / 100 == 2,
        put_outcome(status, location).1 is Some <==> status / 100 == 3 && location is Some,
        put_outcome(status, location).1 is Some ==> put_outcome(status, location).1 == location,
{
}

/// The root has moved exactly after a status of the 200s: to the generation
/// that the server reports, or else to the next one.
pub proof fn law_root_moves_on_success(status: u16, reported: Option<i64>, current: i64)
    ensures
        moved_to(status, reported, current) is Some <==> status / 100 == 2,
        status / 100 == 2 && reported is Some ==> moved_to(status, reported, current)->0
            == reported->0,
        status / 100 == 2 && reported is None ==> moved_to(status, reported, current)->0 - 1
            == current,
{
}

/// Bytes are sent only to hosts below the domains of the two storage providers.
pub proof fn law_approved_hosts(name: Seq<char>, host: Seq<char>)
    ensures
        approved_host(name + ".googleapis.com"@),
        approved_host(name + ".amazonaws.com"@),
        approved_host(host) ==> (exists|n: Seq<char>| host == #[trigger] (n + ".googleapis.com"@))
            || (exists|n: Seq<char>| host == #[trigger] (n + ".amazonaws.com"@)),
{
    let a = ".googleapis.com"@;
    let b = ".amazonaws.com"@;
    assert((name + a).skip((name + a).len() - a.len()) =~= a);
    assert((name + b).skip((name + b).len() - b.len()) =~= b);
    if approved_host(host) {
        if crate::text::ends_with(host, a) {
            let n = host.take(host.len() - a.len());
            assert(host =~= n + a);
        } else {
            let n = host.take(host.len() - b.len());
            assert(host =~= n + b);
        }
    }
}

/// An address over HTTPS, without credentials or a fragment, on an approved
/// host, is accepted; anything else about it does not matter.
pub proof fn law_good_addresses_are_accepted(u: UrlView)
    ensures
        url_complaint(u) is None <==> (u.scheme == "https"@ && u.username.len() == 0
            && !u.has_password && !u.has_fragment && u.host is Some && approved_host(u.host->0)),
{
}

/// The error of a failed upload keeps the server's status, whatever it was, and
/// the server's words.
pub proof fn law_failed_uploads_keep_the_status(status: u16, body: Seq<u8>)
    ensures
        put_error_of(status, body) is Api,
        put_error_of(status, body)->Api_status == status,
        status / 100 != 3 ==> put_error_of(status, body)->Api_body == utf8_lossy(body),
        status / 100 == 3 ==> crate::text::ends_with(
            put_error_of(status, body)->Api_body,
            trim(utf8_lossy(body)),
        ),
{
    let w = "redirect without Location header: "@;
    let t = trim(utf8_lossy(body));
    assert((w + t).skip((w + t).len() - t.len()) =~= t);
}

} // verus!
