//! The upload of a document: its files, the requests and replies, and the
//! order in which they are made.

use vstd::prelude::*;
use vstd::utf8::*;

use crate::codec::{
    base64_text, big_endian, crc32c_base64, crc32c_sum, json_quoted, json_string, sha256_hex,
    sha256_hex_text,
};
use crate::error::{joined, res_view, Error, ErrorView, Result};
use crate::sync_v3::index::{
    diff_root, index_text, parse_index, parsed_index, plan_root, planned_root, pushed_entries,
    root_diff, sizes_fit, EntryView, IndexEntry, NewRoot, NewRootView, RootDiff, RootState,
    Schema,
};
use crate::text::{
    chars_of, decimal, ends_with, has_suffix, lemma_views_push, lossy_text, push_decimal,
    push_signed_decimal, signed_decimal, str_eq, string_of, trim, trimmed, utf8_lossy, views,
};

verus! {

pub const SYNC_HOST: &'static str = "https://internal.cloud.remarkable.com";

/// Where the root pointer lives.
pub fn root_url() -> (r: String)
    ensures
        r@ == "https://internal.cloud.remarkable.com"@ + "/sync/v3/root"@,
{
    joined("https://internal.cloud.remarkable.com", "/sync/v3/root")
}

/// Where the blob with this hash lives.
pub fn files_url(hash: &str) -> (r: String)
    ensures
        r@ == "https://internal.cloud.remarkable.com"@ + "/sync/v3/files/"@ + hash@,
{
    let mut out = joined("https://internal.cloud.remarkable.com", "/sync/v3/files/");
    out.push_str(hash);
    out
}

/// One file the cloud needs: bytes plus the file name the server stamps the
/// blob with and the doc index references it by.
#[derive(Debug)]
pub struct CloudFile {
    pub cloud_name: String,
    pub bytes: Vec<u8>,
}

/// The mathematical value of a [`CloudFile`].
pub struct FileView {
    pub cloud_name: Seq<char>,
    pub bytes: Seq<u8>,
}

impl View for CloudFile {
    type V = FileView;

    open spec fn view(&self) -> FileView {
        FileView { cloud_name: self.cloud_name@, bytes: self.bytes@ }
    }
}

/// The index entry of one file of a document.
pub open spec fn file_entry(f: FileView) -> EntryView {
    EntryView {
        hash: sha256_hex_text(f.bytes),
        id: f.cloud_name,
        subfiles: 0,
        size: f.bytes.len() as u64,
        raw: None,
    }
}

/// The index entries of the files of a document.
pub open spec fn file_entries(fs: Seq<FileView>) -> Seq<EntryView> {
    Seq::new(fs.len(), |i: int| file_entry(fs[i]))
}

/// Index entry for one blob of a document: content hash, name and size.
pub fn entry_for(f: &CloudFile) -> (r: IndexEntry)
    ensures
        r@ == file_entry(f@),
{
    IndexEntry {
        hash: sha256_hex(f.bytes.as_slice()),
        id: f.cloud_name.clone(),
        subfiles: 0,
        size: f.bytes.len() as u64,
        raw: None,
    }
}

/// Index entries for the blobs of a document.
pub fn entries_for(files: &Vec<CloudFile>) -> (r: Vec<IndexEntry>)
    ensures
        views(r@) == file_entries(views(files@)),
{
    let ghost want = file_entries(views(files@));
    let mut out: Vec<IndexEntry> = Vec::new();
    let mut i: usize = 0;
    while i < files.len()
        invariant
            want == file_entries(views(files@)),
            i <= files@.len(),
            views(out@) == want.take(i as int),
        decreases files@.len() - i,
    {
        let e = entry_for(&files[i]);
        proof {
            lemma_views_push(out@, e);
            assert(want.take(i + 1) =~= want.take(i as int).push(want[i as int]));
        }
        out.push(e);
        i += 1;
    }
    proof {
        assert(want.take(i as int) =~= want);
    }
    out
}

// ---------------------------------------------------------------------------
// Requests and replies
// ---------------------------------------------------------------------------

/// The headers of a blob upload, besides the authorization.
#[derive(Debug)]
pub struct BlobHeaders {
    /// `rm-filename`: the name the blob is stored under.
    pub filename: String,
    /// `rm-filesize`: the number of bytes.
    pub filesize: String,
    /// `x-goog-hash`: the CRC-32C checksum.
    pub goog_hash: String,
}

/// The value of the `x-goog-hash` header.
pub open spec fn goog_hash_text(data: Seq<u8>) -> Seq<char> {
    "crc32c="@ + base64_text(big_endian(crc32c_sum(data)))
}

/// The value of the `x-goog-hash` header for `data`.
pub fn goog_hash(data: &[u8]) -> (r: String)
    ensures
        r@ == goog_hash_text(data@),
{
    joined("crc32c=", crc32c_base64(data).as_str())
}

/// The headers of the upload of `data` under `rm_filename`.
pub fn blob_headers(data: &[u8], rm_filename: &str) -> (r: BlobHeaders)
    ensures
        r.filename@ == rm_filename@,
        r.filesize@ == decimal(data@.len()),
        r.goog_hash@ == goog_hash_text(data@),
{
    let mut filesize = String::new();
    push_decimal(&mut filesize, data.len() as u64);
    proof {
        assert(filesize@ =~= decimal(data@.len()));
    }
    BlobHeaders { filename: rm_filename.to_owned(), filesize, goog_hash: goog_hash(data) }
}

/// The value of the `authorization` header.
pub fn bearer(token: &str) -> (r: String)
    ensures
        r@ == "Bearer "@ + token@,
{
    joined("Bearer ", token)
}

/// Whether an HTTP status reports success.
pub open spec fn success(status: u16) -> bool {
    200 <= status <= 299
}

/// Whether an HTTP status is a redirection.
pub open spec fn redirection(status: u16) -> bool {
    300 <= status <= 399
}

/// The error for a refused request.
pub open spec fn api_error(status: u16, body: Seq<u8>) -> ErrorView {
    ErrorView::Api { status, body: utf8_lossy(body) }
}

/// The error for a refused request.
pub fn refusal(status: u16, body: &[u8]) -> (r: Error)
    ensures
        r@ == api_error(status, body@),
{
    Error::Api { status, body: lossy_text(body) }
}

/// What a blob download returned: the bytes, or the server's refusal.
pub fn blob_reply(status: u16, body: Vec<u8>) -> (r: Result<Vec<u8>>)
    ensures
        match r {
            Ok(b) => success(status) && b == body,
            Err(e) => !success(status) && e@ == api_error(status, body@),
        },
{
    if 200 <= status && status <= 299 {
        Ok(body)
    } else {
        Err(refusal(status, body.as_slice()))
    }
}

/// What to do after the answer to a blob upload.
#[derive(Debug)]
pub enum PutNext {
    /// The blob is stored.
    Stored,
    /// The server handed out a signed URL: upload the bytes there.
    Follow(String),
    /// The upload failed: read the body for [`put_error`].
    Failed,
}

/// What comes after the answer to a blob upload: whether it is stored, and
/// otherwise where the bytes go, if anywhere.
pub open spec fn put_outcome(status: u16, location: Option<String>) -> (bool, Option<String>) {
    if redirection(status) {
        (false, location)
    } else {
        (success(status), None)
    }
}

/// Decides on the answer to a blob upload from its status and its `Location`
/// header.
pub fn after_put(status: u16, location: Option<String>) -> (r: PutNext)
    ensures
        match r {
            PutNext::Stored => put_outcome(status, location) == (true, None::<String>),
            PutNext::Follow(url) => put_outcome(status, location) == (false, Some(url)),
            PutNext::Failed => put_outcome(status, location) == (false, None::<String>),
        },
        r == (if redirection(status) {
            match location {
                Some(url) => PutNext::Follow(url),
                None => PutNext::Failed,
            }
        } else if success(status) {
            PutNext::Stored
        } else {
            PutNext::Failed
        }),
{
    if 300 <= status && status <= 399 {
        match location {
            Some(url) => PutNext::Follow(url),
            None => PutNext::Failed,
        }
    } else if 200 <= status && status <= 299 {
        PutNext::Stored
    } else {
        PutNext::Failed
    }
}

/// The error of a failed blob upload. A redirection fails for want of a
/// `Location` header.
pub open spec fn put_error_of(status: u16, body: Seq<u8>) -> ErrorView {
    if redirection(status) {
        ErrorView::Api {
            status,
            body: "redirect without Location header: "@ + trim(utf8_lossy(body)),
        }
    } else {
        api_error(status, body)
    }
}

/// The error of a failed blob upload.
pub fn put_error(status: u16, body: &[u8]) -> (r: Error)
    ensures
        r@ == put_error_of(status, body@),
{
    if 300 <= status && status <= 399 {
        let text = lossy_text(body);
        let t = trimmed(chars_of(text.as_str()).as_slice());
        let shown = string_of(t.as_slice(), 0, t.len());
        proof {
            assert(shown@ =~= trim(utf8_lossy(body@)));
        }
        Error::Api { status, body: joined("redirect without Location header: ", shown.as_str()) }
    } else {
        refusal(status, body)
    }
}

/// What an upload to a signed URL returned.
pub fn signed_reply(status: u16, body: &[u8]) -> (r: Result<()>)
    ensures
        res_view(r) == (if success(status) {
            Ok::<(), ErrorView>(())
        } else {
            Err(api_error(status, body@))
        }),
{
    if 200 <= status && status <= 299 {
        Ok(())
    } else {
        Err(refusal(status, body))
    }
}

/// The body of the request that moves the root pointer.
pub open spec fn root_update_json(hash: Seq<char>, generation: int) -> Seq<char> {
    "{\"broadcast\":true,\"hash\":"@ + json_string(hash) + ",\"generation\":"@ + signed_decimal(
        generation,
    ) + "}"@
}

/// The body of the request that moves the root pointer to `hash`, guarded by
/// the generation that was read.
pub fn root_update_body(hash: &str, generation: i64) -> (r: String)
    ensures
        r@ == root_update_json(hash@, generation as int),
{
    let mut out = "{\"broadcast\":true,\"hash\":".to_owned();
    out.push_str(json_quoted(hash).as_str());
    out.push_str(",\"generation\":");
    push_signed_decimal(&mut out, generation);
    out.push_str("}");
    out
}

/// What the root update returned.
#[derive(Debug)]
pub enum UpdateRootOutcome {
    Updated { new_generation: i64 },
    GenerationRace,
}

/// The generation after a root update: the one reported, or the next one; none
/// where the root was not moved.
pub open spec fn moved_to(status: u16, reported: Option<i64>, current: i64) -> Option<int> {
    if success(status) {
        match reported {
            Some(g) => Some(g as int),
            None => Some(current + 1),
        }
    } else {
        None
    }
}

/// Reads the answer to a root update. `reported` is the generation the body
/// names, where it can be read.
pub fn update_reply(status: u16, body: &[u8], reported: Option<i64>, current: i64) -> (r: Result<
    UpdateRootOutcome,
>)
    requires
        success(status) && reported is None ==> current < i64::MAX,
    ensures
        match r {
            Ok(UpdateRootOutcome::Updated { new_generation }) => moved_to(
                status,
                reported,
                current,
            ) == Some(new_generation as int),
            _ => moved_to(status, reported, current) is None,
        },
        match r {
            Ok(UpdateRootOutcome::GenerationRace) => status == 412,
            Ok(UpdateRootOutcome::Updated { new_generation }) => success(status) && new_generation
                == (match reported {
                Some(g) => g as int,
                None => current + 1,
            }),
            Err(e) => status != 412 && !success(status) && e@ == api_error(status, body@),
        },
{
    if status == 412 {
        return Ok(UpdateRootOutcome::GenerationRace);
    }
    if !(200 <= status && status <= 299) {
        return Err(refusal(status, body));
    }
    let new_generation: i64 = match reported {
        Some(g) => g,
        None => current + 1,
    };
    Ok(UpdateRootOutcome::Updated { new_generation })
}

/// The root state that a root pointer and the index blob it names give.
pub fn root_state(hash: String, generation: i64, index_body: &[u8]) -> (r: Result<RootState>)
    ensures
        match r {
            Ok(root) => {
                &&& parsed_index(index_body@) == Ok::<_, ErrorView>(
                    (root.schema, views(root.entries@)),
                )
                &&& root.root_hash == hash
                &&& root.generation == generation
                &&& root.body@ == decode_utf8(index_body@)
            },
            Err(e) => parsed_index(index_body@) == Err::<(Schema, Seq<EntryView>), _>(e@),
        },
{
    match parse_index(index_body) {
        Ok((schema, entries)) => Ok(
            RootState {
                schema,
                root_hash: hash,
                generation,
                entries,
                body: lossy_text(index_body),
            },
        ),
        Err(e) => Err(e),
    }
}

// ---------------------------------------------------------------------------
// Signed upload URLs
// ---------------------------------------------------------------------------

/// The parts of a URL that decide whether bytes are sent to it.
#[derive(Debug)]
pub struct UrlParts {
    pub scheme: String,
    pub username: String,
    pub has_password: bool,
    pub has_fragment: bool,
    pub host: Option<String>,
    /// The URL as it is sent.
    pub text: String,
}

/// The mathematical value of [`UrlParts`].
pub struct UrlView {
    pub scheme: Seq<char>,
    pub username: Seq<char>,
    pub has_password: bool,
    pub has_fragment: bool,
    pub host: Option<Seq<char>>,
    pub text: Seq<char>,
}

impl View for UrlParts {
    type V = UrlView;

    open spec fn view(&self) -> UrlView {
        UrlView {
            scheme: self.scheme@,
            username: self.username@,
            has_password: self.has_password,
            has_fragment: self.has_fragment,
            host: crate::text::opt_view(self.host),
            text: self.text@,
        }
    }
}

/// What parsing a URL gives: its parts, or the parser's message.
pub uninterp spec fn url_parsed(raw: Seq<char>) -> core::result::Result<UrlView, Seq<char>>;

/// `reqwest::Url::parse`, with the parts of the parsed URL read by its
/// accessors and an error by its message; a function of the text alone.
#[verifier::external_body]
pub(crate) fn parse_url(raw: &str) -> (r: core::result::Result<UrlParts, String>)
    ensures
        match r {
            Ok(u) => url_parsed(raw@) == Ok::<_, Seq<char>>(u@),
            Err(m) => url_parsed(raw@) == Err::<UrlView, _>(m@),
        },
{
    let url = reqwest::Url::parse(raw).map_err(|e| e.to_string())?;
    Ok(UrlParts {
        scheme: url.scheme().to_string(),
        username: url.username().to_string(),
        has_password: url.password().is_some(),
        has_fragment: url.fragment().is_some(),
        host: url.host_str().map(str::to_owned),
        text: url.to_string(),
    })
}

/// Whether a host belongs to one of the storage providers that uploads are
/// redirected to.
pub open spec fn approved_host(host: Seq<char>) -> bool {
    ends_with(host, ".googleapis.com"@) || ends_with(host, ".amazonaws.com"@)
}

/// The reason against sending bytes to a URL, if there is one.
pub open spec fn url_complaint(u: UrlView) -> Option<Seq<char>> {
    if u.scheme != "https"@ {
        Some("signed upload URL must use HTTPS"@)
    } else if u.username.len() > 0 || u.has_password || u.has_fragment {
        Some("signed upload URL contains forbidden credentials or fragment"@)
    } else {
        match u.host {
            None => Some("signed upload URL has no host"@),
            Some(host) => if approved_host(host) {
                None
            } else {
                Some("signed upload URL host is not approved: "@ + host)
            },
        }
    }
}

/// Accepts a parsed URL that bytes may be sent to.
pub fn check_signed_upload_url(url: UrlParts) -> (r: Result<UrlParts>)
    ensures
        match r {
            Ok(u) => url_complaint(url@) is None && u == url,
            Err(e) => url_complaint(url@) matches Some(why) && e@ == ErrorView::InvalidResponse(
                why,
            ),
        },
{
    if !str_eq(url.scheme.as_str(), "https") {
        return Err(Error::InvalidResponse("signed upload URL must use HTTPS".to_owned()));
    }
    if url.username.as_str().unicode_len() > 0 || url.has_password || url.has_fragment {
        return Err(
            Error::InvalidResponse(
                "signed upload URL contains forbidden credentials or fragment".to_owned(),
            ),
        );
    }
    match &url.host {
        None => {
            return Err(Error::InvalidResponse("signed upload URL has no host".to_owned()));
        },
        Some(host) => {
            let cs = chars_of(host.as_str());
            if !(has_suffix(cs.as_slice(), ".googleapis.com") || has_suffix(
                cs.as_slice(),
                ".amazonaws.com",
            )) {
                return Err(
                    Error::InvalidResponse(
                        joined("signed upload URL host is not approved: ", host.as_str()),
                    ),
                );
            }
        },
    }
    Ok(url)
}

/// Accepts a server-supplied URL that bytes may be sent to: HTTPS, no
/// credentials, no fragment, and the host of a known storage provider.
pub fn validate_signed_upload_url(raw: &str) -> (r: Result<UrlParts>)
    ensures
        match (url_parsed(raw@), r) {
            (Err(m), Err(e)) => e@ == ErrorView::InvalidResponse("invalid signed upload URL: "@ + m),
            (Ok(u), Ok(parts)) => url_complaint(u) is None && parts@ == u,
            (Ok(u), Err(e)) => url_complaint(u) matches Some(why) && e@
                == ErrorView::InvalidResponse(why),
            _ => false,
        },
{
    match parse_url(raw) {
        Ok(u) => check_signed_upload_url(u),
        Err(m) => Err(Error::InvalidResponse(joined("invalid signed upload URL: ", m.as_str()))),
    }
}

/// Whether an upload to this host carries the `x-goog-hash` header.
pub fn sends_goog_hash(host: &Option<String>) -> (r: bool)
    ensures
        r == (host matches Some(h) && ends_with(h@, ".googleapis.com"@)),
{
    match host {
        Some(h) => has_suffix(chars_of(h.as_str()).as_slice(), ".googleapis.com"),
        None => false,
    }
}

/// Bytes go only to HTTPS hosts of the two storage providers, without
/// credentials and without a fragment.
pub proof fn law_signed_url_is_approved(u: UrlView)
    requires
        url_complaint(u) is None,
    ensures
        u.scheme == "https"@,
        u.username.len() == 0,
        !u.has_password,
        !u.has_fragment,
        u.host matches Some(h) && approved_host(h),
{
}

// ---------------------------------------------------------------------------
// Dry runs
// ---------------------------------------------------------------------------

/// What a push would do.
#[derive(Debug, Clone)]
pub struct PushPlan {
    pub doc_id: String,
    /// Document blobs, plus the document index, plus the new root index.
    pub blobs_to_upload: usize,
    pub previous_root_hash: String,
    pub previous_generation: i64,
    pub new_root_hash: String,
    pub diff: RootDiff,
}

impl PushPlan {
    /// Whether this is what a push of `files` as the document `doc_uuid` on
    /// `root` would do.
    pub open spec fn shows(&self, root: RootState, doc_uuid: Seq<char>, files: Seq<FileView>) -> bool {
        planned_root(root.schema, views(root.entries@), doc_uuid, file_entries(files)) matches Ok(n)
            && {
            &&& self.doc_id@ == doc_uuid
            &&& self.blobs_to_upload == files.len() + 2
            &&& self.previous_root_hash@ == root.root_hash@
            &&& self.previous_generation == root.generation
            &&& self.new_root_hash@ == n.root_hash
            &&& self.diff@ == root_diff(root.schema, root.body@, decode_utf8(n.root_body))
        }
    }
}

/// Dry run of an upload: exactly what a push on this root would upload, and
/// how the rewritten root index differs from the real one.
pub fn plan_push(root: &RootState, doc_uuid: &str, files: &Vec<CloudFile>) -> (r: Result<PushPlan>)
    requires
        sizes_fit(
            root.schema,
            views(root.entries@),
            doc_uuid@,
            file_entries(views(files@)),
        ),
        files@.len() + 2 <= usize::MAX,
    ensures
        match r {
            Ok(p) => p.shows(*root, doc_uuid@, views(files@)),
            Err(e) => planned_root(
                root.schema,
                views(root.entries@),
                doc_uuid@,
                file_entries(views(files@)),
            ) == Err::<NewRootView, _>(e@),
        },
{
    let entries = entries_for(files);
    match plan_root(root, doc_uuid, entries.as_slice()) {
        Ok(planned) => {
            let new_body = lossy_text(planned.root_body.as_slice());
            proof {
                encode_utf8_valid_utf8(
                    index_text(
                        root.schema,
                        "."@,
                        pushed_entries(
                            views(root.entries@),
                            doc_uuid@,
                            views(entries@),
                            planned.doc_index_hash@,
                        ),
                        true,
                    ),
                );
            }
            Ok(
                PushPlan {
                    doc_id: doc_uuid.to_owned(),
                    blobs_to_upload: files.len() + 2,
                    previous_root_hash: root.root_hash.clone(),
                    previous_generation: root.generation,
                    diff: diff_root(root.schema, root.body.as_str(), new_body.as_str()),
                    new_root_hash: planned.root_hash,
                },
            )
        },
        Err(e) => Err(e),
    }
}

/// What `rr root-restore` would do.
#[derive(Debug, Clone)]
pub struct RestorePlan {
    pub current_root_hash: String,
    pub current_generation: i64,
    pub current_entries: usize,
    pub target_root_hash: String,
    pub target_entries: usize,
    pub schema_changed: bool,
    /// Current index compared with the target: `removed` lines would disappear
    /// from the library, `added` lines would come back.
    pub diff: RootDiff,
}

/// Plans a rollback of the root pointer to `target_hash`, whose index blob
/// must parse under the same fail-closed rules.
pub fn restore_plan(current: &RootState, target_hash: &str, target_body: &[u8]) -> (r: Result<
    RestorePlan,
>)
    ensures
        match (parsed_index(target_body@), r) {
            (Ok(x), Ok(p)) => {
                &&& p.current_root_hash@ == current.root_hash@
                &&& p.current_generation == current.generation
                &&& p.current_entries == current.entries@.len()
                &&& p.target_root_hash@ == target_hash@
                &&& p.target_entries == x.1.len()
                &&& p.schema_changed == (x.0 != current.schema)
                &&& p.diff@ == root_diff(current.schema, current.body@, decode_utf8(target_body@))
            },
            (Err(want), Err(e)) => e@ == want,
            _ => false,
        },
{
    match parse_index(target_body) {
        Ok((schema, entries)) => {
            let text = lossy_text(target_body);
            proof {
                assert(views(entries@).len() == entries@.len());
            }
            Ok(
                RestorePlan {
                    current_root_hash: current.root_hash.clone(),
                    current_generation: current.generation,
                    current_entries: current.entries.len(),
                    target_root_hash: target_hash.to_owned(),
                    target_entries: entries.len(),
                    schema_changed: schema != current.schema,
                    diff: diff_root(current.schema, current.body.as_str(), text.as_str()),
                },
            )
        },
        Err(e) => Err(e),
    }
}

/// What a restore returns: the new generation, or an error when the root moved
/// after the plan was made.
pub fn restore_outcome(outcome: UpdateRootOutcome) -> (r: Result<i64>)
    ensures
        match outcome {
            UpdateRootOutcome::Updated { new_generation } => r matches Ok(g) && g
                == new_generation,
            UpdateRootOutcome::GenerationRace => r matches Err(e) && e@ == ErrorView::Other(
                "root changed since the plan was made; re-run root-restore"@,
            ),
        },
{
    match outcome {
        UpdateRootOutcome::Updated { new_generation } => Ok(new_generation),
        UpdateRootOutcome::GenerationRace => Err(
            Error::Other("root changed since the plan was made; re-run root-restore".to_owned()),
        ),
    }
}

// ---------------------------------------------------------------------------
// The upload
// ---------------------------------------------------------------------------

/// Summary of an upload.
#[derive(Debug, Clone)]
pub struct UploadResult {
    pub doc_id: String,
    pub doc_index_hash: String,
    pub new_root_hash: String,
    pub new_generation: i64,
    /// Root pointer as it stood immediately before this upload swapped it.
    /// Blobs are content-addressed and never overwritten, so this hash is the
    /// handle for restoring the prior library state.
    pub previous_root_hash: String,
    pub previous_generation: i64,
}

/// How often an upload reads the root anew before it gives up.
pub const MAX_ATTEMPTS: usize = 3;

/// Where an upload stands.
#[derive(Debug)]
pub enum UploadStage {
    /// The file with this number is to be stored.
    StoreFile(usize),
    /// The root is to be read.
    LoadRoot,
    /// The document index is to be stored.
    StoreDocIndex { root: RootState, planned: NewRoot },
    /// The rewritten root index is to be stored.
    StoreRootIndex { root: RootState, planned: NewRoot },
    /// The root pointer is to be moved.
    SwapRoot { root: RootState, planned: NewRoot },
    /// The document is attached.
    Done(UploadResult),
    /// The upload gave up.
    Failed(Error),
}

/// An upload in progress.
#[derive(Debug)]
pub struct Upload {
    pub doc_uuid: String,
    pub files: Vec<CloudFile>,
    pub entries: Vec<IndexEntry>,
    pub attempt: usize,
    pub stage: UploadStage,
}

/// What came back from the request that an upload asked for.
#[derive(Debug)]
pub enum UploadEvent {
    /// The blob was stored.
    Stored,
    /// The root was read.
    Loaded(RootState),
    /// The root update was answered.
    Swapped(UpdateRootOutcome),
    /// The request failed.
    Failed(Error),
}

/// The next request of an upload.
#[derive(Debug)]
pub enum UploadRequest<'a> {
    /// Store these bytes under this hash and name.
    Store { hash: &'a str, bytes: &'a Vec<u8>, name: String },
    /// Read the root.
    Load,
    /// Move the root pointer to this hash, guarded by the generation.
    Swap { hash: &'a str, generation: i64 },
}

/// The mathematical value of an [`UploadRequest`].
pub enum AskView {
    Store { hash: Seq<char>, bytes: Seq<u8>, name: Seq<char> },
    Load,
    Swap { hash: Seq<char>, generation: int },
}

impl<'a> UploadRequest<'a> {
    /// The request by value.
    pub open spec fn asked(self) -> AskView {
        match self {
            UploadRequest::Store { hash, bytes, name } => AskView::Store {
                hash: hash@,
                bytes: bytes@,
                name: name@,
            },
            UploadRequest::Load => AskView::Load,
            UploadRequest::Swap { hash, generation } => AskView::Swap {
                hash: hash@,
                generation: generation as int,
            },
        }
    }
}

impl Upload {
    /// The request that comes next: a file, an index, the root, or the move of
    /// the root pointer.
    pub open spec fn asks(&self) -> Option<AskView> {
        match self.stage {
            UploadStage::StoreFile(i) => Some(
                AskView::Store {
                    hash: sha256_hex_text(self.files@[i as int].bytes@),
                    bytes: self.files@[i as int].bytes@,
                    name: self.files@[i as int].cloud_name@,
                },
            ),
            UploadStage::LoadRoot => Some(AskView::Load),
            UploadStage::StoreDocIndex { root, planned } => Some(
                AskView::Store {
                    hash: planned.doc_index_hash@,
                    bytes: planned.doc_body@,
                    name: self.doc_uuid@ + ".docSchema"@,
                },
            ),
            UploadStage::StoreRootIndex { root, planned } => Some(
                AskView::Store {
                    hash: planned.root_hash@,
                    bytes: planned.root_body@,
                    name: "root.docSchema"@,
                },
            ),
            UploadStage::SwapRoot { root, planned } => Some(
                AskView::Swap { hash: planned.root_hash@, generation: root.generation as int },
            ),
            UploadStage::Done(_) => None,
            UploadStage::Failed(_) => None,
        }
    }

    /// Whether nothing was asked for yet.
    pub open spec fn begins(&self) -> bool {
        &&& self.attempt == 0
        &&& self.stage == if self.files@.len() == 0 {
            UploadStage::LoadRoot
        } else {
            UploadStage::StoreFile(0)
        }
    }

    /// The invariant of an upload: the entries are those of the files, the
    /// stage names a file that there is, what is stored and swapped is the
    /// plan made on the root that was read, and there are attempts left.
    pub open spec fn wf(&self) -> bool {
        &&& views(self.entries@) == file_entries(views(self.files@))
        &&& self.attempt < MAX_ATTEMPTS
        &&& match self.stage {
            UploadStage::StoreFile(i) => i < self.files@.len(),
            UploadStage::StoreDocIndex { root, planned } => self.plan_fits(root, planned),
            UploadStage::StoreRootIndex { root, planned } => self.plan_fits(root, planned),
            UploadStage::SwapRoot { root, planned } => self.plan_fits(root, planned),
            _ => true,
        }
    }

    /// Whether `planned` is the index layer of this upload on `root`.
    pub open spec fn plan_fits(&self, root: RootState, planned: NewRoot) -> bool {
        planned_root(
            root.schema,
            views(root.entries@),
            self.doc_uuid@,
            file_entries(views(self.files@)),
        ) == Ok::<_, ErrorView>(planned@)
    }

    /// The upload of `files` as the document `doc_uuid`.
    pub fn start(doc_uuid: String, files: Vec<CloudFile>) -> (r: Self)
        ensures
            r.wf(),
            r.doc_uuid == doc_uuid,
            r.files == files,
            r.attempt == 0,
            r.stage == (if files@.len() == 0 {
                UploadStage::LoadRoot
            } else {
                UploadStage::StoreFile(0)
            }),
            r.begins(),
    {
        let entries = entries_for(&files);
        let stage = if files.len() == 0 {
            UploadStage::LoadRoot
        } else {
            UploadStage::StoreFile(0)
        };
        Upload { doc_uuid, files, entries, attempt: 0, stage }
    }

    /// The request that comes next, or `None` when the upload has ended.
    pub fn request<'a>(&'a self) -> (r: Option<UploadRequest<'a>>)
        requires
            self.wf(),
        ensures
            match self.stage {
                UploadStage::StoreFile(i) => r matches Some(
                    UploadRequest::Store { hash, bytes, name },
                ) && hash@ == sha256_hex_text(self.files@[i as int].bytes@) && bytes@
                    == self.files@[i as int].bytes@ && name@ == self.files@[i as int].cloud_name@,
                UploadStage::LoadRoot => r matches Some(UploadRequest::Load),
                UploadStage::StoreDocIndex { root, planned } => r matches Some(
                    UploadRequest::Store { hash, bytes, name },
                ) && hash@ == planned.doc_index_hash@ && bytes@ == planned.doc_body@ && name@
                    == self.doc_uuid@ + ".docSchema"@,
                UploadStage::StoreRootIndex { root, planned } => r matches Some(
                    UploadRequest::Store { hash, bytes, name },
                ) && hash@ == planned.root_hash@ && bytes@ == planned.root_body@ && name@
                    == "root.docSchema"@,
                UploadStage::SwapRoot { root, planned } => r matches Some(
                    UploadRequest::Swap { hash, generation },
                ) && hash@ == planned.root_hash@ && generation == root.generation,
                UploadStage::Done(_) => r is None,
                UploadStage::Failed(_) => r is None,
            },
            match r {
                Some(ask) => self.asks() == Some(ask.asked()),
                None => self.asks() is None,
            },
    {
        match &self.stage {
            UploadStage::StoreFile(i) => {
                proof {
                    assert(views(self.entries@).len() == self.entries@.len());
                    assert(views(self.files@).len() == self.files@.len());
                    assert(views(self.entries@)[*i as int] == file_entry(
                        views(self.files@)[*i as int],
                    ));
                }
                Some(
                    UploadRequest::Store {
                        hash: self.entries[*i].hash.as_str(),
                        bytes: &self.files[*i].bytes,
                        name: self.files[*i].cloud_name.clone(),
                    },
                )
            },
            UploadStage::LoadRoot => Some(UploadRequest::Load),
            UploadStage::StoreDocIndex { root, planned } => Some(
                UploadRequest::Store {
                    hash: planned.doc_index_hash.as_str(),
                    bytes: &planned.doc_body,
                    name: joined(self.doc_uuid.as_str(), ".docSchema"),
                },
            ),
            UploadStage::StoreRootIndex { root, planned } => Some(
                UploadRequest::Store {
                    hash: planned.root_hash.as_str(),
                    bytes: &planned.root_body,
                    name: "root.docSchema".to_owned(),
                },
            ),
            UploadStage::SwapRoot { root, planned } => Some(
                UploadRequest::Swap {
                    hash: planned.root_hash.as_str(),
                    generation: root.generation,
                },
            ),
            UploadStage::Done(_) => None,
            UploadStage::Failed(_) => None,
        }
    }

    /// Whether an event answers the request of the stage.
    pub open spec fn answers(&self, event: UploadEvent) -> bool {
        match (self.stage, event) {
            (UploadStage::Done(_), _) => false,
            (UploadStage::Failed(_), _) => false,
            (_, UploadEvent::Failed(_)) => true,
            (UploadStage::LoadRoot, UploadEvent::Loaded(root)) => sizes_fit(
                root.schema,
                views(root.entries@),
                self.doc_uuid@,
                file_entries(views(self.files@)),
            ),
            (UploadStage::SwapRoot { .. }, UploadEvent::Swapped(_)) => true,
            (UploadStage::StoreFile(_), UploadEvent::Stored) => true,
            (UploadStage::StoreDocIndex { .. }, UploadEvent::Stored) => true,
            (UploadStage::StoreRootIndex { .. }, UploadEvent::Stored) => true,
            _ => false,
        }
    }

    /// Where the upload stands after an event.
    pub open spec fn moves_to(&self, event: UploadEvent, after: Upload) -> bool {
        &&& after.doc_uuid == self.doc_uuid
        &&& after.files == self.files
        &&& after.entries == self.entries
        &&& after.attempt == self.attempt + if self.stage is SwapRoot && (event matches
            UploadEvent::Swapped(UpdateRootOutcome::GenerationRace)) && self.attempt + 1
            < MAX_ATTEMPTS {
            1int
        } else {
            0int
        }
        &&& match (self.stage, event) {
            (_, UploadEvent::Failed(e)) => after.stage == UploadStage::Failed(e),
            (UploadStage::StoreFile(i), UploadEvent::Stored) => if i + 1 < self.files@.len() {
                after.stage matches UploadStage::StoreFile(k) && k == i + 1
            } else {
                after.stage == UploadStage::LoadRoot
            },
            (UploadStage::LoadRoot, UploadEvent::Loaded(root)) => match planned_root(
                root.schema,
                views(root.entries@),
                self.doc_uuid@,
                file_entries(views(self.files@)),
            ) {
                Ok(n) => after.stage matches UploadStage::StoreDocIndex { root: kept, planned }
                    && kept == root && planned@ == n,
                Err(want) => after.stage matches UploadStage::Failed(e) && e@ == want,
            },
            (UploadStage::StoreDocIndex { root, planned }, UploadEvent::Stored) => after.stage
                == (UploadStage::StoreRootIndex { root, planned }),
            (UploadStage::StoreRootIndex { root, planned }, UploadEvent::Stored) => after.stage
                == (UploadStage::SwapRoot { root, planned }),
            (
                UploadStage::SwapRoot { root, planned },
                UploadEvent::Swapped(UpdateRootOutcome::Updated { new_generation }),
            ) => after.stage matches UploadStage::Done(u) && {
                &&& u.doc_id@ == self.doc_uuid@
                &&& u.doc_index_hash@ == planned.doc_index_hash@
                &&& u.new_root_hash@ == planned.root_hash@
                &&& u.new_generation == new_generation
                &&& u.previous_root_hash@ == root.root_hash@
                &&& u.previous_generation == root.generation
            },
            (
                UploadStage::SwapRoot { .. },
                UploadEvent::Swapped(UpdateRootOutcome::GenerationRace),
            ) => if self.attempt + 1 < MAX_ATTEMPTS {
                after.stage == UploadStage::LoadRoot
            } else {
                after.stage matches UploadStage::Failed(e) && e@ == ErrorView::Other(
                    "root generation race after 3 retries — try again"@,
                )
            },
            _ => false,
        }
    }

    /// Takes the answer to the current request.
    ///
    /// The whole index layer comes from `plan_root`, the same function the dry
    /// run uses, and is computed before any of it is sent.
    pub fn step(self, event: UploadEvent) -> (r: Upload)
        requires
            self.wf(),
            self.answers(event),
        ensures
            r.wf(),
            self.moves_to(event, r),
    {
        let doc_uuid = self.doc_uuid;
        let files = self.files;
        let entries = self.entries;
        let mut attempt: usize = self.attempt;
        let count: usize = files.len();
        let stage = match (self.stage, event) {
            (_, UploadEvent::Failed(e)) => UploadStage::Failed(e),
            (UploadStage::StoreFile(i), UploadEvent::Stored) => if i + 1 < count {
                UploadStage::StoreFile(i + 1)
            } else {
                UploadStage::LoadRoot
            },
            (UploadStage::LoadRoot, UploadEvent::Loaded(root)) => {
                match plan_root(&root, doc_uuid.as_str(), entries.as_slice()) {
                    Ok(planned) => UploadStage::StoreDocIndex { root, planned },
                    Err(e) => UploadStage::Failed(e),
                }
            },
            (UploadStage::StoreDocIndex { root, planned }, UploadEvent::Stored) => {
                UploadStage::StoreRootIndex { root, planned }
            },
            (UploadStage::StoreRootIndex { root, planned }, UploadEvent::Stored) => {
                UploadStage::SwapRoot { root, planned }
            },
            (
                UploadStage::SwapRoot { root, planned },
                UploadEvent::Swapped(UpdateRootOutcome::Updated { new_generation }),
            ) => UploadStage::Done(
                UploadResult {
                    doc_id: doc_uuid.clone(),
                    doc_index_hash: planned.doc_index_hash,
                    new_root_hash: planned.root_hash,
                    new_generation,
                    previous_root_hash: root.root_hash,
                    previous_generation: root.generation,
                },
            ),
            (_, _) => if attempt + 1 < MAX_ATTEMPTS {
                attempt = attempt + 1;
                UploadStage::LoadRoot
            } else {
                UploadStage::Failed(
                    Error::Other("root generation race after 3 retries — try again".to_owned()),
                )
            },
        };
        Upload { doc_uuid, files, entries, attempt, stage }
    }

    /// How many requests an upload can still make.
    pub open spec fn requests_left(&self) -> int {
        let left = 4 * (MAX_ATTEMPTS - 1 - self.attempt);
        match self.stage {
            UploadStage::StoreFile(i) => self.files@.len() - i + 4 + left,
            UploadStage::LoadRoot => 4 + left,
            UploadStage::StoreDocIndex { .. } => 3 + left,
            UploadStage::StoreRootIndex { .. } => 2 + left,
            UploadStage::SwapRoot { .. } => 1 + left,
            UploadStage::Done(_) => 0,
            UploadStage::Failed(_) => 0,
        }
    }
}

/// Every answer brings an upload nearer to its end, and an upload that still
/// has a request to make can make it: the root is read at most three times.
pub proof fn law_upload_ends(before: Upload, event: UploadEvent, after: Upload)
    requires
        before.wf(),
        before.answers(event),
        before.moves_to(event, after),
    ensures
        0 <= after.requests_left() < before.requests_left(),
{
}

/// The root pointer is moved only to an index that was stored just before,
/// and that holds the plan made on the very root whose generation guards the
/// move.
pub proof fn law_swap_is_guarded(before: Upload, event: UploadEvent, after: Upload)
    requires
        before.wf(),
        before.answers(event),
        before.moves_to(event, after),
        after.stage is SwapRoot,
    ensures
        before.stage matches UploadStage::StoreRootIndex { root, planned } && event
            == UploadEvent::Stored && after.stage == (UploadStage::SwapRoot { root, planned })
            && planned_root(
            root.schema,
            views(root.entries@),
            after.doc_uuid@,
            file_entries(views(after.files@)),
        ) == Ok::<_, ErrorView>(planned@),
{
}

/// A dry run shows exactly what a push on the same root uploads: one blob for
/// each file and the two indexes, the new root under the very hash the pointer
/// is moved to, and the difference between the old root and the stored one.
pub proof fn law_dry_run_shows_the_push(
    plan: PushPlan,
    root: RootState,
    before: Upload,
    after: Upload,
)
    requires
        plan.shows(root, before.doc_uuid@, views(before.files@)),
        before.wf(),
        before.stage is LoadRoot,
        before.answers(UploadEvent::Loaded(root)),
        before.moves_to(UploadEvent::Loaded(root), after),
    ensures
        after.stage matches UploadStage::StoreDocIndex { root: kept, planned } && {
            &&& kept == root
            &&& plan.doc_id@ == after.doc_uuid@
            &&& plan.blobs_to_upload == after.files@.len() + 2
            &&& plan.new_root_hash@ == planned.root_hash@
            &&& plan.diff@ == root_diff(root.schema, root.body@, decode_utf8(planned.root_body@))
        },
{
    assert(views(before.files@).len() == before.files@.len());
}

} // verus!
