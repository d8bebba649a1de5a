//! The command line: its commands, and the decisions of their handlers.

use vstd::prelude::*;
use vstd::utf8::*;

use crate::cloud_api::FileItem;
use crate::error::{Error, ErrorView, Result};
use crate::ids::{is_uuid_form, reads_as_uuid};
use crate::markdown::frontmatter::{
    first_h1, h1_title, or_else, strip_yaml_frontmatter, stripped, Metadata,
};
use crate::notebook::bundle::{Bundle, BundlePageView, BundleView, MAX_PAGES};
use crate::sync_v3::index::RootDiffView;
use crate::sync_v3::listing::{DocumentInfo, DocumentView};
use crate::sync_v3::upload::PushPlan;
use crate::text::{
    ascii_lower, chars_of, decimal, ends_with, has_suffix, lemma_views_push, lines, opt_view,
    push_decimal, push_signed_decimal, push_wide_decimal, signed_decimal, start_of_text,
    string_of, to_ascii_lower, trim, trim_start, trimmed, views,
};
use crate::v6::page::Device;

verus! {

/// A command line.
#[derive(Debug)]
pub struct Cli {
    pub command: Command,
    /// Verbose logging.
    pub verbose: bool,
}

/// One command.
#[derive(Debug)]
pub enum Command {
    /// Pair this machine with a reMarkable account.
    Auth { token: Option<String> },
    /// Push Markdown as a native notebook.
    Push {
        file: String,
        title: Option<String>,
        device: DeviceArg,
        parent: Option<String>,
        rm: Option<String>,
        dry_run: bool,
    },
    /// Upload an EPUB and have the cloud convert it.
    ConnectPush {
        file: String,
        title: Option<String>,
        folder: Option<String>,
        dir: Option<String>,
        format: WireFormat,
        background: bool,
    },
    /// List documents and folders.
    Ls { folders: bool },
    /// Create a folder at root, or under a parent.
    Mkdir { name: String, parent: Option<String> },
    /// Delete a document or folder by id.
    Rm { id: String },
    /// Show authentication and connectivity.
    Status,
    /// Forget all stored credentials.
    Logout,
    /// Install agent skills.
    Skills { target: String, dry_run: bool },
    /// List background jobs.
    Jobs,
    /// Print the log of a background job.
    Logs { id: String },
    /// Cancel a running background job.
    Cancel { id: String },
}

/// Device selector of the command line.
#[derive(Debug, Clone, Copy, PartialEq, Eq, Structural)]
pub enum DeviceArg {
    /// reMarkable Paper Pro (10.5" color).
    PaperPro,
    /// reMarkable Paper Pro Move (8" color).
    PaperProMove,
    /// reMarkable 2 (10.3").
    Rm2,
}

/// The device that a selector names.
pub open spec fn device_of(d: DeviceArg) -> Device {
    match d {
        DeviceArg::PaperPro => Device::PaperPro,
        DeviceArg::PaperProMove => Device::PaperProMove,
        DeviceArg::Rm2 => Device::Rm2,
    }
}

impl From<DeviceArg> for Device {
    fn from(d: DeviceArg) -> (r: Self) {
        match d {
            DeviceArg::PaperPro => Device::PaperPro,
            DeviceArg::PaperProMove => Device::PaperProMove,
            DeviceArg::Rm2 => Device::Rm2,
        }
    }
}

impl vstd::std_specs::convert::FromSpecImpl<DeviceArg> for Device {
    open spec fn obeys_from_spec() -> bool {
        true
    }

    open spec fn from_spec(d: DeviceArg) -> Self {
        device_of(d)
    }
}

/// Wire format of the EPUB upload.
#[derive(Debug, Clone, Copy, PartialEq, Eq, Structural)]
pub enum WireFormat {
    /// Converted to a native notebook by the cloud.
    Notebook,
    /// The EPUB as it is.
    Epub,
}

/// The name of a command in the job list.
pub open spec fn kind_name(c: Command) -> Seq<char> {
    match c {
        Command::Push { .. } => "push"@,
        Command::ConnectPush { .. } => "connect-push"@,
        Command::Mkdir { .. } => "mkdir"@,
        Command::Rm { .. } => "rm"@,
        _ => "other"@,
    }
}

/// The name of a command in the job list.
pub fn command_kind(c: &Command) -> (r: &'static str)
    ensures
        r@ == kind_name(*c),
{
    match c {
        Command::Push { .. } => "push",
        Command::ConnectPush { .. } => "connect-push",
        Command::Mkdir { .. } => "mkdir",
        Command::Rm { .. } => "rm",
        _ => "other",
    }
}

/// The message of an error on the command line.
pub open spec fn shown(e: ErrorView) -> Seq<char> {
    match e {
        ErrorView::AuthExpired => "token expired — run `rr auth` to re-pair"@,
        _ => e.text(),
    }
}

/// The message of an error on the command line.
pub fn map_rr_err(e: &Error) -> (r: String)
    ensures
        r@ == shown(e@),
{
    match e {
        Error::AuthExpired => "token expired — run `rr auth` to re-pair".to_owned(),
        _ => e.message(),
    }
}

// ---------------------------------------------------------------------------
// Authentication
// ---------------------------------------------------------------------------

/// What has to happen before a request.
#[derive(Debug, Clone, Copy, PartialEq, Eq, Structural)]
pub enum AuthStep {
    /// There is no token: the user has to pair first.
    Pair,
    /// The token has expired: refresh it.
    Refresh,
    /// The token can be used.
    Ready,
}

/// What has to happen before a request.
pub fn auth_step(authenticated: bool, expired: bool) -> (r: AuthStep)
    ensures
        r == (if !authenticated {
            AuthStep::Pair
        } else if expired {
            AuthStep::Refresh
        } else {
            AuthStep::Ready
        }),
{
    if !authenticated {
        AuthStep::Pair
    } else if expired {
        AuthStep::Refresh
    } else {
        AuthStep::Ready
    }
}

/// The line that says when a token expires, by the time in seconds.
pub open spec fn expiry_text(expires_at: Option<i64>, now: i64) -> Seq<char> {
    match expires_at {
        Some(exp) => if exp > now {
            "Token expires in "@ + signed_decimal((exp - now) / 60) + " minutes"@
        } else {
            "Token expired ("@ + signed_decimal(now - exp) + "s ago)"@
        },
        None => "Token expiry: unknown"@,
    }
}

/// The line that says when a token expires.
pub fn expiry_line(expires_at: Option<i64>, now: i64) -> (r: String)
    ensures
        r@ == expiry_text(expires_at, now),
{
    match expires_at {
        Some(exp) => if exp > now {
            let left: u128 = (exp as i128 - now as i128) as u128;
            let mut out = "Token expires in ".to_owned();
            push_wide_decimal(&mut out, left / 60);
            out.push_str(" minutes");
            out
        } else {
            let past: u128 = (now as i128 - exp as i128) as u128;
            let mut out = "Token expired (".to_owned();
            push_wide_decimal(&mut out, past);
            out.push_str("s ago)");
            out
        },
        None => "Token expiry: unknown".to_owned(),
    }
}

// ---------------------------------------------------------------------------
// Push
// ---------------------------------------------------------------------------

/// The error for a parent that is no folder id.
pub open spec fn bad_parent(p: Seq<char>) -> ErrorView {
    ErrorView::Other(
        "--parent '"@ + p + "' is not a folder UUID; run `rr ls --folders` to find folder ids"@,
    )
}

/// Accepts the parent of a push: folder ids are UUIDs; anything else would
/// orphan the document under a parent that does not exist.
pub fn push_parent(parent: Option<&str>) -> (r: Result<Option<String>>)
    ensures
        match (parent, r) {
            (None, Ok(None)) => true,
            (Some(p), Ok(Some(id))) => id@ == trim(p@) && is_uuid_form(trim(p@)),
            (Some(p), Err(e)) => !is_uuid_form(trim(p@)) && e@ == bad_parent(trim(p@)),
            _ => false,
        },
{
    match parent {
        None => Ok(None),
        Some(p) => {
            let t = trimmed(chars_of(p).as_slice());
            let id = string_of(t.as_slice(), 0, t.len());
            proof {
                assert(id@ =~= trim(p@));
            }
            if reads_as_uuid(id.as_str()) {
                Ok(Some(id))
            } else {
                let mut msg = "--parent '".to_owned();
                msg.push_str(id.as_str());
                msg.push_str("' is not a folder UUID; run `rr ls --folders` to find folder ids");
                Err(Error::Other(msg))
            }
        },
    }
}

/// The first Markdown H1 as a title, if there is one.
pub fn extract_h1_title(md: &str) -> (r: Option<String>)
    ensures
        opt_view(r) == first_h1(lines(md@)),
{
    h1_title(md)
}

/// The title of a push: the one given, else the first heading, else the stem
/// of the file name.
pub open spec fn title_of(
    custom: Option<Seq<char>>,
    md: Seq<char>,
    stem: Option<Seq<char>>,
) -> Seq<char> {
    match custom {
        Some(t) => t,
        None => or_else(first_h1(lines(md)), or_else(stem, "Untitled"@)),
    }
}

/// The title of a push.
pub fn push_title(custom: Option<String>, md: &str, stem: Option<&str>) -> (r: String)
    ensures
        r@ == title_of(
            opt_view(custom),
            md@,
            match stem {
                Some(s) => Some(s@),
                None => None,
            },
        ),
{
    match custom {
        Some(t) => t,
        None => match extract_h1_title(md) {
            Some(t) => t,
            None => match stem {
                Some(s) => s.to_owned(),
                None => "Untitled".to_owned(),
            },
        },
    }
}

/// A source on its way to a notebook.
#[derive(Debug)]
pub struct PushSource<'a> {
    pub title: String,
    /// The text that is split into pages.
    pub body: &'a str,
    /// The source opens with a `---` block that was taken for a page.
    pub ambiguous: bool,
}

/// Reads a source for a push: its frontmatter is taken off, and the title is
/// looked for in what is left.
pub fn push_source<'a>(source: &'a str, custom: Option<String>, stem: Option<&str>) -> (r:
    PushSource<'a>)
    ensures
        r.body@ == stripped(source@).body,
        r.ambiguous == stripped(source@).ambiguous,
        r.title@ == title_of(
            opt_view(custom),
            stripped(source@).body,
            match stem {
                Some(s) => Some(s@),
                None => None,
            },
        ),
{
    let s = strip_yaml_frontmatter(source);
    let title = push_title(custom, s.body, stem);
    PushSource { title, body: s.body, ambiguous: s.ambiguous }
}

/// The bytes of the texts and stroke files of the first `n` pages.
pub open spec fn page_bytes(pages: Seq<BundlePageView>, n: nat) -> nat
    decreases n,
{
    if n == 0 {
        0
    } else {
        page_bytes(pages, (n - 1) as nat) + pages[n - 1].rm_bytes.len() + encode_utf8(
            pages[n - 1].metadata_json,
        ).len()
    }
}

/// The bytes that a push uploads, images aside.
pub open spec fn upload_bytes(b: BundleView) -> nat {
    encode_utf8(b.metadata_json).len() + encode_utf8(b.content_json).len() + encode_utf8(
        b.pagedata,
    ).len() + page_bytes(b.pages, b.pages.len())
}

fn byte_len(s: &str) -> (r: u128)
    ensures
        r == encode_utf8(s@).len(),
        r <= u64::MAX,
{
    s.as_bytes().len() as u128
}

/// The line that announces an upload: document, pages and bytes.
pub fn bundle_line(bundle: &Bundle) -> (r: String)
    requires
        bundle.pages@.len() <= MAX_PAGES,
    ensures
        r@ == "  doc: "@ + bundle.doc_uuid@ + " | pages: "@ + decimal(bundle.pages@.len())
            + " | bytes to upload: "@ + decimal(upload_bytes(bundle@)),
{
    let ghost pv = bundle@.pages;
    let mut total: u128 = byte_len(bundle.metadata_json.as_str()) + byte_len(
        bundle.content_json.as_str(),
    ) + byte_len(bundle.pagedata.as_str());
    let ghost base = total as int;
    let mut i: usize = 0;
    while i < bundle.pages.len()
        invariant
            pv == bundle@.pages,
            bundle.pages@.len() <= MAX_PAGES,
            i <= bundle.pages@.len(),
            0 <= base <= 3 * u64::MAX,
            total == base + page_bytes(pv, i as nat),
            total <= base + i * 0x2_0000_0000_0000_0000,
        decreases bundle.pages@.len() - i,
    {
        proof {
            assert(pv[i as int] == bundle.pages@[i as int]@);
        }
        let rm_len: usize = bundle.pages[i].rm_bytes.len();
        total = total + rm_len as u128 + byte_len(bundle.pages[i].metadata_json.as_str());
        i += 1;
    }
    let mut out = "  doc: ".to_owned();
    out.push_str(bundle.doc_uuid.as_str());
    out.push_str(" | pages: ");
    push_decimal(&mut out, bundle.pages.len() as u64);
    out.push_str(" | bytes to upload: ");
    push_wide_decimal(&mut out, total);
    out
}

/// What a dry run says of a push.
#[derive(Debug, Clone, Copy, PartialEq, Eq, Structural)]
pub enum PlanVerdict {
    /// The rewritten root would drop existing lines: the push must not happen.
    Lossy,
    /// The rewritten root would not add exactly one line.
    NotOneLine,
    /// Every existing line is kept byte for byte, in order.
    Kept,
    /// No line is lost, but existing lines would be reordered.
    Reordered,
}

/// What a dry run says of a comparison of roots.
pub open spec fn verdict_of(d: RootDiffView) -> PlanVerdict {
    if d.removed.len() > 0 {
        PlanVerdict::Lossy
    } else if d.added.len() != 1 {
        PlanVerdict::NotOneLine
    } else if d.order_preserved {
        PlanVerdict::Kept
    } else {
        PlanVerdict::Reordered
    }
}

/// What a dry run says of a push, so scripts and agents cannot mistake a lossy
/// plan for a clean one.
pub fn plan_verdict(plan: &PushPlan) -> (r: PlanVerdict)
    ensures
        r == verdict_of(plan.diff@),
{
    if plan.diff.removed.len() > 0 {
        PlanVerdict::Lossy
    } else if plan.diff.added.len() != 1 {
        PlanVerdict::NotOneLine
    } else if plan.diff.order_preserved {
        PlanVerdict::Kept
    } else {
        PlanVerdict::Reordered
    }
}

/// The error of a verdict that refuses the push.
pub fn verdict_error(v: PlanVerdict) -> (r: Option<Error>)
    ensures
        match v {
            PlanVerdict::Lossy => r matches Some(e) && e@ == ErrorView::Other(
                "dry run: the rewritten root would drop existing index lines; do not push"@,
            ),
            PlanVerdict::NotOneLine => r matches Some(e) && e@ == ErrorView::Other(
                "dry run: expected exactly one added index line"@,
            ),
            _ => r is None,
        },
{
    match v {
        PlanVerdict::Lossy => Some(
            Error::Other(
                "dry run: the rewritten root would drop existing index lines; do not push".to_owned(),
            ),
        ),
        PlanVerdict::NotOneLine => Some(
            Error::Other("dry run: expected exactly one added index line".to_owned()),
        ),
        _ => None,
    }
}

/// The lines with a marker in front.
pub open spec fn marked(mark: Seq<char>, ls: Seq<Seq<char>>) -> Seq<Seq<char>> {
    Seq::new(ls.len(), |i: int| mark + ls[i])
}

/// `true` or `false`.
pub open spec fn bool_text(b: bool) -> Seq<char> {
    if b {
        "true"@
    } else {
        "false"@
    }
}

/// The lines of a dry-run report, before the verdict.
pub open spec fn plan_text(
    doc_id: Seq<char>,
    blobs: nat,
    old_root: Seq<char>,
    generation: int,
    new_root: Seq<char>,
    d: RootDiffView,
) -> Seq<Seq<char>> {
    seq![
        "Dry run: nothing was uploaded."@,
        "  doc id:            "@ + doc_id,
        "  blobs to upload:   "@ + decimal(blobs),
        "  current root:      "@ + old_root,
        "  current gen:       "@ + signed_decimal(generation),
        "  new root would be: "@ + new_root,
        "Root index diff:"@,
        "  entry lines:       "@ + decimal(d.old_entries) + " -> "@ + decimal(d.new_entries),
    ] + (match (d.old_totals, d.new_totals) {
        (Some(a), Some(b)) => seq!["  totals row:        "@ + a + " -> "@ + b],
        _ => Seq::empty(),
    }) + seq!["  lines removed:     "@ + decimal(d.removed.len())] + marked("    - "@, d.removed)
        + seq!["  lines added:       "@ + decimal(d.added.len())] + marked("    + "@, d.added)
        + seq!["  order preserved:   "@ + bool_text(d.order_preserved)]
}

fn labelled(label: &str, text: &str) -> (r: String)
    ensures
        r@ == label@ + text@,
{
    let mut out = label.to_owned();
    out.push_str(text);
    out
}

fn counted(label: &str, n: u64) -> (r: String)
    ensures
        r@ == label@ + decimal(n as nat),
{
    let mut out = label.to_owned();
    push_decimal(&mut out, n);
    out
}

fn push_marked(out: &mut Vec<String>, mark: &str, ls: &Vec<String>)
    ensures
        views(final(out)@) == views(old(out)@) + marked(mark@, views(ls@)),
{
    let ghost before = views(out@);
    let ghost want = marked(mark@, views(ls@));
    let mut i: usize = 0;
    proof {
        assert(before + want.take(0) =~= before);
    }
    while i < ls.len()
        invariant
            want == marked(mark@, views(ls@)),
            i <= ls@.len(),
            views(out@) == before + want.take(i as int),
        decreases ls@.len() - i,
    {
        let line = labelled(mark, ls[i].as_str());
        proof {
            assert(views(ls@)[i as int] == ls@[i as int]@);
            lemma_views_push(out@, line);
            assert(views(out@).push(line@) =~= before + want.take(i + 1));
        }
        out.push(line);
        i += 1;
    }
    proof {
        assert(want.take(i as int) =~= want);
    }
}

fn push_line(out: &mut Vec<String>, line: String)
    ensures
        views(final(out)@) == views(old(out)@).push(line@),
{
    proof {
        lemma_views_push(out@, line);
    }
    out.push(line);
}

/// The lines of a dry-run report, before the verdict.
pub fn report_push_plan(plan: &PushPlan) -> (r: Vec<String>)
    ensures
        views(r@) == plan_text(
            plan.doc_id@,
            plan.blobs_to_upload as nat,
            plan.previous_root_hash@,
            plan.previous_generation as int,
            plan.new_root_hash@,
            plan.diff@,
        ),
{
    let d = &plan.diff;
    let ghost dv = plan.diff@;
    let mut out: Vec<String> = Vec::new();
    let mut generation = "  current gen:       ".to_owned();
    push_signed_decimal(&mut generation, plan.previous_generation);
    let mut counts = counted("  entry lines:       ", d.old_entries as u64);
    counts.push_str(" -> ");
    push_decimal(&mut counts, d.new_entries as u64);
    push_line(&mut out, "Dry run: nothing was uploaded.".to_owned());
    push_line(&mut out, labelled("  doc id:            ", plan.doc_id.as_str()));
    push_line(&mut out, counted("  blobs to upload:   ", plan.blobs_to_upload as u64));
    push_line(&mut out, labelled("  current root:      ", plan.previous_root_hash.as_str()));
    push_line(&mut out, generation);
    push_line(&mut out, labelled("  new root would be: ", plan.new_root_hash.as_str()));
    push_line(&mut out, "Root index diff:".to_owned());
    push_line(&mut out, counts);
    let ghost head = views(out@);
    if let (Some(a), Some(b)) = (&d.old_totals, &d.new_totals) {
        let mut row = labelled("  totals row:        ", a.as_str());
        row.push_str(" -> ");
        row.push_str(b.as_str());
        push_line(&mut out, row);
    }
    proof {
        assert(views(d.removed@).len() == d.removed@.len());
        assert(views(d.added@).len() == d.added@.len());
    }
    push_line(&mut out, counted("  lines removed:     ", d.removed.len() as u64));
    push_marked(&mut out, "    - ", &d.removed);
    push_line(&mut out, counted("  lines added:       ", d.added.len() as u64));
    push_marked(&mut out, "    + ", &d.added);
    push_line(
        &mut out,
        labelled(
            "  order preserved:   ",
            if d.order_preserved {
                "true"
            } else {
                "false"
            },
        ),
    );
    proof {
        assert(views(out@) =~= plan_text(
            plan.doc_id@,
            plan.blobs_to_upload as nat,
            plan.previous_root_hash@,
            plan.previous_generation as int,
            plan.new_root_hash@,
            dv,
        ));
    }
    out
}

// ---------------------------------------------------------------------------
// Connect push
// ---------------------------------------------------------------------------

/// Whether a source looks like an HTML document.
pub open spec fn html_like(s: Seq<char>) -> bool {
    trim_start(s).len() > 0 && trim_start(s)[0] == '<'
}

/// Whether a source looks like an HTML document.
pub fn looks_like_html(s: &str) -> (r: bool)
    ensures
        r == html_like(s@),
{
    let cs = chars_of(s);
    let at = start_of_text(cs.as_slice());
    proof {
        assert(cs@.skip(at as int).len() == cs@.len() - at);
    }
    at < cs.len() && cs[at] == '<'
}

/// The file name of an upload with this title.
pub open spec fn epub_name(title: Seq<char>) -> Seq<char> {
    if ends_with(ascii_lower(title), ".epub"@) {
        title
    } else {
        title + ".epub"@
    }
}

/// The file name of an upload with this title.
pub fn epub_file_name(title: &str) -> (r: String)
    ensures
        r@ == epub_name(title@),
{
    let low = to_ascii_lower(chars_of(title).as_slice());
    if has_suffix(low.as_slice(), ".epub") {
        title.to_owned()
    } else {
        labelled(title, ".epub")
    }
}

/// A flag with its value, where it has one.
pub open spec fn flag(name: Seq<char>, value: Option<Seq<char>>) -> Seq<Seq<char>> {
    match value {
        Some(v) => seq![name, v],
        None => Seq::empty(),
    }
}

/// The arguments of the background process of an upload.
pub open spec fn child_args_text(
    file: Seq<char>,
    title: Option<Seq<char>>,
    folder: Option<Seq<char>>,
    dir: Option<Seq<char>>,
    format: WireFormat,
) -> Seq<Seq<char>> {
    seq!["connect-push"@, file] + flag("--title"@, title) + flag("--folder"@, folder) + flag(
        "--dir"@,
        dir,
    ) + flag(
        "--format"@,
        Some(
            match format {
                WireFormat::Notebook => "notebook"@,
                WireFormat::Epub => "epub"@,
            },
        ),
    )
}

fn push_flag(out: &mut Vec<String>, name: &str, value: Option<String>)
    ensures
        views(final(out)@) == views(old(out)@) + flag(name@, opt_view(value)),
{
    let ghost before = views(out@);
    if let Some(v) = value {
        push_line(out, name.to_owned());
        push_line(out, v);
    }
    proof {
        assert(views(out@) =~= before + flag(name@, opt_view(value)));
    }
}

/// The arguments of the background process of an upload.
pub fn child_args(
    file: String,
    title: Option<String>,
    folder: Option<String>,
    dir: Option<String>,
    format: WireFormat,
) -> (r: Vec<String>)
    ensures
        views(r@) == child_args_text(
            file@,
            opt_view(title),
            opt_view(folder),
            opt_view(dir),
            format,
        ),
{
    let mut out: Vec<String> = Vec::new();
    push_line(&mut out, "connect-push".to_owned());
    push_line(&mut out, file);
    proof {
        assert(views(out@) =~= seq!["connect-push"@, file@]);
    }
    push_flag(&mut out, "--title", title);
    push_flag(&mut out, "--folder", folder);
    push_flag(&mut out, "--dir", dir);
    let name = match format {
        WireFormat::Notebook => "notebook",
        WireFormat::Epub => "epub",
    };
    push_flag(&mut out, "--format", Some(name.to_owned()));
    out
}

/// What an EPUB says about itself.
#[derive(Debug)]
pub struct EpubMeta {
    pub title: String,
    pub author: String,
    pub description: String,
    pub language: String,
    pub source_url: String,
}

/// The value of a key, or what is there already.
pub open spec fn value_or(
    m: Map<Seq<char>, Seq<char>>,
    key: Seq<char>,
    present: Seq<char>,
) -> Seq<char> {
    if m.contains_key(key) {
        m[key]
    } else {
        present
    }
}

fn field_or(m: &Metadata, key: &str, present: String) -> (r: String)
    ensures
        r@ == value_or(m@, key@, present@),
{
    match m.get(key) {
        Some(v) => v.clone(),
        None => present,
    }
}

impl EpubMeta {
    /// The same, with what the frontmatter of the source says.
    pub fn with_metadata(self, m: &Metadata) -> (r: Self)
        ensures
            r.title == self.title,
            r.author@ == value_or(m@, "author"@, self.author@),
            r.description@ == value_or(m@, "description"@, self.description@),
            r.language@ == value_or(m@, "lang"@, self.language@),
            r.source_url@ == value_or(m@, "source"@, self.source_url@),
    {
        EpubMeta {
            title: self.title,
            author: field_or(m, "author", self.author),
            description: field_or(m, "description", self.description),
            language: field_or(m, "lang", self.language),
            source_url: field_or(m, "source", self.source_url),
        }
    }
}

/// Where an upload goes.
#[derive(Debug)]
pub enum UploadTarget {
    /// A folder path, created as needed.
    Path(String),
    /// A folder by name, created if absent.
    Folder(String),
    /// The top level.
    Root,
}

/// Where an upload goes: a path before a name, and the top level without
/// either.
pub fn upload_target(dir: Option<String>, folder: Option<String>) -> (r: UploadTarget)
    ensures
        r == (match (dir, folder) {
            (Some(path), _) => UploadTarget::Path(path),
            (None, Some(name)) => UploadTarget::Folder(name),
            (None, None) => UploadTarget::Root,
        }),
{
    match (dir, folder) {
        (Some(path), _) => UploadTarget::Path(path),
        (None, Some(name)) => UploadTarget::Folder(name),
        (None, None) => UploadTarget::Root,
    }
}

/// The lines that report an upload: the id where the server named one, the
/// name, and the parent where there is one.
pub open spec fn uploaded_text(
    id: Seq<char>,
    file_name: Seq<char>,
    parent: Option<Seq<char>>,
    title: Seq<char>,
) -> Seq<Seq<char>> {
    (if id.len() > 0 {
        seq!["  ID:   "@ + id]
    } else {
        Seq::empty()
    }) + seq![
        "  Name: "@ + (if file_name.len() > 0 {
            file_name
        } else {
            title
        }),
    ] + (match parent {
        Some(p) => seq!["  Parent: "@ + p],
        None => Seq::empty(),
    })
}

/// The lines that report an upload.
pub fn uploaded_lines(item: &FileItem, title: &str) -> (r: Vec<String>)
    ensures
        views(r@) == uploaded_text(
            item.id@,
            item.file_name@,
            opt_view(item.parent),
            title@,
        ),
{
    let mut out: Vec<String> = Vec::new();
    if item.id.as_str().unicode_len() > 0 {
        push_line(&mut out, labelled("  ID:   ", item.id.as_str()));
    }
    let name = if item.file_name.as_str().unicode_len() > 0 {
        item.file_name.as_str()
    } else {
        title
    };
    push_line(&mut out, labelled("  Name: ", name));
    if let Some(p) = &item.parent {
        push_line(&mut out, labelled("  Parent: ", p.as_str()));
    }
    proof {
        assert(views(out@) =~= uploaded_text(
            item.id@,
            item.file_name@,
            opt_view(item.parent),
            title@,
        ));
    }
    out
}

// ---------------------------------------------------------------------------
// Listing
// ---------------------------------------------------------------------------

/// `s` filled up with spaces to a width.
pub open spec fn left_column(s: Seq<char>, width: nat) -> Seq<char> {
    crate::markdown::plain::padded(s, width, crate::events::Alignment::Left)
}

/// The row of an item.
pub open spec fn ls_row(d: DocumentView) -> Seq<char> {
    left_column(d.id, 38) + " "@ + left_column(d.doc_type, 18) + " "@ + (if d.folder() {
        "📁"@
    } else {
        "📄"@
    }) + " "@ + d.visible_name + (match d.parent {
        Some(p) => " [in: "@ + p + "]"@,
        None => Seq::empty(),
    })
}

/// Whether an item is listed.
pub open spec fn is_listed(d: DocumentView, folders_only: bool) -> bool {
    !d.deleted && (!folders_only || d.folder())
}

/// The rows of the items that are listed, in order.
pub open spec fn ls_rows_text(ds: Seq<DocumentView>, folders_only: bool) -> Seq<Seq<char>>
    decreases ds.len(),
{
    if ds.len() == 0 {
        Seq::empty()
    } else if is_listed(ds.last(), folders_only) {
        ls_rows_text(ds.drop_last(), folders_only).push(ls_row(ds.last()))
    } else {
        ls_rows_text(ds.drop_last(), folders_only)
    }
}

fn row_of(d: &DocumentInfo) -> (r: String)
    ensures
        r@ == ls_row(d@),
{
    let left = crate::events::Alignment::Left;
    let mut out = crate::markdown::plain::pad_cell(d.id.as_str(), 38, left);
    out.push_str(" ");
    out.push_str(crate::markdown::plain::pad_cell(d.doc_type.as_str(), 18, left).as_str());
    out.push_str(" ");
    out.push_str(
        if d.is_folder() {
            "📁"
        } else {
            "📄"
        },
    );
    out.push_str(" ");
    out.push_str(d.visible_name.as_str());
    let place = match &d.parent {
        Some(p) => {
            let mut t = " [in: ".to_owned();
            t.push_str(p.as_str());
            t.push_str("]");
            t
        },
        None => String::new(),
    };
    out.push_str(place.as_str());
    out
}

/// The rows of a listing: soft-deleted items are hidden, and so is everything
/// but folders where only those are asked for.
pub fn ls_rows(docs: &Vec<DocumentInfo>, folders_only: bool) -> (r: Vec<String>)
    ensures
        views(r@) == ls_rows_text(views(docs@), folders_only),
{
    let ghost ds = views(docs@);
    let mut out: Vec<String> = Vec::new();
    let mut i: usize = 0;
    proof {
        assert(views(out@) =~= ls_rows_text(ds.take(0), folders_only));
    }
    while i < docs.len()
        invariant
            ds == views(docs@),
            i <= docs@.len(),
            views(out@) == ls_rows_text(ds.take(i as int), folders_only),
        decreases docs@.len() - i,
    {
        let d = &docs[i];
        proof {
            assert(ds.take(i + 1).drop_last() =~= ds.take(i as int));
            assert(ds.take(i + 1).last() == d@);
        }
        if !d.deleted && (!folders_only || d.is_folder()) {
            push_line(&mut out, row_of(d));
        }
        i += 1;
    }
    proof {
        assert(ds.take(i as int) =~= ds);
    }
    out
}

// ---------------------------------------------------------------------------
// Laws
// ---------------------------------------------------------------------------

/// A dry run accepts a plan exactly when no line is dropped and one is added.
pub proof fn law_dry_run_accepts_lossless_plans(d: RootDiffView)
    ensures
        (verdict_of(d) == PlanVerdict::Kept || verdict_of(d) == PlanVerdict::Reordered) <==> (
        d.removed.len() == 0 && d.added.len() == 1),
        verdict_of(d) == PlanVerdict::Kept ==> d.order_preserved,
{
}

} // verus!
