//! The reMarkable document API: addresses, request metadata and answers.
//!
//! - `POST /doc/v2/files` uploads a native EPUB document, or creates a folder.
//! - `POST /import/v1/files` uploads and converts to a native notebook.
//! - `GET /doc/v2/files` lists, `DELETE /doc/v2/files` deletes by hash.

use vstd::prelude::*;
use vstd::utf8::*;

use crate::codec::{base64_encode, base64_text, json_quoted, json_string};
use crate::error::{Error, ErrorView, Result};
use crate::sync_v3::upload::success;
use crate::text::{
    blank, bytes_of, chars_of, has_prefix, is_blank, lemma_views_push, opt_view, parse_unsigned,
    split, split_chars, starts_with, str_eq, string_of, trim, trimmed, unsigned_value, views,
};

verus! {

/// Base URL when no tectonic claim is available.
pub const DEFAULT_BASE_URL: &'static str = "https://internal.cloud.remarkable.com";

/// The value of the `rm-source` header.
pub const DEFAULT_SOURCE: &'static str = "RoR-Browser";

/// The orientation of an uploaded document.
pub const DEFAULT_ORIENTATION: &'static str = "portrait";

/// The base URL for a tectonic claim; the default where the claim is missing
/// or blank.
pub open spec fn base_url(tectonic: Option<Seq<char>>) -> Seq<char> {
    match tectonic {
        Some(t) if trim(t).len() > 0 => "https://web."@ + trim(t) + ".tectonic.remarkable.com"@,
        _ => "https://internal.cloud.remarkable.com"@,
    }
}

/// Resolves the per-user base URL using the token's `tectonic` claim.
pub fn resolve_base_url(tectonic: Option<&str>) -> (r: String)
    ensures
        r@ == base_url(
            match tectonic {
                Some(t) => Some(t@),
                None => None,
            },
        ),
{
    match tectonic {
        Some(t) => {
            let name = trimmed(chars_of(t).as_slice());
            if name.len() > 0 {
                let text = string_of(name.as_slice(), 0, name.len());
                proof {
                    assert(text@ =~= trim(t@));
                }
                let mut out = "https://web.".to_owned();
                out.push_str(text.as_str());
                out.push_str(".tectonic.remarkable.com");
                return out;
            }
        },
        None => {},
    }
    "https://internal.cloud.remarkable.com".to_owned()
}

/// A document or folder of the document API.
#[derive(Debug)]
pub struct FileItem {
    pub id: String,
    pub hash: String,
    pub file_type: String,
    pub file_name: String,
    pub created_at: Option<String>,
    pub updated_at: Option<String>,
    pub parent: Option<String>,
    pub pinned: Option<bool>,
}

impl Default for FileItem {
    /// An unnamed item.
    fn default() -> (r: Self)
        ensures
            r.is_unnamed(),
    {
        FileItem {
            id: String::new(),
            hash: String::new(),
            file_type: String::new(),
            file_name: String::new(),
            created_at: None,
            updated_at: None,
            parent: None,
            pinned: None,
        }
    }
}

impl FileItem {
    /// Whether the item says nothing.
    pub open spec fn is_unnamed(&self) -> bool {
        &&& self.id@.len() == 0
        &&& self.hash@.len() == 0
        &&& self.file_type@.len() == 0
        &&& self.file_name@.len() == 0
        &&& self.created_at is None
        &&& self.updated_at is None
        &&& self.parent is None
        &&& self.pinned is None
    }
}

// ---------------------------------------------------------------------------
// Requests
// ---------------------------------------------------------------------------

/// The JSON metadata of a request; fields without a value are left out.
pub open spec fn meta_json(
    name: Seq<char>,
    parent: Option<Seq<char>>,
    orientation: Option<Seq<char>>,
    convert: Option<bool>,
) -> Seq<char> {
    "{\"file_name\":"@ + json_string(name) + (match parent {
        Some(p) => ",\"parent\":"@ + json_string(p),
        None => Seq::empty(),
    }) + (match orientation {
        Some(o) => ",\"orientation\":"@ + json_string(o),
        None => Seq::empty(),
    }) + (match convert {
        Some(c) => if c {
            ",\"convert\":true"@
        } else {
            ",\"convert\":false"@
        },
        None => Seq::empty(),
    }) + "}"@
}

/// The value of the `rm-meta` header: the metadata as JSON, in base64.
pub fn encode_meta(
    name: &str,
    parent: Option<&str>,
    orientation: Option<&str>,
    convert: Option<bool>,
) -> (r: String)
    ensures
        r@ == base64_text(
            encode_utf8(
                meta_json(
                    name@,
                    match parent {
                        Some(p) => Some(p@),
                        None => None,
                    },
                    match orientation {
                        Some(o) => Some(o@),
                        None => None,
                    },
                    convert,
                ),
            ),
        ),
{
    let mut t = "{\"file_name\":".to_owned();
    t.push_str(json_quoted(name).as_str());
    let mut a = String::new();
    if let Some(p) = parent {
        a.push_str(",\"parent\":");
        a.push_str(json_quoted(p).as_str());
    }
    let mut b = String::new();
    if let Some(o) = orientation {
        b.push_str(",\"orientation\":");
        b.push_str(json_quoted(o).as_str());
    }
    let mut c = String::new();
    if let Some(x) = convert {
        c.push_str(
            if x {
                ",\"convert\":true"
            } else {
                ",\"convert\":false"
            },
        );
    }
    t.push_str(a.as_str());
    t.push_str(b.as_str());
    t.push_str(c.as_str());
    t.push_str("}");
    proof {
        let parent_v = match parent {
            Some(p) => Some(p@),
            None => None::<Seq<char>>,
        };
        let orientation_v = match orientation {
            Some(o) => Some(o@),
            None => None::<Seq<char>>,
        };
        assert(t@ =~= meta_json(name@, parent_v, orientation_v, convert));
    }
    base64_encode(bytes_of(t.as_str()).as_slice())
}

/// `s` without trailing slashes.
pub open spec fn trim_slashes(s: Seq<char>) -> Seq<char>
    decreases s.len(),
{
    if s.len() > 0 && s.last() == '/' {
        trim_slashes(s.drop_last())
    } else {
        s
    }
}

/// A path under a base URL, with exactly one slash between them.
pub open spec fn joined_url(base: Seq<char>, path: Seq<char>) -> Seq<char> {
    if starts_with(path, "/"@) {
        trim_slashes(base) + path
    } else {
        trim_slashes(base) + "/"@ + path
    }
}

/// A path under a base URL.
pub fn join_url(base: &str, path: &str) -> (r: String)
    ensures
        r@ == joined_url(base@, path@),
{
    let cs = chars_of(base);
    let mut n: usize = cs.len();
    proof {
        assert(cs@.take(n as int) =~= cs@);
    }
    while n > 0 && cs[n - 1] == '/'
        invariant
            n <= cs@.len(),
            trim_slashes(cs@.take(n as int)) == trim_slashes(cs@),
        decreases n,
    {
        n -= 1;
        proof {
            assert(cs@.take(n + 1).drop_last() =~= cs@.take(n as int));
        }
    }
    let mut out = string_of(cs.as_slice(), 0, n);
    proof {
        assert(out@ =~= cs@.take(n as int));
    }
    if !has_prefix(chars_of(path).as_slice(), "/") {
        out.push_str("/");
    }
    out.push_str(path);
    out
}

/// The hashes as JSON strings, separated by commas.
pub open spec fn json_list(hashes: Seq<Seq<char>>) -> Seq<char>
    decreases hashes.len(),
{
    if hashes.len() == 0 {
        Seq::empty()
    } else if hashes.len() == 1 {
        json_string(hashes[0])
    } else {
        json_list(hashes.drop_last()) + ","@ + json_string(hashes.last())
    }
}

/// The body of a deletion by hash.
pub fn delete_body(hashes: &Vec<String>) -> (r: String)
    ensures
        r@ == "{\"hashes\":["@ + json_list(views(hashes@)) + "]}"@,
{
    let ghost hv = views(hashes@);
    let mut t = String::new();
    let mut i: usize = 0;
    proof {
        assert(t@ =~= json_list(hv.take(0)));
    }
    while i < hashes.len()
        invariant
            hv == views(hashes@),
            i <= hashes@.len(),
            t@ == json_list(hv.take(i as int)),
        decreases hashes@.len() - i,
    {
        proof {
            assert(hv.take(i + 1).drop_last() =~= hv.take(i as int));
            assert(hv.take(i + 1).last() == hashes@[i as int]@);
        }
        if i > 0 {
            t.push_str(",");
        }
        t.push_str(json_quoted(hashes[i].as_str()).as_str());
        proof {
            assert(t@ =~= json_list(hv.take(i + 1)));
        }
        i += 1;
    }
    proof {
        assert(hv.take(i as int) =~= hv);
    }
    let mut out = "{\"hashes\":[".to_owned();
    out.push_str(t.as_str());
    out.push_str("]}");
    out
}

// ---------------------------------------------------------------------------
// Answers
// ---------------------------------------------------------------------------

/// The error for an HTTP status. A 401 is not reported as an expired token:
/// the stored expiry is checked and refreshed before every request, so a 401
/// that still arrives usually means that the endpoint refuses this pairing.
pub open spec fn status_error(status: u16, retry_after: Option<u64>, body: Seq<char>) -> ErrorView {
    if status == 401 {
        ErrorView::Unauthorized { body }
    } else if status == 429 {
        ErrorView::RateLimited {
            retry_after_secs: match retry_after {
                Some(s) => s,
                None => 1,
            },
        }
    } else {
        ErrorView::Api { status, body }
    }
}

/// Maps an HTTP error status to an [`Error`].
pub fn classify_status(status: u16, retry_after: Option<u64>, body: String) -> (r: Error)
    ensures
        r@ == status_error(status, retry_after, body@),
{
    if status == 401 {
        Error::Unauthorized { body }
    } else if status == 429 {
        Error::RateLimited {
            retry_after_secs: match retry_after {
                Some(s) => s,
                None => 1,
            },
        }
    } else {
        Error::Api { status, body }
    }
}

/// The seconds that a `Retry-After` header names.
pub fn retry_after_secs(header: &str) -> (r: Option<u64>)
    ensures
        match r {
            Some(s) => unsigned_value(header@, u64::MAX as nat) == Some(s as nat),
            None => unsigned_value(header@, u64::MAX as nat) is None,
        },
{
    parse_unsigned(chars_of(header).as_slice(), u64::MAX)
}

/// What an upload returned. Some endpoints answer with an empty body, which is
/// an unnamed success; `decoded` is the item that any other body holds, or the
/// decoder's message.
pub fn upload_reply(
    status: u16,
    retry_after: Option<u64>,
    text: String,
    decoded: core::result::Result<FileItem, String>,
) -> (r: Result<FileItem>)
    ensures
        match r {
            Ok(item) => success(status) && if is_blank(text@) {
                item.is_unnamed()
            } else {
                decoded == Ok::<FileItem, String>(item)
            },
            Err(e) => if success(status) {
                !is_blank(text@) && (decoded matches Err(m) && e@ == ErrorView::InvalidResponse(
                    "decode upload response: "@ + m@ + " :: "@ + text@,
                ))
            } else {
                e@ == status_error(status, retry_after, text@)
            },
        },
{
    if !(200 <= status && status <= 299) {
        return Err(classify_status(status, retry_after, text));
    }
    if blank(chars_of(text.as_str()).as_slice()) {
        return Ok(FileItem::default());
    }
    match decoded {
        Ok(item) => Ok(item),
        Err(m) => {
            let mut msg = "decode upload response: ".to_owned();
            msg.push_str(m.as_str());
            msg.push_str(" :: ");
            msg.push_str(text.as_str());
            Err(Error::InvalidResponse(msg))
        },
    }
}

/// What to do with the answer to a listing.
#[derive(Debug, Clone, Copy, PartialEq, Eq, Structural)]
pub enum ListNext {
    /// Nothing has changed: the list is empty.
    Unchanged,
    /// The body holds the list.
    Decode,
    /// The request was refused.
    Refused,
}

/// Decides on the answer to a listing.
pub fn list_reply(status: u16) -> (r: ListNext)
    ensures
        r == (if status == 304 {
            ListNext::Unchanged
        } else if success(status) {
            ListNext::Decode
        } else {
            ListNext::Refused
        }),
{
    if status == 304 {
        ListNext::Unchanged
    } else if 200 <= status && status <= 299 {
        ListNext::Decode
    } else {
        ListNext::Refused
    }
}

// ---------------------------------------------------------------------------
// Folders
// ---------------------------------------------------------------------------

/// Whether an item is the folder of this name under this parent. Without a
/// parent any folder of the name will do.
pub open spec fn is_folder_named(f: FileItem, name: Seq<char>, parent: Option<Seq<char>>) -> bool {
    f.file_name@ == name && match parent {
        Some(p) => f.parent matches Some(fp) && fp@ == p,
        None => true,
    }
}

/// The position of the first folder of this name under this parent.
pub open spec fn first_folder(
    files: Seq<FileItem>,
    name: Seq<char>,
    parent: Option<Seq<char>>,
) -> Option<int>
    decreases files.len(),
{
    if files.len() == 0 {
        None
    } else {
        match first_folder(files.drop_last(), name, parent) {
            Some(i) => Some(i),
            None => if is_folder_named(files.last(), name, parent) {
                Some(files.len() - 1)
            } else {
                None
            },
        }
    }
}

proof fn lemma_first_folder_prefix(
    files: Seq<FileItem>,
    name: Seq<char>,
    parent: Option<Seq<char>>,
    k: int,
)
    requires
        0 <= k <= files.len(),
        first_folder(files.take(k), name, parent) is Some,
    ensures
        first_folder(files, name, parent) == first_folder(files.take(k), name, parent),
    decreases files.len() - k,
{
    if k < files.len() {
        assert(files.take(k + 1).drop_last() =~= files.take(k));
        lemma_first_folder_prefix(files, name, parent, k + 1);
    } else {
        assert(files.take(k) =~= files);
    }
}

/// Finds a folder by name and (optional) parent. Folder names are not unique,
/// so callers may give the parent to disambiguate.
pub fn find_folder<'a>(files: &'a Vec<FileItem>, name: &str, parent: Option<&str>) -> (r: Option<
    &'a FileItem,
>)
    ensures
        ({
            let up = match parent {
                Some(p) => Some(p@),
                None => None,
            };
            match r {
                Some(f) => first_folder(files@, name@, up) matches Some(i) && 0 <= i < files@.len()
                    && *f == files@[i],
                None => first_folder(files@, name@, up) is None,
            }
        }),
{
    let ghost up = match parent {
        Some(p) => Some(p@),
        None => None::<Seq<char>>,
    };
    let mut i: usize = 0;
    while i < files.len()
        invariant
            up == (match parent {
                Some(p) => Some(p@),
                None => None::<Seq<char>>,
            }),
            i <= files@.len(),
            first_folder(files@.take(i as int), name@, up) is None,
        decreases files@.len() - i,
    {
        let f = &files[i];
        proof {
            assert(files@.take(i + 1).drop_last() =~= files@.take(i as int));
            assert(files@.take(i + 1).last() == *f);
        }
        let same_parent = match (parent, &f.parent) {
            (Some(p), Some(fp)) => str_eq(p, fp.as_str()),
            (Some(_), None) => false,
            (None, _) => true,
        };
        if str_eq(f.file_name.as_str(), name) && same_parent {
            proof {
                lemma_first_folder_prefix(files@, name@, up, i + 1);
            }
            return Some(f);
        }
        i += 1;
    }
    proof {
        assert(files@.take(i as int) =~= files@);
    }
    None
}

/// The non-empty names of a slash-delimited path, in order.
pub open spec fn path_names(parts: Seq<Seq<char>>) -> Seq<Seq<char>>
    decreases parts.len(),
{
    if parts.len() == 0 {
        Seq::empty()
    } else if parts.last().len() > 0 {
        path_names(parts.drop_last()).push(parts.last())
    } else {
        path_names(parts.drop_last())
    }
}

/// The walk down a folder path: the names on it, how many of them have been
/// resolved, and the id of the last.
#[derive(Debug)]
pub struct PathWalk {
    pub names: Vec<String>,
    pub resolved: usize,
    pub parent: Option<String>,
}

impl PathWalk {
    /// The invariant of a walk: it resolves no more names than there are, and
    /// knows the last id as soon as it has resolved one.
    pub open spec fn wf(&self) -> bool {
        &&& self.names@.len() > 0
        &&& self.resolved <= self.names@.len()
        &&& self.resolved > 0 <==> self.parent is Some
    }

    /// The folder to find or create next: its name, under the id of the last.
    pub open spec fn asks(&self) -> Option<(Seq<char>, Option<Seq<char>>)> {
        if self.resolved < self.names@.len() {
            Some((self.names@[self.resolved as int]@, opt_view(self.parent)))
        } else {
            None
        }
    }

    /// Whether the walk goes on to `after` with this id.
    pub open spec fn goes_on(&self, id: String, after: PathWalk) -> bool {
        &&& after.names == self.names
        &&& after.resolved == self.resolved + 1
        &&& after.parent == Some(id)
    }

    /// The walk down a path such as `Work/Projects`.
    pub fn start(path: &str) -> (r: Result<Self>)
        ensures
            ({
                let names = path_names(split(path@, '/'));
                match r {
                    Ok(w) => w.wf() && w.resolved == 0 && views(w.names@) == names,
                    Err(e) => names.len() == 0 && e@ == ErrorView::Other("empty folder path"@),
                }
            }),
    {
        let cs = chars_of(path);
        let parts = split_chars(cs.as_slice(), '/');
        let ghost pv = split(path@, '/');
        let mut names: Vec<String> = Vec::new();
        let mut i: usize = 0;
        proof {
            assert(views(names@) =~= path_names(pv.take(0)));
        }
        while i < parts.len()
            invariant
                pv == views(parts@),
                i <= parts@.len(),
                views(names@) == path_names(pv.take(i as int)),
            decreases parts@.len() - i,
        {
            proof {
                assert(pv.take(i + 1).drop_last() =~= pv.take(i as int));
                assert(pv.take(i + 1).last() == parts@[i as int]@);
            }
            if parts[i].len() > 0 {
                let name = string_of(parts[i].as_slice(), 0, parts[i].len());
                proof {
                    assert(name@ =~= parts@[i as int]@);
                    lemma_views_push(names@, name);
                }
                names.push(name);
            }
            i += 1;
        }
        proof {
            assert(pv.take(i as int) =~= pv);
            assert(views(names@).len() == names@.len());
        }
        if names.len() == 0 {
            return Err(Error::Other("empty folder path".to_owned()));
        }
        Ok(PathWalk { names, resolved: 0, parent: None })
    }

    /// The folder to find or create next: its name, under the id of the last.
    /// `None` when the path is resolved.
    pub fn next(&self) -> (r: Option<(&str, Option<&String>)>)
        requires
            self.wf(),
        ensures
            match r {
                Some((name, parent)) => self.resolved < self.names@.len() && name@
                    == self.names@[self.resolved as int]@ && match (parent, self.parent) {
                    (Some(a), Some(b)) => *a == b,
                    (None, None) => true,
                    _ => false,
                },
                None => self.resolved == self.names@.len(),
            },
            match r {
                Some((name, parent)) => self.asks() == Some(
                    (
                        name@,
                        match parent {
                            Some(p) => Some(p@),
                            None => None,
                        },
                    ),
                ),
                None => self.asks() is None,
            },
    {
        if self.resolved < self.names.len() {
            let parent = match &self.parent {
                Some(p) => Some(p),
                None => None,
            };
            Some((self.names[self.resolved].as_str(), parent))
        } else {
            None
        }
    }

    /// Goes on with the id of the folder that was found or created.
    pub fn step(self, id: String) -> (r: Self)
        requires
            self.wf(),
            self.resolved < self.names@.len(),
        ensures
            r.wf(),
            r.names == self.names,
            r.resolved == self.resolved + 1,
            r.parent == Some(id),
            self.goes_on(id, r),
    {
        let count: usize = self.names.len();
        proof {
            assert(self.resolved < count);
        }
        PathWalk { names: self.names, resolved: self.resolved + 1, parent: Some(id) }
    }

    /// The id of the deepest folder of a resolved path.
    pub fn target(self) -> (r: String)
        requires
            self.wf(),
            self.resolved == self.names@.len(),
        ensures
            self.parent == Some(r),
    {
        match self.parent {
            Some(id) => id,
            None => String::new(),
        }
    }
}

/// The item with this id that a deletion names, or the error that names the
/// id.
pub fn deletion_target<'a>(files: &'a Vec<FileItem>, id: &str) -> (r: Result<&'a FileItem>)
    ensures
        match r {
            Ok(f) => exists|i: int|
                0 <= i < files@.len() && *f == #[trigger] files@[i] && f.id@ == id@ && f.hash@.len()
                    > 0 && forall|k: int| 0 <= k < i ==> (#[trigger] files@[k]).id@ != id@,
            Err(e) => {
                ||| (forall|k: int| 0 <= k < files@.len() ==> (#[trigger] files@[k]).id@ != id@)
                    && e@ == ErrorView::Other("no item with id "@ + id@)
                ||| exists|i: int|
                    0 <= i < files@.len() && (#[trigger] files@[i]).id@ == id@
                        && files@[i].hash@.len() == 0 && (forall|k: int|
                        0 <= k < i ==> (#[trigger] files@[k]).id@ != id@) && e@ == ErrorView::Other(
                        "server returned no hash for "@ + id@ + "; cannot delete"@,
                    )
            },
        },
{
    let mut i: usize = 0;
    while i < files.len()
        invariant
            i <= files@.len(),
            forall|k: int| 0 <= k < i ==> (#[trigger] files@[k]).id@ != id@,
        decreases files@.len() - i,
    {
        let f = &files[i];
        if str_eq(f.id.as_str(), id) {
            if f.hash.as_str().unicode_len() == 0 {
                let mut msg = "server returned no hash for ".to_owned();
                msg.push_str(id);
                msg.push_str("; cannot delete");
                return Err(Error::Other(msg));
            }
            return Ok(f);
        }
        i += 1;
    }
    let mut msg = "no item with id ".to_owned();
    msg.push_str(id);
    Err(Error::Other(msg))
}

// ---------------------------------------------------------------------------
// Laws
// ---------------------------------------------------------------------------

/// What [`first_folder`] finds is the first folder of the name under the
/// parent, and it finds one where there is one.
pub proof fn law_first_folder(files: Seq<FileItem>, name: Seq<char>, parent: Option<Seq<char>>)
    ensures
        match first_folder(files, name, parent) {
            Some(i) => 0 <= i < files.len() && is_folder_named(files[i], name, parent) && forall|
                k: int,
            |
                0 <= k < i ==> !is_folder_named(#[trigger] files[k], name, parent),
            None => forall|k: int|
                0 <= k < files.len() ==> !is_folder_named(#[trigger] files[k], name, parent),
        },
    decreases files.len(),
{
    if files.len() > 0 {
        let d = files.drop_last();
        law_first_folder(d, name, parent);
        assert forall|k: int| 0 <= k < d.len() implies #[trigger] files[k] == d[k] by {}
    }
}

/// A joined URL has exactly one slash between base and path.
pub proof fn law_join_url_one_slash(base: Seq<char>, path: Seq<char>)
    ensures
        trim_slashes(base).len() > 0 ==> trim_slashes(base).last() != '/',
        ({
            let u = joined_url(base, path);
            let n = trim_slashes(base).len() as int;
            u.len() > n && u.take(n) == trim_slashes(base) && u[n] == '/'
        }),
    decreases base.len(),
{
    reveal_strlit("/");
    lemma_trim_slashes(base);
    let n = trim_slashes(base).len() as int;
    let u = joined_url(base, path);
    assert(u.take(n) =~= trim_slashes(base));
    if starts_with(path, "/"@) {
        assert(path.take(1)[0] == '/');
        assert(path[0] == '/');
    }
}

proof fn lemma_trim_slashes(s: Seq<char>)
    ensures
        trim_slashes(s).len() > 0 ==> trim_slashes(s).last() != '/',
    decreases s.len(),
{
    if s.len() > 0 && s.last() == '/' {
        lemma_trim_slashes(s.drop_last());
    }
}

/// A refused request is never reported as an expired token: a 401 keeps the
/// server's words, a 429 its delay, and every other status its number.
pub proof fn law_refusals_are_told_apart(status: u16, retry_after: Option<u64>, body: Seq<char>)
    ensures
        status_error(status, retry_after, body) !is AuthExpired,
        status_error(status, retry_after, body) is Unauthorized <==> status == 401,
        status_error(status, retry_after, body) is RateLimited <==> status == 429,
        status == 429 ==> status_error(status, retry_after, body).retryable(),
        status == 401 ==> !status_error(status, retry_after, body).retryable(),
{
}

} // verus!
