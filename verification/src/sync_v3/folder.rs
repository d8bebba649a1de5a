//! `rr mkdir` on sync v3: a folder is one `.metadata` blob.
//!
//! The shape is that of the folders the vendor's own software writes: one
//! blob, eight fields, keys in alphabetical order, a 4-space indent and one
//! trailing newline.

use vstd::prelude::*;
use vstd::utf8::*;

use crate::codec::{json_quoted, json_string};
use crate::error::{joined, res_view, Error, ErrorView, Result};
use crate::notebook::bundle_laws::{holds_in_order, lemma_longer_text, lemma_one_more_part};
use crate::sync_v3::listing::{
    incomplete_text, DocumentInfo, DocumentView, Listing, SkippedView,
};
use crate::sync_v3::upload::{CloudFile, FileView};
use crate::text::{
    bytes_of, chars_eq, chars_of, debug_text, has_char, is_control, opt_view, str_debug, str_eq,
    trim, trimmed, views,
};

verus! {

/// A folder ready to be written: its id and its `.metadata` bytes.
#[derive(Debug)]
pub struct FolderBundle {
    pub doc_uuid: String,
    pub metadata_json: String,
}

impl Clone for FolderBundle {
    fn clone(&self) -> (r: Self)
        ensures
            r.doc_uuid@ == self.doc_uuid@,
            r.metadata_json@ == self.metadata_json@,
    {
        FolderBundle {
            doc_uuid: self.doc_uuid.clone(),
            metadata_json: self.metadata_json.clone(),
        }
    }
}

/// The `.metadata` text of a folder.
pub open spec fn folder_json(name: Seq<char>, parent: Seq<char>, now_ms: Seq<char>) -> Seq<char> {
    "{\n    \"createdTime\": "@ + json_string(now_ms) + ",\n    \"lastModified\": "@ + json_string(
        now_ms,
    ) + ",\n    \"new\": false,\n    \"parent\": "@ + json_string(parent)
        + ",\n    \"pinned\": false,\n    \"source\": \"\",\n    \"type\": \"CollectionType\",\n    \"visibleName\": "@
        + json_string(name) + "\n}\n"@
}

impl FolderBundle {
    /// Builds the folder `name` with id `doc_uuid`. `parent` is the parent
    /// folder's id, or the empty string for the top level; `now_ms` is the
    /// time in epoch milliseconds, as the string the cloud stores. Both
    /// timestamps take that one reading of the clock.
    pub fn new(doc_uuid: &str, name: &str, parent: &str, now_ms: &str) -> (r: Result<Self>)
        ensures
            r matches Ok(f) && f.doc_uuid@ == doc_uuid@ && f.metadata_json@ == folder_json(
                name@,
                parent@,
                now_ms@,
            ),
    {
        let now = json_quoted(now_ms);
        let mut out = "{\n    \"createdTime\": ".to_owned();
        out.push_str(now.as_str());
        out.push_str(",\n    \"lastModified\": ");
        out.push_str(now.as_str());
        out.push_str(",\n    \"new\": false,\n    \"parent\": ");
        out.push_str(json_quoted(parent).as_str());
        out.push_str(
            ",\n    \"pinned\": false,\n    \"source\": \"\",\n    \"type\": \"CollectionType\",\n    \"visibleName\": ",
        );
        out.push_str(json_quoted(name).as_str());
        out.push_str("\n}\n");
        Ok(FolderBundle { doc_uuid: doc_uuid.to_owned(), metadata_json: out })
    }

    /// The folder's blobs: `.metadata` alone, the smallest shape the vendor's
    /// own software writes.
    pub fn files(&self) -> (r: Vec<CloudFile>)
        ensures
            views(r@) == seq![
                FileView {
                    cloud_name: self.doc_uuid@ + ".metadata"@,
                    bytes: encode_utf8(self.metadata_json@),
                },
            ],
    {
        let mut out: Vec<CloudFile> = Vec::new();
        out.push(
            CloudFile {
                cloud_name: joined(self.doc_uuid.as_str(), ".metadata"),
                bytes: bytes_of(self.metadata_json.as_str()),
            },
        );
        proof {
            assert(views(out@) =~= seq![
                FileView {
                    cloud_name: self.doc_uuid@ + ".metadata"@,
                    bytes: encode_utf8(self.metadata_json@),
                },
            ]);
        }
        out
    }
}

/// The error that refuses a new folder.
pub open spec fn refused(why: Seq<char>) -> ErrorView {
    ErrorView::Other("mkdir refused: "@ + why)
}

/// Refuses a new folder.
pub fn refuse(why: &str) -> (r: Result<()>)
    ensures
        r matches Err(e) && e@ == refused(why@),
{
    Err(Error::Other(joined("mkdir refused: ", why)))
}

/// The first complaint about a name: it must not be empty, start or end with
/// white space, hold a control character or hold `/`.
pub open spec fn name_complaint(name: Seq<char>) -> Option<Seq<char>> {
    if trim(name).len() == 0 {
        Some("the name is empty"@)
    } else if trim(name) != name {
        Some("the name starts or ends with a space"@)
    } else if exists|i: int| 0 <= i < name.len() && is_control(#[trigger] name[i]) {
        Some("the name holds a control character"@)
    } else if name.contains('/') {
        Some("the name holds `/`; give one name, not a path"@)
    } else {
        None
    }
}

/// The outcome of a check that gave this complaint.
pub open spec fn verdict(complaint: Option<Seq<char>>) -> core::result::Result<(), ErrorView> {
    match complaint {
        Some(why) => Err(refused(why)),
        None => Ok(()),
    }
}

fn has_control(cs: &[char]) -> (r: bool)
    ensures
        r == exists|i: int| 0 <= i < cs@.len() && is_control(#[trigger] cs@[i]),
{
    let mut i: usize = 0;
    while i < cs.len()
        invariant
            i <= cs@.len(),
            forall|k: int| 0 <= k < i ==> !is_control(#[trigger] cs@[k]),
        decreases cs@.len() - i,
    {
        let c = cs[i];
        if c <= '\u{1f}' || ('\u{7f}' <= c && c <= '\u{9f}') {
            proof {
                assert(is_control(cs@[i as int]));
            }
            return true;
        }
        i += 1;
    }
    false
}

/// One name, as the tablet will show it: not empty, no leading or trailing
/// space, no control character, and no `/`, since it is not a path.
pub fn check_name(name: &str) -> (r: Result<()>)
    ensures
        res_view(r) == verdict(name_complaint(name@)),
{
    let cs = chars_of(name);
    let t = trimmed(cs.as_slice());
    if t.len() == 0 {
        return refuse("the name is empty");
    }
    if !chars_eq(t.as_slice(), cs.as_slice()) {
        return refuse("the name starts or ends with a space");
    }
    if has_control(cs.as_slice()) {
        return refuse("the name holds a control character");
    }
    if has_char(cs.as_slice(), '/') {
        return refuse("the name holds `/`; give one name, not a path");
    }
    Ok(())
}

/// The position of the first item with this id.
pub open spec fn first_doc(docs: Seq<DocumentView>, id: Seq<char>) -> Option<int>
    decreases docs.len(),
{
    if docs.len() == 0 {
        None
    } else {
        match first_doc(docs.drop_last(), id) {
            Some(i) => Some(i),
            None => if docs.last().id == id {
                Some(docs.len() - 1)
            } else {
                None
            },
        }
    }
}

proof fn lemma_first_doc_prefix(docs: Seq<DocumentView>, id: Seq<char>, k: int)
    requires
        0 <= k <= docs.len(),
        first_doc(docs.take(k), id) is Some,
    ensures
        first_doc(docs, id) == first_doc(docs.take(k), id),
    decreases docs.len() - k,
{
    if k < docs.len() {
        assert(docs.take(k + 1).drop_last() =~= docs.take(k));
        lemma_first_doc_prefix(docs, id, k + 1);
    } else {
        assert(docs.take(k) =~= docs);
    }
}

/// What [`first_doc`] finds.
pub proof fn lemma_first_doc(docs: Seq<DocumentView>, id: Seq<char>)
    ensures
        match first_doc(docs, id) {
            Some(i) => 0 <= i < docs.len() && docs[i].id == id,
            None => forall|k: int| 0 <= k < docs.len() ==> #[trigger] docs[k].id != id,
        },
    decreases docs.len(),
{
    if docs.len() > 0 {
        let d = docs.drop_last();
        lemma_first_doc(d, id);
        assert forall|k: int| 0 <= k < d.len() implies #[trigger] docs[k] == d[k] by {}
    }
}

/// The first item with this id.
pub fn find_doc<'a>(docs: &'a [DocumentInfo], id: &str) -> (r: Option<&'a DocumentInfo>)
    ensures
        match r {
            Some(d) => first_doc(views(docs@), id@) matches Some(i) && 0 <= i < docs@.len() && *d
                == docs@[i],
            None => first_doc(views(docs@), id@) is None,
        },
{
    let ghost ds = views(docs@);
    let mut i: usize = 0;
    while i < docs.len()
        invariant
            ds == views(docs@),
            i <= docs@.len(),
            first_doc(ds.take(i as int), id@) is None,
        decreases docs@.len() - i,
    {
        proof {
            assert(ds.take(i + 1).drop_last() =~= ds.take(i as int));
            assert(ds.take(i + 1).last() == docs@[i as int]@);
        }
        if str_eq(docs[i].id.as_str(), id) {
            proof {
                lemma_first_doc_prefix(ds, id@, i + 1);
            }
            return Some(&docs[i]);
        }
        i += 1;
    }
    proof {
        assert(ds.take(i as int) =~= ds);
    }
    None
}

/// The first complaint about the chain of parents from `id` upward, looking
/// at no more than `fuel` items.
pub open spec fn chain_complaint(docs: Seq<DocumentView>, id: Seq<char>, fuel: nat) -> Option<
    Seq<char>,
>
    decreases fuel,
{
    if fuel == 0 {
        Some("the parent chain loops"@)
    } else {
        match first_doc(docs, id) {
            None => Some("no item with id "@ + id + " in the listing"@),
            Some(i) => if !docs[i].folder() || docs[i].deleted {
                Some(id + " is not a live folder"@)
            } else {
                match docs[i].parent {
                    None => None,
                    Some(up) => if up == "trash"@ {
                        Some(id + " is in the trash"@)
                    } else {
                        chain_complaint(docs, up, (fuel - 1) as nat)
                    },
                }
            },
        }
    }
}

/// The parent must be a live folder, and so must every folder above it, up to
/// the top level. A chain that reaches the trash, or an id the listing does
/// not hold, is not a place the tablet shows.
pub fn check_parent(docs: &[DocumentInfo], id: &str) -> (r: Result<()>)
    ensures
        res_view(r) == verdict(chain_complaint(views(docs@), id@, docs@.len() + 1)),
{
    let ghost ds = views(docs@);
    let mut next: &str = id;
    let mut left: usize = docs.len();
    let mut more = true;
    while more
        invariant
            ds == views(docs@),
            chain_complaint(ds, id@, docs@.len() + 1) == chain_complaint(
                ds,
                next@,
                if more {
                    left as nat + 1
                } else {
                    0
                },
            ),
        decreases left + if more {
            1int
        } else {
            0int
        },
    {
        let folder = match find_doc(docs, next) {
            Some(f) => f,
            None => {
                let mut why = "no item with id ".to_owned();
                why.push_str(next);
                why.push_str(" in the listing");
                return refuse(why.as_str());
            },
        };
        proof {
            lemma_first_doc(ds, next@);
        }
        if !folder.is_folder() || folder.deleted {
            return refuse(joined(next, " is not a live folder").as_str());
        }
        match &folder.parent {
            None => return Ok(()),
            Some(up) => {
                if str_eq(up.as_str(), "trash") {
                    return refuse(joined(next, " is in the trash").as_str());
                }
                next = up.as_str();
            },
        }
        if left == 0 {
            more = false;
        } else {
            left -= 1;
        }
    }
    refuse("the parent chain loops")
}

/// Whether `d` is a live item of this name under this parent.
pub open spec fn clashes(d: DocumentView, name: Seq<char>, parent: Option<Seq<char>>) -> bool {
    !d.deleted && d.parent == parent && d.visible_name == name
}

/// The id of the first item that a new folder would clash with.
pub open spec fn first_clash(
    docs: Seq<DocumentView>,
    name: Seq<char>,
    parent: Option<Seq<char>>,
) -> Option<Seq<char>>
    decreases docs.len(),
{
    if docs.len() == 0 {
        None
    } else {
        match first_clash(docs.drop_last(), name, parent) {
            Some(id) => Some(id),
            None => if clashes(docs.last(), name, parent) {
                Some(docs.last().id)
            } else {
                None
            },
        }
    }
}

proof fn lemma_first_clash_prefix(
    docs: Seq<DocumentView>,
    name: Seq<char>,
    parent: Option<Seq<char>>,
    k: int,
)
    requires
        0 <= k <= docs.len(),
        first_clash(docs.take(k), name, parent) is Some,
    ensures
        first_clash(docs, name, parent) == first_clash(docs.take(k), name, parent),
    decreases docs.len() - k,
{
    if k < docs.len() {
        assert(docs.take(k + 1).drop_last() =~= docs.take(k));
        lemma_first_clash_prefix(docs, name, parent, k + 1);
    } else {
        assert(docs.take(k) =~= docs);
    }
}

/// The first complaint about a new folder.
pub open spec fn new_folder_complaint(
    docs: Seq<DocumentView>,
    skipped: Seq<SkippedView>,
    name: Seq<char>,
    parent: Option<Seq<char>>,
) -> Option<Seq<char>> {
    match incomplete_text(docs.len(), skipped) {
        Some(summary) => Some("the listing is incomplete. "@ + summary),
        None => match name_complaint(name) {
            Some(why) => Some(why),
            None => {
                let chain = match parent {
                    Some(id) => chain_complaint(docs, id, docs.len() + 1),
                    None => None,
                };
                match chain {
                    Some(why) => Some(why),
                    None => match first_clash(docs, name, parent) {
                        Some(id) => Some(str_debug(name) + " already exists there ("@ + id + ")"@),
                        None => None,
                    },
                }
            },
        },
    }
}

fn same_parent(d: &Option<String>, parent: Option<&str>) -> (r: bool)
    ensures
        r == (opt_view(*d) == match parent {
            Some(p) => Some(p@),
            None => None,
        }),
{
    match (d, parent) {
        (Some(a), Some(b)) => str_eq(a.as_str(), b),
        (None, None) => true,
        _ => false,
    }
}

/// Refuses a folder the tablet could not show where it was asked for, or one
/// that would sit beside an item of the same name. `parent` is `None` for the
/// top level.
pub fn check_new_folder(listing: &Listing, name: &str, parent: Option<&str>) -> (r: Result<()>)
    ensures
        res_view(r) == verdict(
            new_folder_complaint(
                views(listing.docs@),
                views(listing.skipped@),
                name@,
                match parent {
                    Some(p) => Some(p@),
                    None => None,
                },
            ),
        ),
{
    let ghost ds = views(listing.docs@);
    let ghost up = match parent {
        Some(p) => Some(p@),
        None => None::<Seq<char>>,
    };
    proof {
        assert(ds.len() == listing.docs@.len());
    }
    if let Some(summary) = listing.incomplete_summary() {
        return refuse(joined("the listing is incomplete. ", summary.as_str()).as_str());
    }
    match check_name(name) {
        Ok(_) => {},
        Err(e) => return Err(e),
    }
    if let Some(id) = parent {
        match check_parent(listing.docs.as_slice(), id) {
            Ok(_) => {},
            Err(e) => return Err(e),
        }
    }
    let mut i: usize = 0;
    while i < listing.docs.len()
        invariant
            ds == views(listing.docs@),
            up == (match parent {
                Some(p) => Some(p@),
                None => None::<Seq<char>>,
            }),
            i <= listing.docs@.len(),
            first_clash(ds.take(i as int), name@, up) is None,
            new_folder_complaint(ds, views(listing.skipped@), name@, up) == (match first_clash(
                ds,
                name@,
                up,
            ) {
                Some(id) => Some(str_debug(name@) + " already exists there ("@ + id + ")"@),
                None => None,
            }),
        decreases listing.docs@.len() - i,
    {
        let d = &listing.docs[i];
        proof {
            assert(ds.take(i + 1).drop_last() =~= ds.take(i as int));
            assert(ds.take(i + 1).last() == d@);
        }
        if !d.deleted && same_parent(&d.parent, parent) && str_eq(d.visible_name.as_str(), name) {
            proof {
                lemma_first_clash_prefix(ds, name@, up, i + 1);
            }
            let mut why = debug_text(name);
            why.push_str(" already exists there (");
            why.push_str(d.id.as_str());
            why.push_str(")");
            return refuse(why.as_str());
        }
        i += 1;
    }
    proof {
        assert(ds.take(i as int) =~= ds);
    }
    Ok(())
}

// ---------------------------------------------------------------------------
// Laws
// ---------------------------------------------------------------------------

/// Whether the chain of parents from `id` is made of live folders and reaches
/// the top level within `n` items.
pub open spec fn shown_within(docs: Seq<DocumentView>, id: Seq<char>, n: nat) -> bool
    decreases n,
{
    n > 0 && (first_doc(docs, id) matches Some(i) && docs[i].folder() && !docs[i].deleted && (
    match docs[i].parent {
        None => true,
        Some(up) => up != "trash"@ && shown_within(docs, up, (n - 1) as nat),
    }))
}

proof fn lemma_chain_sound(docs: Seq<DocumentView>, id: Seq<char>, fuel: nat)
    ensures
        chain_complaint(docs, id, fuel) is None <==> shown_within(docs, id, fuel),
    decreases fuel,
{
    if fuel > 0 {
        match first_doc(docs, id) {
            Some(i) => match docs[i].parent {
                Some(up) => lemma_chain_sound(docs, up, (fuel - 1) as nat),
                None => {},
            },
            None => {},
        }
    }
}

proof fn lemma_no_clash(docs: Seq<DocumentView>, name: Seq<char>, parent: Option<Seq<char>>)
    ensures
        first_clash(docs, name, parent) is None <==> forall|i: int|
            0 <= i < docs.len() ==> !clashes(#[trigger] docs[i], name, parent),
    decreases docs.len(),
{
    if docs.len() > 0 {
        let d = docs.drop_last();
        lemma_no_clash(d, name, parent);
        assert(docs[docs.len() - 1] == docs.last());
        if first_clash(docs, name, parent) is None {
            assert forall|i: int| 0 <= i < docs.len() implies !clashes(
                #[trigger] docs[i],
                name,
                parent,
            ) by {
                if i < d.len() {
                    assert(!clashes(d[i], name, parent));
                }
            }
        } else if first_clash(d, name, parent) is Some {
            let i = choose|i: int| 0 <= i < d.len() && clashes(#[trigger] d[i], name, parent);
            assert(docs[i] == d[i]);
        }
    }
}

/// A new folder is allowed exactly when the listing is complete, the name is
/// one plain name, the parent chain is live folders up to the top level, and
/// no live item there has the name.
pub proof fn law_new_folder_allowed(
    docs: Seq<DocumentView>,
    skipped: Seq<SkippedView>,
    name: Seq<char>,
    parent: Option<Seq<char>>,
)
    ensures
        new_folder_complaint(docs, skipped, name, parent) is None <==> {
            &&& skipped.len() == 0
            &&& name.len() > 0
            &&& trim(name) == name
            &&& forall|i: int| 0 <= i < name.len() ==> !is_control(#[trigger] name[i])
            &&& !name.contains('/')
            &&& parent matches Some(id) ==> shown_within(docs, id, docs.len() + 1)
            &&& forall|i: int| 0 <= i < docs.len() ==> !clashes(#[trigger] docs[i], name, parent)
        },
{
    lemma_no_clash(docs, name, parent);
    match parent {
        Some(id) => lemma_chain_sound(docs, id, docs.len() + 1),
        None => {},
    }
}

/// The item that the parent of `docs[i]` names, where the chain goes on.
spec fn up_from(docs: Seq<DocumentView>, i: int) -> Option<int> {
    if docs[i].folder() && !docs[i].deleted {
        match docs[i].parent {
            Some(up) => if up == "trash"@ {
                None
            } else {
                first_doc(docs, up)
            },
            None => None,
        }
    } else {
        None
    }
}

/// The position reached from `i` after `n` steps upward.
spec fn climb(docs: Seq<DocumentView>, i: int, n: nat) -> Option<int>
    decreases n,
{
    if n == 0 {
        Some(i)
    } else {
        match climb(docs, i, (n - 1) as nat) {
            Some(k) => up_from(docs, k),
            None => None,
        }
    }
}

proof fn lemma_climb_split(docs: Seq<DocumentView>, i: int, m: nat, n: nat)
    requires
        climb(docs, i, m) is Some,
    ensures
        climb(docs, i, m + n) == climb(docs, climb(docs, i, m)->0, n),
    decreases n,
{
    if n > 0 {
        lemma_climb_split(docs, i, m, (n - 1) as nat);
    }
}

/// Where the complaint is that the chain loops, the chain goes on for as many
/// steps as were looked at.
proof fn lemma_loop_climbs(docs: Seq<DocumentView>, i: int, fuel: nat, n: nat)
    requires
        0 <= i < docs.len(),
        first_doc(docs, docs[i].id) == Some(i),
        fuel > 0,
        long_chain(docs, docs[i].id, fuel),
        n < fuel,
    ensures
        climb(docs, i, n) is Some,
        0 <= climb(docs, i, n)->0 < docs.len(),
        first_doc(docs, docs[climb(docs, i, n)->0].id) == Some(climb(docs, i, n)->0),
        long_chain(docs, docs[climb(docs, i, n)->0].id, (fuel - n) as nat),
    decreases n,
{
    if n > 0 {
        lemma_loop_climbs(docs, i, fuel, (n - 1) as nat);
        let k = climb(docs, i, (n - 1) as nat)->0;
        let up = docs[k].parent->0;
        lemma_first_doc(docs, up);
        assert(long_chain(docs, up, (fuel - n) as nat));
    }
}

/// Whether the chain from `id` passes `n` live folders and goes on.
pub open spec fn long_chain(docs: Seq<DocumentView>, id: Seq<char>, n: nat) -> bool
    decreases n,
{
    n == 0 || (first_doc(docs, id) matches Some(i) && docs[i].folder() && !docs[i].deleted && (
    match docs[i].parent {
        None => false,
        Some(up) => up != "trash"@ && long_chain(docs, up, (n - 1) as nat),
    }))
}

proof fn lemma_periodic(docs: Seq<DocumentView>, i: int, a: nat, b: nat, n: nat)
    requires
        a < b,
        climb(docs, i, a) is Some,
        climb(docs, i, b) is Some,
        climb(docs, i, a) == climb(docs, i, b),
        forall|k: nat| k <= b ==> (#[trigger] climb(docs, i, k)) is Some,
    ensures
        climb(docs, i, n) is Some,
    decreases n,
{
    if n > b {
        let d = (b - a) as nat;
        lemma_periodic(docs, i, a, b, (n - d) as nat);
        lemma_climb_split(docs, i, a, (n - d - a) as nat);
        lemma_climb_split(docs, i, b, (n - b) as nat);
        assert((a + (n - d - a)) as nat == (n - d) as nat);
        assert((b + (n - b)) as nat == n);
        assert((n - d - a) as nat == (n - b) as nat);
    }
}

proof fn lemma_long_from_climb(docs: Seq<DocumentView>, i: int, n: nat)
    requires
        0 <= i < docs.len(),
        first_doc(docs, docs[i].id) == Some(i),
        climb(docs, i, n) is Some,
    ensures
        long_chain(docs, docs[i].id, n),
    decreases n,
{
    if n > 0 {
        assert(climb(docs, i, 0) == Some(i));
        lemma_climb_prefix(docs, i, 1, n);
        let j = climb(docs, i, 1)->0;
        assert(climb(docs, i, 1) == up_from(docs, i)) by {
            reveal_with_fuel(climb, 2);
        }
        lemma_climb_split(docs, i, 1, (n - 1) as nat);
        assert((1 + (n - 1)) as nat == n);
        let up = docs[i].parent->0;
        lemma_first_doc(docs, up);
        lemma_long_from_climb(docs, j, (n - 1) as nat);
    }
}

proof fn lemma_climb_prefix(docs: Seq<DocumentView>, i: int, m: nat, n: nat)
    requires
        m <= n,
        climb(docs, i, n) is Some,
    ensures
        climb(docs, i, m) is Some,
    decreases n,
{
    if m < n {
        lemma_climb_prefix(docs, i, m, (n - 1) as nat);
    }
}

/// A chain that is longer than the listing never reaches the top level: the
/// bound on the items that are looked at turns no shown folder away.
pub proof fn law_long_chain_never_ends(docs: Seq<DocumentView>, id: Seq<char>, n: nat)
    requires
        long_chain(docs, id, docs.len() + 1),
    ensures
        long_chain(docs, id, n),
{
    let len = docs.len();
    lemma_first_doc(docs, id);
    let i = first_doc(docs, id)->0;
    assert(first_doc(docs, docs[i].id) == Some(i));
    let f = |k: int| climb(docs, i, k as nat)->0;
    let s = Seq::new(len + 1, f);
    assert forall|k: nat| k <= len implies (#[trigger] climb(docs, i, k)) is Some && 0 <= climb(
        docs,
        i,
        k,
    )->0 < len by {
        lemma_loop_climbs(docs, i, len + 1, k);
    }
    assert forall|k: int| 0 <= k < s.len() implies 0 <= #[trigger] s[k] < len by {
        assert(climb(docs, i, k as nat) is Some);
    }
    let (a, b) = lemma_pigeonhole(s, len as int);
    assert(s[a] == s[b]);
    assert(climb(docs, i, a as nat) is Some);
    assert(climb(docs, i, b as nat) is Some);
    lemma_periodic(docs, i, a as nat, b as nat, n);
    lemma_long_from_climb(docs, i, n);
}

/// More values than places: two of them share a place.
proof fn lemma_pigeonhole(s: Seq<int>, n: int) -> (r: (int, int))
    requires
        0 <= n < s.len(),
        forall|k: int| 0 <= k < s.len() ==> 0 <= #[trigger] s[k] < n,
    ensures
        0 <= r.0 < r.1 < s.len(),
        s[r.0] == s[r.1],
    decreases n,
{
    let last = s.len() - 1;
    if exists|k: int| 0 <= k < last && s[k] == s[last] {
        let k = choose|k: int| 0 <= k < last && s[k] == s[last];
        (k, last)
    } else {
        let v = s[last];
        let t = Seq::new(last as nat, |k: int| if s[k] > v { s[k] - 1 } else { s[k] });
        assert forall|k: int| 0 <= k < t.len() implies 0 <= #[trigger] t[k] < n - 1 by {
            assert(s[k] != v);
        }
        assert(0 <= s[last] < n);
        let (a, b) = lemma_pigeonhole(t, n - 1);
        assert(s[a] != v && s[b] != v);
        assert(t[a] == t[b]);
        (a, b)
    }
}

/// A new folder that is allowed has no live namesake beside it, sits in a live
/// folder that is not in the trash, or at the top level, and its listing was
/// complete.
pub proof fn law_allowed_folder_has_its_place(
    docs: Seq<DocumentView>,
    skipped: Seq<SkippedView>,
    name: Seq<char>,
    parent: Option<Seq<char>>,
)
    requires
        new_folder_complaint(docs, skipped, name, parent) is None,
    ensures
        skipped.len() == 0,
        forall|i: int|
            0 <= i < docs.len() && (#[trigger] docs[i]).visible_name == name && docs[i].parent
                == parent ==> docs[i].deleted,
        parent matches Some(id) ==> exists|i: int|
            0 <= i < docs.len() && (#[trigger] docs[i]).id == id && docs[i].doc_type
                == "CollectionType"@ && !docs[i].deleted && docs[i].parent != Some("trash"@),
{
    law_new_folder_allowed(docs, skipped, name, parent);
    assert forall|i: int|
        0 <= i < docs.len() && (#[trigger] docs[i]).visible_name == name && docs[i].parent
            == parent implies docs[i].deleted by {
        assert(!clashes(docs[i], name, parent));
    }
    if let Some(id) = parent {
        assert(shown_within(docs, id, docs.len() + 1));
        lemma_first_doc(docs, id);
        let i = first_doc(docs, id)->0;
        assert(docs[i].id == id);
    }
}

/// A live item of the same name in the same place refuses a new folder, and so
/// does a parent that is missing, deleted, no folder, or in the trash.
pub proof fn law_misplaced_folders_are_refused(
    docs: Seq<DocumentView>,
    skipped: Seq<SkippedView>,
    name: Seq<char>,
    parent: Option<Seq<char>>,
)
    ensures
        (exists|i: int|
            0 <= i < docs.len() && (#[trigger] docs[i]).visible_name == name && docs[i].parent
                == parent && !docs[i].deleted) ==> new_folder_complaint(
            docs,
            skipped,
            name,
            parent,
        ) is Some,
        parent is Some && (forall|i: int|
            0 <= i < docs.len() && (#[trigger] docs[i]).id == parent->0 ==> docs[i].deleted
                || docs[i].doc_type != "CollectionType"@ || docs[i].parent == Some("trash"@))
            ==> new_folder_complaint(docs, skipped, name, parent) is Some,
{
    if new_folder_complaint(docs, skipped, name, parent) is None {
        law_allowed_folder_has_its_place(docs, skipped, name, parent);
    }
}

/// The `.metadata` of a folder names the time twice, then its parent, then its
/// name.
pub proof fn law_folder_metadata_names_the_folder(
    name: Seq<char>,
    parent: Seq<char>,
    now_ms: Seq<char>,
)
    ensures
        holds_in_order(
            folder_json(name, parent, now_ms),
            seq![
                json_string(now_ms),
                json_string(now_ms),
                json_string(parent),
                json_string(name),
            ],
        ),
{
    let e = Seq::<char>::empty();
    let none = Seq::<Seq<char>>::empty();
    let n = json_string(now_ms);
    let g0 = "{\n    \"createdTime\": "@;
    lemma_one_more_part(e, none, g0, n);
    assert(e + g0 =~= g0);
    let t0 = g0 + n;
    let s0 = none.push(n);
    let g1 = ",\n    \"lastModified\": "@;
    lemma_one_more_part(t0, s0, g1, n);
    let t1 = t0 + g1 + n;
    let s1 = s0.push(n);
    let g2 = ",\n    \"new\": false,\n    \"parent\": "@;
    let p = json_string(parent);
    lemma_one_more_part(t1, s1, g2, p);
    let t2 = t1 + g2 + p;
    let s2 = s1.push(p);
    let g3 =
        ",\n    \"pinned\": false,\n    \"source\": \"\",\n    \"type\": \"CollectionType\",\n    \"visibleName\": "@;
    let v = json_string(name);
    lemma_one_more_part(t2, s2, g3, v);
    lemma_longer_text(t2 + g3 + v, "\n}\n"@, s2.push(v));
    assert(s2.push(v) =~= seq![n, n, p, v]);
}

/// A plain name at a place that is shown is allowed where nothing live has it:
/// deleted items, and items elsewhere, do not matter.
pub proof fn law_free_names_are_allowed(
    docs: Seq<DocumentView>,
    name: Seq<char>,
    parent: Option<Seq<char>>,
)
    requires
        name.len() > 0,
        trim(name) == name,
        forall|i: int| 0 <= i < name.len() ==> !is_control(#[trigger] name[i]),
        !name.contains('/'),
        forall|i: int|
            0 <= i < docs.len() ==> (#[trigger] docs[i]).deleted || docs[i].parent != parent
                || docs[i].visible_name != name,
        parent matches Some(id) ==> exists|i: int|
            0 <= i < docs.len() && (#[trigger] docs[i]).id == id && docs[i].doc_type
                == "CollectionType"@ && !docs[i].deleted && docs[i].parent is None && forall|k: int|
                0 <= k < docs.len() && k != i ==> (#[trigger] docs[k]).id != id,
    ensures
        new_folder_complaint(docs, Seq::empty(), name, parent) is None,
{
    law_new_folder_allowed(docs, Seq::empty(), name, parent);
    assert forall|i: int| 0 <= i < docs.len() implies !clashes(#[trigger] docs[i], name, parent) by {
        assert(docs[i].deleted || docs[i].parent != parent || docs[i].visible_name != name);
    }
    if let Some(id) = parent {
        let i = choose|i: int|
            0 <= i < docs.len() && (#[trigger] docs[i]).id == id && docs[i].doc_type
                == "CollectionType"@ && !docs[i].deleted && docs[i].parent is None && forall|k: int|
                0 <= k < docs.len() && k != i ==> (#[trigger] docs[k]).id != id;
        lemma_first_doc(docs, id);
        let j = first_doc(docs, id)->0;
        assert(docs[i].id == id);
        assert(docs[j].id == id);
        assert(i == j);
        assert(shown_within(docs, id, docs.len() + 1));
    }
}

} // verus!
