//! Laws of the command line: what a dry run tells, what a push announces, and
//! what a listing shows.

use vstd::prelude::*;
use vstd::utf8::*;

use crate::cli::{
    child_args_text, epub_name, html_like, ls_row, ls_rows_text, page_bytes, plan_text, title_of,
    upload_bytes, uploaded_text, verdict_of, PlanVerdict, WireFormat,
};
use crate::markdown::frontmatter::first_h1;
use crate::notebook::bundle::{BundlePageView, BundleView};
use crate::notebook::bundle_laws::{holds_in_order, lemma_longer_text, lemma_one_more_part};
use crate::sync_v3::files::{files_of, image_files, page_files, pages_files};
use crate::sync_v3::index::{lines_after_header, root_diff, RootDiffView, Schema};
use crate::sync_v3::listing::DocumentView;
use crate::sync_v3::plan_laws::law_diff_tells_every_change;
use crate::sync_v3::upload::FileView;
use crate::text::{decimal, ends_with, lines, signed_decimal};

verus! {

/// A dry run lets a push pass only where every line of the old root stands in
/// the new one.
pub proof fn law_accepted_plans_lose_no_line(
    schema: Schema,
    old_body: Seq<char>,
    new_body: Seq<char>,
    line: Seq<char>,
)
    requires
        ({
            let v = verdict_of(root_diff(schema, old_body, new_body));
            v == PlanVerdict::Kept || v == PlanVerdict::Reordered
        }),
    ensures
        lines_after_header(schema, old_body).contains(line) ==> lines_after_header(
            schema,
            new_body,
        ).contains(line),
        verdict_of(root_diff(schema, old_body, new_body)) == PlanVerdict::Kept ==> root_diff(
            schema,
            old_body,
            new_body,
        ).order_preserved,
{
    law_diff_tells_every_change(schema, old_body, new_body, line);
    let d = root_diff(schema, old_body, new_body);
    assert(d.removed.len() == 0);
    assert(!d.removed.contains(line));
}

/// The report of a dry run names the document, both roots and the generation,
/// and lists every line that would go and every line that would come.
pub proof fn law_report_lists_every_change(
    doc_id: Seq<char>,
    blobs: nat,
    old_root: Seq<char>,
    generation: int,
    new_root: Seq<char>,
    d: RootDiffView,
    i: int,
)
    ensures
        ({
            let r = plan_text(doc_id, blobs, old_root, generation, new_root, d);
            &&& r.contains("  doc id:            "@ + doc_id)
            &&& r.contains("  blobs to upload:   "@ + decimal(blobs))
            &&& r.contains("  current root:      "@ + old_root)
            &&& r.contains("  current gen:       "@ + signed_decimal(generation))
            &&& r.contains("  new root would be: "@ + new_root)
            &&& r.contains("  lines removed:     "@ + decimal(d.removed.len()))
            &&& r.contains("  lines added:       "@ + decimal(d.added.len()))
            &&& 0 <= i < d.removed.len() ==> r.contains("    - "@ + d.removed[i])
            &&& 0 <= i < d.added.len() ==> r.contains("    + "@ + d.added[i])
            &&& r.last() == "  order preserved:   "@ + (if d.order_preserved {
                "true"@
            } else {
                "false"@
            })
        }),
{
    let r = plan_text(doc_id, blobs, old_root, generation, new_root, d);
    let t: int = 8 + if d.old_totals is Some && d.new_totals is Some {
        1int
    } else {
        0int
    };
    assert(r[1] == "  doc id:            "@ + doc_id);
    assert(r[2] == "  blobs to upload:   "@ + decimal(blobs));
    assert(r[3] == "  current root:      "@ + old_root);
    assert(r[4] == "  current gen:       "@ + signed_decimal(generation));
    assert(r[5] == "  new root would be: "@ + new_root);
    assert(r[t] == "  lines removed:     "@ + decimal(d.removed.len()));
    let u = t + 1 + d.removed.len();
    assert(r[u] == "  lines added:       "@ + decimal(d.added.len()));
    if 0 <= i < d.removed.len() {
        assert(r[t + 1 + i] == "    - "@ + d.removed[i]);
    }
    if 0 <= i < d.added.len() {
        assert(r[u + 1 + i] == "    + "@ + d.added[i]);
    }
}

// ---------------------------------------------------------------------------
// Bytes
// ---------------------------------------------------------------------------

/// The bytes of files.
pub open spec fn total_bytes(fs: Seq<FileView>) -> nat
    decreases fs.len(),
{
    if fs.len() == 0 {
        0
    } else {
        total_bytes(fs.drop_last()) + fs.last().bytes.len()
    }
}

/// The bytes of the images of the first `n` pages.
pub open spec fn image_bytes(doc: Seq<char>, pages: Seq<BundlePageView>, n: nat) -> nat
    decreases n,
{
    if n == 0 {
        0
    } else {
        image_bytes(doc, pages, (n - 1) as nat) + total_bytes(image_files(doc, pages[n - 1]))
    }
}

proof fn lemma_total_add(a: Seq<FileView>, b: Seq<FileView>)
    ensures
        total_bytes(a + b) == total_bytes(a) + total_bytes(b),
    decreases b.len(),
{
    if b.len() == 0 {
        assert(a + b =~= a);
    } else {
        lemma_total_add(a, b.drop_last());
        assert((a + b).drop_last() =~= a + b.drop_last());
    }
}

proof fn lemma_total_one(f: FileView)
    ensures
        total_bytes(seq![f]) == f.bytes.len(),
{
    assert(seq![f].drop_last() =~= Seq::<FileView>::empty());
    assert(total_bytes(seq![f].drop_last()) == 0);
}

proof fn lemma_pages_bytes(doc: Seq<char>, pages: Seq<BundlePageView>, n: nat)
    requires
        n <= pages.len(),
    ensures
        total_bytes(pages_files(doc, pages, n)) == page_bytes(pages, n) + image_bytes(
            doc,
            pages,
            n,
        ),
    decreases n,
{
    if n > 0 {
        lemma_pages_bytes(doc, pages, (n - 1) as nat);
        let p = pages[n - 1];
        let fs = page_files(doc, p);
        let a = fs[0];
        let b = fs[1];
        lemma_total_add(pages_files(doc, pages, (n - 1) as nat), fs);
        assert(fs =~= seq![a] + seq![b] + image_files(doc, p));
        lemma_total_add(seq![a] + seq![b], image_files(doc, p));
        lemma_total_add(seq![a], seq![b]);
        lemma_total_one(a);
        lemma_total_one(b);
    }
}

/// The bytes that a push announces are those of all files that it uploads,
/// images aside.
pub proof fn law_announced_bytes_are_uploaded(b: BundleView)
    ensures
        total_bytes(files_of(b)) == upload_bytes(b) + image_bytes(
            b.doc_uuid,
            b.pages,
            b.pages.len(),
        ),
{
    lemma_pages_bytes(b.doc_uuid, b.pages, b.pages.len());
    let fs = files_of(b);
    let rest = pages_files(b.doc_uuid, b.pages, b.pages.len());
    assert(fs =~= seq![fs[0]] + seq![fs[1]] + seq![fs[2]] + rest);
    lemma_total_add(seq![fs[0]] + seq![fs[1]] + seq![fs[2]], rest);
    lemma_total_add(seq![fs[0]] + seq![fs[1]], seq![fs[2]]);
    lemma_total_add(seq![fs[0]], seq![fs[1]]);
    lemma_total_one(fs[0]);
    lemma_total_one(fs[1]);
    lemma_total_one(fs[2]);
}

// ---------------------------------------------------------------------------
// Titles, names and arguments
// ---------------------------------------------------------------------------

/// A title that is given is the title; without one it is the first heading,
/// then the stem of the file name, then a stock name.
pub proof fn law_given_titles_come_first(
    title: Seq<char>,
    md: Seq<char>,
    stem: Option<Seq<char>>,
)
    ensures
        title_of(Some(title), md, stem) == title,
        first_h1(lines(md)) matches Some(h) ==> title_of(None, md, stem) == h,
        first_h1(lines(md)) is None && stem is Some ==> title_of(None, md, stem) == stem->0,
        first_h1(lines(md)) is None && stem is None ==> title_of(None, md, stem) == "Untitled"@,
{
}

/// The name of an upload ends in `.epub`, whatever the title, and begins with
/// the title.
pub proof fn law_uploads_are_named_epub(title: Seq<char>)
    ensures
        ends_with(crate::text::ascii_lower(epub_name(title)), ".epub"@),
        epub_name(title).len() >= title.len(),
        epub_name(title).take(title.len() as int) == title,
        epub_name(epub_name(title)) == epub_name(title),
{
    let n = epub_name(title);
    reveal_strlit(".epub");
    assert(n.take(title.len() as int) =~= title);
    if !ends_with(crate::text::ascii_lower(title), ".epub"@) {
        let low = crate::text::ascii_lower(n);
        assert(low.skip(low.len() - 5) =~= ".epub"@);
    }
}

/// The background process gets the file and every option that was given, each
/// behind its flag.
pub proof fn law_background_gets_every_option(
    file: Seq<char>,
    title: Option<Seq<char>>,
    folder: Option<Seq<char>>,
    dir: Option<Seq<char>>,
    format: WireFormat,
)
    ensures
        ({
            let a = child_args_text(file, title, folder, dir, format);
            let count = |o: Option<Seq<char>>| if o is Some { 2int } else { 0int };
            let t = 2 + count(title);
            let f = t + count(folder);
            let d = f + count(dir);
            &&& a.len() == d + 2
            &&& a[0] == "connect-push"@ && a[1] == file
            &&& title is Some ==> a[2] == "--title"@ && a[3] == title->0
            &&& folder is Some ==> a[t] == "--folder"@ && a[t + 1] == folder->0
            &&& dir is Some ==> a[f] == "--dir"@ && a[f + 1] == dir->0
            &&& a[d] == "--format"@ && a[d + 1] == (if format == WireFormat::Notebook {
                "notebook"@
            } else {
                "epub"@
            })
        }),
{
}

/// The report of an upload names the item's id and parent where the server gave
/// them, and the name that the server stored, or else the title.
pub proof fn law_report_names_the_upload(
    id: Seq<char>,
    file_name: Seq<char>,
    parent: Option<Seq<char>>,
    title: Seq<char>,
)
    ensures
        ({
            let r = uploaded_text(id, file_name, parent, title);
            let k: int = if id.len() > 0 {
                1
            } else {
                0
            };
            &&& id.len() > 0 ==> r[0] == "  ID:   "@ + id
            &&& file_name.len() > 0 ==> r[k] == "  Name: "@ + file_name
            &&& file_name.len() == 0 ==> r[k] == "  Name: "@ + title
            &&& parent is Some ==> r.len() == k + 2 && r[k + 1] == "  Parent: "@ + parent->0
            &&& parent is None ==> r.len() == k + 1
        }),
{
}

// ---------------------------------------------------------------------------
// Listings
// ---------------------------------------------------------------------------

/// A listing shows one row for each item that is not deleted, in order, or for
/// each folder of them where only folders are asked for.
pub proof fn law_listing_shows_live_items(
    a: Seq<DocumentView>,
    b: Seq<DocumentView>,
    d: DocumentView,
    folders_only: bool,
)
    ensures
        ls_rows_text(a + b, folders_only) == ls_rows_text(a, folders_only) + ls_rows_text(
            b,
            folders_only,
        ),
        d.deleted ==> ls_rows_text(seq![d], folders_only).len() == 0,
        !d.deleted ==> ls_rows_text(seq![d], false) == seq![ls_row(d)],
        !d.deleted && d.doc_type == "CollectionType"@ ==> ls_rows_text(seq![d], true)
            == seq![ls_row(d)],
        d.doc_type != "CollectionType"@ ==> ls_rows_text(seq![d], true).len() == 0,
    decreases b.len(),
{
    let none = Seq::<DocumentView>::empty();
    assert(seq![d].drop_last() =~= none);
    assert(ls_rows_text(none, true) =~= Seq::<Seq<char>>::empty());
    assert(ls_rows_text(none, false) =~= Seq::<Seq<char>>::empty());
    assert(Seq::<Seq<char>>::empty().push(ls_row(d)) =~= seq![ls_row(d)]);
    if b.len() == 0 {
        assert(a + b =~= a);
        assert(ls_rows_text(a, folders_only) + ls_rows_text(b, folders_only) =~= ls_rows_text(
            a,
            folders_only,
        ));
    } else {
        law_listing_shows_live_items(a, b.drop_last(), d, folders_only);
        assert((a + b).drop_last() =~= a + b.drop_last());
        assert(ls_rows_text(a + b, folders_only) =~= ls_rows_text(a, folders_only) + ls_rows_text(
            b,
            folders_only,
        ));
    }
}

/// The row of an item begins with its id and shows its type, its name and the
/// folder it is in.
pub proof fn law_row_shows_the_item(d: DocumentView)
    ensures
        d.id.len() <= ls_row(d).len(),
        ls_row(d).take(d.id.len() as int) == d.id,
        holds_in_order(ls_row(d), seq![d.id, d.doc_type, d.visible_name]),
        d.parent matches Some(p) ==> holds_in_order(
            ls_row(d),
            seq![d.id, d.doc_type, d.visible_name, p],
        ),
{
    let e = Seq::<char>::empty();
    let none = Seq::<Seq<char>>::empty();
    let a = crate::cli::left_column(d.id, 38);
    let b = crate::cli::left_column(d.doc_type, 18);
    lemma_column(d.id, 38);
    lemma_column(d.doc_type, 18);
    let pad_a = a.skip(d.id.len() as int);
    let pad_b = b.skip(d.doc_type.len() as int);
    lemma_one_more_part(e, none, e, d.id);
    assert(e + e + d.id =~= d.id);
    lemma_longer_text(d.id, pad_a, none.push(d.id));
    assert(d.id + pad_a =~= a);
    let s0 = none.push(d.id);
    lemma_one_more_part(a, s0, " "@, d.doc_type);
    let s1 = s0.push(d.doc_type);
    lemma_longer_text(a + " "@ + d.doc_type, pad_b, s1);
    assert(a + " "@ + d.doc_type + pad_b =~= a + " "@ + b);
    let icon = if d.folder() {
        "📁"@
    } else {
        "📄"@
    };
    let t1 = a + " "@ + b;
    lemma_longer_text(t1, " "@, s1);
    lemma_longer_text(t1 + " "@, icon, s1);
    let t2 = t1 + " "@ + icon;
    lemma_one_more_part(t2, s1, " "@, d.visible_name);
    let t3 = t2 + " "@ + d.visible_name;
    let s3 = s1.push(d.visible_name);
    assert(s3 =~= seq![d.id, d.doc_type, d.visible_name]);
    match d.parent {
        Some(p) => {
            lemma_one_more_part(t3, s3, " [in: "@, p);
            lemma_longer_text(t3 + " [in: "@ + p, "]"@, s3.push(p));
            assert(t3 + " [in: "@ + p + "]"@ =~= t3 + (" [in: "@ + p + "]"@));
            assert(s3.push(p) =~= seq![d.id, d.doc_type, d.visible_name, p]);
            lemma_longer_text(t3, " [in: "@ + p + "]"@, s3);
        },
        None => {
            lemma_longer_text(t3, e, s3);
        },
    }
    assert(ls_row(d).take(d.id.len() as int) =~= a.take(d.id.len() as int));
}

proof fn lemma_column(s: Seq<char>, width: nat)
    ensures
        ({
            let c = crate::cli::left_column(s, width);
            c.len() >= s.len() && c.take(s.len() as int) == s && c == s + c.skip(s.len() as int)
        }),
{
    let c = crate::cli::left_column(s, width);
    assert(c.take(s.len() as int) =~= s);
    assert(c =~= s + c.skip(s.len() as int));
}

/// A source looks like HTML exactly when its first character, white space
/// aside, opens a tag.
pub proof fn law_html_begins_with_a_tag(before: Seq<char>, rest: Seq<char>, c: char)
    requires
        crate::text::is_blank(before),
        !crate::text::is_white(c),
    ensures
        html_like(before + seq![c] + rest) <==> c == '<',
        !html_like(before),
    decreases before.len(),
{
    let s = before + seq![c] + rest;
    if before.len() == 0 {
        assert(s[0] == c);
        assert(crate::text::trim_start(s) == s);
        assert(crate::text::trim_start(before) == before);
    } else {
        let r = before.skip(1);
        assert(crate::text::is_white(before[0]));
        assert forall|i: int| 0 <= i < r.len() implies crate::text::is_white(#[trigger] r[i]) by {
            assert(r[i] == before[i + 1]);
        }
        law_html_begins_with_a_tag(r, rest, c);
        assert(s[0] == before[0]);
        assert(s.skip(1) =~= r + seq![c] + rest);
        assert(crate::text::trim_start(s) == crate::text::trim_start(s.skip(1)));
        assert(crate::text::trim_start(before) == crate::text::trim_start(r));
    }
}

} // verus!
