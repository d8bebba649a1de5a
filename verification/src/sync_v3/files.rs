//! The files of a notebook as the cloud wants them.

use vstd::prelude::*;
use vstd::utf8::*;

use crate::notebook::bundle::{
    image_path, image_path_of, page_metadata_path, page_metadata_path_of, page_paths, rm_path,
    rm_path_of, Bundle, BundlePage, BundlePageView, BundleView,
};
use crate::sync_v3::upload::{CloudFile, FileView};
use crate::text::{bytes_of, copy_bytes, lemma_views_push, views};

verus! {

/// The image files of a page.
pub open spec fn image_files(doc: Seq<char>, page: BundlePageView) -> Seq<FileView> {
    Seq::new(
        page.images.len(),
        |k: int|
            FileView {
                cloud_name: image_path(doc, page.uuid, page.images[k].filename),
                bytes: page.images[k].png_bytes,
            },
    )
}

/// The files of a page: its strokes, its metadata and its images.
pub open spec fn page_files(doc: Seq<char>, page: BundlePageView) -> Seq<FileView> {
    seq![
        FileView { cloud_name: rm_path(doc, page.uuid), bytes: page.rm_bytes },
        FileView {
            cloud_name: page_metadata_path(doc, page.uuid),
            bytes: encode_utf8(page.metadata_json),
        },
    ] + image_files(doc, page)
}

/// The files of the first `n` pages.
pub open spec fn pages_files(doc: Seq<char>, pages: Seq<BundlePageView>, n: nat) -> Seq<FileView>
    decreases n,
{
    if n == 0 {
        Seq::empty()
    } else {
        pages_files(doc, pages, (n - 1) as nat) + page_files(doc, pages[n - 1])
    }
}

/// The files of a bundle.
pub open spec fn files_of(b: BundleView) -> Seq<FileView> {
    seq![
        FileView {
            cloud_name: b.doc_uuid + ".metadata"@,
            bytes: encode_utf8(b.metadata_json),
        },
        FileView { cloud_name: b.doc_uuid + ".content"@, bytes: encode_utf8(b.content_json) },
        FileView { cloud_name: b.doc_uuid + ".pagedata"@, bytes: encode_utf8(b.pagedata) },
    ] + pages_files(b.doc_uuid, b.pages, b.pages.len())
}

fn text_file(doc: &str, suffix: &str, text: &str) -> (r: CloudFile)
    ensures
        r@ == (FileView { cloud_name: doc@ + suffix@, bytes: encode_utf8(text@) }),
{
    let mut name = doc.to_owned();
    name.push_str(suffix);
    CloudFile { cloud_name: name, bytes: bytes_of(text) }
}

fn push_page_files(out: &mut Vec<CloudFile>, doc: &str, page: &BundlePage)
    ensures
        views(final(out)@) == views(old(out)@) + page_files(doc@, page@),
{
    let ghost before = views(out@);
    let ghost pv = page@;
    let pid = page.uuid.as_str();
    let rm = CloudFile { cloud_name: rm_path_of(doc, pid), bytes: copy_bytes(page.rm_bytes.as_slice()) };
    let meta = CloudFile {
        cloud_name: page_metadata_path_of(doc, pid),
        bytes: bytes_of(page.metadata_json.as_str()),
    };
    proof {
        lemma_views_push(out@, rm);
        lemma_views_push(out@.push(rm), meta);
    }
    out.push(rm);
    out.push(meta);
    let ghost head = views(out@);
    let ghost want = image_files(doc@, pv);
    let mut k: usize = 0;
    proof {
        assert(head + want.take(0) =~= head);
    }
    while k < page.images.len()
        invariant
            pv == page@,
            pid@ == page.uuid@,
            want == image_files(doc@, pv),
            k <= page.images@.len(),
            views(out@) == head + want.take(k as int),
        decreases page.images@.len() - k,
    {
        let f = CloudFile {
            cloud_name: image_path_of(doc, pid, page.images[k].filename.as_str()),
            bytes: copy_bytes(page.images[k].png_bytes.as_slice()),
        };
        proof {
            assert(pv.images[k as int] == page.images@[k as int]@);
            lemma_views_push(out@, f);
            assert(views(out@).push(f@) =~= head + want.take(k + 1));
        }
        out.push(f);
        k += 1;
    }
    proof {
        assert(want.take(k as int) =~= want);
        assert(views(out@) =~= before + page_files(doc@, pv));
    }
}

/// Flattens a bundle into the list of files the cloud expects.
pub fn bundle_files(bundle: &Bundle) -> (r: Vec<CloudFile>)
    ensures
        views(r@) == files_of(bundle@),
{
    let doc = bundle.doc_uuid.as_str();
    let ghost bv = bundle@;
    let mut out: Vec<CloudFile> = Vec::new();
    let a = text_file(doc, ".metadata", bundle.metadata_json.as_str());
    let b = text_file(doc, ".content", bundle.content_json.as_str());
    let c = text_file(doc, ".pagedata", bundle.pagedata.as_str());
    out.push(a);
    out.push(b);
    out.push(c);
    let ghost head = views(out@);
    let mut i: usize = 0;
    proof {
        assert(head =~= seq![a@, b@, c@]);
        assert(head + pages_files(doc@, bv.pages, 0) =~= head);
    }
    while i < bundle.pages.len()
        invariant
            bv == bundle@,
            doc@ == bundle.doc_uuid@,
            i <= bundle.pages@.len(),
            views(out@) == head + pages_files(doc@, bv.pages, i as nat),
        decreases bundle.pages@.len() - i,
    {
        let ghost mid = views(out@);
        push_page_files(&mut out, doc, &bundle.pages[i]);
        proof {
            assert(bv.pages[i as int] == bundle.pages@[i as int]@);
            assert(views(out@) =~= head + pages_files(doc@, bv.pages, (i + 1) as nat));
        }
        i += 1;
    }
    proof {
        assert(views(out@) =~= files_of(bv));
    }
    out
}

/// The number of images on the first `n` pages.
pub open spec fn image_count(pages: Seq<BundlePageView>, n: nat) -> nat
    decreases n,
{
    if n == 0 {
        0
    } else {
        image_count(pages, (n - 1) as nat) + pages[n - 1].images.len()
    }
}

proof fn lemma_pages_files_len(doc: Seq<char>, pages: Seq<BundlePageView>, n: nat)
    ensures
        pages_files(doc, pages, n).len() == 2 * n + image_count(pages, n),
    decreases n,
{
    if n > 0 {
        lemma_pages_files_len(doc, pages, (n - 1) as nat);
    }
}

/// Every file of a bundle is uploaded: three for the document, two for each
/// page, and one for each image.
pub proof fn law_every_file_is_uploaded(b: BundleView)
    ensures
        files_of(b).len() == 3 + 2 * b.pages.len() + image_count(b.pages, b.pages.len()),
{
    lemma_pages_files_len(b.doc_uuid, b.pages, b.pages.len());
}

/// The names in the cloud are the paths on disk.
pub proof fn law_cloud_names_are_paths(doc: Seq<char>, page: BundlePageView)
    ensures
        page_files(doc, page)[0].cloud_name == page_paths(doc, page).rm,
        page_files(doc, page)[1].cloud_name == page_paths(doc, page).metadata,
        forall|k: int|
            0 <= k < page.images.len() ==> #[trigger] page_files(doc, page)[2 + k].cloud_name
                == page_paths(doc, page).images[k],
{
}

} // verus!
