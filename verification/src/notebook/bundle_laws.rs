//! Laws of a notebook: which file holds what, and what its documents list.

use vstd::prelude::*;
use vstd::utf8::*;

use crate::codec::json_string;
use crate::notebook::bundle::{
    bundle_of, content_text, idx_label, layer_json, metadata_text, named_images, page_entries,
    page_entry, page_list, pagedata_text, pages_size, placed_images, stamped, template_lines,
    BundleOptions, BundlePageView, PlanView,
};
use crate::notebook::tables::ImageView;
use crate::sync_v3::files::{files_of, image_files, page_files, pages_files};
use crate::sync_v3::laws::{lemma_split_plain, lemma_split_sep};
use crate::sync_v3::upload::FileView;
use crate::text::{decimal, signed_decimal, split, stands_at};
use crate::v6::page::Device;

verus! {

// ---------------------------------------------------------------------------
// Files
// ---------------------------------------------------------------------------

proof fn lemma_page_among_files(
    doc: Seq<char>,
    pages: Seq<BundlePageView>,
    n: nat,
    i: int,
    f: FileView,
)
    requires
        0 <= i < n <= pages.len(),
        page_files(doc, pages[i]).contains(f),
    ensures
        pages_files(doc, pages, n).contains(f),
    decreases n,
{
    let a = pages_files(doc, pages, (n - 1) as nat);
    let b = page_files(doc, pages[n - 1]);
    if i < n - 1 {
        lemma_page_among_files(doc, pages, (n - 1) as nat, i, f);
        let k = choose|k: int| 0 <= k < a.len() && a[k] == f;
        assert((a + b)[k] == f);
    } else {
        let k = choose|k: int| 0 <= k < b.len() && b[k] == f;
        assert((a + b)[a.len() + k] == f);
    }
}

/// What is uploaded of a page is the page's own: the file
/// `<doc>/<uuid of page i>.rm` holds exactly the bytes of the stroke file that
/// was given for page `i`, there is metadata beside it, and
/// `<doc>/<uuid of page i>/<name>` holds the bytes of the image that the plan
/// names so.
pub proof fn law_pages_are_uploaded_as_given(
    opts: BundleOptions,
    plans: Seq<PlanView>,
    rm: Seq<Vec<u8>>,
    now: int,
    keyboard_ms: int,
    i: int,
)
    requires
        plans.len() == opts.pages@.len(),
        rm.len() == opts.pages@.len(),
        0 <= i < opts.pages@.len(),
    ensures
        ({
            let fs = files_of(bundle_of(opts, plans, rm, now, keyboard_ms));
            let doc = opts.doc_uuid@;
            let images = opts.pages@[i]@.images;
            &&& fs.contains(
                FileView { cloud_name: doc + "/"@ + plans[i].uuid + ".rm"@, bytes: rm[i]@ },
            )
            &&& exists|bytes: Seq<u8>| #[trigger]
                fs.contains(
                    FileView { cloud_name: doc + "/"@ + plans[i].uuid + "-metadata.json"@, bytes },
                )
            &&& forall|k: int|
                0 <= k < images.len() ==> fs.contains(
                    FileView {
                        cloud_name: doc + "/"@ + plans[i].uuid + "/"@ + plans[i].image_names[k],
                        bytes: (#[trigger] images[k]).png_bytes,
                    },
                )
        }),
{
    let b = bundle_of(opts, plans, rm, now, keyboard_ms);
    let fs = files_of(b);
    let doc = opts.doc_uuid@;
    let page = b.pages[i];
    let images = opts.pages@[i]@.images;
    let own = page_files(doc, page);
    let stroke = FileView { cloud_name: doc + "/"@ + plans[i].uuid + ".rm"@, bytes: rm[i]@ };
    let meta = FileView {
        cloud_name: doc + "/"@ + plans[i].uuid + "-metadata.json"@,
        bytes: encode_utf8(page.metadata_json),
    };
    assert(own[0] == stroke);
    assert(own[1] == meta);
    lemma_page_among_files(doc, b.pages, b.pages.len(), i, stroke);
    lemma_page_among_files(doc, b.pages, b.pages.len(), i, meta);
    lemma_behind_head(b, stroke);
    lemma_behind_head(b, meta);
    assert forall|k: int| 0 <= k < images.len() implies fs.contains(
        FileView {
            cloud_name: doc + "/"@ + plans[i].uuid + "/"@ + plans[i].image_names[k],
            bytes: (#[trigger] images[k]).png_bytes,
        },
    ) by {
        let f = FileView {
            cloud_name: doc + "/"@ + plans[i].uuid + "/"@ + plans[i].image_names[k],
            bytes: images[k].png_bytes,
        };
        assert(own[2 + k] == image_files(doc, page)[k]);
        assert(own[2 + k] == f);
        lemma_page_among_files(doc, b.pages, b.pages.len(), i, f);
        lemma_behind_head(b, f);
    }
}

proof fn lemma_behind_head(b: crate::notebook::bundle::BundleView, f: FileView)
    requires
        pages_files(b.doc_uuid, b.pages, b.pages.len()).contains(f),
    ensures
        files_of(b).contains(f),
{
    let p = pages_files(b.doc_uuid, b.pages, b.pages.len());
    let k = choose|k: int| 0 <= k < p.len() && p[k] == f;
    assert(files_of(b)[3 + k] == f);
}

/// The three documents of a notebook go up under its own id, each with its own
/// text.
pub proof fn law_documents_are_uploaded(b: crate::notebook::bundle::BundleView)
    ensures
        files_of(b).contains(
            FileView {
                cloud_name: b.doc_uuid + ".metadata"@,
                bytes: encode_utf8(b.metadata_json),
            },
        ),
        files_of(b).contains(
            FileView { cloud_name: b.doc_uuid + ".content"@, bytes: encode_utf8(b.content_json) },
        ),
        files_of(b).contains(
            FileView { cloud_name: b.doc_uuid + ".pagedata"@, bytes: encode_utf8(b.pagedata) },
        ),
{
    assert(files_of(b)[0].cloud_name == b.doc_uuid + ".metadata"@);
    assert(files_of(b)[1].cloud_name == b.doc_uuid + ".content"@);
    assert(files_of(b)[2].cloud_name == b.doc_uuid + ".pagedata"@);
}

/// The stroke file of a page refers to its images under the names of the
/// uploaded files, with the same bytes, where the page puts them.
pub proof fn law_strokes_name_the_uploaded_images(
    names: Seq<Seq<char>>,
    images: Seq<ImageView>,
    k: int,
)
    requires
        0 <= k < images.len(),
        names.len() == images.len(),
    ensures
        placed_images(names, images).len() == named_images(names, images).len(),
        placed_images(names, images).len() == images.len(),
        placed_images(names, images)[k].filename == named_images(names, images)[k].filename,
        placed_images(names, images)[k].png_bytes == named_images(names, images)[k].png_bytes,
        named_images(names, images)[k].filename == names[k],
        named_images(names, images)[k].png_bytes == images[k].png_bytes,
        placed_images(names, images)[k].x == images[k].x,
        placed_images(names, images)[k].y == images[k].y,
        placed_images(names, images)[k].w == images[k].w,
        placed_images(names, images)[k].h == images[k].h,
{
}

// ---------------------------------------------------------------------------
// Texts that hold given parts in order
// ---------------------------------------------------------------------------

/// Whether the parts occur in the text one behind the other.
pub open spec fn holds_in_order(text: Seq<char>, parts: Seq<Seq<char>>) -> bool
    decreases parts.len(),
{
    parts.len() == 0 || exists|at: int|
        #[trigger] stands_at(text, parts[0], at) && holds_in_order(
            text.skip(at + parts[0].len()),
            parts.skip(1),
        )
}

/// The parts of two texts, one behind the other.
pub proof fn lemma_parts_add(
    a: Seq<char>,
    ps: Seq<Seq<char>>,
    b: Seq<char>,
    qs: Seq<Seq<char>>,
)
    requires
        holds_in_order(a, ps),
        holds_in_order(b, qs),
    ensures
        holds_in_order(a + b, ps + qs),
    decreases ps.len(),
{
    if ps.len() > 0 {
        let p = ps[0];
        let at = choose|at: int|
            #[trigger] stands_at(a, p, at) && holds_in_order(a.skip(at + p.len()), ps.skip(1));
        lemma_parts_add(a.skip(at + p.len()), ps.skip(1), b, qs);
        assert((a + b).subrange(at, at + p.len()) =~= a.subrange(at, at + p.len()));
        assert((a + b).skip(at + p.len()) =~= a.skip(at + p.len()) + b);
        assert((ps + qs).skip(1) =~= ps.skip(1) + qs);
        assert(stands_at(a + b, (ps + qs)[0], at));
    } else {
        assert(ps + qs =~= qs);
        if qs.len() > 0 {
            let q = qs[0];
            let at = choose|at: int|
                #[trigger] stands_at(b, q, at) && holds_in_order(b.skip(at + q.len()), qs.skip(1));
            let to = at + a.len();
            assert((a + b).subrange(to, to + q.len()) =~= b.subrange(at, at + q.len()));
            assert((a + b).skip(to + q.len()) =~= b.skip(at + q.len()));
            assert(stands_at(a + b, qs[0], to));
        }
    }
}

/// One part more, behind text that holds none.
pub proof fn lemma_one_more_part(
    a: Seq<char>,
    ps: Seq<Seq<char>>,
    gap: Seq<char>,
    part: Seq<char>,
)
    requires
        holds_in_order(a, ps),
    ensures
        holds_in_order(a + gap + part, ps.push(part)),
{
    let b = gap + part;
    let one = seq![part];
    assert(b.subrange(gap.len() as int, gap.len() as int + part.len()) =~= part);
    assert(stands_at(b, one[0], gap.len() as int));
    assert(one.skip(1) =~= Seq::<Seq<char>>::empty());
    assert(holds_in_order(b.skip(gap.len() as int + one[0].len()), one.skip(1)));
    assert(holds_in_order(b, one));
    lemma_parts_add(a, ps, b, one);
    assert(a + gap + part =~= a + b);
    assert(ps + one =~= ps.push(part));
}

/// More text behind the parts.
pub proof fn lemma_longer_text(a: Seq<char>, b: Seq<char>, ps: Seq<Seq<char>>)
    requires
        holds_in_order(a, ps),
    ensures
        holds_in_order(a + b, ps),
{
    let none = Seq::<Seq<char>>::empty();
    lemma_parts_add(a, ps, b, none);
    assert(ps + none =~= ps);
}

// ---------------------------------------------------------------------------
// The page list
// ---------------------------------------------------------------------------

/// The entries of the pages, one for each plan, in order.
pub open spec fn entries_of_pages(
    plans: Seq<PlanView>,
    now_ms: Seq<char>,
    template: Seq<char>,
) -> Seq<Seq<char>> {
    Seq::new(
        plans.len(),
        |i: int| page_entry(i as nat, plans[i].uuid, now_ms, plans[i].scroll_time, template),
    )
}

proof fn lemma_entries_listed(
    plans: Seq<PlanView>,
    now_ms: Seq<char>,
    template: Seq<char>,
    n: nat,
)
    requires
        n <= plans.len(),
    ensures
        holds_in_order(
            page_entries(plans, now_ms, template, n),
            entries_of_pages(plans, now_ms, template).take(n as int),
        ),
    decreases n,
{
    let all = entries_of_pages(plans, now_ms, template);
    if n > 0 {
        lemma_entries_listed(plans, now_ms, template, (n - 1) as nat);
        let a = page_entries(plans, now_ms, template, (n - 1) as nat);
        let e = all[n - 1];
        assert(all.take(n as int) =~= all.take(n - 1).push(e));
        if n == 1 {
            lemma_one_more_part(a, all.take(0), Seq::empty(), e);
            assert(a + Seq::<char>::empty() + e =~= e);
        } else {
            lemma_one_more_part(a, all.take(n - 1), ",\n"@, e);
        }
    }
}

/// The `.content` document names the device's surface, the time, the number of
/// pages and their size, then lists one entry for each page, in order, and
/// names the author.
pub proof fn law_content_lists_the_pages(
    device: Device,
    author: Seq<char>,
    template: Seq<char>,
    now_ms: Seq<char>,
    keyboard_ms: int,
    size: nat,
    plans: Seq<PlanView>,
)
    ensures
        holds_in_order(
            content_text(device, author, template, now_ms, keyboard_ms, size, plans),
            seq![
                decimal((device.surface().1 / 2) as nat),
                decimal(device.surface().1 as nat),
                decimal(device.surface().0 as nat),
                signed_decimal(keyboard_ms),
                decimal(plans.len()),
                decimal(size),
            ] + entries_of_pages(plans, now_ms, template) + seq![json_string(author)],
        ),
{
    let all = entries_of_pages(plans, now_ms, template);
    let list = page_list(plans, now_ms, template);
    lemma_entries_listed(plans, now_ms, template, plans.len());
    assert(all.take(plans.len() as int) =~= all);
    let entries = page_entries(plans, now_ms, template, plans.len());
    assert(holds_in_order(list, all)) by {
        if plans.len() > 0 {
            let none = Seq::<Seq<char>>::empty();
            lemma_parts_add("[\n"@, none, entries, all);
            assert(none + all =~= all);
            lemma_longer_text("[\n"@ + entries, "\n    ]"@, all);
        }
    }
    let e = Seq::<char>::empty();
    let none = Seq::<Seq<char>>::empty();
    let g0 =
        "{\n  \"coverPageNumber\": -1,\n  \"customZoomCenterX\": 0,\n  \"customZoomCenterY\": "@;
    let p0 = decimal((device.surface().1 / 2) as nat);
    lemma_one_more_part(e, none, g0, p0);
    assert(e + g0 + p0 =~= g0 + p0);
    let t0 = g0 + p0;
    let s0 = none.push(p0);
    let g1 = ",\n  \"customZoomOrientation\": \"portrait\",\n  \"customZoomPageHeight\": "@;
    let p1 = decimal(device.surface().1 as nat);
    lemma_one_more_part(t0, s0, g1, p1);
    let t1 = t0 + g1 + p1;
    let s1 = s0.push(p1);
    let g2 = ",\n  \"customZoomPageWidth\": "@;
    let p2 = decimal(device.surface().0 as nat);
    lemma_one_more_part(t1, s1, g2, p2);
    let t2 = t1 + g2 + p2;
    let s2 = s1.push(p2);
    let g3 =
        ",\n  \"customZoomScale\": 1,\n  \"documentMetadata\": {},\n  \"extraMetadata\": {},\n  \"fileType\": \"notebook\",\n  \"fontName\": \"\",\n  \"formatVersion\": 2,\n  \"keyboardMetadata\": {\n    \"count\": 1,\n    \"timestamp\": "@;
    let p3 = signed_decimal(keyboard_ms);
    lemma_one_more_part(t2, s2, g3, p3);
    let t3 = t2 + g3 + p3;
    let s3 = s2.push(p3);
    let g4 = "\n  },\n  \"lineHeight\": -1,\n  \"orientation\": \"portrait\",\n  \"pageCount\": "@;
    let p4 = decimal(plans.len());
    lemma_one_more_part(t3, s3, g4, p4);
    let t4 = t3 + g4 + p4;
    let s4 = s3.push(p4);
    let g5 = ",\n  \"pageTags\": [],\n  \"sizeInBytes\": \""@;
    let p5 = decimal(size);
    lemma_one_more_part(t4, s4, g5, p5);
    let t5 = t4 + g5 + p5;
    let s5 = s4.push(p5);
    let g6 =
        "\",\n  \"tags\": [],\n  \"textAlignment\": \"justify\",\n  \"textScale\": 1,\n  \"zoomMode\": \"bestFit\",\n  \"cPages\": {\n    \"lastOpened\": {\n      \"timestamp\": \"0:0\",\n      \"value\": \"\"\n    },\n    \"original\": {\n      \"timestamp\": \"0:0\",\n      \"value\": -1\n    },\n    \"pages\": "@;
    lemma_longer_text(t5, g6, s5);
    lemma_parts_add(t5 + g6, s5, list, all);
    let t6 = t5 + g6 + list;
    let s6 = s5 + all;
    let g7 = ",\n    \"uuids\": [\n      {\n        \"first\": "@;
    let p7 = json_string(author);
    lemma_one_more_part(t6, s6, g7, p7);
    let t7 = t6 + g7 + p7;
    lemma_longer_text(t7, ",\n        \"second\": 1\n      }\n    ]\n  }\n}"@, s6.push(p7));
    assert(s6.push(p7) =~= seq![p0, p1, p2, p3, p4, p5] + all + seq![p7]);
}

proof fn lemma_stamped(stamp: Seq<char>, value: Seq<char>)
    ensures
        holds_in_order(stamped(stamp, value), seq![stamp, value]),
{
    let e = Seq::<char>::empty();
    let none = Seq::<Seq<char>>::empty();
    let g0 = "{\n          \"timestamp\": \""@;
    lemma_one_more_part(e, none, g0, stamp);
    assert(e + g0 =~= g0);
    let t0 = g0 + stamp;
    let s0 = none.push(stamp);
    let g1 = "\",\n          \"value\": "@;
    lemma_one_more_part(t0, s0, g1, value);
    lemma_longer_text(t0 + g1 + value, "\n        }"@, s0.push(value));
    assert(s0.push(value) =~= seq![stamp, value]);
}

/// The entry of a page names, in order, the page's own id, its stamps and label
/// by its place, the time, its scroll time and its template.
pub proof fn law_entry_names_the_page(
    idx: nat,
    uuid: Seq<char>,
    now_ms: Seq<char>,
    scroll_time: Seq<char>,
    template: Seq<char>,
)
    ensures
        holds_in_order(
            page_entry(idx, uuid, now_ms, scroll_time, template),
            seq![
                json_string(uuid),
                "1:"@ + decimal(2 + idx * 2),
                json_string(idx_label(idx)),
                json_string(now_ms),
                "1:1"@,
                json_string(scroll_time),
                "1:"@ + decimal(3 + idx * 2),
                json_string(template),
            ],
        ),
{
    let e = Seq::<char>::empty();
    let none = Seq::<Seq<char>>::empty();
    let g0 = "      {\n        \"id\": "@;
    let p0 = json_string(uuid);
    lemma_one_more_part(e, none, g0, p0);
    assert(e + g0 =~= g0);
    let t0 = g0 + p0;
    let s0 = none.push(p0);
    let g1 = ",\n        \"idx\": "@;
    let x1 = "1:"@ + decimal(2 + idx * 2);
    let v1 = json_string(idx_label(idx));
    lemma_stamped(x1, v1);
    lemma_longer_text(t0, g1, s0);
    lemma_parts_add(t0 + g1, s0, stamped(x1, v1), seq![x1, v1]);
    let t1 = t0 + g1 + stamped(x1, v1);
    let s1 = s0 + seq![x1, v1];
    let g2 = ",\n        \"modifed\": "@;
    let p2 = json_string(now_ms);
    lemma_one_more_part(t1, s1, g2, p2);
    let t2 = t1 + g2 + p2;
    let s2 = s1.push(p2);
    let g3 = ",\n        \"scrollTime\": "@;
    let v3 = json_string(scroll_time);
    lemma_stamped("1:1"@, v3);
    lemma_longer_text(t2, g3, s2);
    lemma_parts_add(t2 + g3, s2, stamped("1:1"@, v3), seq!["1:1"@, v3]);
    let t3 = t2 + g3 + stamped("1:1"@, v3);
    let s3 = s2 + seq!["1:1"@, v3];
    let g4 = ",\n        \"template\": "@;
    let x4 = "1:"@ + decimal(3 + idx * 2);
    let v4 = json_string(template);
    lemma_stamped(x4, v4);
    lemma_longer_text(t3, g4, s3);
    lemma_parts_add(t3 + g4, s3, stamped(x4, v4), seq![x4, v4]);
    let t4 = t3 + g4 + stamped(x4, v4);
    let s4 = s3 + seq![x4, v4];
    let g5 = ",\n        \"verticalScroll\": "@;
    lemma_longer_text(t4, g5, s4);
    lemma_longer_text(t4 + g5, stamped("1:1"@, "0"@), s4);
    lemma_longer_text(t4 + g5 + stamped("1:1"@, "0"@), "\n      }"@, s4);
    assert(s4 =~= seq![p0, x1, v1, p2, "1:1"@, v3, x4, v4]);
}

/// The `.metadata` document names the notebook, then its parent, then the time
/// twice.
pub proof fn law_metadata_names_the_notebook(
    name: Seq<char>,
    parent: Seq<char>,
    now_ms: Seq<char>,
)
    ensures
        holds_in_order(
            metadata_text(name, parent, now_ms),
            seq![
                json_string(name),
                json_string(parent),
                json_string(now_ms),
                json_string(now_ms),
            ],
        ),
{
    let e = Seq::<char>::empty();
    let none = Seq::<Seq<char>>::empty();
    let g0 = "{\n  \"type\": \"DocumentType\",\n  \"visibleName\": "@;
    let p0 = json_string(name);
    lemma_one_more_part(e, none, g0, p0);
    assert(e + g0 + p0 =~= g0 + p0);
    let t0 = g0 + p0;
    let s0 = none.push(p0);
    let g1 = ",\n  \"parent\": "@;
    let p1 = json_string(parent);
    lemma_one_more_part(t0, s0, g1, p1);
    let t1 = t0 + g1 + p1;
    let s1 = s0.push(p1);
    let g2 =
        ",\n  \"deleted\": false,\n  \"metadatamodified\": false,\n  \"modified\": false,\n  \"pinned\": false,\n  \"synced\": false,\n  \"version\": 1,\n  \"lastModified\": "@;
    let p2 = json_string(now_ms);
    lemma_one_more_part(t1, s1, g2, p2);
    let t2 = t1 + g2 + p2;
    let s2 = s1.push(p2);
    let g3 = ",\n  \"lastOpened\": "@;
    lemma_one_more_part(t2, s2, g3, p2);
    let t3 = t2 + g3 + p2;
    let s3 = s2.push(p2);
    lemma_longer_text(t3, ",\n  \"lastOpenedPage\": 0\n}"@, s3);
    assert(s3 =~= seq![p0, p1, p2, p2]);
}

/// The `.pagedata` text has the template on one line for each page.
pub proof fn law_pagedata_has_a_line_for_each_page(template: Seq<char>, n: nat)
    requires
        n > 0,
        !template.contains('\n'),
    ensures
        split(pagedata_text(template, n), '\n') == Seq::new(n, |i: int| template).push(
            Seq::empty(),
        ),
    decreases n,
{
    reveal_strlit("\n");
    let t = template_lines(template, n);
    let none = Seq::<char>::empty();
    assert(none + template =~= template);
    if n == 1 {
        lemma_split_plain(none, template, '\n');
        assert(split(t, '\n') =~= Seq::new(n, |i: int| template));
    } else {
        let m = (n - 1) as nat;
        law_pagedata_has_a_line_for_each_page(template, m);
        let a = pagedata_text(template, m);
        assert(t =~= a + template);
        lemma_split_plain(a, template, '\n');
        assert(split(t, '\n') =~= Seq::new(n, |i: int| template));
    }
    assert(pagedata_text(template, n) =~= t.push('\n'));
    lemma_split_sep(t, '\n');
    assert(split(pagedata_text(template, n), '\n') =~= Seq::new(n, |i: int| template).push(
        Seq::empty(),
    ));
}

/// The bytes that a notebook takes are those of the stroke files of its pages
/// and of their metadata.
pub proof fn law_size_counts_every_page(rm: Seq<Vec<u8>>, n: nat)
    requires
        n <= rm.len(),
    ensures
        pages_size(rm, n) == rm.take(n as int).fold_left(
            0,
            |a: int, b: Vec<u8>| a + b@.len() + encode_utf8(layer_json()).len(),
        ),
    decreases n,
{
    if n > 0 {
        law_size_counts_every_page(rm, (n - 1) as nat);
        assert(rm.take(n as int).drop_last() =~= rm.take(n - 1));
    }
}

/// The documents of a notebook are made of its own options and plans.
pub proof fn law_bundle_is_made_of_its_options(
    opts: BundleOptions,
    plans: Seq<PlanView>,
    rm: Seq<Vec<u8>>,
    now: int,
    keyboard_ms: int,
)
    requires
        plans.len() == opts.pages@.len(),
        rm.len() == opts.pages@.len(),
    ensures
        ({
            let b = bundle_of(opts, plans, rm, now, keyboard_ms);
            let now_ms = signed_decimal(now);
            &&& b.doc_uuid == opts.doc_uuid@
            &&& b.pages.len() == opts.pages@.len()
            &&& forall|i: int|
                0 <= i < b.pages.len() ==> (#[trigger] b.pages[i]).uuid == plans[i].uuid
                    && b.pages[i].rm_bytes == rm[i]@ && b.pages[i].images.len()
                    == opts.pages@[i]@.images.len()
            &&& holds_in_order(
                b.metadata_json,
                seq![
                    json_string(opts.visible_name@),
                    json_string(opts.parent@),
                    json_string(now_ms),
                    json_string(now_ms),
                ],
            )
            &&& holds_in_order(
                b.content_json,
                seq![
                    decimal((opts.device.surface().1 / 2) as nat),
                    decimal(opts.device.surface().1 as nat),
                    decimal(opts.device.surface().0 as nat),
                    signed_decimal(keyboard_ms),
                    decimal(opts.pages@.len()),
                    decimal(pages_size(rm, opts.pages@.len())),
                ] + entries_of_pages(plans, now_ms, opts.page_template@) + seq![
                    json_string(opts.author_uuid@),
                ],
            )
            &&& opts.pages@.len() > 0 && !opts.page_template@.contains('\n') ==> split(
                b.pagedata,
                '\n',
            ) == Seq::new(opts.pages@.len(), |i: int| opts.page_template@).push(Seq::empty())
        }),
{
    let b = bundle_of(opts, plans, rm, now, keyboard_ms);
    let now_ms = signed_decimal(now);
    law_metadata_names_the_notebook(opts.visible_name@, opts.parent@, now_ms);
    law_content_lists_the_pages(
        opts.device,
        opts.author_uuid@,
        opts.page_template@,
        now_ms,
        keyboard_ms,
        pages_size(rm, opts.pages@.len()),
        plans,
    );
    if opts.pages@.len() > 0 && !opts.page_template@.contains('\n') {
        law_pagedata_has_a_line_for_each_page(opts.page_template@, opts.pages@.len());
    }
}

} // verus!
