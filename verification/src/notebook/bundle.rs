//! The files of a notebook document.
//!
//! On the device, every notebook is a set of files keyed by a document UUID:
//!
//! ```text
//! <doc>.metadata               top-level metadata (name, parent, type)
//! <doc>.content                page list and format settings
//! <doc>.pagedata               one template name per page
//! <doc>/<page>.rm              the page's typed text and strokes
//! <doc>/<page>-metadata.json   per-page metadata (layer names)
//! <doc>/<page>/<image>.png     the page's images
//! ```

use vstd::prelude::*;
use vstd::utf8::*;

use crate::codec::{json_quoted, json_string};
use crate::error::Result;
use crate::ids::{is_random_uuid, is_stamp, new_uuid, now_millis, now_stamp};
use crate::notebook::tables::{ImageView, PageImageInput, PageInput};
use crate::order::lex_lt;
use crate::text::{
    copy_bytes, decimal, lemma_views_push, push_decimal, push_signed_decimal, push_wide_decimal,
    signed_decimal, views,
};
use crate::v6::page::{Device, PageImage, PageImageView};

verus! {

/// Inputs for assembling a notebook bundle.
#[derive(Debug)]
pub struct BundleOptions {
    pub visible_name: String,
    pub pages: Vec<PageInput>,
    /// Document UUID.
    pub doc_uuid: String,
    /// Author UUID stamped on every page.
    pub author_uuid: String,
    /// Page template name (e.g. `Blank`, `Lined`, `Grid`).
    pub page_template: String,
    /// Parent folder UUID. Empty places the document at the root.
    pub parent: String,
    /// Target device model.
    pub device: Device,
}

impl BundleOptions {
    /// A bundle of these pages at the root, with fresh random UUIDs, a blank
    /// template and the default device.
    pub fn new(visible_name: &str, pages: Vec<PageInput>) -> (r: Self)
        ensures
            r.visible_name@ == visible_name@,
            r.pages == pages,
            is_random_uuid(r.doc_uuid@),
            is_random_uuid(r.author_uuid@),
            r.page_template@ == "Blank"@,
            r.parent@.len() == 0,
            r.device == Device::PaperPro,
    {
        BundleOptions {
            visible_name: visible_name.to_owned(),
            pages,
            doc_uuid: new_uuid(),
            author_uuid: new_uuid(),
            page_template: "Blank".to_owned(),
            parent: String::new(),
            device: Device::PaperPro,
        }
    }

    /// The same bundle for another device.
    pub fn with_device(self, device: Device) -> (r: Self)
        ensures
            r == (BundleOptions { device, ..self }),
    {
        BundleOptions { device, ..self }
    }

    /// The same bundle inside an existing folder.
    pub fn with_parent(self, parent: &str) -> (r: Self)
        ensures
            r.parent@ == parent@,
            r == (BundleOptions { parent: r.parent, ..self }),
    {
        BundleOptions { parent: parent.to_owned(), ..self }
    }
}

/// An image attachment of a page.
#[derive(Debug)]
pub struct BundleImage {
    /// `<image-uuid>.png`, referenced by the image registry of the page.
    pub filename: String,
    pub png_bytes: Vec<u8>,
}

/// The mathematical value of a [`BundleImage`].
pub struct BundleImageView {
    pub filename: Seq<char>,
    pub png_bytes: Seq<u8>,
}

impl View for BundleImage {
    type V = BundleImageView;

    open spec fn view(&self) -> BundleImageView {
        BundleImageView { filename: self.filename@, png_bytes: self.png_bytes@ }
    }
}

/// A page of a bundle.
#[derive(Debug)]
pub struct BundlePage {
    pub uuid: String,
    /// Per-page `<page>-metadata.json` contents.
    pub metadata_json: String,
    /// Per-page `<page>.rm` contents.
    pub rm_bytes: Vec<u8>,
    /// PNG image attachments. Empty for text-only pages.
    pub images: Vec<BundleImage>,
}

/// The mathematical value of a [`BundlePage`].
pub struct BundlePageView {
    pub uuid: Seq<char>,
    pub metadata_json: Seq<char>,
    pub rm_bytes: Seq<u8>,
    pub images: Seq<BundleImageView>,
}

impl View for BundlePage {
    type V = BundlePageView;

    open spec fn view(&self) -> BundlePageView {
        BundlePageView {
            uuid: self.uuid@,
            metadata_json: self.metadata_json@,
            rm_bytes: self.rm_bytes@,
            images: views(self.images@),
        }
    }
}

/// A materialised notebook ready to be written.
#[derive(Debug)]
pub struct Bundle {
    pub doc_uuid: String,
    /// Top-level `<doc>.metadata` contents.
    pub metadata_json: String,
    /// Top-level `<doc>.content` contents.
    pub content_json: String,
    /// `<doc>.pagedata` text: one template name per page.
    pub pagedata: String,
    /// One entry per page in document order.
    pub pages: Vec<BundlePage>,
}

/// The mathematical value of a [`Bundle`].
pub struct BundleView {
    pub doc_uuid: Seq<char>,
    pub metadata_json: Seq<char>,
    pub content_json: Seq<char>,
    pub pagedata: Seq<char>,
    pub pages: Seq<BundlePageView>,
}

impl View for Bundle {
    type V = BundleView;

    open spec fn view(&self) -> BundleView {
        BundleView {
            doc_uuid: self.doc_uuid@,
            metadata_json: self.metadata_json@,
            content_json: self.content_json@,
            pagedata: self.pagedata@,
            pages: views(self.pages@),
        }
    }
}

/// What is drawn by lot and read off the clock for one page: its UUID, its
/// scroll time, and the file names of its images.
#[derive(Debug)]
pub struct PagePlan {
    pub uuid: String,
    pub scroll_time: String,
    pub image_names: Vec<String>,
}

/// The mathematical value of a [`PagePlan`].
pub struct PlanView {
    pub uuid: Seq<char>,
    pub scroll_time: Seq<char>,
    pub image_names: Seq<Seq<char>>,
}

impl View for PagePlan {
    type V = PlanView;

    open spec fn view(&self) -> PlanView {
        PlanView {
            uuid: self.uuid@,
            scroll_time: self.scroll_time@,
            image_names: views(self.image_names@),
        }
    }
}

/// Whether a text is the file name of an image: a random UUID and `.png`.
pub open spec fn is_image_name(s: Seq<char>) -> bool {
    exists|u: Seq<char>| #[trigger] is_random_uuid(u) && s == u + ".png"@
}

/// Whether there is a plan for each page, with a name for each image.
pub open spec fn plans_fit(plans: Seq<PagePlan>, pages: Seq<PageInput>) -> bool {
    plans.len() == pages.len() && forall|i: int|
        0 <= i < pages.len() ==> (#[trigger] plans[i]).image_names@.len() == pages[i].images@.len()
}

fn image_names(n: usize) -> (r: Vec<String>)
    ensures
        r@.len() == n,
        forall|k: int| 0 <= k < r@.len() ==> is_image_name(#[trigger] r@[k]@),
{
    let mut out: Vec<String> = Vec::new();
    let mut i: usize = 0;
    while i < n
        invariant
            i <= n,
            out@.len() == i,
            forall|k: int| 0 <= k < out@.len() ==> is_image_name(#[trigger] out@[k]@),
        decreases n - i,
    {
        let mut name = new_uuid();
        let ghost u = name@;
        name.push_str(".png");
        proof {
            assert(is_random_uuid(u) && name@ == u + ".png"@);
        }
        out.push(name);
        i += 1;
    }
    out
}

/// Draws the UUIDs and reads the clock for the pages of a bundle.
pub fn plan_pages(opts: &BundleOptions) -> (r: Vec<PagePlan>)
    ensures
        plans_fit(r@, opts.pages@),
        forall|i: int|
            0 <= i < r@.len() ==> is_random_uuid((#[trigger] r@[i]).uuid@) && is_stamp(
                r@[i].scroll_time@,
            ),
        forall|i: int, k: int|
            0 <= i < r@.len() && 0 <= k < r@[i].image_names@.len() ==> is_image_name(
                #[trigger] r@[i].image_names@[k]@,
            ),
{
    let mut out: Vec<PagePlan> = Vec::new();
    let mut i: usize = 0;
    while i < opts.pages.len()
        invariant
            i <= opts.pages@.len(),
            out@.len() == i,
            forall|k: int|
                0 <= k < i ==> (#[trigger] out@[k]).image_names@.len()
                    == opts.pages@[k].images@.len(),
            forall|k: int|
                0 <= k < out@.len() ==> is_random_uuid((#[trigger] out@[k]).uuid@) && is_stamp(
                    out@[k].scroll_time@,
                ),
            forall|j: int, k: int|
                0 <= j < out@.len() && 0 <= k < out@[j].image_names@.len() ==> is_image_name(
                    #[trigger] out@[j].image_names@[k]@,
                ),
        decreases opts.pages@.len() - i,
    {
        let names = image_names(opts.pages[i].images.len());
        let plan = PagePlan {
            uuid: new_uuid(),
            scroll_time: now_stamp(),
            image_names: names,
        };
        out.push(plan);
        i += 1;
    }
    out
}

// ---------------------------------------------------------------------------
// JSON documents
// ---------------------------------------------------------------------------

/// Per-page metadata: one layer.
pub open spec fn layer_json() -> Seq<char> {
    "{\n  \"layers\": [\n    {\n      \"name\": \"Layer 1\"\n    }\n  ]\n}"@
}

/// Top-level metadata of a document.
pub open spec fn metadata_text(name: Seq<char>, parent: Seq<char>, now_ms: Seq<char>) -> Seq<char> {
    "{\n  \"type\": \"DocumentType\",\n  \"visibleName\": "@ + json_string(name)
        + ",\n  \"parent\": "@ + json_string(parent)
        + ",\n  \"deleted\": false,\n  \"metadatamodified\": false,\n  \"modified\": false,\n  \"pinned\": false,\n  \"synced\": false,\n  \"version\": 1,\n  \"lastModified\": "@
        + json_string(now_ms) + ",\n  \"lastOpened\": "@ + json_string(now_ms)
        + ",\n  \"lastOpenedPage\": 0\n}"@
}

/// The sort label of a page: `ba`, `bb`, up to `zz`.
pub open spec fn idx_label(idx: nat) -> Seq<char> {
    seq![(98 + idx / 26) as char, (97 + idx % 26) as char]
}

/// A stamped value inside the entry of a page.
pub open spec fn stamped(stamp: Seq<char>, value: Seq<char>) -> Seq<char> {
    "{\n          \"timestamp\": \""@ + stamp + "\",\n          \"value\": "@ + value
        + "\n        }"@
}

/// The entry of page `idx` in the page list.
pub open spec fn page_entry(
    idx: nat,
    uuid: Seq<char>,
    now_ms: Seq<char>,
    scroll_time: Seq<char>,
    template: Seq<char>,
) -> Seq<char> {
    "      {\n        \"id\": "@ + json_string(uuid) + ",\n        \"idx\": "@ + stamped(
        "1:"@ + decimal(2 + idx * 2),
        json_string(idx_label(idx)),
    ) + ",\n        \"modifed\": "@ + json_string(now_ms) + ",\n        \"scrollTime\": "@
        + stamped("1:1"@, json_string(scroll_time)) + ",\n        \"template\": "@ + stamped(
        "1:"@ + decimal(3 + idx * 2),
        json_string(template),
    ) + ",\n        \"verticalScroll\": "@ + stamped("1:1"@, "0"@) + "\n      }"@
}

/// The entries of the first `n` pages, separated by commas.
pub open spec fn page_entries(
    plans: Seq<PlanView>,
    now_ms: Seq<char>,
    template: Seq<char>,
    n: nat,
) -> Seq<char>
    decreases n,
{
    if n == 0 {
        Seq::empty()
    } else {
        let p = plans[n - 1];
        let e = page_entry((n - 1) as nat, p.uuid, now_ms, p.scroll_time, template);
        if n == 1 {
            e
        } else {
            page_entries(plans, now_ms, template, (n - 1) as nat) + ",\n"@ + e
        }
    }
}

/// The page list.
pub open spec fn page_list(plans: Seq<PlanView>, now_ms: Seq<char>, template: Seq<char>) -> Seq<
    char,
> {
    if plans.len() == 0 {
        "[]"@
    } else {
        "[\n"@ + page_entries(plans, now_ms, template, plans.len()) + "\n    ]"@
    }
}

/// The `.content` document.
pub open spec fn content_text(
    device: Device,
    author: Seq<char>,
    template: Seq<char>,
    now_ms: Seq<char>,
    keyboard_ms: int,
    size: nat,
    plans: Seq<PlanView>,
) -> Seq<char> {
    "{\n  \"coverPageNumber\": -1,\n  \"customZoomCenterX\": 0,\n  \"customZoomCenterY\": "@
        + decimal((device.surface().1 / 2) as nat)
        + ",\n  \"customZoomOrientation\": \"portrait\",\n  \"customZoomPageHeight\": "@ + decimal(
        device.surface().1 as nat,
    ) + ",\n  \"customZoomPageWidth\": "@ + decimal(device.surface().0 as nat)
        + ",\n  \"customZoomScale\": 1,\n  \"documentMetadata\": {},\n  \"extraMetadata\": {},\n  \"fileType\": \"notebook\",\n  \"fontName\": \"\",\n  \"formatVersion\": 2,\n  \"keyboardMetadata\": {\n    \"count\": 1,\n    \"timestamp\": "@
        + signed_decimal(keyboard_ms)
        + "\n  },\n  \"lineHeight\": -1,\n  \"orientation\": \"portrait\",\n  \"pageCount\": "@
        + decimal(plans.len()) + ",\n  \"pageTags\": [],\n  \"sizeInBytes\": \""@ + decimal(size)
        + "\",\n  \"tags\": [],\n  \"textAlignment\": \"justify\",\n  \"textScale\": 1,\n  \"zoomMode\": \"bestFit\",\n  \"cPages\": {\n    \"lastOpened\": {\n      \"timestamp\": \"0:0\",\n      \"value\": \"\"\n    },\n    \"original\": {\n      \"timestamp\": \"0:0\",\n      \"value\": -1\n    },\n    \"pages\": "@
        + page_list(plans, now_ms, template) + ",\n    \"uuids\": [\n      {\n        \"first\": "@
        + json_string(author) + ",\n        \"second\": 1\n      }\n    ]\n  }\n}"@
}

/// The template of each of `n` pages on a line of its own.
pub open spec fn template_lines(template: Seq<char>, n: nat) -> Seq<char>
    decreases n,
{
    if n <= 1 {
        if n == 0 {
            Seq::empty()
        } else {
            template
        }
    } else {
        template_lines(template, (n - 1) as nat) + "\n"@ + template
    }
}

/// The `.pagedata` text.
pub open spec fn pagedata_text(template: Seq<char>, n: nat) -> Seq<char> {
    template_lines(template, n) + "\n"@
}

/// The images of a page with their file names.
pub open spec fn named_images(names: Seq<Seq<char>>, images: Seq<ImageView>) -> Seq<
    BundleImageView,
> {
    Seq::new(
        images.len(),
        |k: int| BundleImageView { filename: names[k], png_bytes: images[k].png_bytes },
    )
}

/// The pages of a bundle.
pub open spec fn bundle_pages(
    pages: Seq<PageInput>,
    plans: Seq<PlanView>,
    rm: Seq<Vec<u8>>,
) -> Seq<BundlePageView> {
    Seq::new(
        pages.len(),
        |i: int|
            BundlePageView {
                uuid: plans[i].uuid,
                metadata_json: layer_json(),
                rm_bytes: rm[i]@,
                images: named_images(plans[i].image_names, pages[i]@.images),
            },
    )
}

/// The bytes that the first `n` pages take: their stroke files and metadata.
pub open spec fn pages_size(rm: Seq<Vec<u8>>, n: nat) -> nat
    decreases n,
{
    if n == 0 {
        0
    } else {
        pages_size(rm, (n - 1) as nat) + rm[n - 1]@.len() + encode_utf8(layer_json()).len()
    }
}

/// The bundle of these pages, plans, stroke files and readings of the clock.
pub open spec fn bundle_of(
    opts: BundleOptions,
    plans: Seq<PlanView>,
    rm: Seq<Vec<u8>>,
    now: int,
    keyboard_ms: int,
) -> BundleView {
    let now_ms = signed_decimal(now);
    BundleView {
        doc_uuid: opts.doc_uuid@,
        metadata_json: metadata_text(opts.visible_name@, opts.parent@, now_ms),
        content_json: content_text(
            opts.device,
            opts.author_uuid@,
            opts.page_template@,
            now_ms,
            keyboard_ms,
            pages_size(rm, opts.pages@.len()),
            plans,
        ),
        pagedata: pagedata_text(opts.page_template@, opts.pages@.len()),
        pages: bundle_pages(opts.pages@, plans, rm),
    }
}

/// The most pages that the sort labels tell apart.
pub const MAX_PAGES: usize = 650;

/// The sort label of page `idx`: two letters, the first advancing every 26
/// pages.
pub fn page_idx_label(idx: usize) -> (r: String)
    requires
        idx < MAX_PAGES,
    ensures
        r@ == idx_label(idx as nat),
{
    let first: u8 = 98 + (idx / 26) as u8;
    let second: u8 = 97 + (idx % 26) as u8;
    let mut out = String::new();
    out.push(first as char);
    out.push(second as char);
    proof {
        assert(out@ =~= idx_label(idx as nat));
    }
    out
}

fn metadata_of(name: &str, parent: &str, now_ms: &str) -> (r: String)
    ensures
        r@ == metadata_text(name@, parent@, now_ms@),
{
    let now = json_quoted(now_ms);
    let mut t = "{\n  \"type\": \"DocumentType\",\n  \"visibleName\": ".to_owned();
    t.push_str(json_quoted(name).as_str());
    t.push_str(",\n  \"parent\": ");
    t.push_str(json_quoted(parent).as_str());
    t.push_str(
        ",\n  \"deleted\": false,\n  \"metadatamodified\": false,\n  \"modified\": false,\n  \"pinned\": false,\n  \"synced\": false,\n  \"version\": 1,\n  \"lastModified\": ",
    );
    t.push_str(now.as_str());
    t.push_str(",\n  \"lastOpened\": ");
    t.push_str(now.as_str());
    t.push_str(",\n  \"lastOpenedPage\": 0\n}");
    t
}

fn stamped_of(stamp: &str, value: &str) -> (r: String)
    ensures
        r@ == stamped(stamp@, value@),
{
    let mut t = "{\n          \"timestamp\": \"".to_owned();
    t.push_str(stamp);
    t.push_str("\",\n          \"value\": ");
    t.push_str(value);
    t.push_str("\n        }");
    t
}

fn numbered_stamp(n: u64) -> (r: String)
    ensures
        r@ == "1:"@ + decimal(n as nat),
{
    let mut t = "1:".to_owned();
    push_decimal(&mut t, n);
    t
}

fn page_entry_of(idx: usize, plan: &PagePlan, now_ms: &str, template: &str) -> (r: String)
    requires
        idx < MAX_PAGES,
    ensures
        r@ == page_entry(
            idx as nat,
            plan.uuid@,
            now_ms@,
            plan.scroll_time@,
            template@,
        ),
{
    let idx_stamp = numbered_stamp(2 + idx as u64 * 2);
    let template_stamp = numbered_stamp(3 + idx as u64 * 2);
    let label = json_quoted(page_idx_label(idx).as_str());
    let mut t = "      {\n        \"id\": ".to_owned();
    t.push_str(json_quoted(plan.uuid.as_str()).as_str());
    t.push_str(",\n        \"idx\": ");
    t.push_str(stamped_of(idx_stamp.as_str(), label.as_str()).as_str());
    t.push_str(",\n        \"modifed\": ");
    t.push_str(json_quoted(now_ms).as_str());
    t.push_str(",\n        \"scrollTime\": ");
    t.push_str(stamped_of("1:1", json_quoted(plan.scroll_time.as_str()).as_str()).as_str());
    t.push_str(",\n        \"template\": ");
    t.push_str(stamped_of(template_stamp.as_str(), json_quoted(template).as_str()).as_str());
    t.push_str(",\n        \"verticalScroll\": ");
    t.push_str(stamped_of("1:1", "0").as_str());
    t.push_str("\n      }");
    t
}

fn page_list_of(plans: &Vec<PagePlan>, now_ms: &str, template: &str) -> (r: String)
    requires
        plans@.len() <= MAX_PAGES,
    ensures
        r@ == page_list(views(plans@), now_ms@, template@),
{
    let ghost pv = views(plans@);
    if plans.len() == 0 {
        return "[]".to_owned();
    }
    let mut t = String::new();
    let mut i: usize = 0;
    proof {
        assert(t@ =~= page_entries(pv, now_ms@, template@, 0));
    }
    while i < plans.len()
        invariant
            pv == views(plans@),
            plans@.len() <= MAX_PAGES,
            i <= plans@.len(),
            t@ == page_entries(pv, now_ms@, template@, i as nat),
        decreases plans@.len() - i,
    {
        let e = page_entry_of(i, &plans[i], now_ms, template);
        if i > 0 {
            t.push_str(",\n");
        }
        t.push_str(e.as_str());
        proof {
            assert(pv[i as int] == plans@[i as int]@);
            assert(t@ =~= page_entries(pv, now_ms@, template@, (i + 1) as nat));
        }
        i += 1;
    }
    let mut out = "[\n".to_owned();
    out.push_str(t.as_str());
    out.push_str("\n    ]");
    out
}

fn content_of(
    opts: &BundleOptions,
    now_ms: &str,
    keyboard_ms: i64,
    size: u128,
    plans: &Vec<PagePlan>,
) -> (r: String)
    requires
        plans@.len() <= MAX_PAGES,
    ensures
        r@ == content_text(
            opts.device,
            opts.author_uuid@,
            opts.page_template@,
            now_ms@,
            keyboard_ms as int,
            size as nat,
            views(plans@),
        ),
{
    let (width, height) = opts.device.dimensions();
    let list = page_list_of(plans, now_ms, opts.page_template.as_str());
    let mut t =
        "{\n  \"coverPageNumber\": -1,\n  \"customZoomCenterX\": 0,\n  \"customZoomCenterY\": ".to_owned();
    push_decimal(&mut t, (height / 2) as u64);
    t.push_str(
        ",\n  \"customZoomOrientation\": \"portrait\",\n  \"customZoomPageHeight\": ",
    );
    push_decimal(&mut t, height as u64);
    t.push_str(",\n  \"customZoomPageWidth\": ");
    push_decimal(&mut t, width as u64);
    t.push_str(
        ",\n  \"customZoomScale\": 1,\n  \"documentMetadata\": {},\n  \"extraMetadata\": {},\n  \"fileType\": \"notebook\",\n  \"fontName\": \"\",\n  \"formatVersion\": 2,\n  \"keyboardMetadata\": {\n    \"count\": 1,\n    \"timestamp\": ",
    );
    push_signed_decimal(&mut t, keyboard_ms);
    t.push_str(
        "\n  },\n  \"lineHeight\": -1,\n  \"orientation\": \"portrait\",\n  \"pageCount\": ",
    );
    proof {
        assert(views(plans@).len() == plans@.len());
    }
    push_decimal(&mut t, plans.len() as u64);
    t.push_str(",\n  \"pageTags\": [],\n  \"sizeInBytes\": \"");
    push_wide_decimal(&mut t, size);
    t.push_str(
        "\",\n  \"tags\": [],\n  \"textAlignment\": \"justify\",\n  \"textScale\": 1,\n  \"zoomMode\": \"bestFit\",\n  \"cPages\": {\n    \"lastOpened\": {\n      \"timestamp\": \"0:0\",\n      \"value\": \"\"\n    },\n    \"original\": {\n      \"timestamp\": \"0:0\",\n      \"value\": -1\n    },\n    \"pages\": ",
    );
    t.push_str(list.as_str());
    t.push_str(",\n    \"uuids\": [\n      {\n        \"first\": ");
    t.push_str(json_quoted(opts.author_uuid.as_str()).as_str());
    t.push_str(",\n        \"second\": 1\n      }\n    ]\n  }\n}");
    t
}

fn pagedata_of(template: &str, n: usize) -> (r: String)
    ensures
        r@ == pagedata_text(template@, n as nat),
{
    let mut t = String::new();
    let mut i: usize = 0;
    proof {
        assert(t@ =~= template_lines(template@, 0));
    }
    while i < n
        invariant
            i <= n,
            t@ == template_lines(template@, i as nat),
        decreases n - i,
    {
        if i > 0 {
            t.push_str("\n");
        }
        t.push_str(template);
        i += 1;
        proof {
            assert(t@ =~= template_lines(template@, i as nat));
        }
    }
    t.push_str("\n");
    t
}

fn named_images_of(names: &Vec<String>, images: &Vec<PageImageInput>) -> (r: Vec<BundleImage>)
    requires
        names@.len() == images@.len(),
    ensures
        views(r@) == named_images(views(names@), views(images@)),
{
    let ghost want = named_images(views(names@), views(images@));
    let mut out: Vec<BundleImage> = Vec::new();
    let mut k: usize = 0;
    proof {
        assert(views(out@) =~= want.take(0));
    }
    while k < images.len()
        invariant
            names@.len() == images@.len(),
            want == named_images(views(names@), views(images@)),
            k <= images@.len(),
            views(out@) == want.take(k as int),
        decreases images@.len() - k,
    {
        let image = BundleImage {
            filename: names[k].clone(),
            png_bytes: copy_bytes(images[k].png_bytes.as_slice()),
        };
        proof {
            lemma_views_push(out@, image);
            assert(want.take(k + 1) =~= want.take(k as int).push(want[k as int]));
        }
        out.push(image);
        k += 1;
    }
    proof {
        assert(want.take(k as int) =~= want);
    }
    out
}

/// The images of a page as its stroke file places them.
pub open spec fn placed_images(names: Seq<Seq<char>>, images: Seq<ImageView>) -> Seq<
    PageImageView,
> {
    Seq::new(
        images.len(),
        |k: int|
            PageImageView {
                filename: names[k],
                png_bytes: images[k].png_bytes,
                x: images[k].x,
                y: images[k].y,
                w: images[k].w,
                h: images[k].h,
            },
    )
}

/// The images of a page as its stroke file places them, under the names that
/// the plan of the page gives them.
pub fn page_images(plan: &PagePlan, page: &PageInput) -> (r: Vec<PageImage>)
    requires
        plan.image_names@.len() == page.images@.len(),
    ensures
        views(r@) == placed_images(plan@.image_names, page@.images),
{
    let ghost want = placed_images(plan@.image_names, page@.images);
    let mut out: Vec<PageImage> = Vec::new();
    let mut k: usize = 0;
    proof {
        assert(views(out@) =~= want.take(0));
    }
    while k < page.images.len()
        invariant
            plan.image_names@.len() == page.images@.len(),
            want == placed_images(plan@.image_names, page@.images),
            k <= page.images@.len(),
            views(out@) == want.take(k as int),
        decreases page.images@.len() - k,
    {
        let image = PageImage {
            filename: plan.image_names[k].clone(),
            png_bytes: copy_bytes(page.images[k].png_bytes.as_slice()),
            x: page.images[k].x,
            y: page.images[k].y,
            w: page.images[k].w,
            h: page.images[k].h,
        };
        proof {
            lemma_views_push(out@, image);
            assert(want.take(k + 1) =~= want.take(k as int).push(want[k as int]));
        }
        out.push(image);
        k += 1;
    }
    proof {
        assert(want.take(k as int) =~= want);
    }
    out
}

fn layer_text() -> (r: String)
    ensures
        r@ == layer_json(),
{
    "{\n  \"layers\": [\n    {\n      \"name\": \"Layer 1\"\n    }\n  ]\n}".to_owned()
}

/// Assembles a bundle from its options, the plans of its pages, their stroke
/// files, and two readings of the clock.
pub fn assemble_bundle(
    opts: &BundleOptions,
    plans: &Vec<PagePlan>,
    rm_pages: &Vec<Vec<u8>>,
    now: i64,
    keyboard_ms: i64,
) -> (r: Bundle)
    requires
        opts.pages@.len() <= MAX_PAGES,
        plans_fit(plans@, opts.pages@),
        rm_pages@.len() == opts.pages@.len(),
    ensures
        r@ == bundle_of(*opts, views(plans@), rm_pages@, now as int, keyboard_ms as int),
{
    let ghost pv = views(plans@);
    let ghost want = bundle_pages(opts.pages@, pv, rm_pages@);
    let mut now_ms = String::new();
    push_signed_decimal(&mut now_ms, now);
    proof {
        assert(now_ms@ =~= signed_decimal(now as int));
    }
    let mut pages: Vec<BundlePage> = Vec::new();
    let mut size: u128 = 0;
    let layer = layer_text();
    let layer_len: usize = layer.as_str().as_bytes().len();
    let mut i: usize = 0;
    proof {
        assert(views(pages@) =~= want.take(0));
    }
    while i < opts.pages.len()
        invariant
            opts.pages@.len() <= MAX_PAGES,
            plans_fit(plans@, opts.pages@),
            rm_pages@.len() == opts.pages@.len(),
            pv == views(plans@),
            want == bundle_pages(opts.pages@, pv, rm_pages@),
            layer@ == layer_json(),
            layer_len == encode_utf8(layer_json()).len(),
            i <= opts.pages@.len(),
            views(pages@) == want.take(i as int),
            size == pages_size(rm_pages@, i as nat),
            size <= i * 0x2_0000_0000_0000_0000,
        decreases opts.pages@.len() - i,
    {
        let images = named_images_of(&plans[i].image_names, &opts.pages[i].images);
        let rm_len: usize = rm_pages[i].len();
        let page = BundlePage {
            uuid: plans[i].uuid.clone(),
            metadata_json: layer.clone(),
            rm_bytes: copy_bytes(rm_pages[i].as_slice()),
            images,
        };
        proof {
            assert(pv[i as int] == plans@[i as int]@);
            assert(page@ == want[i as int]);
            lemma_views_push(pages@, page);
            assert(want.take(i + 1) =~= want.take(i as int).push(want[i as int]));
        }
        pages.push(page);
        size = size + rm_len as u128 + layer_len as u128;
        i += 1;
    }
    proof {
        assert(want.take(i as int) =~= want);
        assert(pv.len() == opts.pages@.len());
    }
    Bundle {
        doc_uuid: opts.doc_uuid.clone(),
        metadata_json: metadata_of(
            opts.visible_name.as_str(),
            opts.parent.as_str(),
            now_ms.as_str(),
        ),
        content_json: content_of(opts, now_ms.as_str(), keyboard_ms, size, plans),
        pagedata: pagedata_of(opts.page_template.as_str(), opts.pages.len()),
        pages,
    }
}

impl Bundle {
    /// Builds a bundle from its options, the plans of its pages and their
    /// stroke files, at the current time.
    pub fn build(opts: &BundleOptions, plans: &Vec<PagePlan>, rm_pages: &Vec<Vec<u8>>) -> (r: Result<
        Self,
    >)
        requires
            opts.pages@.len() <= MAX_PAGES,
            plans_fit(plans@, opts.pages@),
            rm_pages@.len() == opts.pages@.len(),
        ensures
            r matches Ok(b) && exists|now: i64, keyboard_ms: i64|
                b@ == #[trigger] bundle_of(
                    *opts,
                    views(plans@),
                    rm_pages@,
                    now as int,
                    keyboard_ms as int,
                ),
    {
        let now: i64 = now_millis();
        let keyboard_ms: i64 = now_millis();
        Ok(assemble_bundle(opts, plans, rm_pages, now, keyboard_ms))
    }

    /// The same bundle with a ready-made stroke file on its first page.
    pub fn with_first_page(self, rm_bytes: Vec<u8>) -> (r: Self)
        ensures
            r.doc_uuid == self.doc_uuid,
            r.metadata_json == self.metadata_json,
            r.content_json == self.content_json,
            r.pagedata == self.pagedata,
            r.pages@ == (if self.pages@.len() > 0 {
                self.pages@.update(0, (BundlePage { rm_bytes, ..self.pages@[0] }))
            } else {
                self.pages@
            }),
    {
        let Bundle { doc_uuid, metadata_json, content_json, pagedata, pages } = self;
        let mut pages = pages;
        if pages.len() > 0 {
            let first = pages.remove(0);
            pages.insert(0, BundlePage { rm_bytes, ..first });
            proof {
                assert(pages@ =~= self.pages@.update(
                    0,
                    (BundlePage { rm_bytes, ..self.pages@[0] }),
                ));
            }
        }
        Bundle { doc_uuid, metadata_json, content_json, pagedata, pages }
    }
}

// ---------------------------------------------------------------------------
// The layout on disk
// ---------------------------------------------------------------------------

/// Where the files of a page go, relative to the directory of the bundle.
#[derive(Debug)]
pub struct PagePaths {
    pub rm: String,
    /// Per-image paths under `<doc>/<page>/`.
    pub images: Vec<String>,
    pub metadata: String,
}

/// The mathematical value of [`PagePaths`].
pub struct PagePathsView {
    pub rm: Seq<char>,
    pub images: Seq<Seq<char>>,
    pub metadata: Seq<char>,
}

impl View for PagePaths {
    type V = PagePathsView;

    open spec fn view(&self) -> PagePathsView {
        PagePathsView { rm: self.rm@, images: views(self.images@), metadata: self.metadata@ }
    }
}

/// Where the files of a bundle go, relative to one directory.
#[derive(Debug)]
pub struct BundlePaths {
    pub metadata: String,
    pub content: String,
    pub pagedata: String,
    pub pages_dir: String,
    pub pages: Vec<PagePaths>,
}

/// The path of the stroke file of a page.
pub open spec fn rm_path(doc: Seq<char>, page: Seq<char>) -> Seq<char> {
    doc + "/"@ + page + ".rm"@
}

/// The path of the metadata of a page.
pub open spec fn page_metadata_path(doc: Seq<char>, page: Seq<char>) -> Seq<char> {
    doc + "/"@ + page + "-metadata.json"@
}

/// The path of an image of a page.
pub open spec fn image_path(doc: Seq<char>, page: Seq<char>, file: Seq<char>) -> Seq<char> {
    doc + "/"@ + page + "/"@ + file
}

/// Where the files of a page go.
pub open spec fn page_paths(doc: Seq<char>, page: BundlePageView) -> PagePathsView {
    PagePathsView {
        rm: rm_path(doc, page.uuid),
        images: Seq::new(
            page.images.len(),
            |k: int| image_path(doc, page.uuid, page.images[k].filename),
        ),
        metadata: page_metadata_path(doc, page.uuid),
    }
}

/// The path of the stroke file of a page.
pub(crate) fn rm_path_of(doc: &str, page: &str) -> (r: String)
    ensures
        r@ == rm_path(doc@, page@),
{
    let mut t = doc.to_owned();
    t.push_str("/");
    t.push_str(page);
    t.push_str(".rm");
    t
}

/// The path of the metadata of a page.
pub(crate) fn page_metadata_path_of(doc: &str, page: &str) -> (r: String)
    ensures
        r@ == page_metadata_path(doc@, page@),
{
    let mut t = doc.to_owned();
    t.push_str("/");
    t.push_str(page);
    t.push_str("-metadata.json");
    t
}

/// The path of an image of a page.
pub(crate) fn image_path_of(doc: &str, page: &str, file: &str) -> (r: String)
    ensures
        r@ == image_path(doc@, page@, file@),
{
    let mut t = doc.to_owned();
    t.push_str("/");
    t.push_str(page);
    t.push_str("/");
    t.push_str(file);
    t
}

fn page_paths_of(doc: &str, page: &BundlePage) -> (r: PagePaths)
    ensures
        r@ == page_paths(doc@, page@),
{
    let ghost want = page_paths(doc@, page@).images;
    let mut images: Vec<String> = Vec::new();
    let mut k: usize = 0;
    proof {
        assert(views(images@) =~= want.take(0));
    }
    while k < page.images.len()
        invariant
            want == page_paths(doc@, page@).images,
            k <= page.images@.len(),
            views(images@) == want.take(k as int),
        decreases page.images@.len() - k,
    {
        let p = image_path_of(doc, page.uuid.as_str(), page.images[k].filename.as_str());
        proof {
            assert(page@.images[k as int] == page.images@[k as int]@);
            lemma_views_push(images@, p);
            assert(want.take(k + 1) =~= want.take(k as int).push(want[k as int]));
        }
        images.push(p);
        k += 1;
    }
    proof {
        assert(want.take(k as int) =~= want);
    }
    PagePaths {
        rm: rm_path_of(doc, page.uuid.as_str()),
        images,
        metadata: page_metadata_path_of(doc, page.uuid.as_str()),
    }
}

fn with_suffix(doc: &str, suffix: &str) -> (r: String)
    ensures
        r@ == doc@ + suffix@,
{
    let mut t = doc.to_owned();
    t.push_str(suffix);
    t
}

impl Bundle {
    /// Where the files of the bundle go, relative to one directory.
    pub fn layout(&self) -> (r: BundlePaths)
        ensures
            r.metadata@ == self.doc_uuid@ + ".metadata"@,
            r.content@ == self.doc_uuid@ + ".content"@,
            r.pagedata@ == self.doc_uuid@ + ".pagedata"@,
            r.pages_dir@ == self.doc_uuid@,
            views(r.pages@) == Seq::new(
                self.pages@.len(),
                |i: int| page_paths(self.doc_uuid@, self.pages@[i]@),
            ),
    {
        let ghost want = Seq::new(
            self.pages@.len(),
            |i: int| page_paths(self.doc_uuid@, self.pages@[i]@),
        );
        let doc = self.doc_uuid.as_str();
        let mut pages: Vec<PagePaths> = Vec::new();
        let mut i: usize = 0;
        proof {
            assert(views(pages@) =~= want.take(0));
        }
        while i < self.pages.len()
            invariant
                doc@ == self.doc_uuid@,
                want == Seq::new(
                    self.pages@.len(),
                    |k: int| page_paths(self.doc_uuid@, self.pages@[k]@),
                ),
                i <= self.pages@.len(),
                views(pages@) == want.take(i as int),
            decreases self.pages@.len() - i,
        {
            let p = page_paths_of(doc, &self.pages[i]);
            proof {
                lemma_views_push(pages@, p);
                assert(want.take(i + 1) =~= want.take(i as int).push(want[i as int]));
            }
            pages.push(p);
            i += 1;
        }
        proof {
            assert(want.take(i as int) =~= want);
        }
        BundlePaths {
            metadata: with_suffix(doc, ".metadata"),
            content: with_suffix(doc, ".content"),
            pagedata: with_suffix(doc, ".pagedata"),
            pages_dir: self.doc_uuid.clone(),
            pages,
        }
    }
}

// ---------------------------------------------------------------------------
// Laws
// ---------------------------------------------------------------------------

/// The sort labels of pages are in the order of the pages.
pub proof fn law_page_labels_ascend(i: nat, j: nat)
    requires
        i < j,
        j < MAX_PAGES,
    ensures
        lex_lt(idx_label(i), idx_label(j)),
{
    let a = idx_label(i);
    let b = idx_label(j);
    assert(a.skip(1) =~= seq![a[1]]);
    assert(b.skip(1) =~= seq![b[1]]);
    reveal_with_fuel(lex_lt, 3);
    assert(i / 26 <= j / 26 <= 24);
    if i / 26 == j / 26 {
        assert(i % 26 < j % 26);
    }
}

} // verus!
