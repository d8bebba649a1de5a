//! Assembly of a complete v6 page.
//!
//! A typed-text page is a sequence of about a dozen blocks; only the typed text
//! varies meaningfully between an empty page and one worth shipping. The scene
//! tree, tree node and group blocks around it describe the state of the layer
//! tree, which is uniform across single-layer pages and stands here as raw
//! bytes.

use vstd::prelude::*;

use crate::events::{md_events, FOOTNOTES};
use crate::ids::{is_random_uuid, new_uuid};
use crate::text::{copy_bytes, views};
use crate::v6::blocks::{
    AuthorIdsBlock, Block, MigrationInfoBlock, PageInfoBlock, RootTextBlock, RootTextView,
    SceneInfoBlock, TextItemValue, TextItemView, TextValueView,
};
use crate::v6::markdown::{markdown_to_root_text_for, paragraphs, root_text_of};
use crate::v6::stream::{CrdtId, LwwValue};

verus! {

/// Where the skeleton bytes came from.
pub const SKELETON_PROVENANCE: &'static str = "skeleton bytes from Normal_AB.rm (MIT-licensed), version+extra_data corrections captured from a fresh Paper Pro native notebook";

/// Paper Pro drawable surface in device units.
pub const PAPER_PRO_WIDTH: u32 = 1620;

pub const PAPER_PRO_HEIGHT: u32 = 2160;

/// Where the typed-text frame starts, in device units from the top of the
/// page. Table images are anchored to the same value, so the two cannot drift
/// apart.
pub const TEXT_TOP: i64 = 120;

/// reMarkable device model. Each model has its own drawable surface and
/// default text-frame layout.
#[derive(Debug, Clone, Copy, PartialEq, Eq, Structural)]
pub enum Device {
    /// reMarkable Paper Pro (10.5" color). 1620 × 2160 drawable area.
    PaperPro,
    /// reMarkable Paper Pro Move (8" color). 954 × 1696 drawable area.
    PaperProMove,
    /// reMarkable 2 (10.3"). 1404 × 1872 drawable area.
    Rm2,
}

impl Default for Device {
    fn default() -> (r: Self)
        ensures
            r == Device::PaperPro,
    {
        Device::PaperPro
    }
}

impl Device {
    /// `(width, height)` in device units.
    pub open spec fn surface(self) -> (u32, u32) {
        match self {
            Device::PaperPro => (1620, 2160),
            Device::PaperProMove => (954, 1696),
            Device::Rm2 => (1404, 1872),
        }
    }

    /// `(pos_x, pos_y, width)` of the typed-text frame, in hundredths of a
    /// device unit: centred, 58 % of the width, at [`TEXT_TOP`].
    pub open spec fn frame(self) -> (int, int, int) {
        let w = self.surface().0 as int * 58;
        (-(w / 2), TEXT_TOP * 100, w)
    }

    /// `(width, height)` in device units.
    pub fn dimensions(self) -> (r: (u32, u32))
        ensures
            r == self.surface(),
    {
        match self {
            Device::PaperPro => (1620, 2160),
            Device::PaperProMove => (954, 1696),
            Device::Rm2 => (1404, 1872),
        }
    }

    /// `(pos_x, pos_y, width)` defaults for a typed-text frame on this device,
    /// in hundredths of a device unit. The frame is centred horizontally at 58
    /// % of the drawable width, leaving comfortable margins on both sides.
    pub fn text_frame(self) -> (r: (i64, i64, i64))
        ensures
            (r.0 as int, r.1 as int, r.2 as int) == self.frame(),
    {
        let (w, _h) = self.dimensions();
        let text_w: i64 = w as i64 * 58;
        (-(text_w / 2), TEXT_TOP * 100, text_w)
    }

    /// Max width to use when embedding raster images on this device, in
    /// hundredths of a device unit: 55 % of the drawable width.
    pub fn max_image_width(self) -> (r: i64)
        ensures
            r == self.surface().0 * 55,
    {
        let (w, _h) = self.dimensions();
        w as i64 * 55
    }
}

// ---------------------------------------------------------------------------
// Skeleton bytes
// ---------------------------------------------------------------------------

/// Payload of the scene-tree block that adds the root group to the tree.
pub open spec fn scene_tree_root_bytes() -> Seq<u8> {
    seq![
        0x1Fu8, 0x00u8, 0x0Bu8, 0x2Fu8, 0x00u8, 0x00u8, 0x31u8, 0x01u8, 0x4Cu8, 0x03u8, 0x00u8, 0x00u8,
        0x00u8, 0x1Fu8, 0x00u8, 0x01u8,
    ]
}

fn scene_tree_root() -> (r: Vec<u8>)
    ensures
        r@ == scene_tree_root_bytes(),
{
    let a: [u8; 16] = [
        0x1F, 0x00, 0x0B, 0x2F, 0x00, 0x00, 0x31, 0x01, 0x4C, 0x03, 0x00, 0x00,
        0x00, 0x1F, 0x00, 0x01,
    ];
    proof {
        assert(a@ =~= scene_tree_root_bytes());
    }
    copy_bytes(a.as_slice())
}

/// Payload of the first tree node.
pub open spec fn tree_node_root_bytes() -> Seq<u8> {
    seq![
        0x1Fu8, 0x00u8, 0x01u8, 0x2Cu8, 0x0Au8, 0x00u8, 0x00u8, 0x00u8, 0x1Fu8, 0x00u8, 0x00u8, 0x2Cu8,
        0x02u8, 0x00u8, 0x00u8, 0x00u8, 0x00u8, 0x01u8, 0x3Cu8, 0x05u8, 0x00u8, 0x00u8, 0x00u8, 0x1Fu8,
        0x00u8, 0x00u8, 0x21u8, 0x01u8,
    ]
}

fn tree_node_root() -> (r: Vec<u8>)
    ensures
        r@ == tree_node_root_bytes(),
{
    let a: [u8; 28] = [
        0x1F, 0x00, 0x01, 0x2C, 0x0A, 0x00, 0x00, 0x00, 0x1F, 0x00, 0x00, 0x2C,
        0x02, 0x00, 0x00, 0x00, 0x00, 0x01, 0x3C, 0x05, 0x00, 0x00, 0x00, 0x1F,
        0x00, 0x00, 0x21, 0x01,
    ];
    proof {
        assert(a@ =~= tree_node_root_bytes());
    }
    copy_bytes(a.as_slice())
}

/// Payload of the tree node named "Layer 1".
pub open spec fn tree_node_layer_bytes() -> Seq<u8> {
    seq![
        0x1Fu8, 0x00u8, 0x0Bu8, 0x2Cu8, 0x11u8, 0x00u8, 0x00u8, 0x00u8, 0x1Fu8, 0x00u8, 0x0Cu8, 0x2Cu8,
        0x09u8, 0x00u8, 0x00u8, 0x00u8, 0x07u8, 0x01u8, 0x4Cu8, 0x61u8, 0x79u8, 0x65u8, 0x72u8, 0x20u8,
        0x31u8, 0x3Cu8, 0x05u8, 0x00u8, 0x00u8, 0x00u8, 0x1Fu8, 0x00u8, 0x00u8, 0x21u8, 0x01u8,
    ]
}

fn tree_node_layer() -> (r: Vec<u8>)
    ensures
        r@ == tree_node_layer_bytes(),
{
    let a: [u8; 35] = [
        0x1F, 0x00, 0x0B, 0x2C, 0x11, 0x00, 0x00, 0x00, 0x1F, 0x00, 0x0C, 0x2C,
        0x09, 0x00, 0x00, 0x00, 0x07, 0x01, 0x4C, 0x61, 0x79, 0x65, 0x72, 0x20,
        0x31, 0x3C, 0x05, 0x00, 0x00, 0x00, 0x1F, 0x00, 0x00, 0x21, 0x01,
    ];
    proof {
        assert(a@ =~= tree_node_layer_bytes());
    }
    copy_bytes(a.as_slice())
}

/// Payload of the group entry of "Layer 1".
pub open spec fn scene_group_layer_bytes() -> Seq<u8> {
    seq![
        0x1Fu8, 0x00u8, 0x01u8, 0x2Fu8, 0x00u8, 0x0Du8, 0x3Fu8, 0x00u8, 0x00u8, 0x4Fu8, 0x00u8, 0x00u8,
        0x54u8, 0x00u8, 0x00u8, 0x00u8, 0x00u8, 0x6Cu8, 0x04u8, 0x00u8, 0x00u8, 0x00u8, 0x02u8, 0x2Fu8,
        0x00u8, 0x0Bu8,
    ]
}

fn scene_group_layer() -> (r: Vec<u8>)
    ensures
        r@ == scene_group_layer_bytes(),
{
    let a: [u8; 26] = [
        0x1F, 0x00, 0x01, 0x2F, 0x00, 0x0D, 0x3F, 0x00, 0x00, 0x4F, 0x00, 0x00,
        0x54, 0x00, 0x00, 0x00, 0x00, 0x6C, 0x04, 0x00, 0x00, 0x00, 0x02, 0x2F,
        0x00, 0x0B,
    ];
    proof {
        assert(a@ =~= scene_group_layer_bytes());
    }
    copy_bytes(a.as_slice())
}

/// Trailing fields of the scene info: the page-bounds geometry the device
/// requires before it will render a page, for the 1620 × 2160 surface.
pub open spec fn scene_info_extra_bytes() -> Seq<u8> {
    seq![
        0x6Cu8, 0x28u8, 0x00u8, 0x00u8, 0x00u8, 0x1Fu8, 0x00u8, 0x00u8, 0x2Cu8, 0x20u8, 0x00u8, 0x00u8,
        0x00u8, 0x00u8, 0x00u8, 0x00u8, 0x00u8, 0x00u8, 0x00u8, 0x00u8, 0x00u8, 0x00u8, 0x00u8, 0x00u8,
        0x00u8, 0x00u8, 0x00u8, 0x00u8, 0x00u8, 0x00u8, 0x00u8, 0x00u8, 0x00u8, 0x00u8, 0x00u8, 0x00u8,
        0x00u8, 0x00u8, 0x00u8, 0x00u8, 0x00u8, 0x00u8, 0x00u8, 0x00u8, 0x00u8, 0x7Cu8, 0x10u8, 0x00u8,
        0x00u8, 0x00u8, 0x00u8, 0x00u8, 0x00u8, 0x00u8, 0x00u8, 0x50u8, 0x99u8, 0x40u8, 0x00u8, 0x00u8,
        0x00u8, 0x00u8, 0x00u8, 0xE0u8, 0xA0u8, 0x40u8, 0x8Cu8, 0x01u8, 0x18u8, 0x00u8, 0x00u8, 0x00u8,
        0x1Fu8, 0x01u8, 0x0Fu8, 0x2Cu8, 0x10u8, 0x00u8, 0x00u8, 0x00u8, 0x00u8, 0x00u8, 0x00u8, 0x00u8,
        0x00u8, 0x50u8, 0x99u8, 0x40u8, 0x00u8, 0x00u8, 0x00u8, 0x00u8, 0x00u8, 0xE0u8, 0xA0u8, 0x40u8,
        0x9Cu8, 0x01u8, 0x0Au8, 0x00u8, 0x00u8, 0x00u8, 0x1Fu8, 0x01u8, 0x9Bu8, 0x11u8, 0x2Cu8, 0x01u8,
        0x00u8, 0x00u8, 0x00u8, 0x00u8,
    ]
}

fn scene_info_extra() -> (r: Vec<u8>)
    ensures
        r@ == scene_info_extra_bytes(),
{
    let a: [u8; 112] = [
        0x6C, 0x28, 0x00, 0x00, 0x00, 0x1F, 0x00, 0x00, 0x2C, 0x20, 0x00, 0x00,
        0x00, 0x00, 0x00, 0x00, 0x00, 0x00, 0x00, 0x00, 0x00, 0x00, 0x00, 0x00,
        0x00, 0x00, 0x00, 0x00, 0x00, 0x00, 0x00, 0x00, 0x00, 0x00, 0x00, 0x00,
        0x00, 0x00, 0x00, 0x00, 0x00, 0x00, 0x00, 0x00, 0x00, 0x7C, 0x10, 0x00,
        0x00, 0x00, 0x00, 0x00, 0x00, 0x00, 0x00, 0x50, 0x99, 0x40, 0x00, 0x00,
        0x00, 0x00, 0x00, 0xE0, 0xA0, 0x40, 0x8C, 0x01, 0x18, 0x00, 0x00, 0x00,
        0x1F, 0x01, 0x0F, 0x2C, 0x10, 0x00, 0x00, 0x00, 0x00, 0x00, 0x00, 0x00,
        0x00, 0x50, 0x99, 0x40, 0x00, 0x00, 0x00, 0x00, 0x00, 0xE0, 0xA0, 0x40,
        0x9C, 0x01, 0x0A, 0x00, 0x00, 0x00, 0x1F, 0x01, 0x9B, 0x11, 0x2C, 0x01,
        0x00, 0x00, 0x00, 0x00,
    ];
    proof {
        assert(a@ =~= scene_info_extra_bytes());
    }
    copy_bytes(a.as_slice())
}

// ---------------------------------------------------------------------------
// Pages
// ---------------------------------------------------------------------------

/// Page-build options.
#[derive(Debug)]
pub struct PageOptions {
    /// UUID stamped on the author block. Generate once per notebook bundle,
    /// reuse for all pages in that bundle.
    pub author_uuid: String,
    /// Target device model.
    pub device: Device,
}

impl Default for PageOptions {
    /// A fresh random author and the default device.
    fn default() -> (r: Self)
        ensures
            is_random_uuid(r.author_uuid@),
            r.device == Device::PaperPro,
    {
        PageOptions { author_uuid: new_uuid(), device: Device::PaperPro }
    }
}

/// The visible characters of text items, capped at the largest counter value.
pub open spec fn visible_chars(items: Seq<TextItemView>) -> int
    decreases items.len(),
{
    if items.len() == 0 {
        0
    } else {
        let before = visible_chars(items.drop_last());
        match items.last().value {
            TextValueView::Run(s) => {
                let n = before + s.len() % 0x1_0000_0000;
                if n > u32::MAX {
                    u32::MAX as int
                } else {
                    n
                }
            },
            TextValueView::Format(_) => before,
        }
    }
}

/// The paragraphs of a text with this many style entries: at least one.
pub open spec fn paragraph_lines(styles: nat) -> int {
    if styles == 0 {
        1
    } else if styles > u32::MAX {
        u32::MAX as int
    } else {
        styles as int
    }
}

/// Counts characters and paragraphs of a typed text. The device shows them in
/// its document list.
pub fn count_chars_and_lines(rt: &RootTextBlock) -> (r: (u32, u32))
    ensures
        r.0 == visible_chars(rt@.items),
        r.1 == paragraph_lines(rt.styles@.len()),
{
    let ghost items = views(rt.items@);
    let mut chars: u32 = 0;
    let mut i: usize = 0;
    while i < rt.items.len()
        invariant
            items == views(rt.items@),
            i <= rt.items@.len(),
            chars == visible_chars(items.take(i as int)),
        decreases rt.items@.len() - i,
    {
        proof {
            assert(items.take(i + 1).drop_last() =~= items.take(i as int));
            assert(items.take(i + 1).last() == rt.items@[i as int]@);
        }
        match &rt.items[i].value {
            TextItemValue::Run(s) => {
                let n: u32 = (s.as_str().unicode_len() as u64 % 0x1_0000_0000) as u32;
                chars = if n > u32::MAX - chars {
                    u32::MAX
                } else {
                    chars + n
                };
            },
            TextItemValue::Format(_) => {},
        }
        i += 1;
    }
    proof {
        assert(items.take(i as int) =~= items);
    }
    let n: u64 = rt.styles.len() as u64;
    let lines: u32 = if n == 0 {
        1
    } else if n > u32::MAX as u64 {
        u32::MAX
    } else {
        n as u32
    };
    (chars, lines)
}

/// Whether a block is these raw bytes.
pub open spec fn raw_block(b: Block, code: u8, current: u8, bytes: Seq<u8>) -> bool {
    b matches Block::Raw { block_type, min_version, current_version, payload } && block_type
        == code && min_version == 1 && current_version == current && payload@ == bytes
}

/// A value that nobody has written.
pub open spec fn unwritten<T>(value: T) -> LwwValue<T> {
    LwwValue { timestamp: CrdtId { part1: 0, part2: 0 }, value }
}

/// Whether `blocks` is the page with this typed text: author, migration, page
/// info, scene info, scene tree, typed text, two tree nodes and the layer's
/// group.
pub open spec fn is_page(
    blocks: Seq<Block>,
    text: RootTextView,
    author: Seq<char>,
    device: Device,
) -> bool {
    &&& blocks.len() == 9
    &&& blocks[0] matches Block::AuthorIds(b) && b.min_version == 1 && b.current_version == 1
        && b.authors@.len() == 1 && b.authors@[0].0 == 1 && b.authors@[0].1@ == author
        && b.extra_data@.len() == 0
    &&& blocks[1] matches Block::Migration(b) && b.min_version == 1 && b.current_version == 1
        && b.migration_id == (CrdtId { part1: 1, part2: 1 }) && !b.is_device && b.unknown == Some(
        false,
    ) && b.extra_data@.len() == 0
    &&& blocks[2] matches Block::PageInfo(b) && b.min_version == 0 && b.current_version == 1
        && b.loads_count == 1 && b.merges_count == 0 && b.text_chars_count == visible_chars(
        text.items,
    ) && b.text_lines_count == paragraph_lines(text.styles.len()) && b.type_code == Some(0u32)
        && b.extra_data@.len() == 0
    &&& blocks[3] matches Block::SceneInfo(b) && b.min_version == 0 && b.current_version == 1
        && b.current_layer == unwritten(CrdtId { part1: 0, part2: 0 }) && b.background_visible
        == Some(unwritten(true)) && b.root_document_visible == Some(unwritten(true))
        && b.paper_size == Some(device.surface()) && b.extra_data@ == scene_info_extra_bytes()
    &&& raw_block(blocks[4], 0x01, 1, scene_tree_root_bytes())
    &&& blocks[5] matches Block::RootText(b) && b@ == text
    &&& raw_block(blocks[6], 0x02, 2, tree_node_root_bytes())
    &&& raw_block(blocks[7], 0x02, 2, tree_node_layer_bytes())
    &&& raw_block(blocks[8], 0x04, 1, scene_group_layer_bytes())
}

fn raw(block_type: u8, current_version: u8, payload: Vec<u8>) -> (r: Block)
    ensures
        raw_block(r, block_type, current_version, payload@),
{
    Block::Raw { block_type, min_version: 1, current_version, payload }
}

/// Builds a page around a typed text.
pub fn page_of(root_text: RootTextBlock, opts: &PageOptions) -> (r: Vec<Block>)
    ensures
        is_page(r@, root_text@, opts.author_uuid@, opts.device),
{
    let (text_chars, text_lines) = count_chars_and_lines(&root_text);
    let mut authors: Vec<(u16, String)> = Vec::new();
    authors.push((1, opts.author_uuid.clone()));
    let visible = LwwValue { timestamp: CrdtId::zero(), value: true };
    let mut out: Vec<Block> = Vec::new();
    out.push(
        Block::AuthorIds(
            AuthorIdsBlock {
                min_version: 1,
                current_version: 1,
                authors,
                extra_data: Vec::new(),
            },
        ),
    );
    out.push(
        Block::Migration(
            MigrationInfoBlock {
                min_version: 1,
                current_version: 1,
                migration_id: CrdtId { part1: 1, part2: 1 },
                is_device: false,
                unknown: Some(false),
                extra_data: Vec::new(),
            },
        ),
    );
    out.push(
        Block::PageInfo(
            PageInfoBlock {
                min_version: 0,
                current_version: 1,
                loads_count: 1,
                merges_count: 0,
                text_chars_count: text_chars,
                text_lines_count: text_lines,
                type_code: Some(0),
                extra_data: Vec::new(),
            },
        ),
    );
    out.push(
        Block::SceneInfo(
            SceneInfoBlock {
                min_version: 0,
                current_version: 1,
                current_layer: LwwValue { timestamp: CrdtId::zero(), value: CrdtId::zero() },
                background_visible: Some(visible),
                root_document_visible: Some(
                    LwwValue { timestamp: CrdtId::zero(), value: true },
                ),
                paper_size: Some(opts.device.dimensions()),
                extra_data: scene_info_extra(),
            },
        ),
    );
    out.push(raw(0x01, 1, scene_tree_root()));
    out.push(Block::RootText(root_text));
    out.push(raw(0x02, 2, tree_node_root()));
    out.push(raw(0x02, 2, tree_node_layer()));
    out.push(raw(0x04, 1, scene_group_layer()));
    out
}

/// Builds a typed-text page with no images.
pub fn build_page(md: &str, opts: &PageOptions) -> (r: Vec<Block>)
    ensures
        is_page(
            r@,
            root_text_of(paragraphs(md_events(md@, FOOTNOTES)), opts.device),
            opts.author_uuid@,
            opts.device,
        ),
{
    page_of(markdown_to_root_text_for(md, opts.device), opts)
}

// ---------------------------------------------------------------------------
// Images
// ---------------------------------------------------------------------------

/// The slots that one image takes in the id space of a page.
pub const PER_IMAGE_ID_SPAN: u64 = 13;

/// The blocks that embed images on a page.
#[derive(Debug)]
pub struct ImagePack {
    pub registry: Block,
    pub scene_trees: Vec<Block>,
    pub tree_nodes: Vec<Block>,
    pub scene_group_items: Vec<Block>,
    pub image_items: Vec<Block>,
}

/// An image to embed on a page under its file name. Coordinates are in
/// thousandths of a device unit; the origin is the middle of the top of the
/// page.
#[derive(Debug)]
pub struct PageImage {
    /// The PNG file name used inside the bundle (`<uuid>.png`).
    pub filename: String,
    pub png_bytes: Vec<u8>,
    pub x: i128,
    pub y: i128,
    pub w: i128,
    pub h: i128,
}

/// The mathematical value of a [`PageImage`].
pub struct PageImageView {
    pub filename: Seq<char>,
    pub png_bytes: Seq<u8>,
    pub x: int,
    pub y: int,
    pub w: int,
    pub h: int,
}

impl View for PageImage {
    type V = PageImageView;

    open spec fn view(&self) -> PageImageView {
        PageImageView {
            filename: self.filename@,
            png_bytes: self.png_bytes@,
            x: self.x as int,
            y: self.y as int,
            w: self.w as int,
            h: self.h as int,
        }
    }
}

/// Upper bound on how many id slots the text of a page uses.
pub fn approximate_text_chars(md: &str) -> (r: u64)
    ensures
        r == md@.len(),
{
    md.unicode_len() as u64
}

/// The first id slot for `images` images on a page with this many characters:
/// past the text with room to spare, and low enough that every image's span
/// fits.
pub open spec fn id_base(chars: nat, images: nat) -> int {
    let wanted: int = if 16 + chars + 100 < 1000 {
        1000
    } else {
        16 + chars as int + 100
    };
    let limit = u64::MAX - images * PER_IMAGE_ID_SPAN;
    if wanted < limit {
        wanted
    } else {
        limit
    }
}

/// The first id slot for the images of a page.
pub fn image_id_base(md: &str, images: usize) -> (r: u64)
    requires
        images * PER_IMAGE_ID_SPAN <= u64::MAX,
    ensures
        r == id_base(md@.len(), images as nat),
{
    let chars: u128 = approximate_text_chars(md) as u128;
    let wanted: u128 = if 16 + chars + 100 < 1000 {
        1000
    } else {
        16 + chars + 100
    };
    let limit: u128 = u64::MAX as u128 - images as u128 * 13;
    if wanted < limit {
        wanted as u64
    } else {
        limit as u64
    }
}

/// The blocks of a page with images in the order the device writes: the
/// registry behind the scene info, the images' scene trees behind the layer's,
/// their tree nodes behind the layer's, their group items behind the layer's
/// group, and the image items last.
pub open spec fn with_images(page: Seq<Block>, pack: ImagePack) -> Seq<Block> {
    page.take(4) + seq![pack.registry] + page.subrange(4, 5) + pack.scene_trees@ + page.subrange(
        5,
        8,
    ) + pack.tree_nodes@ + page.skip(8) + pack.scene_group_items@ + pack.image_items@
}

/// Puts the blocks of images into a page.
pub fn splice_images(page: Vec<Block>, pack: ImagePack) -> (r: Vec<Block>)
    requires
        page@.len() == 9,
    ensures
        r@ == with_images(page@, pack),
{
    let ghost p = page@;
    let ghost k = pack;
    let mut out = page;
    let mut group = out.split_off(8);
    let mut text = out.split_off(5);
    let mut tree = out.split_off(4);
    let ImagePack { registry, scene_trees, tree_nodes, scene_group_items, image_items } = pack;
    let mut scene_trees = scene_trees;
    let mut tree_nodes = tree_nodes;
    let mut scene_group_items = scene_group_items;
    let mut image_items = image_items;
    out.push(registry);
    out.append(&mut tree);
    out.append(&mut scene_trees);
    out.append(&mut text);
    out.append(&mut tree_nodes);
    out.append(&mut group);
    out.append(&mut scene_group_items);
    out.append(&mut image_items);
    proof {
        assert(out@ =~= with_images(p, k));
    }
    out
}

/// The blocks of a page, with those of its images where it has any.
pub open spec fn illustrated(page: Seq<Block>, pack: Option<ImagePack>) -> Seq<Block> {
    match pack {
        Some(k) if k.image_items@.len() > 0 => with_images(page, k),
        _ => page,
    }
}

/// Builds a page, with the blocks of its images where it has any.
pub fn build_page_with_images(md: &str, opts: &PageOptions, pack: Option<ImagePack>) -> (r: Vec<
    Block,
>)
    ensures
        ({
            let text = root_text_of(paragraphs(md_events(md@, FOOTNOTES)), opts.device);
            exists|page: Seq<Block>|
                #[trigger]
                is_page(page, text, opts.author_uuid@, opts.device) && r@ == illustrated(page, pack)
        }),
{
    let page = build_page(md, opts);
    match pack {
        Some(k) => if k.image_items.len() > 0 {
            splice_images(page, k)
        } else {
            page
        },
        None => page,
    }
}

/// The type codes of the blocks.
pub open spec fn codes(blocks: Seq<Block>) -> Seq<u8> {
    Seq::new(blocks.len(), |i: int| blocks[i].code())
}

/// A page is nine blocks in the canonical order.
pub proof fn law_page_order(blocks: Seq<Block>, text: RootTextView, author: Seq<char>, device: Device)
    requires
        is_page(blocks, text, author, device),
    ensures
        codes(blocks) == seq![0x09u8, 0x00, 0x0A, 0x0D, 0x01, 0x07, 0x02, 0x02, 0x04],
{
    assert(codes(blocks) =~= seq![0x09u8, 0x00, 0x0A, 0x0D, 0x01, 0x07, 0x02, 0x02, 0x04]);
}

/// Putting images into a page keeps every block of the page, in order, and
/// every block of the images.
pub proof fn law_images_keep_the_page(page: Seq<Block>, pack: ImagePack)
    requires
        page.len() == 9,
    ensures
        ({
            let r = with_images(page, pack);
            let a = 6 + pack.scene_trees@.len() as int;
            let b = a + 3 + pack.tree_nodes@.len();
            &&& r.len() == 10 + pack.scene_trees@.len() + pack.tree_nodes@.len()
                + pack.scene_group_items@.len() + pack.image_items@.len()
            &&& r.take(4) == page.take(4)
            &&& r[4] == pack.registry
            &&& r[5] == page[4]
            &&& r.subrange(6, a) == pack.scene_trees@
            &&& r.subrange(a, a + 3) == page.subrange(5, 8)
            &&& r.subrange(a + 3, b) == pack.tree_nodes@
            &&& r[b] == page[8]
            &&& r.subrange(b + 1, b + 1 + pack.scene_group_items@.len())
                == pack.scene_group_items@
            &&& r.skip(b + 1 + pack.scene_group_items@.len()) == pack.image_items@
        }),
{
    let r = with_images(page, pack);
    let a = 6 + pack.scene_trees@.len() as int;
    let b = a + 3 + pack.tree_nodes@.len();
    assert(r.take(4) =~= page.take(4));
    assert(r.subrange(6, a) =~= pack.scene_trees@);
    assert(r.subrange(a, a + 3) =~= page.subrange(5, 8));
    assert(r.subrange(a + 3, b) =~= pack.tree_nodes@);
    assert(r.subrange(b + 1, b + 1 + pack.scene_group_items@.len()) =~= pack.scene_group_items@);
    assert(r.skip(b + 1 + pack.scene_group_items@.len()) =~= pack.image_items@);
}

/// Whether all blocks have this type code.
pub open spec fn all_coded(blocks: Seq<Block>, code: u8) -> bool {
    forall|i: int| 0 <= i < blocks.len() ==> (#[trigger] blocks[i]).code() == code
}

impl ImagePack {
    /// Whether the pack embeds `n` images: one registry, scene trees, tree
    /// nodes and group items, and an image item for each image.
    pub open spec fn embeds(&self, n: nat) -> bool {
        &&& self.registry.code() == 0x0E
        &&& all_coded(self.scene_trees@, 0x01)
        &&& all_coded(self.tree_nodes@, 0x02)
        &&& all_coded(self.scene_group_items@, 0x04)
        &&& all_coded(self.image_items@, 0x0F)
        &&& self.image_items@.len() == n
    }
}

/// Where the nine blocks of a page stand once the images are in.
pub open spec fn page_positions(pack: ImagePack) -> Seq<int> {
    let a = 6 + pack.scene_trees@.len() as int;
    let b = a + 3 + pack.tree_nodes@.len() as int;
    seq![0int, 1, 2, 3, 5, a, a + 1, a + 2, b]
}

/// A page without images is the plain page. A page with images has the scene
/// info as its fourth block, then the registry, which is the only one of its
/// kind, then a scene tree. Its last blocks, one for each image, are the image
/// items, and no other block is one. The blocks of the plain page are all
/// there, in order.
pub proof fn law_page_with_images(
    page: Seq<Block>,
    text: RootTextView,
    author: Seq<char>,
    device: Device,
    pack: Option<ImagePack>,
    n: nat,
)
    requires
        is_page(page, text, author, device),
        match pack {
            Some(k) => k.embeds(n),
            None => n == 0,
        },
    ensures
        n == 0 ==> illustrated(page, pack) == page,
        n > 0 ==> ({
            let r = illustrated(page, pack);
            let p = page_positions(pack->0);
            &&& r.len() >= 10 + n
            &&& r[3].code() == 0x0D
            &&& r[4].code() == 0x0E
            &&& r[5].code() == 0x01
            &&& forall|i: int|
                0 <= i < r.len() ==> ((#[trigger] r[i]).code() == 0x0E <==> i == 4)
            &&& forall|i: int|
                0 <= i < r.len() ==> ((#[trigger] r[i]).code() == 0x0F <==> i >= r.len() - n)
            &&& forall|i: int, j: int| 0 <= i < j < 9 ==> #[trigger] p[i] < #[trigger] p[j]
            &&& forall|i: int|
                0 <= i < 9 ==> 0 <= (#[trigger] p[i]) < r.len() && r[p[i]] == page[i]
        }),
{
    law_page_order(page, text, author, device);
    let c = codes(page);
    assert forall|i: int| 0 <= i < 9 implies (#[trigger] page[i]).code() == c[i] by {}
    if n > 0 {
        let k = pack->0;
        let r = illustrated(page, pack);
        let st = k.scene_trees@;
        let tn = k.tree_nodes@;
        let gi = k.scene_group_items@;
        let a = 6 + st.len() as int;
        let b = a + 3 + tn.len();
        let e = b + 1 + gi.len();
        assert(r.len() == e + n);
        assert forall|i: int| 0 <= i < r.len() implies ((#[trigger] r[i]).code() == 0x0E <==> i
            == 4) && (r[i].code() == 0x0F <==> i >= e) by {
            if i < 4 {
                assert(r[i] == page[i]);
            } else if i == 4 {
            } else if i == 5 {
                assert(r[i] == page[4]);
            } else if i < a {
                assert(r[i] == st[i - 6]);
            } else if i < a + 3 {
                assert(r[i] == page[i - a + 5]);
            } else if i < b {
                assert(r[i] == tn[i - a - 3]);
            } else if i == b {
                assert(r[i] == page[8]);
            } else if i < e {
                assert(r[i] == gi[i - b - 1]);
            } else {
                assert(r[i] == k.image_items@[i - e]);
            }
        }
    }
}

} // verus!
