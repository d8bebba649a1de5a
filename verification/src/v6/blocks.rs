//! The blocks of a v6 page.

use vstd::prelude::*;

use crate::text::views;
use crate::v6::stream::{CrdtId, LwwValue};

verus! {

/// Style of a typed-text paragraph.
#[derive(Debug, Clone, Copy, PartialEq, Eq, Structural)]
pub enum ParagraphStyle {
    Plain,
    Heading,
    Bold,
    Bullet,
    Bullet2,
    Checkbox,
    CheckboxChecked,
}

/// What a text item holds: a run of text, or an inline format code.
#[derive(Debug)]
pub enum TextItemValue {
    Run(String),
    Format(u32),
}

/// The mathematical value of a [`TextItemValue`].
pub enum TextValueView {
    Run(Seq<char>),
    Format(u32),
}

impl View for TextItemValue {
    type V = TextValueView;

    open spec fn view(&self) -> TextValueView {
        match *self {
            TextItemValue::Run(s) => TextValueView::Run(s@),
            TextItemValue::Format(f) => TextValueView::Format(f),
        }
    }
}

/// One item of the text CRDT.
#[derive(Debug)]
pub struct TextItem {
    pub item_id: CrdtId,
    pub left_id: CrdtId,
    pub right_id: CrdtId,
    pub deleted_length: u32,
    pub value: TextItemValue,
}

/// The mathematical value of a [`TextItem`].
pub struct TextItemView {
    pub item_id: CrdtId,
    pub left_id: CrdtId,
    pub right_id: CrdtId,
    pub deleted_length: u32,
    pub value: TextValueView,
}

impl View for TextItem {
    type V = TextItemView;

    open spec fn view(&self) -> TextItemView {
        TextItemView {
            item_id: self.item_id,
            left_id: self.left_id,
            right_id: self.right_id,
            deleted_length: self.deleted_length,
            value: self.value@,
        }
    }
}

/// The typed text of a page. Positions and widths are in hundredths of a
/// device unit.
#[derive(Debug)]
pub struct RootTextBlock {
    pub min_version: u8,
    pub current_version: u8,
    pub block_id: CrdtId,
    pub items: Vec<TextItem>,
    pub styles: Vec<(CrdtId, LwwValue<ParagraphStyle>)>,
    pub pos_x: i64,
    pub pos_y: i64,
    pub width: i64,
    pub extra_data: Vec<u8>,
}

/// The mathematical value of a [`RootTextBlock`].
pub struct RootTextView {
    pub min_version: u8,
    pub current_version: u8,
    pub block_id: CrdtId,
    pub items: Seq<TextItemView>,
    pub styles: Seq<(CrdtId, LwwValue<ParagraphStyle>)>,
    pub pos_x: int,
    pub pos_y: int,
    pub width: int,
    pub extra_data: Seq<u8>,
}

impl View for RootTextBlock {
    type V = RootTextView;

    open spec fn view(&self) -> RootTextView {
        RootTextView {
            min_version: self.min_version,
            current_version: self.current_version,
            block_id: self.block_id,
            items: views(self.items@),
            styles: self.styles@,
            pos_x: self.pos_x as int,
            pos_y: self.pos_y as int,
            width: self.width as int,
            extra_data: self.extra_data@,
        }
    }
}

/// The authors of a page: their numbers and their UUIDs.
#[derive(Debug)]
pub struct AuthorIdsBlock {
    pub min_version: u8,
    pub current_version: u8,
    pub authors: Vec<(u16, String)>,
    pub extra_data: Vec<u8>,
}

/// Where a page comes from.
#[derive(Debug)]
pub struct MigrationInfoBlock {
    pub min_version: u8,
    pub current_version: u8,
    pub migration_id: CrdtId,
    pub is_device: bool,
    pub unknown: Option<bool>,
    pub extra_data: Vec<u8>,
}

/// Counters of a page.
#[derive(Debug)]
pub struct PageInfoBlock {
    pub min_version: u8,
    pub current_version: u8,
    pub loads_count: u32,
    pub merges_count: u32,
    pub text_chars_count: u32,
    pub text_lines_count: u32,
    pub type_code: Option<u32>,
    pub extra_data: Vec<u8>,
}

/// The scene of a page.
#[derive(Debug)]
pub struct SceneInfoBlock {
    pub min_version: u8,
    pub current_version: u8,
    pub current_layer: LwwValue<CrdtId>,
    pub background_visible: Option<LwwValue<bool>>,
    pub root_document_visible: Option<LwwValue<bool>>,
    pub paper_size: Option<(u32, u32)>,
    pub extra_data: Vec<u8>,
}

/// One block of a page.
#[derive(Debug)]
pub enum Block {
    AuthorIds(AuthorIdsBlock),
    Migration(MigrationInfoBlock),
    PageInfo(PageInfoBlock),
    SceneInfo(SceneInfoBlock),
    RootText(RootTextBlock),
    Raw { block_type: u8, min_version: u8, current_version: u8, payload: Vec<u8> },
}

impl Block {
    /// The type code of a block.
    pub open spec fn code(self) -> u8 {
        match self {
            Block::AuthorIds(_) => 0x09,
            Block::Migration(_) => 0x00,
            Block::PageInfo(_) => 0x0A,
            Block::SceneInfo(_) => 0x0D,
            Block::RootText(_) => 0x07,
            Block::Raw { block_type, .. } => block_type,
        }
    }

    /// The type code under which the block is written.
    pub fn block_type(&self) -> (r: u8)
        ensures
            r == self.code(),
    {
        match self {
            Block::AuthorIds(_) => 0x09,
            Block::Migration(_) => 0x00,
            Block::PageInfo(_) => 0x0A,
            Block::SceneInfo(_) => 0x0D,
            Block::RootText(_) => 0x07,
            Block::Raw { block_type, .. } => *block_type,
        }
    }
}

} // verus!
