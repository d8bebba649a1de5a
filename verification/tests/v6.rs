use rr::v6::blocks::{Block, ParagraphStyle, RootTextBlock, TextItem, TextItemValue};
use rr::v6::markdown::{
    first_char_id, markdown_to_root_text, markdown_to_root_text_for, parse_paragraphs,
    DEFAULT_POS_X, DEFAULT_POS_Y, DEFAULT_WIDTH, FIRST_SLOT,
};
use rr::v6::page::{
    approximate_text_chars, build_page, build_page_with_images, count_chars_and_lines,
    image_id_base, Device, ImagePack, PageOptions, PAPER_PRO_HEIGHT, PAPER_PRO_WIDTH,
    SKELETON_PROVENANCE, TEXT_TOP,
};
use rr::v6::stream::CrdtId;

fn run_of(rt: &RootTextBlock) -> &str {
    let TextItemValue::Run(s) = &rt.items[0].value else {
        panic!("expected Run");
    };
    s
}

#[test]
fn empty_input_yields_empty_block() {
    let rt = markdown_to_root_text("");
    assert!(rt.items.is_empty());
    assert!(rt.styles.is_empty());
}

#[test]
fn single_paragraph_produces_one_item_one_style() {
    let rt = markdown_to_root_text("hello world");
    assert_eq!(rt.items.len(), 1);
    assert_eq!(rt.styles.len(), 1);
    assert_eq!(rt.styles[0].0, CrdtId::zero());
    assert_eq!(rt.styles[0].1.value, ParagraphStyle::Plain);
    match &rt.items[0].value {
        TextItemValue::Run(s) => assert_eq!(s, "hello world\n"),
        _ => panic!("expected Run"),
    }
    // Canonical IDs.
    assert_eq!(rt.items[0].item_id, first_char_id());
    assert_eq!(rt.items[0].left_id, CrdtId::zero());
    assert_eq!(rt.items[0].right_id, CrdtId::zero());
}

#[test]
fn heading_then_paragraph_keys_styles_at_right_crdt_ids() {
    let rt = markdown_to_root_text("# Title\n\nbody");
    assert_eq!(rt.items.len(), 1);
    assert_eq!(rt.styles.len(), 2);
    // First style is at (0, 0) → Heading
    assert_eq!(rt.styles[0].0, CrdtId::zero());
    assert_eq!(rt.styles[0].1.value, ParagraphStyle::Heading);
    // Second style is keyed at the CrdtId of the newline that ended
    // "Title": position 5 (T=0, i=1, t=2, l=3, e=4, \n=5).
    let expected = CrdtId {
        part1: 1,
        part2: first_char_id().part2 + 5,
    };
    assert_eq!(rt.styles[1].0, expected);
    assert_eq!(rt.styles[1].1.value, ParagraphStyle::Plain);

    // The flat text should be "Title\nbody\n".
    let TextItemValue::Run(s) = &rt.items[0].value else {
        panic!()
    };
    assert_eq!(s, "Title\nbody\n");
}

#[test]
fn style_stamps_follow_their_keys() {
    let rt = markdown_to_root_text("# é\n\nb\n\nc");
    let ids: Vec<(u64, u64)> = rt
        .styles
        .iter()
        .map(|(key, s)| (key.part2, s.timestamp.part2))
        .collect();
    assert_eq!(ids, [(0, FIRST_SLOT - 1), (17, 18), (19, 20)]);
    assert_eq!(rt.styles[0].1.timestamp.part1, 1);
}

#[test]
fn bullets_and_nested_bullets_use_bullet_styles() {
    let rt = markdown_to_root_text("- outer\n  - inner\n");
    let styles: Vec<_> = rt.styles.iter().map(|(_, l)| l.value).collect();
    assert!(styles.contains(&ParagraphStyle::Bullet));
    assert!(styles.contains(&ParagraphStyle::Bullet2));
}

#[test]
fn inline_emphasis_is_dropped_to_plain() {
    let rt = markdown_to_root_text("hi **bold** there");
    // Single Run, no Format items.
    assert_eq!(rt.items.len(), 1);
    let TextItemValue::Run(s) = &rt.items[0].value else {
        panic!()
    };
    // Inline emphasis text survives without format codes.
    assert!(s.contains("hi"));
    assert!(s.contains("bold"));
    assert!(s.contains("there"));
}

#[test]
fn typed_text_mappings() {
    let rt = markdown_to_root_text("### H\n\nsoft\nbreak `code`\n\n1. one\n2. two\n\n> quote\n");
    assert_eq!(run_of(&rt), "H\nsoft break code\none\ntwo\nquote\n");
    let styles: Vec<_> = rt.styles.iter().map(|(_, l)| l.value).collect();
    assert_eq!(
        styles,
        [
            ParagraphStyle::Heading,
            ParagraphStyle::Plain,
            ParagraphStyle::Bullet,
            ParagraphStyle::Bullet,
            ParagraphStyle::Plain
        ]
    );
}

#[test]
fn code_blocks_images_and_footnotes_are_skipped() {
    let md = "a[^1]\n\n```\nlet x;\n```\n\nb ![alt](u)\n\n[^1]: note\n";
    let rt = markdown_to_root_text(md);
    assert_eq!(run_of(&rt), "a\nb \n");
    assert_eq!(markdown_to_root_text("```\nonly\n```\n").items.len(), 0);
    assert_eq!(parse_paragraphs("x\n\n    indented\n").len(), 1);
}

#[test]
fn frames_follow_the_device() {
    assert_eq!((PAPER_PRO_WIDTH, PAPER_PRO_HEIGHT), Device::PaperPro.dimensions());
    assert_eq!(Device::PaperProMove.dimensions(), (954, 1696));
    assert_eq!(Device::Rm2.dimensions(), (1404, 1872));
    assert_eq!(Device::default(), Device::PaperPro);
    assert_eq!(Device::PaperPro.text_frame(), (-46_980, 12_000, 93_960));
    assert_eq!(Device::Rm2.text_frame(), (-40_716, TEXT_TOP * 100, 81_432));
    assert_eq!(Device::PaperPro.max_image_width(), 89_100);
    assert_eq!((DEFAULT_POS_X, DEFAULT_POS_Y, DEFAULT_WIDTH), (-46_800, TEXT_TOP * 100, 93_600));
    let rt = markdown_to_root_text_for("x", Device::PaperProMove);
    assert_eq!((rt.pos_x, rt.pos_y, rt.width), Device::PaperProMove.text_frame());
}

#[test]
fn build_page_produces_nine_blocks_in_canonical_order() {
    let blocks = build_page("hello", &PageOptions::default());
    assert_eq!(blocks.len(), 9);
    let kinds: Vec<u8> = blocks.iter().map(Block::block_type).collect();
    assert_eq!(
        kinds,
        vec![0x09, 0x00, 0x0A, 0x0D, 0x01, 0x07, 0x02, 0x02, 0x04]
    );
}

#[test]
fn page_info_counts_match_content() {
    // "Hi\n" → 3 chars (H, i, \n), 1 paragraph
    let blocks = build_page("Hi", &PageOptions::default());
    let pi = blocks
        .iter()
        .find_map(|b| match b {
            Block::PageInfo(p) => Some(p),
            _ => None,
        })
        .unwrap();
    assert_eq!(pi.text_chars_count, 3);
    assert_eq!(pi.text_lines_count, 1);
}

#[test]
fn provenance_string_is_set() {
    assert!(SKELETON_PROVENANCE.contains("Normal_AB.rm"));
}

#[test]
fn page_blocks_hold_the_options() {
    let opts = PageOptions {
        author_uuid: "author".to_string(),
        device: Device::Rm2,
    };
    let blocks = build_page("", &opts);
    let Block::AuthorIds(a) = &blocks[0] else {
        panic!("the authors come first");
    };
    assert_eq!(a.authors, vec![(1, "author".to_string())]);
    let Block::SceneInfo(s) = &blocks[3] else {
        panic!("the scene comes fourth");
    };
    assert_eq!(s.paper_size, Some((1404, 1872)));
    assert_eq!(s.extra_data.len(), 112);
    let Block::PageInfo(p) = &blocks[2] else {
        panic!("the page info comes third");
    };
    assert_eq!((p.text_chars_count, p.text_lines_count), (0, 1));
    let Block::Raw { payload, current_version, .. } = &blocks[7] else {
        panic!("the layer node is raw");
    };
    assert_eq!(*current_version, 2);
    assert!(payload.windows(7).any(|w| w == b"Layer 1"));
    let fresh = PageOptions::default().author_uuid;
    assert!(uuid::Uuid::parse_str(&fresh).is_ok());
    assert_ne!(fresh, PageOptions::default().author_uuid);
}

#[test]
fn format_items_do_not_count() {
    let mut rt = markdown_to_root_text("ab");
    rt.items.push(TextItem {
        item_id: CrdtId::zero(),
        left_id: CrdtId::zero(),
        right_id: CrdtId::zero(),
        deleted_length: 0,
        value: TextItemValue::Format(1),
    });
    assert_eq!(count_chars_and_lines(&rt), (3, 1));
}

fn raw(block_type: u8) -> Block {
    Block::Raw {
        block_type,
        min_version: 0,
        current_version: 0,
        payload: vec![],
    }
}

#[test]
fn images_are_spliced_into_the_page() {
    let pack = ImagePack {
        registry: raw(0x0E),
        scene_trees: vec![raw(0x01), raw(0x01)],
        tree_nodes: vec![raw(0x02), raw(0x02)],
        scene_group_items: vec![raw(0x04), raw(0x04)],
        image_items: vec![raw(0x0F), raw(0x0F)],
    };
    let blocks = build_page_with_images("x", &PageOptions::default(), Some(pack));
    let kinds: Vec<u8> = blocks.iter().map(Block::block_type).collect();
    assert_eq!(
        kinds,
        vec![
            0x09, 0x00, 0x0A, 0x0D, 0x0E, 0x01, 0x01, 0x01, 0x07, 0x02, 0x02, 0x02, 0x02, 0x04,
            0x04, 0x04, 0x0F, 0x0F
        ]
    );
    // The group of the layer stands before those of the images.
    let Block::Raw { payload, .. } = &blocks[13] else {
        panic!("the group is raw");
    };
    assert!(!payload.is_empty());
    assert_eq!(build_page_with_images("x", &PageOptions::default(), None).len(), 9);
    // A pack without images adds nothing.
    let none = ImagePack {
        registry: raw(0x0E),
        scene_trees: vec![],
        tree_nodes: vec![],
        scene_group_items: vec![],
        image_items: vec![],
    };
    assert_eq!(build_page_with_images("x", &PageOptions::default(), Some(none)).len(), 9);
}

#[test]
fn image_ids_start_past_the_text() {
    assert_eq!(approximate_text_chars("é\n"), 2);
    assert_eq!(image_id_base("abc", 1), 1000);
    assert_eq!(image_id_base(&"x".repeat(2000), 1), 2116);
}

#[test]
fn paragraphs_of_one_item_stay_apart() {
    let texts = |md: &str| -> Vec<String> {
        parse_paragraphs(md).into_iter().map(|p| p.text).collect()
    };
    assert_eq!(texts("- a\n\n  b\n"), ["a", "b"]);
    assert_eq!(texts("- a\n\n  b\n\n  c\n- d\n"), ["a", "b", "c", "d"]);
    assert_eq!(texts("- a\n  ```\n  code\n  ```\n  b\n"), ["a", "b"]);
    assert_eq!(texts("- a ![i](x.png) b\n"), ["a  b"]);
    let rt = markdown_to_root_text("- a\n\n  b\n");
    assert!(rt.styles.iter().all(|(_, s)| s.value == ParagraphStyle::Bullet));
    assert_eq!(rt.styles.len(), 2);
}
