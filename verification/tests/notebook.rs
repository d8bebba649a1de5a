use rr::notebook::bundle::{assemble_bundle, MAX_PAGES};
use rr::notebook::tables::{
    lay_out_page, lines_of_tables, markdown_tables, table_drawing, Table,
};
use rr::notebook::{
    line_height_estimate, next_fence_state, page_idx_label, page_images, plan_pages,
    png_dimensions, split_on_hr, strip_table_lines_with_heights, Bundle, BundleOptions,
    PageImageInput, PageInput, PagePlan,
};
use rr::v6::page::Device;

const SIGNATURE: &[u8] = b"\x89PNG\r\n\x1a\n";

/// A PNG head with the given size.
fn png(w: u32, h: u32) -> Vec<u8> {
    let mut out = SIGNATURE.to_vec();
    out.extend_from_slice(&[0, 0, 0, 13]);
    out.extend_from_slice(b"IHDR");
    out.extend_from_slice(&w.to_be_bytes());
    out.extend_from_slice(&h.to_be_bytes());
    out
}

/// The number that stands after `name="` in a drawing.
fn attribute(svg: &str, name: &str) -> u32 {
    let needle = format!("{name}=\"");
    let rest = svg.split(needle.as_str()).nth(1).unwrap();
    rest.split('"').next().unwrap().parse().unwrap()
}

/// A raster of the size that the drawing of a table asks for.
fn raster(table: &Table) -> Option<Vec<u8>> {
    let svg = table_drawing(table)?;
    Some(png(attribute(&svg, " width"), attribute(&svg, " height")))
}

fn page_of(md: &str) -> PageInput {
    let pngs = markdown_tables(md).iter().map(raster).collect();
    PageInput::from_markdown(md, &pngs)
}

fn built(opts: &BundleOptions) -> Bundle {
    let plans = plan_pages(opts);
    let rm = opts.pages.iter().map(|_| b"rm".to_vec()).collect();
    Bundle::build(opts, &plans, &rm).unwrap()
}

#[test]
fn hr_inside_code_fence_does_not_split() {
    let md = "# One\n\n```yaml\n---\nkey: v\n---\n```\n\nafter\n";
    let pages = split_on_hr(md);
    assert_eq!(pages.len(), 1);
    assert!(pages[0].contains("key: v"));
    assert!(pages[0].contains("after"));
}

#[test]
fn hr_after_fence_closes_still_splits() {
    let md = "```\ncode\n```\n\n---\n\npage two\n";
    let pages = split_on_hr(md);
    assert_eq!(pages.len(), 2);
    assert_eq!(pages[1], "page two");
}

#[test]
fn tilde_fence_needs_a_closer_at_least_as_long() {
    let md = "~~~~\n---\n~~~\nstill code\n~~~~\n\n---\n\nlast\n";
    let pages = split_on_hr(md);
    assert_eq!(pages.len(), 2);
    assert!(pages[0].contains("still code"));
    assert_eq!(pages[1], "last");
}

#[test]
fn splitting_drops_blank_pages_and_trims() {
    assert_eq!(split_on_hr(""), [""]);
    assert_eq!(split_on_hr("---\n---"), [""]);
    assert_eq!(split_on_hr("\n a \r\n----- \n\n---\nb\nc\n\n"), ["a", "b\nc"]);
    assert_eq!(split_on_hr("--\n***"), ["--\n***"]);
}

#[test]
fn fences_open_and_close() {
    assert_eq!(next_fence_state(None, "```rust"), Some(('`', 3)));
    assert_eq!(next_fence_state(None, "   ~~~~"), Some(('~', 4)));
    assert_eq!(next_fence_state(None, "    ```"), None);
    assert_eq!(next_fence_state(None, "``"), None);
    assert_eq!(next_fence_state(Some(('`', 3)), "````"), None);
    assert_eq!(next_fence_state(Some(('`', 3)), "``` x"), Some(('`', 3)));
    assert_eq!(next_fence_state(Some(('`', 4)), "```"), Some(('`', 4)));
    assert_eq!(next_fence_state(Some(('`', 3)), "~~~"), Some(('`', 3)));
    assert_eq!(next_fence_state(Some(('`', 3)), "text"), Some(('`', 3)));
}

#[test]
fn line_height_estimate_matches_sourced_paragraph_styles() {
    assert_eq!(line_height_estimate("# Heading"), 150);
    assert_eq!(line_height_estimate("## Also a heading"), 150);
    assert_eq!(line_height_estimate("Plain paragraph text"), 70);
    assert_eq!(line_height_estimate("- Top-level bullet"), 35);
    assert_eq!(line_height_estimate("  - Nested bullet"), 35);
    assert_eq!(line_height_estimate(""), 20);
    assert_eq!(line_height_estimate("   "), 20);
}

#[test]
fn long_lines_wrap_at_fifty_characters() {
    assert_eq!(line_height_estimate(&"x".repeat(50)), 70);
    assert_eq!(line_height_estimate(&"x".repeat(51)), 140);
    assert_eq!(line_height_estimate(&format!("* {}", "é".repeat(99))), 105);
}

#[test]
fn page_idx_label_increments() {
    assert_eq!(page_idx_label(0), "ba");
    assert_eq!(page_idx_label(1), "bb");
    assert_eq!(page_idx_label(25), "bz");
    assert_eq!(page_idx_label(26), "ca");
    assert_eq!(page_idx_label(51), "cz");
    assert_eq!(page_idx_label(52), "da");
    assert_eq!(page_idx_label(MAX_PAGES - 1), "zz");
}

#[test]
fn page_labels_ascend() {
    for i in 1..MAX_PAGES {
        assert!(page_idx_label(i - 1) < page_idx_label(i));
    }
}

#[test]
fn single_page_bundle_has_expected_files() {
    let opts = BundleOptions::new("Test", vec![PageInput::from_markdown("# Hi\n\nWorld", &vec![])]);
    let bundle = built(&opts);
    assert_eq!(bundle.pages.len(), 1);
    assert!(bundle.metadata_json.contains("\"visibleName\": \"Test\""));
    assert!(bundle.content_json.contains("\"fileType\": \"notebook\""));
    assert!(bundle.content_json.contains("\"formatVersion\": 2"));
    assert!(bundle.pagedata.contains("Blank"));
    assert!(!bundle.pages[0].rm_bytes.is_empty());
}

#[test]
fn bundle_metadata_carries_parent_uuid_when_set() {
    let parent = "581e3dc3-267f-47a1-9d4e-cad298d85483";
    let opts = BundleOptions::new("Parented", vec![PageInput::from_markdown("hi", &vec![])])
        .with_parent(parent);
    let bundle = built(&opts);
    let meta: serde_json::Value = serde_json::from_str(&bundle.metadata_json).unwrap();
    assert_eq!(meta["parent"], parent);
}

#[test]
fn bundle_metadata_parent_defaults_to_empty_string_for_root() {
    let opts = BundleOptions::new("Rooted", vec![PageInput::from_markdown("hi", &vec![])]);
    let bundle = built(&opts);
    let meta: serde_json::Value = serde_json::from_str(&bundle.metadata_json).unwrap();
    // Root placement is an *empty string* parent (not absent): that's
    // what the device writes for its own top-level documents.
    assert_eq!(meta["parent"], "");
}

#[test]
fn multi_page_bundle_uses_sortable_idx_labels() {
    let opts = BundleOptions::new(
        "Multi",
        (0..3)
            .map(|i| PageInput::from_markdown(&format!("# Page {i}"), &vec![]))
            .collect(),
    );
    let bundle = built(&opts);
    // Sortable labels for the first three pages should be ba, bb, bc.
    for needle in [
        "\"value\": \"ba\"",
        "\"value\": \"bb\"",
        "\"value\": \"bc\"",
    ] {
        assert!(
            bundle.content_json.contains(needle),
            "content.json missing {needle}"
        );
    }
}

#[test]
fn from_markdown_extracts_tables_as_images() {
    let md = "# Title\n\n\
              | Col A | Col B |\n\
              | ----- | ----- |\n\
              | 1     | 2     |\n\n\
              More text after the table.";
    let page = page_of(md);

    // At least one PNG image was produced for the table.
    assert_eq!(page.images.len(), 1, "expected one image for one table");
    let img = &page.images[0];
    assert_eq!(
        &img.png_bytes[0..8],
        b"\x89PNG\r\n\x1a\n",
        "image bytes must be a real PNG"
    );
    assert!(img.w > 0 && img.h > 0, "image needs positive size");

    // The stroke-text path must not see any of the table source.
    assert!(
        !page.markdown.contains("Col A"),
        "table header leaked into typed text: {:?}",
        page.markdown
    );
    assert!(
        !page.markdown.contains("---"),
        "table delimiter leaked into typed text: {:?}",
        page.markdown
    );
    assert!(
        !page.markdown.contains("| 1"),
        "table data row leaked into typed text: {:?}",
        page.markdown
    );

    // Surrounding prose still flows through.
    assert!(page.markdown.contains("Title"));
    assert!(page.markdown.contains("More text after the table."));

    // And the whole thing assembles into a bundle.
    let opts = BundleOptions::new("TableTest", vec![page]);
    let bundle = built(&opts);
    assert_eq!(bundle.pages.len(), 1);
    assert_eq!(
        bundle.pages[0].images.len(),
        1,
        "image must travel through to the bundle page"
    );
}

#[test]
fn table_removal_reserves_space_for_its_image() {
    let md = "# Title\n\n\
               | Col A | Col B |\n\
               | ----- | ----- |\n\
               | 1     | 2     |\n\n\
               Text right after the table.";
    let page = page_of(md);
    assert_eq!(page.images.len(), 1);
    let h = page.images[0].h as f32 / 1000.0;
    let expected_gap = (h * 0.15_f32).max(40.0);
    let expected_reserve_lines = ((h + expected_gap) / 70.0_f32).ceil() as usize;

    let between = page
        .markdown
        .split("Text right after the table.")
        .next()
        .unwrap()
        .rsplit("Title")
        .next()
        .unwrap();
    let placeholder_count = between.matches('\u{200B}').count();
    assert!(
        placeholder_count >= expected_reserve_lines,
        "expected at least {expected_reserve_lines} reserved placeholder paragraphs for a \
         {h}-tall image, found {placeholder_count} between the heading and following text: {:?}",
        page.markdown
    );
    // Each placeholder must be its own paragraph (blank-line-separated
    // from its neighbors), not soft-wrapped together into one -- a
    // paragraph with N placeholders joined by spaces would only cost
    // one 70-unit paragraph instead of N of them.
    assert!(
        !between.contains("\u{200B} \u{200B}") && !between.contains("\u{200B}\u{200B}"),
        "placeholders must not have merged into a single paragraph: {:?}",
        page.markdown
    );
}

#[test]
fn table_position_ignores_trailing_text() {
    let mut md = String::from(
        "# Title\n\n\
         | Col A | Col B |\n\
         | ----- | ----- |\n\
         | 1     | 2     |\n\n",
    );
    for i in 0..40 {
        md.push_str(&format!(
            "Paragraph {i} of trailing content, unrelated to the table.\n\n"
        ));
    }

    let page = page_of(&md);
    assert_eq!(page.images.len(), 1);
    let y = page.images[0].y as f32 / 1000.0;
    assert!(
        y < 600.0,
        "table image should sit just below the heading that precedes it \
         (heading + one blank line), not be pushed down by trailing text; got y={y}"
    );
    // The frame starts at 120, the heading takes 150, the blank line 20.
    assert_eq!(page.images[0].y, 370_000);
}

#[test]
fn stacked_tables_do_not_overlap() {
    let md = "### First\n\n\
               | A | B |\n\
               | - | - |\n\
               | 1 | 2 |\n\n\
               ### Second\n\n\
               | C | D |\n\
               | - | - |\n\
               | 3 | 4 |\n";
    let page = page_of(md);
    assert_eq!(page.images.len(), 2);
    let first = &page.images[0];
    let second = &page.images[1];
    assert!(
        second.y >= first.y + first.h,
        "second table (y={}) must start at or below the bottom of the first (y={}, h={})",
        second.y,
        first.y,
        first.h
    );
}

#[test]
fn from_markdown_raw_preserves_table_source() {
    let md = "| A | B |\n| - | - |\n| 1 | 2 |\n";
    let page = PageInput::from_markdown_raw(md);
    assert!(page.images.is_empty());
    assert_eq!(page.markdown, md);
}

/// The page of a source with these rasters.
fn laid_out(md: &str, pngs: Vec<Option<Vec<u8>>>) -> PageInput {
    lay_out_page(md, &markdown_tables(md), &pngs)
}

#[test]
fn page_layout_is_exact() {
    let md = "# T\n\n| A | B |\n| --- | --- |\n| 1 | 2 |\n\nend";
    let page = laid_out(md, vec![Some(png(200, 100))]);
    // 100 tall and a gap of 40: two lines of 70.
    assert_eq!(page.markdown, "# T\n\n\u{200B}\n\n\u{200B}\n\n\nend\n");
    assert_eq!(page.images.len(), 1);
    let i = &page.images[0];
    assert_eq!((i.x, i.y, i.w, i.h), (-100_000, 370_000, 200_000, 100_000));
    // A wide raster is scaled down to 900, and so is its height.
    let page = laid_out(md, vec![Some(png(1800, 1000))]);
    let i = &page.images[0];
    assert_eq!((i.x, i.w, i.h), (-450_000, 900_000, 500_000));
    // Without a raster nothing is reserved and nothing is placed.
    let page = laid_out(md, vec![None]);
    assert_eq!(page.markdown, "# T\n\n\nend\n");
    assert!(page.images.is_empty());
    // A raster that is no PNG counts as 900 by 240.
    let page = laid_out(md, vec![Some(b"gif".to_vec())]);
    assert_eq!(page.images[0].h, 240_000);
    // A table at the very top is held 280 below the edge.
    let page = laid_out("|a|\n|---|\n", vec![Some(png(10, 10))]);
    assert_eq!(page.images[0].y, 280_000);
}

#[test]
fn table_lines_are_stripped() {
    let (text, heights) =
        strip_table_lines_with_heights("a\n\n|x|\n|-|\n|1|\n\nb|c\n", &vec![(2, 4)], &vec![1]);
    assert_eq!(text, "a\n\n\u{200B}\n\n\nb|c\n");
    assert_eq!(heights, [90]);
    let (text, heights) = strip_table_lines_with_heights("|x|\n|--|\n", &vec![], &vec![]);
    assert_eq!(text, "|x|\n|--|\n");
    assert!(heights.is_empty());
    let (_, heights) = strip_table_lines_with_heights(
        "|x|\n|---|\n\n- y\n\n|z|\n|---|\n",
        &vec![(0, 1), (5, 6)],
        &vec![3, 0],
    );
    assert_eq!(heights, [0, 285]);
}

#[test]
fn lines_of_tables_are_found() {
    let ranges = |md: &str| lines_of_tables(md, &markdown_tables(md));
    assert_eq!(ranges("a\n\n| é |\n| - |\n| 1 |\n\nb\n"), [(2, 4)]);
    assert_eq!(ranges("|x|\n|-|"), [(0, 1)]);
    assert_eq!(ranges("|x|\r\n|-|\r\n|1|\r\n\r\n|y|\r\n|-|\r\n"), [(0, 2), (4, 5)]);
    assert!(ranges("no table\n").is_empty());
}

#[test]
fn one_dash_makes_a_delimiter() {
    let page = page_of("| A | B |\n| - | - |\n| 1 | 2 |\n");
    assert_eq!(page.images.len(), 1);
    assert!(!page.markdown.contains('|'));
    let page = page_of("A | B\n:-|-:\n1 | 2\nthree\n\nrest\n");
    assert_eq!(page.images.len(), 1);
    assert!(!page.markdown.contains('|'));
    assert!(page.markdown.ends_with("\nrest\n"));
}

#[test]
fn fenced_tables_stay_in_the_text() {
    let fenced = "```\n| A | B |\n| --- | --- |\n| 1 | 2 |\n```\n";
    let page = page_of(fenced);
    assert!(page.images.is_empty());
    assert_eq!(page.markdown, fenced);
    // The reserve goes to the table, not to the block in the fence.
    let md = format!("{fenced}\n| C |\n| - |\n| 3 |\n");
    let page = laid_out(&md, vec![Some(png(100, 30))]);
    assert_eq!(page.images.len(), 1);
    assert_eq!(page.markdown, format!("{fenced}\n\u{200B}\n\n"));
    // Five lines of 70 and a blank one lie above it, and a clearance of 80.
    assert_eq!(page.images[0].y, (120 + 5 * 70 + 20 + 80) * 1000);
}

#[test]
fn quoted_and_listed_tables_are_taken_out() {
    let page = page_of("> | A |\n> | - |\n> | 1 |\n\nx\n\n- y\n\n  | B |\n  | - |\n  | 2 |\n");
    assert_eq!(page.images.len(), 2);
    assert!(!page.markdown.contains('|'));
    assert!(page.markdown.contains("\nx\n"));
    assert!(page.markdown.contains("\n- y\n"));
}

#[test]
fn lines_without_pipes_stay_in_the_text() {
    let md = "| A | B |\n| --- | --- |\n| 1 | 2 |\nplain\n\nrest\n";
    assert_eq!(markdown_tables(md)[0].rows.len(), 3);
    let page = laid_out(md, vec![Some(png(100, 30))]);
    assert_eq!(page.markdown, "\u{200B}\n\nplain\n\nrest\n");
    // A later table lies below the placeholder, that line and the blank ones.
    let md = "|a|\n|-|\nplain\n\n|b|\n|-|\n";
    let (text, heights) =
        strip_table_lines_with_heights(md, &lines_of_tables(md, &markdown_tables(md)), &vec![1, 0]);
    assert_eq!(text, "\u{200B}\n\nplain\n\n");
    assert_eq!(heights, [0, 70 + 70 + 20]);
}

#[test]
fn lone_carriage_returns_end_no_line() {
    // The whole text is one line, which is more than the table.
    let md = "a\r\r| A |\r| - |\r| 1 |\r\rb\rc";
    let page = laid_out(md, vec![Some(png(100, 30))]);
    assert_eq!(page.markdown, format!("{md}\n"));
    assert_eq!(page.images.len(), 1);
    let page = laid_out("x\ry\n\n| A |\n| - |\n| 1 |\n", vec![None]);
    assert_eq!(page.markdown, "x\ry\n\n");
    let page = laid_out("| A |\r\n| - |\r\n| 1 |\r\n\r\nx\r\n", vec![None]);
    assert_eq!(page.markdown, "\nx\n");
}

#[test]
fn a_fraction_of_a_line_is_reserved_in_full() {
    // A little over 100 units and a clearance of 40 take three lines of 70.
    let page = laid_out("|a|\n|-|\n", vec![Some(png(900_008, 100_001))]);
    assert_eq!(page.markdown, "\u{200B}\n\n".repeat(3));
    assert_eq!(page.images[0].h, 100_000);
    let page = laid_out("|a|\n|-|\n", vec![Some(png(900, 100))]);
    assert_eq!(page.markdown, "\u{200B}\n\n".repeat(2));
}

#[test]
fn appended_text_moves_no_image() {
    let p = "# H\n\nintro\n\n| A |\n| - |\n| 1 |\n\nmid\n\n| B |\n| - |\n| 2 |\n\n";
    let s = "one\n\ntwo | three\n\n| C |\n| - |\n| 3 |\n";
    let (a, b) = (page_of(p), page_of(&format!("{p}{s}")));
    assert_eq!((a.images.len(), b.images.len()), (2, 3));
    for (x, y) in a.images.iter().zip(&b.images) {
        assert_eq!((x.x, x.y, x.w, x.h), (y.x, y.y, y.w, y.h));
    }
}

#[test]
fn planned_pages_carry_a_time_stamp() {
    let opts = fixed_options(vec![PageInput::from_markdown_raw("x")]);
    let plans = plan_pages(&opts);
    let stamp = &plans[0].scroll_time;
    assert_eq!(stamp.len(), 20);
    for (i, c) in stamp.chars().enumerate() {
        match i {
            4 | 7 => assert_eq!(c, '-'),
            10 => assert_eq!(c, 'T'),
            13 | 16 => assert_eq!(c, ':'),
            19 => assert_eq!(c, 'Z'),
            _ => assert!(c.is_ascii_digit()),
        }
    }
}

#[test]
fn tables_are_read_from_markdown() {
    let tables = markdown_tables("| A `b` |\n|:-:|\n| *1* |\n\n| C |\n|---|\n");
    assert_eq!(tables.len(), 2);
    assert_eq!(tables[0].rows, vec![vec!["A b".to_string()], vec!["1".to_string()]]);
    assert_eq!(tables[1].rows.len(), 1);
    assert!(markdown_tables("no table").is_empty());
}

#[test]
fn png_sizes_are_read() {
    assert_eq!(png_dimensions(&png(0x0102_0304, 7)), Some((0x0102_0304, 7)));
    assert_eq!(png_dimensions(&SIGNATURE.to_vec()), None);
    let mut bad = png(1, 1);
    bad[0] = 0;
    assert_eq!(png_dimensions(&bad), None);
}

#[test]
fn pages_are_split_before_tables_are_placed() {
    let pages = PageInput::pages_from_markdown(
        "one\n\n---\n\n|a|\n|---|\n|1|\n",
        &vec![vec![], vec![Some(png(10, 10))]],
    );
    assert_eq!(pages.len(), 2);
    assert_eq!(pages[0].markdown, "one\n");
    assert!(pages[0].images.is_empty());
    assert_eq!(pages[1].images.len(), 1);
}

fn fixed_options(pages: Vec<PageInput>) -> BundleOptions {
    BundleOptions {
        visible_name: "A \"B\"".to_string(),
        pages,
        doc_uuid: "d1".to_string(),
        author_uuid: "a1".to_string(),
        page_template: "Blank".to_string(),
        parent: String::new(),
        device: Device::PaperPro,
    }
}

#[test]
fn bundle_texts_are_exact() {
    let opts = fixed_options(vec![PageInput::from_markdown_raw("x")]);
    let plans = vec![PagePlan {
        uuid: "p1".to_string(),
        scroll_time: "s".to_string(),
        image_names: vec![],
    }];
    let bundle = assemble_bundle(&opts, &plans, &vec![vec![9, 9]], 1, -2);
    assert_eq!(
        bundle.metadata_json,
        r#"{
  "type": "DocumentType",
  "visibleName": "A \"B\"",
  "parent": "",
  "deleted": false,
  "metadatamodified": false,
  "modified": false,
  "pinned": false,
  "synced": false,
  "version": 1,
  "lastModified": "1",
  "lastOpened": "1",
  "lastOpenedPage": 0
}"#
    );
    assert_eq!(
        bundle.content_json,
        r#"{
  "coverPageNumber": -1,
  "customZoomCenterX": 0,
  "customZoomCenterY": 1080,
  "customZoomOrientation": "portrait",
  "customZoomPageHeight": 2160,
  "customZoomPageWidth": 1620,
  "customZoomScale": 1,
  "documentMetadata": {},
  "extraMetadata": {},
  "fileType": "notebook",
  "fontName": "",
  "formatVersion": 2,
  "keyboardMetadata": {
    "count": 1,
    "timestamp": -2
  },
  "lineHeight": -1,
  "orientation": "portrait",
  "pageCount": 1,
  "pageTags": [],
  "sizeInBytes": "59",
  "tags": [],
  "textAlignment": "justify",
  "textScale": 1,
  "zoomMode": "bestFit",
  "cPages": {
    "lastOpened": {
      "timestamp": "0:0",
      "value": ""
    },
    "original": {
      "timestamp": "0:0",
      "value": -1
    },
    "pages": [
      {
        "id": "p1",
        "idx": {
          "timestamp": "1:2",
          "value": "ba"
        },
        "modifed": "1",
        "scrollTime": {
          "timestamp": "1:1",
          "value": "s"
        },
        "template": {
          "timestamp": "1:3",
          "value": "Blank"
        },
        "verticalScroll": {
          "timestamp": "1:1",
          "value": 0
        }
      }
    ],
    "uuids": [
      {
        "first": "a1",
        "second": 1
      }
    ]
  }
}"#
    );
    assert_eq!(bundle.pagedata, "Blank\n");
    assert_eq!(
        bundle.pages[0].metadata_json,
        "{\n  \"layers\": [\n    {\n      \"name\": \"Layer 1\"\n    }\n  ]\n}"
    );
    let replaced = bundle.with_first_page(vec![7]);
    assert_eq!(replaced.pages[0].rm_bytes, vec![7]);
    assert_eq!(replaced.pages[0].uuid, "p1");
}

#[test]
fn a_bundle_without_pages() {
    let opts = fixed_options(vec![]);
    let bundle = assemble_bundle(&opts, &vec![], &vec![], 1, 2);
    assert!(bundle.content_json.contains("\"pages\": [],"));
    assert!(bundle.content_json.contains("\"sizeInBytes\": \"0\""));
    assert_eq!(bundle.pagedata, "\n");
    let content: serde_json::Value = serde_json::from_str(&bundle.content_json).unwrap();
    assert_eq!(content["pageCount"], 0);
    assert!(bundle.with_first_page(vec![7]).pages.is_empty());
}

#[test]
fn fresh_ids_and_times() {
    let opts = BundleOptions::new("N", vec![PageInput::from_markdown_raw("x")])
        .with_device(Device::Rm2);
    assert_ne!(opts.doc_uuid, opts.author_uuid);
    assert_eq!(uuid::Uuid::parse_str(&opts.doc_uuid).unwrap().to_string(), opts.doc_uuid);
    assert_eq!(opts.page_template, "Blank");
    assert_eq!(opts.parent, "");
    let bundle = built(&opts);
    assert!(bundle.content_json.contains("\"customZoomPageWidth\": 1404"));
    let meta: serde_json::Value = serde_json::from_str(&bundle.metadata_json).unwrap();
    let stamp: i64 = meta["lastModified"].as_str().unwrap().parse().unwrap();
    let now = chrono::Utc::now().timestamp_millis();
    assert!(stamp <= now && now - stamp < 60_000);
    let content: serde_json::Value = serde_json::from_str(&bundle.content_json).unwrap();
    let scroll = content["cPages"]["pages"][0]["scrollTime"]["value"].as_str().unwrap();
    assert_eq!(scroll.len(), 20);
    assert!(scroll.ends_with('Z'));
}

#[test]
fn page_images_carry_name_and_geometry() {
    let image = PageImageInput {
        png_bytes: vec![1, 2],
        x: -5,
        y: 6,
        w: 10,
        h: 4,
    };
    let page = PageInput {
        markdown: String::new(),
        images: vec![image],
    };
    let opts = fixed_options(vec![page]);
    let plans = plan_pages(&opts);
    let images = page_images(&plans[0], &opts.pages[0]);
    assert_eq!(images.len(), 1);
    assert_eq!(images[0].filename, plans[0].image_names[0]);
    assert!(images[0].filename.ends_with(".png"));
    assert_eq!(images[0].png_bytes, vec![1, 2]);
    assert_eq!((images[0].x, images[0].y, images[0].w, images[0].h), (-5, 6, 10, 4));
}
