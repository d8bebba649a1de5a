use rr::events::{parse_events, Alignment, Element, Inline, Role, RENDERED, TABLES};
use rr::markdown::escape::push_xml_text;
use rr::markdown::frontmatter::{
    classify_frontmatter_line, h1_title, is_yaml_key, is_yaml_key_char, unquote, FrontmatterLine,
};
use rr::markdown::plain::{build_border, display_width, pad_cell};
use rr::markdown::render::{
    embed_image, extract_table, is_beneath, is_local_source, markdown_pieces, piece_svg, Piece,
    RenderState, MAX_IMAGE_BYTES,
};
use rr::markdown::table::{table_layout, try_table_svg};
use rr::markdown::wrap::words_of;
use rr::markdown::{
    build_table_svg, emit_bullet_table, extract_h1_title, format_ascii_table,
    markdown_to_html_fragment, parse_frontmatter, push_html_text, render_markdown,
    strip_yaml_frontmatter, svg_placeholder, wrap_text, xml_escape, Document, Embedded, Metadata,
};

fn rows(cells: &[&[&str]]) -> Vec<Vec<String>> {
    cells
        .iter()
        .map(|r| r.iter().map(|c| c.to_string()).collect())
        .collect()
}

#[test]
fn h1_title_extracted() {
    assert_eq!(extract_h1_title("# Hello\n", "fb"), "Hello");
}

#[test]
fn falls_back_when_no_h1() {
    assert_eq!(extract_h1_title("no heading", "fb"), "fb");
}

#[test]
fn h1_titles_are_trimmed_and_not_empty() {
    assert_eq!(h1_title("#  \n## no\n   #   Deep  \r\n"), Some("Deep".to_string()));
    assert_eq!(h1_title("#no\n"), None);
}

#[test]
fn frontmatter_basic() {
    let (m, body) = parse_frontmatter("---\ntitle: T\nauthor: A\n---\nbody\n");
    assert_eq!(m.get("title"), Some(&"T".to_string()));
    assert_eq!(m.get("author"), Some(&"A".to_string()));
    assert!(body.contains("body"));
}

#[test]
fn frontmatter_unicode_safe() {
    // Would panic under naive byte slicing
    let (m, body) = parse_frontmatter("---\ntitle: 日本語\n---\n本文\n");
    assert_eq!(m.get("title"), Some(&"日本語".to_string()));
    assert!(body.contains("本文"));
    assert_eq!(body, "本文\n");
}

#[test]
fn frontmatter_crlf() {
    let (m, body) = parse_frontmatter("---\r\nkey: value\r\n---\r\nbody");
    assert_eq!(m.get("key"), Some(&"value".to_string()));
    assert_eq!(body, "body");
}

#[test]
fn frontmatter_unclosed_returns_full() {
    let raw = "---\ntitle: X\nbody";
    let (m, body) = parse_frontmatter(raw);
    assert!(m.is_empty());
    assert_eq!(body, raw);
}

#[test]
fn frontmatter_keeps_the_last_value_of_a_key() {
    let (m, body) = parse_frontmatter("---\na: 1\nb\na : 2:3\n---");
    assert_eq!(m.get("a"), Some(&"2:3".to_string()));
    assert_eq!(m.get("b"), None);
    assert_eq!(body, "");
    let (m, body) = parse_frontmatter("");
    assert!(m.is_empty());
    assert_eq!(body, "");
    let (_, body) = parse_frontmatter("x\n---\n");
    assert_eq!(body, "x\n---\n");
}

#[test]
fn metadata_is_a_map() {
    let mut m = Metadata::new();
    assert!(m.is_empty());
    m.insert("k".to_string(), "1".to_string());
    m.insert("k".to_string(), "2".to_string());
    assert_eq!(m.get("k"), Some(&"2".to_string()));
    assert_eq!(m.entries.len(), 1);
}

#[test]
fn documents_take_their_title_from_the_frontmatter() {
    let d = Document::from_string("---\ntitle: T\n---\n# H\n".to_string(), "fb");
    assert_eq!(d.title, "T");
    assert_eq!(d.body_markdown, "# H\n");
    assert_eq!(d.metadata.get("title"), Some(&"T".to_string()));
    assert_eq!(Document::from_string("# H\n".to_string(), "fb").title, "H");
    let d = Document::from_string("x".to_string(), "fb");
    assert_eq!(d.title, "fb");
    assert_eq!(d.to_xhtml_fragment(&vec![]), "<p>x</p>\n");
    assert_eq!(d.render(&vec![]).xhtml, "<p>x</p>\n");
}

#[test]
fn table_renders_as_embedded_png_with_asset() {
    let md = "| Item | Qty | Price |\n|------|----:|------:|\n| Pens | 3 | $4.50 |\n";
    let pieces = markdown_pieces(md);
    assert_eq!(pieces.len(), 1);
    let svg = piece_svg(&pieces[0]).expect("a table has a drawing");
    assert!(svg.contains(">Pens<"));
    let png = b"\x89PNG\r\n\x1a\nraster".to_vec();
    let r = render_markdown(md, &vec![embed_image(png, Some("png"))]);
    assert!(
        r.xhtml.contains("<img src=\"table-001.png\""),
        "expected <img> to PNG, got: {}",
        r.xhtml
    );
    assert_eq!(r.xhtml, "<p><img src=\"table-001.png\" alt=\"table\"/></p>\n");
    assert_eq!(r.assets.len(), 1, "expected exactly one PNG asset");
    assert_eq!(r.assets[0].mime, "image/png");
    assert!(!r.assets[0].bytes.is_empty());
    assert_eq!(&r.assets[0].bytes[0..8], b"\x89PNG\r\n\x1a\n");
}

#[test]
fn a_table_without_raster_becomes_bullets() {
    let md = "| Item | Qty |\n|------|----:|\n| Pens | 3 |\n";
    let r = render_markdown(md, &vec![]);
    assert!(r.assets.is_empty());
    assert_eq!(
        r.xhtml,
        "<ul class=\"rr-table\">\n  <li><strong>Pens</strong> — Qty: 3</li>\n</ul>\n"
    );
}

#[test]
fn strikethrough_still_works() {
    let html = markdown_to_html_fragment("~~old~~", &vec![]);
    assert!(html.contains("<del>"));
    assert_eq!(html, "<p><del>old</del></p>\n");
}

#[test]
fn rendering_options_are_on() {
    let html = markdown_to_html_fragment("- [x] it's\n", &vec![]);
    assert!(html.contains("type=\"checkbox\""));
    assert!(html.contains("it’s"));
}

#[test]
fn wrap_text_breaks_long_words() {
    let lines = wrap_text("alpha betagamma delta", 6);
    assert!(lines.len() >= 3, "expected multiple lines, got {lines:?}");
    for l in &lines {
        assert!(l.chars().count() <= 6, "line too long: {l:?}");
    }
    assert_eq!(lines, ["alpha", "betaga", "mma", "delta"]);
}

#[test]
fn wrap_text_edges() {
    assert_eq!(wrap_text("", 5), [""]);
    assert_eq!(wrap_text(" \t ", 5), [""]);
    assert_eq!(wrap_text("a b", 0), ["a b"]);
    assert_eq!(wrap_text(" a  b ", 3), ["a b"]);
    assert_eq!(wrap_text("abcdef gh", 3), ["abc", "def", "gh"]);
    assert_eq!(wrap_text("abcd e", 3), ["abc", "d e"]);
    let words = words_of(&[' ', 'a', '\u{3000}', 'b', 'c']);
    assert_eq!(words, vec![vec!['a'], vec!['b', 'c']]);
}

#[test]
fn wrapping_loses_nothing() {
    let text = "the quick   brown\tfoxes jumped overthelazydog";
    for max in 1..12 {
        let joined: String = wrap_text(text, max).concat().split_whitespace().collect();
        let all: String = text.split_whitespace().collect();
        assert_eq!(joined, all);
    }
}

#[test]
fn build_table_svg_includes_outer_border() {
    let rows = vec![
        vec!["A".to_string(), "B".to_string()],
        vec!["1".to_string(), "2".to_string()],
    ];
    let svg = build_table_svg(&rows, &vec![Alignment::Left, Alignment::Right]);
    assert!(svg.contains("<svg"));
    assert!(svg.contains("stroke=\"black\""));
    assert!(svg.contains(">A<"));
    assert!(svg.contains(">2<"));
}

#[test]
fn table_drawing_is_exact() {
    let svg = build_table_svg(
        &rows(&[&["A", "B"], &["1", "2"]]),
        &vec![Alignment::Left, Alignment::Right],
    );
    assert_eq!(
        svg,
        "<svg xmlns=\"http://www.w3.org/2000/svg\" width=\"160\" height=\"92\" viewBox=\"0 0 160 \
         92\" font-family=\"Georgia, serif\" font-size=\"28\">\n\
         <rect x=\"1\" y=\"1\" width=\"158\" height=\"90\" fill=\"white\" stroke=\"black\" \
         stroke-width=\"2\"/>\n\
         <line x1=\"80\" y1=\"1\" x2=\"80\" y2=\"91\" stroke=\"black\" stroke-width=\"1\"/>\n\
         <line x1=\"1\" y1=\"44\" x2=\"159\" y2=\"44\" stroke=\"black\" stroke-width=\"2\"/>\n\
         <text x=\"18\" y=\"29\" text-anchor=\"start\" font-weight=\"bold\">A</text>\n\
         <text x=\"142\" y=\"29\" text-anchor=\"end\" font-weight=\"bold\">B</text>\n\
         <line x1=\"1\" y1=\"88\" x2=\"159\" y2=\"88\" stroke=\"black\" stroke-width=\"1\"/>\n\
         <text x=\"18\" y=\"73\" text-anchor=\"start\" font-weight=\"normal\">1</text>\n\
         <text x=\"142\" y=\"73\" text-anchor=\"end\" font-weight=\"normal\">2</text>\n\
         </svg>"
    );
}

#[test]
fn wide_tables_shrink_and_wrap() {
    let long = "word ".repeat(40);
    let table = rows(&[&["H", "Long"], &["<&>", &long]]);
    let layout = table_layout(&table).expect("fits");
    assert!(layout.width <= 1400);
    // 200 characters: 3236 wide at first, cut by a tenth until the sum fits.
    assert_eq!(layout.col_w, [84, 1256]);
    assert_eq!(layout.width, 1340);
    // 76 characters to a line: three lines.
    assert_eq!(layout.row_h, [44, 112]);
    assert_eq!(layout.height, 160);
    let svg = build_table_svg(&table, &vec![Alignment::Center, Alignment::Unset]);
    assert!(svg.contains(">&lt;&amp;&gt;</text>"));
    assert!(svg.contains("text-anchor=\"middle\""));
    assert!(svg.contains("x=\"42\""));
    assert_eq!(try_table_svg(&table, &vec![Alignment::Center, Alignment::Unset]), Some(svg));
}

#[test]
fn empty_tables_have_a_placeholder() {
    let text = svg_placeholder("(empty table)");
    assert_eq!(build_table_svg(&vec![], &vec![]), text);
    assert_eq!(build_table_svg(&vec![vec![]], &vec![]), text);
    assert_eq!(
        svg_placeholder("a<b"),
        "<svg xmlns=\"http://www.w3.org/2000/svg\" width=\"400\" height=\"60\" viewBox=\"0 0 400 \
         60\" font-family=\"Georgia, serif\" font-size=\"20\">\n\
         <rect x=\"1\" y=\"1\" width=\"398\" height=\"58\" fill=\"white\" stroke=\"black\"/>\n\
         <text x=\"200\" y=\"38\" text-anchor=\"middle\" fill=\"gray\">a&lt;b</text>\n\
         </svg>"
    );
}

#[test]
fn escaping_is_exact() {
    assert_eq!(xml_escape("a&<>\"'é"), "a&amp;&lt;&gt;&quot;&apos;é");
    let mut out = "x".to_string();
    push_html_text(&mut out, "&<>\"'");
    assert_eq!(out, "x&amp;&lt;&gt;&quot;&#x27;");
    let mut out = "y".to_string();
    push_xml_text(&mut out, "'");
    assert_eq!(out, "y&apos;");
}

#[test]
fn bullet_tables() {
    let bullets = |t: &[&[&str]]| {
        let mut out = String::new();
        emit_bullet_table(&mut out, &rows(t));
        out
    };
    assert_eq!(bullets(&[]), "");
    assert_eq!(
        bullets(&[&["A"], &["b"]]),
        "<ul class=\"rr-table\">\n  <li>A</li>\n  <li>b</li>\n</ul>\n"
    );
    assert_eq!(
        bullets(&[&["A", "B"]]),
        "<ul class=\"rr-table\">\n  <li>A — B</li>\n</ul>\n"
    );
    assert_eq!(
        bullets(&[&["A", ""], &["1", "2", "<3"], &[]]),
        "<ul class=\"rr-table\">\n  <li><strong>1</strong> — 2 — &lt;3</li>\n  \
         <li><strong></strong></li>\n</ul>\n"
    );
}

#[test]
fn ascii_tables() {
    let aligns = vec![Alignment::Left, Alignment::Right, Alignment::Center];
    assert_eq!(
        format_ascii_table(&rows(&[&["A", "B", "Cde"], &["1", "22", "x"]]), &aligns),
        "+---+----+-----+\n| A |  B | Cde |\n+---+----+-----+\n| 1 | 22 |  x  |\n+---+----+-----+"
    );
    assert_eq!(format_ascii_table(&vec![], &aligns), "");
    assert_eq!(build_border(&vec![0, 1]), "+--+---+");
    assert_eq!(pad_cell("ab", 5, Alignment::Center), " ab  ");
    assert_eq!(pad_cell("ab", 1, Alignment::Right), "ab");
    assert_eq!(display_width("日本"), 2);
}

#[test]
fn image_with_missing_local_falls_back_to_alt() {
    let md = "![an image](does-not-exist.png)";
    let rendered = render_markdown(md, &vec![]);
    assert!(rendered.assets.is_empty());
    assert!(
        rendered.xhtml.contains("[image: an image]"),
        "expected alt-text fallback, got: {}",
        rendered.xhtml
    );
}

#[test]
fn images_that_were_found_are_embedded_and_numbered() {
    let md = "![a `b`](pic.png \"T\")\n\n| A |\n|---|\n| 1 |\n";
    let pieces = markdown_pieces(md);
    let found: Vec<Option<Embedded>> = pieces
        .iter()
        .map(|p| match p {
            Piece::Html { .. } => None,
            Piece::Image { .. } => embed_image(b"one".to_vec(), Some("PNG")),
            Piece::Table { .. } => embed_image(b"two".to_vec(), Some("png")),
        })
        .collect();
    let r = render_markdown(md, &found);
    assert_eq!(
        r.xhtml,
        "<p><p><img src=\"img-001.png\" alt=\"a b\" title=\"T\"/></p>\n</p>\n<p><img \
         src=\"table-002.png\" alt=\"table\"/></p>\n"
    );
    let names: Vec<&str> = r.assets.iter().map(|a| a.name.as_str()).collect();
    assert_eq!(names, ["img-001.png", "table-002.png"]);
    assert_eq!(r.assets[0].mime, "image/png");
    assert_eq!(r.assets[0].bytes, b"one");
}

#[test]
fn data_urls_are_left_in_place() {
    let r = render_markdown("![a](data:image/png;base64,AA==)", &vec![]);
    assert!(r
        .xhtml
        .contains("<p><img src=\"data:image/png;base64,AA==\" alt=\"a\"/></p>\n"));
    let mut state = RenderState::new();
    state.emit_image("data:x", "ignored", "y", None);
    assert_eq!(state.out, "<p><img src=\"data:x\" alt=\"y\"/></p>\n");
}

#[test]
fn image_sources_and_sizes() {
    assert!(is_local_source("a.png"));
    assert!(!is_local_source("http://h/a.png"));
    assert!(!is_local_source("https://h/a.png"));
    assert!(!is_local_source("data:image/png"));
    let mime = |ext: Option<&str>| embed_image(vec![1], ext).unwrap().mime;
    assert_eq!(mime(Some("png")), "image/png");
    assert_eq!(mime(Some("JPG")), "image/jpeg");
    assert_eq!(mime(Some("jpeg")), "image/jpeg");
    assert_eq!(mime(Some("gif")), "image/gif");
    assert_eq!(mime(Some("svg")), "image/svg+xml");
    assert_eq!(mime(Some("webp")), "image/webp");
    assert_eq!(mime(Some("bmp")), "application/octet-stream");
    let e = embed_image(vec![1], None).unwrap();
    assert_eq!(e.ext, "bin");
    assert_eq!(e.mime, "application/octet-stream");
    assert!(embed_image(vec![0; MAX_IMAGE_BYTES], None).is_some());
    assert!(embed_image(vec![0; MAX_IMAGE_BYTES + 1], None).is_none());
}

#[test]
fn table_events_are_read() {
    let events = parse_events("| A `b` | C |\n|:-:|---|\n| 1 |\n\nx", RENDERED);
    let (end, aligns, table) = extract_table(&events, 0);
    assert_eq!(aligns, vec![Alignment::Center, Alignment::Unset]);
    assert_eq!(table, rows(&[&["A b", "C"], &["1", ""]]));
    assert_eq!(events[end].role, Role::Close(Element::Table));
}

#[test]
fn events_carry_text_and_links() {
    let events = parse_events("# H\n\na\\\nb ![i](u \"t\")", TABLES);
    assert_eq!(events[0].role, Role::Open(Element::Heading));
    assert!(matches!(&events[1].inline, Inline::Text(t) if t == "H"));
    assert_eq!(events[2].role, Role::Close(Element::Heading));
    assert!(events.iter().any(|e| matches!(e.inline, Inline::HardBreak)));
    let image = events
        .iter()
        .find(|e| e.role == Role::Open(Element::Image))
        .unwrap();
    assert_eq!(image.link.dest, "u");
    assert_eq!(image.link.title, "t");
}

#[test]
fn strict_strip_removes_vault_style_frontmatter() {
    let src = "---\ntitle: \"My Note\"\ntags:\n  - a\n  - b\n---\n\n# Heading\nbody\n";
    let s = strip_yaml_frontmatter(src);
    assert!(!s.ambiguous);
    assert_eq!(s.title.as_deref(), Some("My Note"));
    assert_eq!(s.body, "# Heading\nbody\n");
}

#[test]
fn strict_strip_keeps_a_leading_page_break_block() {
    let src = "---\nJust some prose on the first page.\n---\n# Two\n";
    let s = strip_yaml_frontmatter(src);
    assert!(s.ambiguous);
    assert_eq!(s.body, src);
    assert_eq!(s.title, None);
}

#[test]
fn strict_strip_rejects_a_block_that_mixes_keys_and_prose() {
    let src = "---\nNote: remember this\nAnd a sentence of prose.\n---\nrest\n";
    let s = strip_yaml_frontmatter(src);
    assert!(s.ambiguous);
    assert_eq!(s.body, src);
}

#[test]
fn strict_strip_leaves_an_unclosed_block_alone() {
    let src = "---\ntitle: x\nstatus: y\n";
    let s = strip_yaml_frontmatter(src);
    assert!(s.ambiguous);
    assert_eq!(s.body, src);
    assert_eq!(s.title, None);
}

#[test]
fn strict_strip_ignores_documents_without_frontmatter() {
    let src = "# Title\n\n---\n\npage two\n";
    let s = strip_yaml_frontmatter(src);
    assert!(!s.ambiguous);
    assert_eq!(s.body, src);
    assert_eq!(s.title, None);
}

#[test]
fn strict_strip_handles_crlf_and_a_bom() {
    let src = "\u{feff}---\r\ntitle: T\r\n---\r\nbody\r\n";
    let s = strip_yaml_frontmatter(src);
    assert!(!s.ambiguous);
    assert_eq!(s.title.as_deref(), Some("T"));
    assert_eq!(s.body, "body\r\n");
}

#[test]
fn strict_strip_edges() {
    let s = strip_yaml_frontmatter("");
    assert!(!s.ambiguous);
    // A block with no key is a page break.
    let s = strip_yaml_frontmatter("---\n# c\n...\nx");
    assert!(s.ambiguous);
    // `...` closes a block, and the last title wins.
    let s = strip_yaml_frontmatter("---\ntitle: a\ntitle: 'b'\ntitle:\n...\n\r\n\nx");
    assert_eq!(s.title.as_deref(), Some("b"));
    assert_eq!(s.body, "x");
}

#[test]
fn frontmatter_lines_are_told_apart() {
    let other = |l: &str| matches!(classify_frontmatter_line(l), FrontmatterLine::Other);
    let prose = |l: &str| matches!(classify_frontmatter_line(l), FrontmatterLine::NotYaml);
    assert!(other(""));
    assert!(other("# c"));
    assert!(other("- a"));
    assert!(other("-"));
    assert!(other("\tx: y"));
    assert!(prose("no colon"));
    assert!(prose("http://x"));
    assert!(prose("a/b: c"));
    assert!(prose(": x"));
    assert!(matches!(
        classify_frontmatter_line("déjà vu-1.x_ :  v \n"),
        FrontmatterLine::Key(k, v) if k == "déjà vu-1.x_" && v == "v"
    ));
    assert!(is_yaml_key("日本"));
    assert!(!is_yaml_key(""));
    assert!(!is_yaml_key("a,b"));
    assert_eq!(unquote(" 'a' "), "a");
    assert_eq!(unquote("\"\""), "");
    assert_eq!(unquote("\""), "\"");
    assert_eq!(unquote("'a\""), "'a\"");
}

#[test]
fn wide_tables_are_capped() {
    let width = |cols: usize, text: &str| {
        let rows = vec![vec![text.to_string(); cols]];
        let layout = table_layout(&rows).unwrap();
        assert_eq!(layout.col_w.iter().sum::<u64>(), layout.width);
        layout.width
    };
    assert_eq!(width(1, "x"), 80);
    assert_eq!(width(17, "x"), 17 * 80);
    assert_eq!(width(20, "x"), 1400);
    assert_eq!(width(19, "x"), 19 * 73);
    assert_eq!(width(200, "a longer text"), 1400);
    assert_eq!(width(1500, "x"), 0);
    assert!(width(3, "a long text, a long text, a long text, a long text") <= 1400);
    // A right-aligned text in a column narrower than the padding.
    let rows = vec![vec!["x".to_string(); 200]];
    let svg = build_table_svg(&rows, &vec![Alignment::Right; 200]);
    assert!(svg.contains("width=\"1400\""));
    assert!(svg.contains("<text x=\"0\""));
}

#[test]
fn paths_are_held_below_the_base() {
    let path = |s: &str| -> Vec<String> { s.split('/').map(str::to_owned).collect() };
    assert!(is_beneath(&path("r/a"), &path("r/a/b.png")));
    assert!(is_beneath(&path("r/a"), &path("r/a")));
    assert!(!is_beneath(&path("r/a"), &path("r/ab/c.png")));
    assert!(!is_beneath(&path("r/a"), &path("r")));
    assert!(!is_beneath(&path("r/a"), &path("s/a/b.png")));
    assert!(is_beneath(&vec![], &path("r")));
}

#[test]
fn yaml_key_chars_are_letters_digits_and_four_marks() {
    for c in ['0', '9', 'A', 'Z', 'a', 'z', '_', '-', ' ', '.', 'é', '日'] {
        assert!(is_yaml_key_char(c), "{c:?}");
    }
    for c in ['/', ':', '@', '[', '`', '{', '\t', '\n', '\u{7f}', '\u{200b}'] {
        assert!(!is_yaml_key_char(c), "{c:?}");
    }
}

#[test]
fn later_pairs_count() {
    let pair = |k: &str, v: &str| (k.to_string(), v.to_string());
    let mut meta = Metadata {
        entries: vec![pair("a", "1"), pair("b", "2"), pair("a", "3")],
    };
    assert_eq!(meta.get("a").map(String::as_str), Some("3"));
    assert_eq!(meta.get("b").map(String::as_str), Some("2"));
    assert_eq!(meta.get("c"), None);
    meta.insert("a".to_string(), "4".to_string());
    assert_eq!(meta.get("a").map(String::as_str), Some("4"));
    meta.insert("c".to_string(), "5".to_string());
    assert_eq!(meta.get("c").map(String::as_str), Some("5"));
    assert!(!meta.is_empty());
    assert!(Metadata::new().is_empty());
}
