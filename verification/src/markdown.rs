//! Markdown: rendering to an XHTML fragment, tables as drawings, and
//! frontmatter.

pub mod escape;
pub mod frontmatter;
pub mod frontmatter_laws;
pub mod plain;
pub mod render;
pub mod render_laws;
pub mod table;
pub mod text_laws;
pub mod wrap;

pub use escape::{push_html_text, xml_escape};
pub use frontmatter::{
    extract_h1_title, parse_frontmatter, strip_yaml_frontmatter, Document, Metadata, Stripped,
};
pub use plain::{emit_bullet_table, format_ascii_table};
pub use render::{
    markdown_to_html_fragment, render_markdown, Embedded, InlineAsset, Rendered,
};
pub use table::{build_table_svg, svg_placeholder};
pub use wrap::wrap_text;
