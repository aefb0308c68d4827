//! Terminal rendering of Markdown text: word wrapping, table layout,
//! front-matter handling and CommonMark reformatting.

pub mod text;
pub mod frontmatter;
pub mod style;
pub mod wrap;
pub mod wrap_laws;
pub mod wrap_breaks;
pub mod wrap_shape;
pub mod wrap_words;
pub mod tree;
pub mod table;
pub mod table_laws;
pub mod table_fill;
pub mod render;
pub mod render_laws;
pub mod inline_laws;
pub mod xml;
pub mod xml_laws;
pub mod cmark;
pub mod format;
pub mod format_laws;
pub mod format_idem;
pub mod format_blocks;
