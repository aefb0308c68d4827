//! Rendering and reformatting of Markdown text through the CommonMark parser
//! of `comrak`.

use vstd::prelude::*;
use crate::format::{tidy, tidy_commonmark};
use crate::frontmatter::{frontmatter_body, strip_frontmatter};
use crate::render::{render_node, render_node_into};
use crate::style::{MarkdownTheme, SpanView, StyledLine, lines_view};
use crate::text::chars_of;
use crate::xml::{parse_xml, parse_xml_exec};

verus! {

/// The parser and renderer settings that the library hands to `comrak`; every
/// other setting keeps its default.
#[derive(Clone, Copy, Debug, PartialEq, Eq, Structural)]
pub struct MarkdownOptions {
    /// GitHub-style tables.
    pub table: bool,
    /// Task-list items (`- [x]`).
    pub tasklist: bool,
    /// `~~struck~~` text.
    pub strikethrough: bool,
    /// Bare URLs become links.
    pub autolink: bool,
    /// The column at which the CommonMark writer wraps text; 0 for none.
    pub width: usize,
    /// Whether the CommonMark writer fences code blocks.
    pub prefer_fenced: bool,
}

/// The settings used to parse a document for display.
pub open spec fn render_options() -> MarkdownOptions {
    MarkdownOptions {
        table: true,
        tasklist: true,
        strikethrough: true,
        autolink: true,
        width: 0,
        prefer_fenced: false,
    }
}

/// The settings used to write a document back as CommonMark at `width`.
pub open spec fn format_options(width: usize) -> MarkdownOptions {
    MarkdownOptions {
        table: true,
        tasklist: true,
        strikethrough: true,
        autolink: true,
        width,
        prefer_fenced: true,
    }
}

/// The settings used to parse a document for display: tables, task lists,
/// strikethrough and autolinks on, everything else at its default.
pub fn comrak_options() -> (r: MarkdownOptions)
    ensures
        r == render_options(),
{
    MarkdownOptions {
        table: true,
        tasklist: true,
        strikethrough: true,
        autolink: true,
        width: 0,
        prefer_fenced: false,
    }
}

/// The CommonMark XML form of the document that `comrak` parses from `md`
/// with the settings `opts`.
pub uninterp spec fn commonmark_xml(md: Seq<char>, opts: MarkdownOptions) -> Seq<char>;

/// The CommonMark text that `comrak` writes for the document it parses from
/// `md` with the settings `opts`.
pub uninterp spec fn commonmark_text(md: Seq<char>, opts: MarkdownOptions) -> Seq<char>;

/// Parses `md` and writes the document as CommonMark XML, by
/// `comrak::markdown_to_commonmark_xml` with the settings of `opts` and the
/// defaults of `comrak::Options` otherwise.  The contract names the result:
/// it depends on the text and the settings alone.  What the XML holds (the
/// elements of the CommonMark DTD) is not stated here; the reader in `xml`
/// turns it into a tree.  Writing into a `String` cannot fail, so the call
/// returns for every input.
#[verifier::external_body]
fn to_commonmark_xml(md: &str, opts: MarkdownOptions) -> (r: String)
    ensures
        r@ == commonmark_xml(md@, opts),
{
    let mut o = comrak::Options::default();
    o.extension.table = opts.table;
    o.extension.tasklist = opts.tasklist;
    o.extension.strikethrough = opts.strikethrough;
    o.extension.autolink = opts.autolink;
    o.render.width = opts.width;
    o.render.prefer_fenced = opts.prefer_fenced;
    comrak::markdown_to_commonmark_xml(md, &o)
}

/// Parses `md` and writes the document back as CommonMark text, by
/// `comrak::markdown_to_commonmark` with the settings of `opts` and the
/// defaults of `comrak::Options` otherwise.  The contract names the result:
/// it depends on the text and the settings alone; how `comrak` lays the text
/// out is not stated.
#[verifier::external_body]
fn to_commonmark(md: &str, opts: MarkdownOptions) -> (r: String)
    ensures
        r@ == commonmark_text(md@, opts),
{
    let mut o = comrak::Options::default();
    o.extension.table = opts.table;
    o.extension.tasklist = opts.tasklist;
    o.extension.strikethrough = opts.strikethrough;
    o.extension.autolink = opts.autolink;
    o.render.width = opts.width;
    o.render.prefer_fenced = opts.prefer_fenced;
    comrak::markdown_to_commonmark(md, &o)
}

/// The lines that the document described by the CommonMark XML text `xml`
/// renders to; no lines when the text describes no element.
pub open spec fn render_xml(th: MarkdownTheme, xml: Seq<char>, wrap: int) -> Seq<Seq<SpanView>> {
    match parse_xml(xml) {
        Some(t) => render_node(th, t, wrap),
        None => seq![],
    }
}

/// Renders the document that the CommonMark XML text `xml` describes into
/// styled lines, wrapping paragraphs at `wrap` bytes.
pub fn render_xml_document(th: &MarkdownTheme, xml: &str, wrap: usize) -> (r: Vec<StyledLine>)
    ensures
        lines_view(r@) == render_xml(*th, xml@, wrap as int),
{
    let x = chars_of(xml);
    let mut lines: Vec<StyledLine> = Vec::new();
    match parse_xml_exec(&x) {
        Some(root) => {
            render_node_into(&root, th, &mut lines, wrap);
            assert(lines_view(lines@) =~= render_node(*th, root.view(), wrap as int));
        },
        None => {
            assert(lines_view(lines@) =~= Seq::<Seq<SpanView>>::empty());
        },
    }
    lines
}

/// Renders Markdown `text` into styled lines for a terminal: the front matter
/// is dropped, the rest is parsed with tables, task lists, strikethrough and
/// autolinks, and paragraphs are wrapped at `wrap` bytes.
pub fn render_markdown(th: &MarkdownTheme, text: &str, wrap: usize) -> (r: Vec<StyledLine>)
    ensures
        lines_view(r@) == render_xml(
            *th,
            commonmark_xml(frontmatter_body(text@), render_options()),
            wrap as int,
        ),
{
    let body = strip_frontmatter(text);
    let xml = to_commonmark_xml(body, comrak_options());
    render_xml_document(th, xml.as_str(), wrap)
}

/// The settings used to write a document back as CommonMark at `width`:
/// tables, task lists, strikethrough and autolinks on, code blocks fenced.
pub fn commonmark_options(width: usize) -> (r: MarkdownOptions)
    ensures
        r == format_options(width),
{
    MarkdownOptions {
        table: true,
        tasklist: true,
        strikethrough: true,
        autolink: true,
        width,
        prefer_fenced: true,
    }
}

/// Reformats Markdown `text` as CommonMark wrapped at `width` columns, with
/// the columns of its tables aligned and no whitespace at the end of a line.
pub fn format_commonmark(text: &str, width: usize) -> (r: String)
    ensures
        r@ == tidy(commonmark_text(text@, format_options(width))),
{
    let formatted = to_commonmark(text, commonmark_options(width));
    tidy_commonmark(formatted.as_str())
}

} // verus!
