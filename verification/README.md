# mdrender

Rendering of Markdown text for a terminal, verified with Verus.

A document is parsed by `comrak` (tables, task lists, strikethrough and
autolinks on), read back from its CommonMark XML form into a document tree,
and rendered into lines of styled spans: paragraphs are wrapped at a width in
bytes with brackets kept with their words, list items are wrapped with
indented continuation lines, code blocks and headings are never wrapped, and
tables are laid out in columns fitted to a target width. A second entry point
reformats Markdown as CommonMark with aligned table columns.

## Layout

- `src/` — the verified library
  - `text.rs` — whitespace, UTF-8 byte lengths, trimming, line splitting
  - `frontmatter.rs` — removal of a leading `---` block
  - `style.rs` — colours, modifiers, styles, spans, lines and the theme
  - `wrap.rs` — paragraph and list-item wrapping; `wrap_laws.rs` — what
    wrapping keeps; `wrap_breaks.rs` — where lines may break;
    `wrap_shape.rs` — fit, greediness and dropped spaces of wrapped spans;
    `wrap_words.rs` — what list-item wrapping keeps of the words
  - `tree.rs` — the document tree; `xml.rs` — reading it from CommonMark XML;
    `xml_laws.rs` — the reader reads back what the XML writer writes
  - `render.rs` — rendering a tree into lines; `render_laws.rs` — the layout
    rules of blocks; `inline_laws.rs` — the styles of inline content
  - `table.rs` — table column widths and lines; `table_laws.rs` — equal line
    lengths, layout of rows and separators, minimum widths; `table_fill.rs` —
    short tables filling the target width
  - `format.rs` — table alignment and trailing-whitespace removal for
    CommonMark text; `format_laws.rs` — what alignment keeps;
    `format_idem.rs` — aligning twice is aligning once; `format_blocks.rs` —
    what alignment does to each line of a text
  - `cmark.rs` — the calls into `comrak` and the two entry points
- `tests/` — the tests
- `app/` — conversions to `ratatui` lines and styles
