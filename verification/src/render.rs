//! Rendering of a document tree to styled lines.

use vstd::prelude::*;
use crate::style::{
    MarkdownTheme, SpanView, StyledLine, StyledSpan, TextStyle, add_mods, bold_mod, dim_mod,
    underlined_mod, plain_style, spans_view, lines_view, span_lines_view,
};
use crate::tree::{MdNode, NodeKind, Tree, children_view, lemma_children_view_step};
use crate::text::{
    str_lines, trim, lines_of, string_of, extend_chars, extend_str, trimmed, vec_lines_view,
};
use crate::wrap::{wrap_spans, wrap_spans_spec, wrap_lines_spec, wrap_chars, char_lines_view};
use crate::table::{table_lines, rows_view, render_table_rows};

verus! {

pub open spec fn span_of(t: Seq<char>, s: TextStyle) -> SpanView {
    SpanView { text: t, style: s }
}

/// The plain text of the children of `n`: text and code as written, line
/// breaks as spaces, and the text of other nodes from their own children.
pub open spec fn collect_text(n: Tree) -> Seq<char>
    decreases n,
{
    collect_seq(n.children)
}

pub open spec fn collect_seq(s: Seq<Tree>) -> Seq<char>
    decreases s,
{
    if s.len() == 0 {
        seq![]
    } else {
        let c = s.last();
        collect_seq(s.drop_last()) + match c.kind {
            NodeKind::Text => c.literal,
            NodeKind::Code => c.literal,
            NodeKind::SoftBreak => seq![' '],
            NodeKind::LineBreak => seq![' '],
            _ => collect_text(c),
        }
    }
}

/// The styled spans of the inline content of `n`, with `base` as the style of
/// plain text.
pub open spec fn inline_spans(th: MarkdownTheme, n: Tree, base: TextStyle) -> Seq<SpanView>
    decreases n,
{
    inline_seq(th, n.children, base)
}

pub open spec fn inline_seq(th: MarkdownTheme, s: Seq<Tree>, base: TextStyle) -> Seq<SpanView>
    decreases s,
{
    if s.len() == 0 {
        seq![]
    } else {
        let c = s.last();
        inline_seq(th, s.drop_last(), base) + match c.kind {
            NodeKind::Text => if c.literal.len() > 0 {
                seq![span_of(c.literal, base)]
            } else {
                seq![]
            },
            NodeKind::Code => if c.literal.len() > 0 {
                seq![span_of(c.literal, th.code)]
            } else {
                seq![]
            },
            NodeKind::Strong => inline_spans(th, c, add_mods(base, bold_mod())),
            NodeKind::Emph => inline_spans(th, c, add_mods(base, dim_mod())),
            NodeKind::Link => inline_spans(th, c, add_mods(base, underlined_mod())),
            NodeKind::SoftBreak => seq![span_of(seq![' '], base)],
            NodeKind::LineBreak => seq![span_of(seq![' '], base)],
            NodeKind::HtmlInline => seq![span_of(c.literal, base)],
            NodeKind::Image => {
                let alt = collect_text(c);
                seq![span_of(if alt.len() == 0 { c.url } else { alt }, base)]
            },
            _ => inline_spans(th, c, base),
        }
    }
}

/// The line that a string makes: one plain span for each of its lines.
pub open spec fn line_of_text(t: Seq<char>) -> Seq<SpanView> {
    str_lines(t).map_values(|x: Seq<char>| span_of(x, plain_style()))
}

/// The concatenated texts of the children of a list item.
pub open spec fn item_text(s: Seq<Tree>) -> Seq<char>
    decreases s.len(),
{
    if s.len() == 0 {
        seq![]
    } else {
        item_text(s.drop_last()) + collect_text(s.last())
    }
}

/// The width at which list items are wrapped.
pub open spec fn item_width(wrap: int) -> int {
    if wrap < 40 {
        78
    } else {
        wrap
    }
}

/// The lines of a list item whose first line is `first`: the wrapped text,
/// with continuation lines indented by `indent`.
pub open spec fn item_lines(first: Seq<char>, wrap: int, indent: Seq<char>) -> Seq<Seq<SpanView>> {
    let segs = wrap_lines_spec(first, item_width(wrap));
    Seq::new(
        segs.len(),
        |i: int|
            line_of_text(
                if i == 0 {
                    segs[i]
                } else {
                    indent + segs[i]
                },
            ),
    )
}

/// The cell texts of a table node: for each row, the trimmed text of each cell.
pub open spec fn table_rows(s: Seq<Tree>) -> Seq<Seq<Seq<char>>>
    decreases s.len(),
{
    if s.len() == 0 {
        seq![]
    } else {
        let r = s.last();
        table_rows(s.drop_last()) + if r.kind == NodeKind::TableRow {
            seq![row_cells(r.children)]
        } else {
            seq![]
        }
    }
}

pub open spec fn row_cells(s: Seq<Tree>) -> Seq<Seq<char>>
    decreases s.len(),
{
    if s.len() == 0 {
        seq![]
    } else {
        let c = s.last();
        row_cells(s.drop_last()) + if c.kind == NodeKind::TableCell {
            seq![trim(collect_text(c))]
        } else {
            seq![]
        }
    }
}

pub open spec fn heading_prefix(level: u8) -> Seq<char> {
    if level == 1 {
        "# "@
    } else if level == 2 {
        "## "@
    } else {
        "### "@
    }
}

pub open spec fn heading_style(th: MarkdownTheme, level: u8) -> TextStyle {
    if level == 1 {
        th.h1
    } else if level == 2 {
        th.h2
    } else {
        th.h3
    }
}

pub open spec fn task_prefix(checked: bool) -> Seq<char> {
    if checked {
        "  - [x] "@
    } else {
        "  - [ ] "@
    }
}

/// The lines that node `n` renders to.
pub open spec fn render_node(th: MarkdownTheme, n: Tree, wrap: int) -> Seq<Seq<SpanView>>
    decreases n,
{
    let blank: Seq<SpanView> = seq![];
    match n.kind {
        NodeKind::Heading(l) => {
            let st = heading_style(th, l);
            seq![seq![span_of(heading_prefix(l), st)] + inline_spans(th, n, st), blank]
        },
        NodeKind::Paragraph => {
            let sp = inline_spans(th, n, plain_style());
            (if sp.len() > 0 {
                wrap_spans_spec(sp, wrap)
            } else {
                seq![]
            }) + seq![blank]
        },
        NodeKind::List => render_seq(th, n.children, wrap) + seq![blank],
        NodeKind::Item => {
            let content = trim(item_text(n.children));
            if content.len() > 0 {
                item_lines("  - "@ + content, wrap, "    "@)
            } else {
                seq![]
            }
        },
        NodeKind::TaskItem(checked) => {
            let content = trim(item_text(n.children));
            item_lines(task_prefix(checked) + content, wrap, "        "@)
        },
        NodeKind::CodeBlock => str_lines(n.literal).map_values(
            |l: Seq<char>| seq![span_of(l, th.code_block)],
        ) + seq![blank],
        NodeKind::Table => table_lines(table_rows(n.children)) + seq![blank],
        NodeKind::ThematicBreak => seq![seq![span_of("---"@, plain_style())], blank],
        NodeKind::HtmlBlock => str_lines(n.literal).map_values(|l: Seq<char>| line_of_text(l)),
        _ => render_seq(th, n.children, wrap),
    }
}

pub open spec fn render_seq(th: MarkdownTheme, s: Seq<Tree>, wrap: int) -> Seq<Seq<SpanView>>
    decreases s,
{
    if s.len() == 0 {
        seq![]
    } else {
        render_seq(th, s.drop_last(), wrap) + render_node(th, s.last(), wrap)
    }
}


/// Appends the plain text of the children of `node` to `acc`.
pub fn collect_text_into(node: &MdNode, acc: &mut Vec<char>)
    ensures
        final(acc)@ == old(acc)@ + collect_text(node.view()),
    decreases node,
{
    let mut i: usize = 0;
    let ghost s = node.children@;
    assert(s.take(0) =~= Seq::<MdNode>::empty());
    assert(old(acc)@ + collect_seq(children_view(s.take(0))) =~= old(acc)@);
    while i < node.children.len()
        invariant
            i <= s.len(),
            s == node.children@,
            acc@ =~= old(acc)@ + collect_seq(children_view(s.take(i as int))),
        decreases s.len() - i,
    {
        proof {
            lemma_children_view_step(s, i as int);
        }
        let c = &node.children[i];
        match c.kind {
            NodeKind::Text => extend_chars(acc, &c.literal),
            NodeKind::Code => extend_chars(acc, &c.literal),
            NodeKind::SoftBreak => acc.push(' '),
            NodeKind::LineBreak => acc.push(' '),
            _ => collect_text_into(c, acc),
        }
        i = i + 1;
    }
    assert(s.take(i as int) =~= s);
}

/// The plain text of the children of `node`.
pub fn collect_text_of(node: &MdNode) -> (r: Vec<char>)
    ensures
        r@ == collect_text(node.view()),
{
    let mut acc: Vec<char> = Vec::new();
    collect_text_into(node, &mut acc);
    assert(acc@ =~= collect_text(node.view()));
    acc
}

fn span_from(t: &Vec<char>, style: TextStyle) -> (r: StyledSpan)
    ensures
        r.view() == span_of(t@, style),
{
    StyledSpan { content: string_of(t), style }
}

/// Appends the styled spans of the inline content of `node` to `spans`.
pub fn render_inline(
    node: &MdNode,
    th: &MarkdownTheme,
    spans: &mut Vec<StyledSpan>,
    base: TextStyle,
)
    ensures
        spans_view(final(spans)@) == spans_view(old(spans)@) + inline_spans(*th, node.view(), base),
    decreases node,
{
    let mut i: usize = 0;
    let ghost s = node.children@;
    assert(spans_view(old(spans)@) + inline_seq(*th, children_view(s.take(0)), base) =~= spans_view(old(spans)@));
    while i < node.children.len()
        invariant
            i <= s.len(),
            s == node.children@,
            spans_view(spans@) =~= spans_view(old(spans)@) + inline_seq(*th, children_view(s.take(i as int)), base),
        decreases s.len() - i,
    {
        proof {
            lemma_children_view_step(s, i as int);
        }
        let c = &node.children[i];
        let ghost before = spans_view(spans@);
        match c.kind {
            NodeKind::Text => {
                if c.literal.len() > 0 {
                    spans.push(span_from(&c.literal, base));
                }
            },
            NodeKind::Code => {
                if c.literal.len() > 0 {
                    spans.push(span_from(&c.literal, th.code));
                }
            },
            NodeKind::Strong => render_inline(c, th, spans, base.add_modifier(crate::style::Modifiers::bold())),
            NodeKind::Emph => render_inline(c, th, spans, base.add_modifier(crate::style::Modifiers::dim())),
            NodeKind::Link => render_inline(c, th, spans, base.add_modifier(crate::style::Modifiers::underlined())),
            NodeKind::SoftBreak | NodeKind::LineBreak => {
                let mut t: Vec<char> = Vec::new();
                t.push(' ');
                spans.push(span_from(&t, base));
            },
            NodeKind::HtmlInline => spans.push(span_from(&c.literal, base)),
            NodeKind::Image => {
                let alt = collect_text_of(c);
                if alt.len() == 0 {
                    spans.push(span_from(&c.url, base));
                } else {
                    spans.push(span_from(&alt, base));
                }
            },
            _ => render_inline(c, th, spans, base),
        }
        assert(spans_view(spans@) =~= before + inline_seq(*th, children_view(s.take(i + 1)), base).skip(
            inline_seq(*th, children_view(s.take(i as int)), base).len() as int));
        i = i + 1;
    }
    assert(s.take(i as int) =~= s);
}


/// The line that the text `t` makes (see `line_of_text`).
pub fn line_from_text(t: &Vec<char>) -> (r: StyledLine)
    ensures
        r.view() == line_of_text(t@),
{
    let parts = lines_of(t);
    let mut spans: Vec<StyledSpan> = Vec::new();
    let mut i: usize = 0;
    while i < parts.len()
        invariant
            i <= parts.len(),
            spans_view(spans@) =~= vec_lines_view(parts@).take(i as int).map_values(
                |x: Seq<char>| span_of(x, plain_style()),
            ),
        decreases parts.len() - i,
    {
        let ghost old_spans = spans_view(spans@);
        spans.push(span_from(&parts[i], TextStyle::plain()));
        assert(spans_view(spans@) =~= old_spans.push(span_of(parts@[i as int]@, plain_style())));
        assert(vec_lines_view(parts@).take(i + 1) =~= vec_lines_view(parts@).take(i as int).push(
            parts@[i as int]@,
        ));
        i = i + 1;
    }
    assert(vec_lines_view(parts@).take(i as int) =~= vec_lines_view(parts@));
    StyledLine { spans }
}

fn blank_line() -> (r: StyledLine)
    ensures
        r.view() == Seq::<SpanView>::empty(),
{
    let r = StyledLine { spans: Vec::new() };
    assert(r.view() =~= Seq::<SpanView>::empty());
    r
}

pub fn push_line(lines: &mut Vec<StyledLine>, l: StyledLine)
    ensures
        lines_view(final(lines)@) == lines_view(old(lines)@).push(l.view()),
{
    lines.push(l);
    assert(lines_view(lines@) =~= lines_view(old(lines)@).push(l.view()));
}

/// Appends lines made of the given spans.
fn push_span_lines(lines: &mut Vec<StyledLine>, wrapped: Vec<Vec<StyledSpan>>)
    ensures
        lines_view(final(lines)@) == lines_view(old(lines)@) + span_lines_view(wrapped@),
{
    let ghost orig = span_lines_view(wrapped@);
    let mut rest = wrapped;
    let ghost n: int = orig.len() as int;
    while rest.len() > 0
        invariant
            n == orig.len(),
            rest.len() <= n,
            span_lines_view(rest@) == orig.skip(n - rest.len()),
            lines_view(lines@) =~= lines_view(old(lines)@) + orig.take(n - rest.len()),
        decreases rest.len(),
    {
        let ghost k = n - rest.len();
        let ghost before = span_lines_view(rest@);
        let l = rest.remove(0);
        assert(orig[k] == spans_view(l@)) by {
            assert(orig.skip(k)[0] == orig[k]);
        }
        assert(span_lines_view(rest@) =~= before.skip(1));
        assert(before.skip(1) =~= orig.skip(n - rest.len()));
        push_line(lines, StyledLine { spans: l });
        assert(orig.take(k + 1) =~= orig.take(k).push(orig[k]));
    }
    assert(orig.take(n as int) =~= orig);
}

/// Appends the lines of a list item whose first line is `first`.
fn push_item_lines(lines: &mut Vec<StyledLine>, first: &Vec<char>, wrap: usize, indent: &str)
    ensures
        lines_view(final(lines)@) == lines_view(old(lines)@) + item_lines(
            first@,
            wrap as int,
            indent@,
        ),
{
    let lw: usize = if wrap < 40 {
        78
    } else {
        wrap
    };
    let segs = wrap_chars(first, lw);
    let ghost target = item_lines(first@, wrap as int, indent@);
    let mut i: usize = 0;
    while i < segs.len()
        invariant
            i <= segs.len(),
            target.len() == segs.len(),
            target == item_lines(first@, wrap as int, indent@),
            char_lines_view(segs@) == wrap_lines_spec(first@, item_width(wrap as int)),
            lines_view(lines@) =~= lines_view(old(lines)@) + target.take(i as int),
        decreases segs.len() - i,
    {
        let mut t: Vec<char> = Vec::new();
        if i > 0 {
            extend_str(&mut t, indent);
        }
        extend_chars(&mut t, &segs[i]);
        let l = line_from_text(&t);
        assert(l.view() == target[i as int]);
        push_line(lines, l);
        assert(target.take(i + 1) =~= target.take(i as int).push(target[i as int]));
        i = i + 1;
    }
    assert(target.take(i as int) =~= target);
}

/// The concatenated texts of the children of a list item, trimmed.
fn item_content(node: &MdNode) -> (r: Vec<char>)
    ensures
        r@ == trim(item_text(children_view(node.children@))),
{
    let mut acc: Vec<char> = Vec::new();
    let ghost s = node.children@;
    let mut i: usize = 0;
    while i < node.children.len()
        invariant
            i <= s.len(),
            s == node.children@,
            acc@ =~= item_text(children_view(s.take(i as int))),
        decreases s.len() - i,
    {
        proof {
            lemma_children_view_step(s, i as int);
        }
        collect_text_into(&node.children[i], &mut acc);
        i = i + 1;
    }
    assert(s.take(i as int) =~= s);
    trimmed(&acc)
}

/// The cell texts of the rows of a table node.
fn table_rows_of(node: &MdNode) -> (r: Vec<Vec<Vec<char>>>)
    ensures
        rows_view(r@) == table_rows(children_view(node.children@)),
{
    let mut rows: Vec<Vec<Vec<char>>> = Vec::new();
    let ghost s = node.children@;
    let mut i: usize = 0;
    assert(rows_view(rows@) =~= table_rows(children_view(s.take(0))));
    while i < node.children.len()
        invariant
            i <= s.len(),
            s == node.children@,
            rows_view(rows@) =~= table_rows(children_view(s.take(i as int))),
        decreases s.len() - i,
    {
        proof {
            lemma_children_view_step(s, i as int);
        }
        let r = &node.children[i];
        if r.kind == NodeKind::TableRow {
            let ghost cs = r.children@;
            let mut cells: Vec<Vec<char>> = Vec::new();
            let mut j: usize = 0;
            assert(cells@.map_values(|c: Vec<char>| c@) =~= row_cells(children_view(cs.take(0))));
            while j < r.children.len()
                invariant
                    j <= cs.len(),
                    cs == r.children@,
                    cells@.map_values(|c: Vec<char>| c@) =~= row_cells(children_view(cs.take(j as int))),
                decreases cs.len() - j,
            {
                proof {
                    lemma_children_view_step(cs, j as int);
                }
                let c = &r.children[j];
                if c.kind == NodeKind::TableCell {
                    let t = collect_text_of(c);
                    cells.push(trimmed(&t));
                }
                j = j + 1;
            }
            assert(cs.take(j as int) =~= cs);
            rows.push(cells);
        }
        i = i + 1;
    }
    assert(s.take(i as int) =~= s);
    rows
}

/// Appends the lines that `node` renders to, wrapping paragraphs at `wrap`
/// bytes.
pub fn render_node_into(
    node: &MdNode,
    th: &MarkdownTheme,
    lines: &mut Vec<StyledLine>,
    wrap: usize,
)
    ensures
        lines_view(final(lines)@) == lines_view(old(lines)@) + render_node(*th, node.view(), wrap as int),
    decreases node,
{
    match node.kind {
        NodeKind::Heading(l) => {
            let style = if l == 1 {
                th.h1
            } else if l == 2 {
                th.h2
            } else {
                th.h3
            };
            let mut p: Vec<char> = Vec::new();
            if l == 1 {
                extend_str(&mut p, "# ");
            } else if l == 2 {
                extend_str(&mut p, "## ");
            } else {
                extend_str(&mut p, "### ");
            }
            assert(style == heading_style(*th, l));
            assert(p@ == heading_prefix(l));
            let mut spans: Vec<StyledSpan> = Vec::new();
            spans.push(span_from(&p, style));
            assert(spans_view(spans@) =~= seq![span_of(heading_prefix(l), style)]);
            render_inline(node, th, &mut spans, style);
            let line = StyledLine { spans };
            assert(line.view() =~= seq![span_of(heading_prefix(l), style)] + inline_spans(
                *th,
                node.view(),
                style,
            ));
            let ghost lv = line.view();
            push_line(lines, line);
            push_line(lines, blank_line());
            assert(lines_view(lines@) =~= lines_view(old(lines)@) + seq![lv, Seq::<SpanView>::empty()]);
        },
        NodeKind::Paragraph => {
            let mut spans: Vec<StyledSpan> = Vec::new();
            render_inline(node, th, &mut spans, TextStyle::plain());
            assert(spans_view(spans@) =~= inline_spans(*th, node.view(), plain_style()));
            if spans.len() > 0 {
                let wrapped = wrap_spans(&spans, wrap);
                push_span_lines(lines, wrapped);
            }
            push_line(lines, blank_line());
        },
        NodeKind::List => {
            render_children(node, th, lines, wrap);
            push_line(lines, blank_line());
        },
        NodeKind::Item => {
            let content = item_content(node);
            if content.len() > 0 {
                let mut first: Vec<char> = Vec::new();
                extend_str(&mut first, "  - ");
                extend_chars(&mut first, &content);
                push_item_lines(lines, &first, wrap, "    ");
            }
        },
        NodeKind::TaskItem(checked) => {
            let content = item_content(node);
            let mut first: Vec<char> = Vec::new();
            if checked {
                extend_str(&mut first, "  - [x] ");
            } else {
                extend_str(&mut first, "  - [ ] ");
            }
            extend_chars(&mut first, &content);
            push_item_lines(lines, &first, wrap, "        ");
        },
        NodeKind::CodeBlock => {
            let ls = lines_of(&node.literal);
            let mut k: usize = 0;
            let ghost target = str_lines(node.view().literal).map_values(
                |l: Seq<char>| seq![span_of(l, th.code_block)],
            );
            while k < ls.len()
                invariant
                    k <= ls.len(),
                    vec_lines_view(ls@) == str_lines(node.view().literal),
                    target == str_lines(node.view().literal).map_values(
                        |l: Seq<char>| seq![span_of(l, th.code_block)],
                    ),
                    lines_view(lines@) =~= lines_view(old(lines)@) + target.take(k as int),
                decreases ls.len() - k,
            {
                let mut spans: Vec<StyledSpan> = Vec::new();
                spans.push(span_from(&ls[k], th.code_block));
                let l = StyledLine { spans };
                assert(l.view() =~= target[k as int]);
                push_line(lines, l);
                assert(target.take(k + 1) =~= target.take(k as int).push(target[k as int]));
                k = k + 1;
            }
            assert(target.take(k as int) =~= target);
            push_line(lines, blank_line());
        },
        NodeKind::Table => {
            let rows = table_rows_of(node);
            render_table_rows(&rows, lines);
            push_line(lines, blank_line());
        },
        NodeKind::ThematicBreak => {
            let mut t: Vec<char> = Vec::new();
            extend_str(&mut t, "---");
            let mut spans: Vec<StyledSpan> = Vec::new();
            spans.push(span_from(&t, TextStyle::plain()));
            let line = StyledLine { spans };
            assert(line.view() =~= seq![span_of("---"@, plain_style())]);
            let ghost lv = line.view();
            push_line(lines, line);
            push_line(lines, blank_line());
            assert(lines_view(lines@) =~= lines_view(old(lines)@) + seq![lv, Seq::<SpanView>::empty()]);
        },
        NodeKind::HtmlBlock => {
            let ls = lines_of(&node.literal);
            let mut k: usize = 0;
            let ghost target = str_lines(node.view().literal).map_values(|l: Seq<char>| line_of_text(l));
            while k < ls.len()
                invariant
                    k <= ls.len(),
                    vec_lines_view(ls@) == str_lines(node.view().literal),
                    target == str_lines(node.view().literal).map_values(|l: Seq<char>| line_of_text(l)),
                    lines_view(lines@) =~= lines_view(old(lines)@) + target.take(k as int),
                decreases ls.len() - k,
            {
                let l = line_from_text(&ls[k]);
                push_line(lines, l);
                assert(target.take(k + 1) =~= target.take(k as int).push(target[k as int]));
                k = k + 1;
            }
            assert(target.take(k as int) =~= target);
        },
        _ => {
            render_children(node, th, lines, wrap);
        },
    }
}

/// Appends the lines of the children of `node`.
fn render_children(node: &MdNode, th: &MarkdownTheme, lines: &mut Vec<StyledLine>, wrap: usize)
    ensures
        lines_view(final(lines)@) == lines_view(old(lines)@) + render_seq(
            *th,
            children_view(node.children@),
            wrap as int,
        ),
    decreases node, 0int,
{
    let ghost s = node.children@;
    let mut i: usize = 0;
    assert(lines_view(old(lines)@) + render_seq(*th, children_view(s.take(0)), wrap as int) =~= lines_view(old(lines)@));
    while i < node.children.len()
        invariant
            i <= s.len(),
            s == node.children@,
            lines_view(lines@) =~= lines_view(old(lines)@) + render_seq(*th, children_view(s.take(i as int)), wrap as int),
        decreases s.len() - i,
    {
        proof {
            lemma_children_view_step(s, i as int);
        }
        render_node_into(&node.children[i], th, lines, wrap);
        i = i + 1;
    }
    assert(s.take(i as int) =~= s);
}

} // verus!
