//! The layout rules of rendered blocks: code blocks and headings are never
//! wrapped, and list items keep their continuation lines indented.

use vstd::prelude::*;
use crate::format::{lemma_lines_run_append, no_newline};
use crate::render::{
    collect_seq, collect_text, heading_prefix, heading_style, inline_seq, inline_spans,
    item_lines, item_text, line_of_text, render_node, span_of, task_prefix,
};
use crate::style::{
    MarkdownTheme, SpanView, TextStyle, add_mods, bold_mod, dim_mod, line_text, underlined_mod,
};
use crate::text::{lines_run, str_lines, trim};
use crate::tree::{NodeKind, Tree};
use crate::wrap::wrap_lines_spec;

verus! {

/// `s` starts with `p`.
pub open spec fn starts_with(s: Seq<char>, p: Seq<char>) -> bool {
    p.len() <= s.len() && s.take(p.len() as int) == p
}

/// A code block is not wrapped: each of its lines becomes one line of a
/// single span in the code-block style, whatever the width, and a blank line
/// follows.
pub proof fn lemma_code_block_unwrapped(th: MarkdownTheme, n: Tree, wrap: int)
    requires
        n.kind == NodeKind::CodeBlock,
    ensures
        render_node(th, n, wrap).len() == str_lines(n.literal).len() + 1,
        forall|k: int|
            0 <= k < str_lines(n.literal).len() ==> #[trigger] render_node(th, n, wrap)[k] == seq![
                span_of(str_lines(n.literal)[k], th.code_block),
            ],
        render_node(th, n, wrap).last() == Seq::<SpanView>::empty(),
{
}

/// A heading is not wrapped: it makes one line, its prefix and its text in
/// the style of its level, whatever the width, and a blank line follows.
pub proof fn lemma_heading_unwrapped(th: MarkdownTheme, n: Tree, wrap: int, level: u8)
    requires
        n.kind == NodeKind::Heading(level),
    ensures
        render_node(th, n, wrap) == seq![
            seq![span_of(heading_prefix(level), heading_style(th, level))] + inline_spans(
                th,
                n,
                heading_style(th, level),
            ),
            Seq::<SpanView>::empty(),
        ],
{
}

proof fn lemma_first_line_prefix(p: Seq<char>, q: Seq<char>)
    requires
        p.len() > 0,
        no_newline(p),
        p.last() != '\r',
    ensures
        lines_run(p + q).done.len() == 0 ==> starts_with(lines_run(p + q).cur, p),
        lines_run(p + q).done.len() > 0 ==> starts_with(lines_run(p + q).done[0], p),
    decreases q.len(),
{
    if q.len() == 0 {
        lemma_lines_run_append(Seq::<char>::empty(), p);
        assert(p + q =~= Seq::<char>::empty() + p);
        assert(lines_run(Seq::<char>::empty()).cur + p =~= p);
        assert(p.take(p.len() as int) =~= p);
    } else {
        let q1 = q.drop_last();
        lemma_first_line_prefix(p, q1);
        assert((p + q).drop_last() =~= p + q1);
        assert((p + q).last() == q.last());
        let st = lines_run(p + q1);
        let r = lines_run(p + q);
        if st.done.len() > 0 {
            assert(r.done[0] == st.done[0]);
        } else if q.last() == '\n' {
            let c = st.cur;
            if c.len() > 0 && c.last() == '\r' {
                if c.len() == p.len() {
                    assert(c =~= p);
                }
                assert(c.drop_last().take(p.len() as int) =~= c.take(p.len() as int));
            }
        } else {
            assert(st.cur.push(q.last()).take(p.len() as int) =~= st.cur.take(p.len() as int));
        }
    }
}

proof fn lemma_line_text_first(l: Seq<SpanView>)
    requires
        l.len() > 0,
    ensures
        starts_with(line_text(l), l[0].text),
    decreases l.len(),
{
    if l.len() == 1 {
        assert(l.drop_last() =~= Seq::<SpanView>::empty());
        assert(line_text(l.drop_last()) =~= Seq::<char>::empty());
        assert(l.last() == l[0]);
        assert(line_text(l) =~= l[0].text);
        assert(l[0].text.take(l[0].text.len() as int) =~= l[0].text);
    } else {
        lemma_line_text_first(l.drop_last());
        assert(l.drop_last()[0] == l[0]);
        let a = line_text(l.drop_last());
        assert((a + l.last().text).take(l[0].text.len() as int) =~= a.take(l[0].text.len() as int));
    }
}

/// The text of the line that `p + q` makes starts with `p`, when `p` is a
/// piece of a single line.
proof fn lemma_line_of_text_prefix(p: Seq<char>, q: Seq<char>)
    requires
        p.len() > 0,
        no_newline(p),
        p.last() != '\r',
    ensures
        starts_with(line_text(line_of_text(p + q)), p),
{
    lemma_first_line_prefix(p, q);
    let st = lines_run(p + q);
    let ls = str_lines(p + q);
    assert(ls.len() > 0 && starts_with(ls[0], p));
    let l = line_of_text(p + q);
    lemma_line_text_first(l);
    assert(l[0].text == ls[0]);
    let t = line_text(l);
    assert(t.take(ls[0].len() as int).take(p.len() as int) =~= t.take(p.len() as int));
    assert(ls[0].take(p.len() as int) =~= t.take(p.len() as int));
}

/// The lines of a list item: the first starts with `first`'s beginning, and
/// every later line starts with the indentation.
proof fn lemma_item_lines_indented(first: Seq<char>, wrap: int, indent: Seq<char>)
    requires
        indent.len() > 0,
        no_newline(indent),
        indent.last() != '\r',
    ensures
        forall|i: int|
            1 <= i < item_lines(first, wrap, indent).len() ==> starts_with(
                line_text(#[trigger] item_lines(first, wrap, indent)[i]),
                indent,
            ),
{
    let segs = wrap_lines_spec(first, crate::render::item_width(wrap));
    assert forall|i: int| 1 <= i < item_lines(first, wrap, indent).len() implies starts_with(
        line_text(#[trigger] item_lines(first, wrap, indent)[i]),
        indent,
    ) by {
        lemma_line_of_text_prefix(indent, segs[i]);
    }
}

/// A list item keeps its continuation lines indented: every line after the
/// first starts with four spaces (eight for a task item), whatever the width.
pub proof fn lemma_list_item_indented(th: MarkdownTheme, n: Tree, wrap: int)
    requires
        n.kind is Item || n.kind is TaskItem,
    ensures
        forall|i: int|
            1 <= i < render_node(th, n, wrap).len() ==> starts_with(
                line_text(#[trigger] render_node(th, n, wrap)[i]),
                if n.kind is Item {
                    "    "@
                } else {
                    "        "@
                },
            ),
{
    reveal_strlit("    ");
    reveal_strlit("        ");
    let content = trim(item_text(n.children));
    if n.kind is Item {
        let indent = "    "@;
        assert(no_newline(indent));
        lemma_item_lines_indented("  - "@ + content, wrap, indent);
    } else {
        let indent = "        "@;
        assert(no_newline(indent));
        let checked = n.kind->TaskItem_0;
        lemma_item_lines_indented(task_prefix(checked) + content, wrap, indent);
    }
}

/// The spans of inline content follow document order: the spans of two runs
/// of nodes are those of the first run and then those of the second.
pub proof fn lemma_inline_concat(th: MarkdownTheme, a: Seq<Tree>, b: Seq<Tree>, base: TextStyle)
    ensures
        inline_seq(th, a + b, base) == inline_seq(th, a, base) + inline_seq(th, b, base),
    decreases b.len(),
{
    if b.len() == 0 {
        assert(a + b =~= a);
        assert(inline_seq(th, b, base) =~= Seq::<SpanView>::empty());
        assert(inline_seq(th, a, base) + inline_seq(th, b, base) =~= inline_seq(th, a, base));
    } else {
        lemma_inline_concat(th, a, b.drop_last(), base);
        assert((a + b).drop_last() =~= a + b.drop_last());
        assert((a + b).last() == b.last());
        let x = inline_seq(th, a, base);
        let y = inline_seq(th, b.drop_last(), base);
        assert(inline_seq(th, a + b, base) =~= x + y + (inline_seq(th, b, base).skip(y.len() as int)));
        assert(x + y + inline_seq(th, b, base).skip(y.len() as int) =~= x + inline_seq(th, b, base));
    }
}

/// What one inline node gives: non-empty text one span in the current
/// style; non-empty code one span in the code style, whatever encloses it;
/// empty text or code nothing; strong, emphasis and links their content with
/// bold, dim or underline added to the current style; a line break a space in
/// the current style; inline HTML one span; an image exactly one span of its
/// alternative text, or of its URL when that text is empty; any other node
/// the spans of its content in the current style.
pub proof fn lemma_inline_node(th: MarkdownTheme, c: Tree, base: TextStyle)
    ensures
        inline_seq(th, seq![c], base) == match c.kind {
            NodeKind::Text => if c.literal.len() > 0 {
                seq![span_of(c.literal, base)]
            } else {
                Seq::<SpanView>::empty()
            },
            NodeKind::Code => if c.literal.len() > 0 {
                seq![span_of(c.literal, th.code)]
            } else {
                Seq::<SpanView>::empty()
            },
            NodeKind::Strong => inline_spans(th, c, add_mods(base, bold_mod())),
            NodeKind::Emph => inline_spans(th, c, add_mods(base, dim_mod())),
            NodeKind::Link => inline_spans(th, c, add_mods(base, underlined_mod())),
            NodeKind::SoftBreak => seq![span_of(seq![' '], base)],
            NodeKind::LineBreak => seq![span_of(seq![' '], base)],
            NodeKind::HtmlInline => seq![span_of(c.literal, base)],
            NodeKind::Image => seq![
                span_of(
                    if collect_text(c).len() == 0 {
                        c.url
                    } else {
                        collect_text(c)
                    },
                    base,
                ),
            ],
            _ => inline_spans(th, c, base),
        },
{
    assert(seq![c].drop_last() =~= Seq::<Tree>::empty());
    assert(inline_seq(th, Seq::<Tree>::empty(), base) =~= Seq::<SpanView>::empty());
    assert(seq![c].last() == c);
    let r = inline_seq(th, seq![c], base);
    assert(r =~= Seq::<SpanView>::empty() + r);
}

/// The plain text of nodes follows document order: the text of two runs of
/// nodes is that of the first run and then that of the second.
pub proof fn lemma_collect_concat(a: Seq<Tree>, b: Seq<Tree>)
    ensures
        collect_seq(a + b) == collect_seq(a) + collect_seq(b),
    decreases b.len(),
{
    if b.len() == 0 {
        assert(a + b =~= a);
        assert(collect_seq(a) + collect_seq(b) =~= collect_seq(a));
    } else {
        lemma_collect_concat(a, b.drop_last());
        assert((a + b).drop_last() =~= a + b.drop_last());
        assert((a + b).last() == b.last());
        let x = collect_seq(a);
        let y = collect_seq(b.drop_last());
        assert(collect_seq(b) =~= y + collect_seq(b).skip(y.len() as int));
        assert(collect_seq(a + b) =~= x + y + collect_seq(b).skip(y.len() as int));
        assert(x + y + collect_seq(b).skip(y.len() as int) =~= x + collect_seq(b));
    }
}

/// The plain text of one node: its text for text and code, a space for a
/// line break, and for any other node the text of its content (so inline HTML
/// and other nodes without children give nothing).
pub proof fn lemma_collect_node(c: Tree)
    ensures
        collect_seq(seq![c]) == match c.kind {
            NodeKind::Text => c.literal,
            NodeKind::Code => c.literal,
            NodeKind::SoftBreak => seq![' '],
            NodeKind::LineBreak => seq![' '],
            _ => collect_text(c),
        },
{
    assert(seq![c].drop_last() =~= Seq::<Tree>::empty());
    assert(seq![c].last() == c);
    let r = collect_seq(seq![c]);
    assert(collect_seq(Seq::<Tree>::empty()) + r.skip(0) =~= r);
}


/// The style and prefix of a heading by its level: level 1 in the theme's
/// first heading style after `# `, level 2 in the second after `## `, and
/// every other level, 3 and deeper, in the third after `### `; the prefix
/// and the heading's text are on one line in that style.
pub proof fn lemma_heading_levels(th: MarkdownTheme, n: Tree, wrap: int, level: u8)
    requires
        n.kind == NodeKind::Heading(level),
    ensures
        ({
            let st = if level == 1 {
                th.h1
            } else if level == 2 {
                th.h2
            } else {
                th.h3
            };
            let out = render_node(th, n, wrap);
            &&& out.len() == 2
            &&& out[0][0].style == st
            &&& out[0][0].text == if level == 1 {
                seq!['#', ' ']
            } else if level == 2 {
                seq!['#', '#', ' ']
            } else {
                seq!['#', '#', '#', ' ']
            }
            &&& out[0] == seq![out[0][0]] + inline_spans(th, n, st)
            &&& out[1].len() == 0
        }),
{
    reveal_strlit("# ");
    reveal_strlit("## ");
    reveal_strlit("### ");
    let out = render_node(th, n, wrap);
    assert(out[0][0] == span_of(heading_prefix(level), heading_style(th, level)));
    assert(heading_prefix(level) =~= if level == 1 {
        seq!['#', ' ']
    } else if level == 2 {
        seq!['#', '#', ' ']
    } else {
        seq!['#', '#', '#', ' ']
    });
}

/// A list item whose line, prefix included, fits in the width (78 bytes when
/// the width is under 40) is one line: `  - ` and its text, unwrapped.
pub proof fn lemma_item_fits_one_line(th: MarkdownTheme, n: Tree, wrap: int)
    requires
        n.kind == NodeKind::Item,
        trim(item_text(n.children)).len() > 0,
        crate::text::byte_len("  - "@ + trim(item_text(n.children))) <= if wrap < 40 {
            78
        } else {
            wrap
        },
    ensures
        render_node(th, n, wrap) == seq![line_of_text("  - "@ + trim(item_text(n.children)))],
{
    let first = "  - "@ + trim(item_text(n.children));
    assert(wrap_lines_spec(first, crate::render::item_width(wrap)) == seq![first]);
    assert(item_lines(first, wrap, "    "@) =~= seq![line_of_text(first)]);
}

/// A task-list item whose line, prefix included, fits in the width (78
/// bytes when the width is under 40) is one line: its box and its text,
/// unwrapped.
pub proof fn lemma_task_item_fits_one_line(th: MarkdownTheme, n: Tree, wrap: int, checked: bool)
    requires
        n.kind == NodeKind::TaskItem(checked),
        crate::text::byte_len(task_prefix(checked) + trim(item_text(n.children))) <= if wrap < 40 {
            78
        } else {
            wrap
        },
    ensures
        render_node(th, n, wrap) == seq![line_of_text(task_prefix(checked) + trim(item_text(n.children)))],
{
    let first = task_prefix(checked) + trim(item_text(n.children));
    assert(wrap_lines_spec(first, crate::render::item_width(wrap)) == seq![first]);
    assert(item_lines(first, wrap, "        "@) =~= seq![line_of_text(first)]);
}

} // verus!
