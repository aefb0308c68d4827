//! The styles of inline content: text takes the base style with bold, dim
//! and underline added for each enclosing strong, emphasis and link, however
//! they nest; code always takes the code style; and of the theme only the
//! code style is read.

use vstd::prelude::*;
use crate::render::{collect_text, inline_seq, inline_spans, span_of};
use crate::style::{
    MarkdownTheme, Modifiers, SpanView, TextStyle, add_mods, bold_mod, dim_mod, underlined_mod,
};
use crate::tree::{NodeKind, Tree};

verus! {

/// The base style with bold, dim and underline added where the flags say so.
pub open spec fn flagged_style(base: TextStyle, bold: bool, dim: bool, under: bool) -> TextStyle {
    TextStyle {
        fg: base.fg,
        modifiers: Modifiers {
            bold: base.modifiers.bold || bold,
            dim: base.modifiers.dim || dim,
            italic: base.modifiers.italic,
            underlined: base.modifiers.underlined || under,
        },
    }
}

/// The spans of inline nodes in document order, each piece of text styled by
/// which kinds of element enclose it: `bold` under a strong, `dim` under an
/// emphasis, `under` under a link.
pub open spec fn flat_spans(
    th: MarkdownTheme,
    s: Seq<Tree>,
    base: TextStyle,
    bold: bool,
    dim: bool,
    under: bool,
) -> Seq<SpanView>
    decreases s,
{
    if s.len() == 0 {
        seq![]
    } else {
        let c = s.last();
        let st = flagged_style(base, bold, dim, under);
        flat_spans(th, s.drop_last(), base, bold, dim, under) + match c.kind {
            NodeKind::Text => if c.literal.len() > 0 {
                seq![span_of(c.literal, st)]
            } else {
                seq![]
            },
            NodeKind::Code => if c.literal.len() > 0 {
                seq![span_of(c.literal, th.code)]
            } else {
                seq![]
            },
            NodeKind::Strong => flat_spans(th, c.children, base, true, dim, under),
            NodeKind::Emph => flat_spans(th, c.children, base, bold, true, under),
            NodeKind::Link => flat_spans(th, c.children, base, bold, dim, true),
            NodeKind::SoftBreak => seq![span_of(seq![' '], st)],
            NodeKind::LineBreak => seq![span_of(seq![' '], st)],
            NodeKind::HtmlInline => seq![span_of(c.literal, st)],
            NodeKind::Image => {
                let alt = collect_text(c);
                seq![span_of(if alt.len() == 0 { c.url } else { alt }, st)]
            },
            _ => flat_spans(th, c.children, base, bold, dim, under),
        }
    }
}

/// Inline content is styled by which kinds of element enclose each piece of
/// text, not by how they nest: with flags for the enclosing strong,
/// emphasis and link, the spans are those of `flat_spans`.
pub proof fn lemma_inline_flags(
    th: MarkdownTheme,
    s: Seq<Tree>,
    base: TextStyle,
    bold: bool,
    dim: bool,
    under: bool,
)
    ensures
        inline_seq(th, s, flagged_style(base, bold, dim, under)) == flat_spans(
            th,
            s,
            base,
            bold,
            dim,
            under,
        ),
    decreases s,
{
    if s.len() > 0 {
        let c = s.last();
        let st = flagged_style(base, bold, dim, under);
        lemma_inline_flags(th, s.drop_last(), base, bold, dim, under);
        assert(s.last() == s[s.len() - 1]);
        match c.kind {
            NodeKind::Strong => {
                assert(add_mods(st, bold_mod()) == flagged_style(base, true, dim, under));
                lemma_inline_flags(th, c.children, base, true, dim, under);
                assert(inline_spans(th, c, add_mods(st, bold_mod()))
                    == flat_spans(th, c.children, base, true, dim, under));
            },
            NodeKind::Emph => {
                assert(add_mods(st, dim_mod()) == flagged_style(base, bold, true, under));
                lemma_inline_flags(th, c.children, base, bold, true, under);
                assert(inline_spans(th, c, add_mods(st, dim_mod()))
                    == flat_spans(th, c.children, base, bold, true, under));
            },
            NodeKind::Link => {
                assert(add_mods(st, underlined_mod()) == flagged_style(base, bold, dim, true));
                lemma_inline_flags(th, c.children, base, bold, dim, true);
                assert(inline_spans(th, c, add_mods(st, underlined_mod()))
                    == flat_spans(th, c.children, base, bold, dim, true));
            },
            NodeKind::Text => {},
            NodeKind::Code => {},
            NodeKind::SoftBreak => {},
            NodeKind::LineBreak => {},
            NodeKind::HtmlInline => {},
            NodeKind::Image => {},
            _ => {
                lemma_inline_flags(th, c.children, base, bold, dim, under);
                assert(inline_spans(th, c, st)
                    == flat_spans(th, c.children, base, bold, dim, under));
            },
        }
    }
}

/// The spans of inline content in a base style: each piece of text in that
/// style with bold, dim and underline added for each enclosing strong,
/// emphasis and link, code in the code style whatever encloses it.
pub proof fn lemma_inline_styles(th: MarkdownTheme, s: Seq<Tree>, base: TextStyle)
    ensures
        inline_seq(th, s, base) == flat_spans(th, s, base, false, false, false),
{
    assert(flagged_style(base, false, false, false) == base);
    lemma_inline_flags(th, s, base, false, false, false);
}

/// Of the theme, inline content reads the code style only: two themes with
/// the same code style give the same spans.
pub proof fn lemma_inline_reads_code_style(
    th1: MarkdownTheme,
    th2: MarkdownTheme,
    s: Seq<Tree>,
    base: TextStyle,
)
    requires
        th1.code == th2.code,
    ensures
        inline_seq(th1, s, base) == inline_seq(th2, s, base),
    decreases s,
{
    if s.len() > 0 {
        let c = s.last();
        lemma_inline_reads_code_style(th1, th2, s.drop_last(), base);
        assert(s.last() == s[s.len() - 1]);
        match c.kind {
            NodeKind::Strong => {
                lemma_inline_reads_code_style(th1, th2, c.children, add_mods(base, bold_mod()));
                assert(inline_spans(th1, c, add_mods(base, bold_mod())) == inline_spans(th2, c, add_mods(base, bold_mod())));
            },
            NodeKind::Emph => {
                lemma_inline_reads_code_style(th1, th2, c.children, add_mods(base, dim_mod()));
                assert(inline_spans(th1, c, add_mods(base, dim_mod())) == inline_spans(th2, c, add_mods(base, dim_mod())));
            },
            NodeKind::Link => {
                lemma_inline_reads_code_style(th1, th2, c.children, add_mods(base, underlined_mod()));
                assert(inline_spans(th1, c, add_mods(base, underlined_mod())) == inline_spans(th2, c, add_mods(base, underlined_mod())));
            },
            NodeKind::Text => {},
            NodeKind::Code => {},
            NodeKind::SoftBreak => {},
            NodeKind::LineBreak => {},
            NodeKind::HtmlInline => {},
            NodeKind::Image => {},
            _ => {
                lemma_inline_reads_code_style(th1, th2, c.children, base);
                assert(inline_spans(th1, c, base) == inline_spans(th2, c, base));
            },
        }
    }
}

} // verus!
