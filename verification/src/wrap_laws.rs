//! What wrapping keeps: the properties that hold of `wrap_spans_spec` for
//! every input.

use vstd::prelude::*;
use crate::style::{SpanView, TextStyle};
use crate::text::{
    byte_len, char_width, is_ws, lemma_trim_end_prefix, lemma_trim_start_suffix, trim_end,
    trim_start,
};
use crate::wrap::{
    LineWrapState, WrapState, add_word, flat, flush_pending, last_ends_with,
    lemma_pieces_len_nonneg, line_wrap_run, line_wrap_step, pieces_len, push_ch, styled_chars,
    wrap_finish, wrap_init, wrap_lines_spec, wrap_run, wrap_spans_spec, wrap_step,
};

verus! {

/// The styled characters of `s` other than spaces, in order.
pub open spec fn nonspace(s: Seq<(char, TextStyle)>) -> Seq<(char, TextStyle)>
    decreases s.len(),
{
    if s.len() == 0 {
        seq![]
    } else if s.last().0 == ' ' {
        nonspace(s.drop_last())
    } else {
        nonspace(s.drop_last()).push(s.last())
    }
}

/// The styled characters of the lines `ls`, one line after the other.
pub open spec fn flat_lines(ls: Seq<Seq<SpanView>>) -> Seq<(char, TextStyle)>
    decreases ls.len(),
{
    if ls.len() == 0 {
        seq![]
    } else {
        flat_lines(ls.drop_last()) + flat(ls.last())
    }
}

/// The UTF-8 byte length of the characters of `s`.
pub open spec fn styled_bytes(s: Seq<(char, TextStyle)>) -> int
    decreases s.len(),
{
    if s.len() == 0 {
        0
    } else {
        styled_bytes(s.drop_last()) + char_width(s.last().0)
    }
}

/// The line `l` ends with an opening bracket.
pub open spec fn ends_open(l: Seq<SpanView>) -> bool {
    last_ends_with(l, '(') || last_ends_with(l, '[')
}

/// Everything the wrapper holds: the finished lines, the current line and the
/// pieces held back.
pub open spec fn held(s: WrapState) -> Seq<(char, TextStyle)> {
    flat_lines(s.out) + flat(s.cur) + flat(s.pending)
}

pub(crate) proof fn lemma_nonspace_add(a: Seq<(char, TextStyle)>, b: Seq<(char, TextStyle)>)
    ensures
        nonspace(a + b) == nonspace(a) + nonspace(b),
    decreases b.len(),
{
    if b.len() == 0 {
        assert(a + b =~= a);
        assert(nonspace(a) + nonspace(b) =~= nonspace(a));
    } else {
        lemma_nonspace_add(a, b.drop_last());
        assert((a + b).drop_last() =~= a + b.drop_last());
        if b.last().0 != ' ' {
            assert(nonspace(a) + nonspace(b.drop_last()).push(b.last()) =~= (nonspace(a)
                + nonspace(b.drop_last())).push(b.last()));
        }
    }
}

proof fn lemma_flat_add(a: Seq<SpanView>, b: Seq<SpanView>)
    ensures
        flat(a + b) == flat(a) + flat(b),
    decreases b.len(),
{
    if b.len() == 0 {
        assert(a + b =~= a);
        assert(flat(a) + flat(b) =~= flat(a));
    } else {
        lemma_flat_add(a, b.drop_last());
        assert((a + b).drop_last() =~= a + b.drop_last());
        assert(flat(a) + flat(b.drop_last()) + styled_chars(b.last()) =~= flat(a) + (flat(
            b.drop_last(),
        ) + styled_chars(b.last())));
    }
}

pub(crate) proof fn lemma_flat_push_ch(p: Seq<SpanView>, ch: char, st: TextStyle)
    ensures
        flat(push_ch(p, ch, st)) == flat(p).push((ch, st)),
{
    if p.len() > 0 && p.last().style == st && !crate::text::is_ctrl(ch) {
        let q = p.drop_last();
        let last = SpanView { text: p.last().text.push(ch), style: st };
        assert(q.push(last).drop_last() =~= q);
        assert(p =~= q.push(p.last()));
        assert(styled_chars(last) =~= styled_chars(p.last()).push((ch, st)));
        assert(flat(q.push(last)) =~= flat(q) + styled_chars(last));
        assert(flat(p) =~= flat(q) + styled_chars(p.last()));
    } else {
        let sp = SpanView { text: seq![ch], style: st };
        assert(p.push(sp).drop_last() =~= p);
        assert(styled_chars(sp) =~= seq![(ch, st)]);
    }
}

pub(crate) proof fn lemma_flat_lines_push(ls: Seq<Seq<SpanView>>, l: Seq<SpanView>)
    ensures
        flat_lines(ls.push(l)) == flat_lines(ls) + flat(l),
{
    assert(ls.push(l).drop_last() =~= ls);
}

pub(crate) proof fn lemma_flush_held(s: WrapState, max: int)
    ensures
        held(flush_pending(s, max)) == held(s),
{
    let plen = pieces_len(s.pending);
    if s.line_len + plen > max && s.cur.len() > 0 {
        lemma_flat_lines_push(s.out, s.cur);
        lemma_flat_add(Seq::<SpanView>::empty(), s.pending);
        assert(flat(Seq::<SpanView>::empty()) =~= Seq::<(char, TextStyle)>::empty());
        assert(Seq::<SpanView>::empty() + s.pending =~= s.pending);
    } else {
        lemma_flat_add(s.cur, s.pending);
    }
    assert(flat(Seq::<SpanView>::empty()) =~= Seq::<(char, TextStyle)>::empty());
    let f = flush_pending(s, max);
    assert(held(f) =~= held(s));
}

proof fn lemma_step_held(s: WrapState, ch: char, st: TextStyle, max: int)
    ensures
        nonspace(held(wrap_step(s, ch, st, max))) == nonspace(held(s).push((ch, st))),
{
    let t = wrap_step(s, ch, st, max);
    assert(held(s).push((ch, st)).drop_last() =~= held(s));
    if ch == ' ' {
        let s1 = if !(last_ends_with(s.pending, '(') || last_ends_with(s.pending, '['))
            && s.pending.len() > 0 {
            flush_pending(s, max)
        } else {
            s
        };
        lemma_flush_held(s, max);
        assert(held(s1) == held(s));
        if s1.line_len + 1 > max && s1.cur.len() > 0 {
            lemma_flat_lines_push(s1.out, s1.cur);
            assert(flat(Seq::<SpanView>::empty()) =~= Seq::<(char, TextStyle)>::empty());
            assert(held(t) =~= held(s1));
        } else {
            let sp = SpanView { text: seq![' '], style: st };
            assert(s1.cur.push(sp).drop_last() =~= s1.cur);
            assert(styled_chars(sp) =~= seq![(' ', st)]);
            let a = flat_lines(s1.out) + flat(s1.cur);
            assert(held(t) =~= a + seq![(' ', st)] + flat(s1.pending));
            assert(held(s1) =~= a + flat(s1.pending));
            lemma_nonspace_add(a + seq![(' ', st)], flat(s1.pending));
            lemma_nonspace_add(a, seq![(' ', st)]);
            lemma_nonspace_add(a, flat(s1.pending));
            assert(seq![(' ', st)].drop_last() =~= Seq::<(char, TextStyle)>::empty());
            assert(seq![(' ', st)].last().0 == ' ');
            assert(nonspace(Seq::<(char, TextStyle)>::empty()) =~= Seq::<(char, TextStyle)>::empty());
            assert(nonspace(seq![(' ', st)]) =~= Seq::<(char, TextStyle)>::empty());
            assert(nonspace(a) + Seq::<(char, TextStyle)>::empty() =~= nonspace(a));
        }
    } else if ch == '(' && !(ch == ']') && last_ends_with(s.pending, ']') {
        let s1 = flush_pending(s, max);
        lemma_flush_held(s, max);
        let sp = SpanView { text: seq!['('], style: st };
        assert(seq![sp].drop_last() =~= Seq::<SpanView>::empty());
        assert(styled_chars(sp) =~= seq![('(', st)]);
        assert(flat(seq![sp]) =~= seq![('(', st)]);
        assert(flat(Seq::<SpanView>::empty()) =~= Seq::<(char, TextStyle)>::empty());
        assert(s1.pending.len() == 0);
        assert(held(t) =~= held(s1).push(('(', st)));
    } else if ch == ')' && s.depth > 0 {
        let s1 = WrapState { pending: push_ch(s.pending, ch, st), depth: s.depth - 1, ..s };
        lemma_flat_push_ch(s.pending, ch, st);
        assert(held(s1) =~= held(s).push((ch, st)));
        lemma_flush_held(s1, max);
    } else {
        lemma_flat_push_ch(s.pending, ch, st);
        assert(held(t) =~= held(s).push((ch, st)));
    }
}

pub(crate) proof fn lemma_run_held(inp: Seq<(char, TextStyle)>, max: int)
    ensures
        nonspace(held(wrap_run(inp, max))) == nonspace(inp),
    decreases inp.len(),
{
    if inp.len() == 0 {
        let s = wrap_init();
        assert(flat_lines(s.out) =~= Seq::<(char, TextStyle)>::empty());
        assert(flat(s.cur) =~= Seq::<(char, TextStyle)>::empty());
        assert(held(s) =~= Seq::<(char, TextStyle)>::empty());
    } else {
        let p = inp.drop_last();
        lemma_run_held(p, max);
        let s = wrap_run(p, max);
        lemma_step_held(s, inp.last().0, inp.last().1, max);
        lemma_nonspace_add(held(s), seq![inp.last()]);
        lemma_nonspace_add(p, seq![inp.last()]);
        assert(held(s).push(inp.last()) =~= held(s) + seq![inp.last()]);
        assert(inp =~= p + seq![inp.last()]);
    }
}

/// Wrapping keeps every character other than a space, in order and in the
/// style of its span: only spaces are moved or dropped.
pub proof fn lemma_wrap_keeps_text(spans: Seq<SpanView>, max: int)
    ensures
        nonspace(flat_lines(wrap_spans_spec(spans, max))) == nonspace(flat(spans)),
{
    let s = wrap_run(flat(spans), max);
    lemma_run_held(flat(spans), max);
    let s1 = if s.pending.len() > 0 {
        flush_pending(s, max)
    } else {
        s
    };
    lemma_flush_held(s, max);
    assert(held(s1) == held(s));
    if s.pending.len() == 0 {
        assert(flat(s.pending) =~= Seq::<(char, TextStyle)>::empty());
    }
    assert(flat(s1.pending) =~= Seq::<(char, TextStyle)>::empty());
    if s1.cur.len() > 0 {
        lemma_flat_lines_push(s1.out, s1.cur);
    } else {
        assert(flat(s1.cur) =~= Seq::<(char, TextStyle)>::empty());
    }
    assert(flat_lines(wrap_finish(s, max)) =~= held(s1));
}

proof fn lemma_styled_bytes_add(a: Seq<(char, TextStyle)>, b: Seq<(char, TextStyle)>)
    ensures
        styled_bytes(a + b) == styled_bytes(a) + styled_bytes(b),
    decreases b.len(),
{
    if b.len() == 0 {
        assert(a + b =~= a);
    } else {
        lemma_styled_bytes_add(a, b.drop_last());
        assert((a + b).drop_last() =~= a + b.drop_last());
    }
}

proof fn lemma_styled_bytes_chars(sp: SpanView)
    ensures
        styled_bytes(styled_chars(sp)) == byte_len(sp.text),
    decreases sp.text.len(),
{
    if sp.text.len() > 0 {
        let q = SpanView { text: sp.text.drop_last(), style: sp.style };
        lemma_styled_bytes_chars(q);
        assert(styled_chars(sp).drop_last() =~= styled_chars(q));
    } else {
        assert(styled_chars(sp) =~= Seq::<(char, TextStyle)>::empty());
    }
}

pub(crate) proof fn lemma_styled_bytes_flat(spans: Seq<SpanView>)
    ensures
        styled_bytes(flat(spans)) == pieces_len(spans),
    decreases spans.len(),
{
    if spans.len() > 0 {
        lemma_styled_bytes_flat(spans.drop_last());
        lemma_styled_bytes_add(flat(spans.drop_last()), styled_chars(spans.last()));
        lemma_styled_bytes_chars(spans.last());
    }
}

pub(crate) proof fn lemma_styled_bytes_nonneg(s: Seq<(char, TextStyle)>)
    ensures
        styled_bytes(s) >= 0,
    decreases s.len(),
{
    if s.len() > 0 {
        lemma_styled_bytes_nonneg(s.drop_last());
    }
}

pub(crate) proof fn lemma_pieces_len_push_ch(p: Seq<SpanView>, ch: char, st: TextStyle)
    ensures
        pieces_len(push_ch(p, ch, st)) == pieces_len(p) + char_width(ch),
{
    if p.len() > 0 && p.last().style == st && !crate::text::is_ctrl(ch) {
        let q = p.drop_last();
        let last = SpanView { text: p.last().text.push(ch), style: st };
        assert(q.push(last).drop_last() =~= q);
        assert(last.text.drop_last() =~= p.last().text);
        assert(byte_len(last.text) == byte_len(p.last().text) + char_width(ch));
        assert(pieces_len(q.push(last)) == pieces_len(q) + byte_len(last.text));
        assert(pieces_len(p) == pieces_len(q) + byte_len(p.last().text));
    } else {
        let sp = SpanView { text: seq![ch], style: st };
        assert(p.push(sp).drop_last() =~= p);
        assert(sp.text.drop_last() =~= Seq::<char>::empty());
        assert(byte_len(sp.text) == byte_len(Seq::<char>::empty()) + char_width(ch));
        assert(pieces_len(p.push(sp)) == pieces_len(p) + byte_len(sp.text));
    }
}

/// The state after a prefix of a text that fits: no line is finished yet, and
/// the current line and the held pieces are no longer than the prefix.
pub(crate) proof fn lemma_run_fits(inp: Seq<(char, TextStyle)>, max: int)
    requires
        styled_bytes(inp) <= max,
    ensures
        wrap_run(inp, max).out.len() == 0,
        wrap_run(inp, max).line_len >= 0,
        wrap_run(inp, max).line_len + pieces_len(wrap_run(inp, max).pending) <= styled_bytes(inp),
    decreases inp.len(),
{
    if inp.len() > 0 {
        let p = inp.drop_last();
        lemma_styled_bytes_nonneg(p);
        lemma_run_fits(p, max);
        let s = wrap_run(p, max);
        let ch = inp.last().0;
        let st = inp.last().1;
        lemma_pieces_len_nonneg(s.pending);
        lemma_pieces_len_push_ch(s.pending, ch, st);
        if ch == ')' && s.depth > 0 {
            let s1 = WrapState { pending: push_ch(s.pending, ch, st), depth: s.depth - 1, ..s };
            lemma_pieces_len_nonneg(s1.pending);
        } else if ch == '(' && last_ends_with(s.pending, ']') {
            let sp = SpanView { text: seq!['('], style: st };
            assert(seq![sp].drop_last() =~= Seq::<SpanView>::empty());
            assert(sp.text.drop_last() =~= Seq::<char>::empty());
            assert(byte_len(sp.text) == byte_len(Seq::<char>::empty()) + char_width('('));
            assert(char_width('(') == 1);
            assert(pieces_len(seq![sp]) == pieces_len(Seq::<SpanView>::empty()) + byte_len(sp.text));
            assert(pieces_len(seq![sp]) == 1);
        }
    }
}

/// Spans whose text fits in `max` bytes are not wrapped: they make at most
/// one line.
pub proof fn lemma_wrap_fits(spans: Seq<SpanView>, max: int)
    requires
        pieces_len(spans) <= max,
    ensures
        wrap_spans_spec(spans, max).len() <= 1,
{
    lemma_styled_bytes_flat(spans);
    lemma_run_fits(flat(spans), max);
}

/// The finished lines are not empty and do not end with an opening bracket,
/// nor does the current line.
pub open spec fn shape_ok(s: WrapState) -> bool {
    &&& forall|k: int| 0 <= k < s.out.len() ==> (#[trigger] s.out[k]).len() > 0 && !ends_open(s.out[k])
    &&& !ends_open(s.cur)
}

proof fn lemma_ends_open_add(a: Seq<SpanView>, b: Seq<SpanView>)
    requires
        b.len() > 0,
    ensures
        ends_open(a + b) == ends_open(b),
        last_ends_with(a + b, ']') == last_ends_with(b, ']'),
        last_ends_with(a + b, ')') == last_ends_with(b, ')'),
{
    assert((a + b).last() == b.last());
}

proof fn lemma_flush_shape(s: WrapState, max: int)
    requires
        shape_ok(s),
        s.pending.len() > 0,
        !ends_open(s.pending),
    ensures
        shape_ok(flush_pending(s, max)),
{
    let plen = pieces_len(s.pending);
    let f = flush_pending(s, max);
    if s.line_len + plen > max && s.cur.len() > 0 {
        lemma_ends_open_add(Seq::<SpanView>::empty(), s.pending);
        assert forall|k: int| 0 <= k < f.out.len() implies (#[trigger] f.out[k]).len() > 0
            && !ends_open(f.out[k]) by {
            if k < s.out.len() {
                assert(f.out[k] == s.out[k]);
            }
        }
    } else {
        lemma_ends_open_add(s.cur, s.pending);
    }
}

pub(crate) proof fn lemma_push_ch_ends(p: Seq<SpanView>, ch: char, st: TextStyle)
    ensures
        last_ends_with(push_ch(p, ch, st), ch),
{
}

proof fn lemma_step_shape(s: WrapState, ch: char, st: TextStyle, max: int)
    requires
        shape_ok(s),
    ensures
        shape_ok(wrap_step(s, ch, st, max)),
{
    let t = wrap_step(s, ch, st, max);
    if ch == ' ' {
        let flush = !(last_ends_with(s.pending, '(') || last_ends_with(s.pending, '['))
            && s.pending.len() > 0;
        let s1 = if flush {
            flush_pending(s, max)
        } else {
            s
        };
        if flush {
            lemma_flush_shape(s, max);
        }
        assert(shape_ok(s1));
        if s1.line_len + 1 > max && s1.cur.len() > 0 {
            assert forall|k: int| 0 <= k < t.out.len() implies (#[trigger] t.out[k]).len() > 0
                && !ends_open(t.out[k]) by {
                if k < s1.out.len() {
                    assert(t.out[k] == s1.out[k]);
                }
            }
        }
    } else if ch == '(' && last_ends_with(s.pending, ']') {
        lemma_flush_shape(s, max);
    } else if ch == ')' && s.depth > 0 {
        let s1 = WrapState { pending: push_ch(s.pending, ch, st), depth: s.depth - 1, ..s };
        lemma_push_ch_ends(s.pending, ch, st);
        if s1.depth == 0 {
            lemma_flush_shape(s1, max);
        }
    }
}

proof fn lemma_run_shape(inp: Seq<(char, TextStyle)>, max: int)
    ensures
        shape_ok(wrap_run(inp, max)),
    decreases inp.len(),
{
    if inp.len() > 0 {
        lemma_run_shape(inp.drop_last(), max);
        lemma_step_shape(wrap_run(inp.drop_last(), max), inp.last().0, inp.last().1, max);
    }
}

/// Wrapping makes no empty line, and no line but the last ends with an
/// opening bracket: `(` and `[` stay with the text that follows them.
pub proof fn lemma_wrap_line_shape(spans: Seq<SpanView>, max: int)
    ensures
        forall|k: int|
            0 <= k < wrap_spans_spec(spans, max).len() ==> (#[trigger] wrap_spans_spec(
                spans,
                max,
            )[k]).len() > 0,
        forall|k: int|
            0 <= k < wrap_spans_spec(spans, max).len() - 1 ==> !ends_open(
                #[trigger] wrap_spans_spec(spans, max)[k],
            ),
{
    let s = wrap_run(flat(spans), max);
    lemma_run_shape(flat(spans), max);
    let plen = pieces_len(s.pending);
    let s1 = if s.pending.len() > 0 {
        flush_pending(s, max)
    } else {
        s
    };
    if s.pending.len() > 0 && s.line_len + plen > max && s.cur.len() > 0 {
        assert forall|k: int| 0 <= k < s1.out.len() implies (#[trigger] s1.out[k]).len() > 0
            && !ends_open(s1.out[k]) by {
            if k < s.out.len() {
                assert(s1.out[k] == s.out[k]);
            }
        }
    }
    let r = wrap_spans_spec(spans, max);
    assert(r == wrap_finish(s, max));
    if s1.cur.len() > 0 {
        assert forall|k: int| 0 <= k < r.len() implies (#[trigger] r[k]).len() > 0 by {
            if k < s1.out.len() {
                assert(r[k] == s1.out[k]);
            }
        }
        assert forall|k: int| 0 <= k < r.len() - 1 implies !ends_open(#[trigger] r[k]) by {
            assert(r[k] == s1.out[k]);
        }
    }
}

/// Wrapping depends only on the characters and their styles, not on how the
/// text is divided into spans: brackets are tracked across span boundaries.
pub proof fn lemma_wrap_ignores_span_boundaries(a: Seq<SpanView>, b: Seq<SpanView>, max: int)
    requires
        flat(a) == flat(b),
    ensures
        wrap_spans_spec(a, max) == wrap_spans_spec(b, max),
{
}

/// `s` holds no space.
pub open spec fn no_space(s: Seq<char>) -> bool {
    forall|i: int| 0 <= i < s.len() ==> s[i] != ' '
}

/// A list-item line is acceptable at width `max`: it fits, or it is a single
/// word that could not be broken.
pub open spec fn fits_or_one_word(l: Seq<char>, max: int) -> bool {
    byte_len(l) <= max || no_space(l)
}

proof fn lemma_trim_end_concat(a: Seq<char>, b: Seq<char>)
    ensures
        trim_end(b).len() > 0 ==> trim_end(a + b) == a + trim_end(b),
        trim_end(b).len() == 0 ==> trim_end(a + b) == trim_end(a),
    decreases b.len(),
{
    if b.len() == 0 {
        assert(a + b =~= a);
    } else {
        assert((a + b).drop_last() =~= a + b.drop_last());
        assert((a + b).last() == b.last());
        if is_ws(b.last()) {
            lemma_trim_end_concat(a, b.drop_last());
        }
    }
}

/// A word with at most a space at its end, trimmed at both ends, holds no
/// space.
proof fn lemma_trimmed_word(word: Seq<char>, w: Seq<char>)
    requires
        no_space(word),
        w == word || w == word.push(' '),
    ensures
        no_space(trim_end(trim_start(w))),
        no_space(trim_end(w)),
{
    lemma_trim_start_suffix(w);
    let x = trim_start(w);
    let j = w.len() - x.len();
    lemma_trim_end_prefix(x);
    lemma_trim_end_prefix(w);
    let y = trim_end(x);
    let z = trim_end(w);
    assert forall|i: int| 0 <= i < y.len() implies y[i] != ' ' by {
        assert(y[i] == x[i]);
        assert(x[i] == w[i + j]);
        if w != word {
            if i + j == w.len() - 1 {
                assert(y.len() == x.len());
                assert(y.last() == w.last());
                assert(is_ws(' '));
            }
            assert(i + j < word.len());
            assert(w[i + j] == word[i + j]);
        }
    }
    assert forall|i: int| 0 <= i < z.len() implies z[i] != ' ' by {
        assert(z[i] == w[i]);
        if w != word {
            if i == w.len() - 1 {
                assert(z.len() == w.len());
                assert(z.last() == w.last());
                assert(is_ws(' '));
            }
            assert(w[i] == word[i]);
        }
    }
}

/// The finished lines are acceptable, the current line is acceptable once its
/// trailing whitespace is gone, and the word being read holds no space.
pub open spec fn line_state_ok(s: LineWrapState, max: int) -> bool {
    &&& forall|k: int| 0 <= k < s.out.len() ==> fits_or_one_word(#[trigger] s.out[k], max)
    &&& fits_or_one_word(trim_end(s.cur), max)
    &&& no_space(s.word)
}

proof fn lemma_add_word_ok(s: LineWrapState, w: Seq<char>, max: int)
    requires
        line_state_ok(s, max),
        w == s.word || w == s.word.push(' '),
    ensures
        forall|k: int|
            0 <= k < add_word(s, w, max).out.len() ==> fits_or_one_word(
                #[trigger] add_word(s, w, max).out[k],
                max,
            ),
        fits_or_one_word(trim_end(add_word(s, w, max).cur), max),
{
    lemma_trimmed_word(s.word, w);
    let t = add_word(s, w, max);
    if byte_len(s.cur) + byte_len(trim_end(w)) > max && s.cur.len() > 0 {
        assert forall|k: int| 0 <= k < t.out.len() implies fits_or_one_word(
            #[trigger] t.out[k],
            max,
        ) by {
            if k < s.out.len() {
                assert(t.out[k] == s.out[k]);
            }
        }
    } else {
        lemma_trim_end_concat(s.cur, w);
        if s.cur.len() == 0 {
            assert(s.cur + w =~= w);
        } else if trim_end(w).len() > 0 {
            crate::text::lemma_byte_len_add(s.cur, trim_end(w));
        }
    }
}

proof fn lemma_line_run_ok(t: Seq<char>, max: int)
    ensures
        line_state_ok(line_wrap_run(t, max), max),
    decreases t.len(),
{
    if t.len() == 0 {
        let s = line_wrap_run(t, max);
        assert(trim_end(s.cur) =~= Seq::<char>::empty());
    } else {
        lemma_line_run_ok(t.drop_last(), max);
        let s = line_wrap_run(t.drop_last(), max);
        let c = t.last();
        if c == ' ' {
            lemma_add_word_ok(s, s.word.push(' '), max);
        } else {
            let r = line_wrap_step(s, c, max);
            assert forall|i: int| 0 <= i < r.word.len() implies r.word[i] != ' ' by {
                if i < s.word.len() {
                    assert(r.word[i] == s.word[i]);
                }
            }
        }
    }
}

/// A list-item line is longer than the width only when it is a single word:
/// list items break at spaces alone.
pub proof fn lemma_wrap_lines_fit(t: Seq<char>, max: int)
    ensures
        forall|k: int|
            0 <= k < wrap_lines_spec(t, max).len() ==> fits_or_one_word(
                #[trigger] wrap_lines_spec(t, max)[k],
                max,
            ),
{
    let r = wrap_lines_spec(t, max);
    if byte_len(t) > max {
        let s = line_wrap_run(t, max);
        lemma_line_run_ok(t, max);
        let s1 = if s.word.len() > 0 {
            add_word(s, s.word, max)
        } else {
            s
        };
        if s.word.len() > 0 {
            lemma_add_word_ok(s, s.word, max);
        }
        assert forall|k: int| 0 <= k < r.len() implies fits_or_one_word(#[trigger] r[k], max) by {
            if k < s1.out.len() {
                assert(r[k] == s1.out[k]);
            }
        }
    }
}

pub(crate) proof fn lemma_flat_of_nothing()
    ensures
        flat(Seq::<SpanView>::empty()) =~= Seq::<(char, TextStyle)>::empty(),
        flat_lines(Seq::<Seq<SpanView>>::empty()) =~= Seq::<(char, TextStyle)>::empty(),
{
}

} // verus!
