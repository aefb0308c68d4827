//! The shape of wrapped paragraph lines: no empty span, no line at all only
//! for empty text, one unchanged line for text that fits, and no space on a
//! line longer than the width.

use vstd::prelude::*;
use crate::style::{SpanView, TextStyle, line_text};
use crate::wrap::{
    WrapState, flat, flush_pending, last_ends_with, pieces_len, push_ch, styled_chars,
    wrap_finish, wrap_init, wrap_run, wrap_spans_spec, wrap_step, lemma_pieces_len_nonneg,
};
use crate::wrap_breaks::{break_inv, lemma_run_breaks};
use crate::wrap_laws::{
    ends_open, held, lemma_flat_push_ch, lemma_flush_held, lemma_run_fits,
    lemma_styled_bytes_flat, lemma_pieces_len_push_ch,
};

verus! {

/// Every span of `p` has some text.
pub open spec fn no_empty_span(p: Seq<SpanView>) -> bool {
    forall|i: int| 0 <= i < p.len() ==> (#[trigger] p[i]).text.len() > 0
}

/// The pieces of every line, the current line and the held pieces have text.
pub open spec fn spans_inv(s: WrapState) -> bool {
    &&& forall|k: int| 0 <= k < s.out.len() ==> no_empty_span(#[trigger] s.out[k])
    &&& no_empty_span(s.cur)
    &&& no_empty_span(s.pending)
}

proof fn lemma_no_empty_add(a: Seq<SpanView>, b: Seq<SpanView>)
    requires
        no_empty_span(a),
        no_empty_span(b),
    ensures
        no_empty_span(a + b),
{
    assert forall|i: int| 0 <= i < (a + b).len() implies (#[trigger] (a + b)[i]).text.len() > 0 by {
        if i < a.len() {
            assert((a + b)[i] == a[i]);
        } else {
            assert((a + b)[i] == b[i - a.len()]);
        }
    }
}

proof fn lemma_no_empty_push_ch(p: Seq<SpanView>, ch: char, st: TextStyle)
    requires
        no_empty_span(p),
    ensures
        no_empty_span(push_ch(p, ch, st)),
        push_ch(p, ch, st).len() > 0,
{
    let r = push_ch(p, ch, st);
    assert forall|i: int| 0 <= i < r.len() implies (#[trigger] r[i]).text.len() > 0 by {
        if i < p.len() - 1 || (i == p.len() - 1 && r.len() > p.len()) {
            assert(r[i] == p[i]);
        }
    }
}

proof fn lemma_flush_spans(s: WrapState, max: int)
    requires
        spans_inv(s),
    ensures
        spans_inv(flush_pending(s, max)),
        s.pending.len() > 0 ==> flush_pending(s, max).cur.len() > 0,
        flush_pending(s, max).out.len() >= s.out.len(),
{
    let f = flush_pending(s, max);
    if s.line_len + pieces_len(s.pending) > max && s.cur.len() > 0 {
        lemma_no_empty_add(Seq::<SpanView>::empty(), s.pending);
        assert forall|k: int| 0 <= k < f.out.len() implies no_empty_span(#[trigger] f.out[k]) by {
            if k < s.out.len() {
                assert(f.out[k] == s.out[k]);
            }
        }
    } else {
        lemma_no_empty_add(s.cur, s.pending);
    }
}

/// The state after some text: no piece is empty, and something is held or
/// finished once a character has been read.
proof fn lemma_run_spans(inp: Seq<(char, TextStyle)>, max: int)
    ensures
        spans_inv(wrap_run(inp, max)),
        inp.len() > 0 ==> wrap_run(inp, max).out.len() > 0 || wrap_run(inp, max).cur.len() > 0
            || wrap_run(inp, max).pending.len() > 0,
    decreases inp.len(),
{
    if inp.len() > 0 {
        let p = inp.drop_last();
        lemma_run_spans(p, max);
        let s = wrap_run(p, max);
        let ch = inp.last().0;
        let st = inp.last().1;
        let t = wrap_step(s, ch, st, max);
        assert(t == wrap_run(inp, max));
        if ch == ' ' {
            let fl = !(last_ends_with(s.pending, '(') || last_ends_with(s.pending, '['))
                && s.pending.len() > 0;
            let s1 = if fl {
                flush_pending(s, max)
            } else {
                s
            };
            lemma_flush_spans(s, max);
            assert(spans_inv(s1));
            if s1.line_len + 1 > max && s1.cur.len() > 0 {
                assert forall|k: int| 0 <= k < t.out.len() implies no_empty_span(
                    #[trigger] t.out[k],
                ) by {
                    if k < s1.out.len() {
                        assert(t.out[k] == s1.out[k]);
                    }
                }
            } else {
                let sp = SpanView { text: seq![' '], style: st };
                lemma_no_empty_add(s1.cur, seq![sp]);
                assert(s1.cur + seq![sp] =~= s1.cur.push(sp));
            }
        } else if ch == '(' && last_ends_with(s.pending, ']') {
            lemma_flush_spans(s, max);
        } else if ch == ')' && s.depth > 0 {
            let s1 = WrapState { pending: push_ch(s.pending, ch, st), depth: s.depth - 1, ..s };
            lemma_no_empty_push_ch(s.pending, ch, st);
            lemma_flush_spans(s1, max);
        } else {
            lemma_no_empty_push_ch(s.pending, ch, st);
        }
    }
}

proof fn lemma_flat_empty_spans(spans: Seq<SpanView>)
    ensures
        (flat(spans).len() == 0) == (forall|i: int| 0 <= i < spans.len() ==> (#[trigger] spans[i]).text.len() == 0),
    decreases spans.len(),
{
    if spans.len() > 0 {
        let d = spans.drop_last();
        lemma_flat_empty_spans(d);
        assert(styled_chars(spans.last()).len() == spans.last().text.len());
        if forall|i: int| 0 <= i < spans.len() ==> (#[trigger] spans[i]).text.len() == 0 {
            assert(spans[spans.len() - 1].text.len() == 0);
            assert forall|i: int| 0 <= i < d.len() implies (#[trigger] d[i]).text.len() == 0 by {
                assert(d[i] == spans[i]);
            }
        } else {
            let i = choose|i: int| 0 <= i < spans.len() && (#[trigger] spans[i]).text.len() != 0;
            if i < d.len() {
                assert(d[i] == spans[i]);
            }
        }
    }
}

/// Wrapping gives no line at all exactly when every span is empty, and no
/// span that it gives is empty.
pub proof fn lemma_wrap_no_empty(spans: Seq<SpanView>, max: int)
    ensures
        (wrap_spans_spec(spans, max).len() == 0) == (forall|i: int|
            0 <= i < spans.len() ==> (#[trigger] spans[i]).text.len() == 0),
        forall|k: int|
            0 <= k < wrap_spans_spec(spans, max).len() ==> no_empty_span(
                #[trigger] wrap_spans_spec(spans, max)[k],
            ),
{
    let inp = flat(spans);
    let s = wrap_run(inp, max);
    lemma_run_spans(inp, max);
    lemma_flat_empty_spans(spans);
    lemma_flush_spans(s, max);
    let s1 = if s.pending.len() > 0 {
        flush_pending(s, max)
    } else {
        s
    };
    let r = wrap_spans_spec(spans, max);
    assert(r == wrap_finish(s, max));
    assert forall|k: int| 0 <= k < r.len() implies no_empty_span(#[trigger] r[k]) by {
        if k < s1.out.len() {
            assert(r[k] == s1.out[k]);
        }
    }
    if inp.len() == 0 {
        assert(s == wrap_init());
    }
}

/// `inp` has an opening bracket directly followed by a space.
pub open spec fn open_then_space(inp: Seq<(char, TextStyle)>) -> bool
    decreases inp.len(),
{
    if inp.len() < 2 {
        false
    } else {
        open_then_space(inp.drop_last()) || (inp.last().0 == ' ' && (inp[inp.len() - 2].0 == '('
            || inp[inp.len() - 2].0 == '['))
    }
}

/// While text that fits is read without an opening bracket before a space,
/// nothing is moved: the held characters are the text read, and held pieces
/// never wait behind a space.
proof fn lemma_run_exact(inp: Seq<(char, TextStyle)>, max: int)
    requires
        crate::wrap_laws::styled_bytes(inp) <= max,
        !open_then_space(inp),
    ensures
        held(wrap_run(inp, max)) == inp,
        wrap_run(inp, max).pending.len() > 0 ==> inp.len() > 0 && inp.last().0 != ' ',
    decreases inp.len(),
{
    if inp.len() == 0 {
        let s = wrap_init();
        assert(held(s) =~= inp);
    } else {
        let p = inp.drop_last();
        let ch = inp.last().0;
        let st = inp.last().1;
        assert(!open_then_space(p));
        crate::wrap_laws::lemma_styled_bytes_nonneg(p);
        assert(crate::wrap_laws::styled_bytes(inp) == crate::wrap_laws::styled_bytes(p)
            + crate::text::char_width(ch));
        lemma_run_exact(p, max);
        lemma_run_fits(p, max);
        lemma_run_breaks(p, max);
        let s = wrap_run(p, max);
        assert(break_inv(p, s));
        let t = wrap_step(s, ch, st, max);
        assert(t == wrap_run(inp, max));
        assert(inp =~= p.push((ch, st)));
        lemma_pieces_len_nonneg(s.pending);
        lemma_pieces_len_push_ch(s.pending, ch, st);
        if ch == ' ' {
            if s.pending.len() > 0 {
                assert(p.last().0 != ' ');
                assert(last_ends_with(s.pending, p.last().0));
                assert(p.last() == inp[inp.len() - 2]);
                assert(!ends_open(s.pending));
            }
            let fl = s.pending.len() > 0;
            let s1 = if fl {
                flush_pending(s, max)
            } else {
                s
            };
            lemma_flush_held(s, max);
            crate::wrap_laws::lemma_flat_of_nothing();
            assert(held(s1) == p);
            assert(s1.pending.len() == 0);
            let sp = SpanView { text: seq![' '], style: st };
            assert(s1.cur.push(sp).drop_last() =~= s1.cur);
            assert(styled_chars(sp) =~= seq![(' ', st)]);
            assert(held(t) =~= held(s1).push((' ', st)));
        } else if ch == '(' && last_ends_with(s.pending, ']') {
            let s1 = flush_pending(s, max);
            lemma_flush_held(s, max);
            crate::wrap_laws::lemma_flat_of_nothing();
            let sp = SpanView { text: seq!['('], style: st };
            assert(seq![sp].drop_last() =~= Seq::<SpanView>::empty());
            assert(styled_chars(sp) =~= seq![('(', st)]);
            assert(s1.pending.len() == 0);
            assert(held(t) =~= held(s1).push(('(', st)));
        } else if ch == ')' && s.depth > 0 {
            let s1 = WrapState { pending: push_ch(s.pending, ch, st), depth: s.depth - 1, ..s };
            lemma_flat_push_ch(s.pending, ch, st);
            assert(held(s1) =~= held(s).push((ch, st)));
            lemma_flush_held(s1, max);
        } else {
            lemma_flat_push_ch(s.pending, ch, st);
            assert(held(t) =~= held(s).push((ch, st)));
        }
    }
}

/// Non-empty text that fits in `max` bytes makes exactly one line, and when
/// no opening bracket is followed by a space, that line holds the text as it
/// was given, character for character and style for style.
pub proof fn lemma_wrap_fits_exactly(spans: Seq<SpanView>, max: int)
    requires
        pieces_len(spans) <= max,
        flat(spans).len() > 0,
    ensures
        wrap_spans_spec(spans, max).len() == 1,
        !open_then_space(flat(spans)) ==> flat(wrap_spans_spec(spans, max)[0]) == flat(spans),
{
    crate::wrap_laws::lemma_wrap_fits(spans, max);
    lemma_wrap_no_empty(spans, max);
    lemma_flat_empty_spans(spans);
    let inp = flat(spans);
    lemma_styled_bytes_flat(spans);
    if !open_then_space(inp) {
        let s = wrap_run(inp, max);
        lemma_run_exact(inp, max);
        lemma_run_fits(inp, max);
        let s1 = if s.pending.len() > 0 {
            flush_pending(s, max)
        } else {
            s
        };
        lemma_flush_held(s, max);
        crate::wrap_laws::lemma_flat_of_nothing();
        assert(s1.out.len() == 0);
        assert(held(s1) == inp);
        assert(s1.out =~= Seq::<Seq<SpanView>>::empty());
        assert(flat(s1.cur) =~= inp);
    }
}

/// `t` holds no space.
pub open spec fn no_sp(t: Seq<char>) -> bool {
    forall|i: int| 0 <= i < t.len() ==> t[i] != ' '
}

/// A line is no longer than `max` bytes, or holds no space.
pub open spec fn fits_or_unbroken(l: Seq<SpanView>, max: int) -> bool {
    pieces_len(l) <= max || no_sp(line_text(l))
}

/// The byte count of the current line is the length kept, the held pieces
/// hold no space, and every line so far fits or holds no space.
pub open spec fn long_inv(s: WrapState, max: int) -> bool {
    &&& s.line_len == pieces_len(s.cur)
    &&& no_sp(line_text(s.pending))
    &&& fits_or_unbroken(s.cur, max)
    &&& forall|k: int| 0 <= k < s.out.len() ==> fits_or_unbroken(#[trigger] s.out[k], max)
}

proof fn lemma_pieces_len_concat(a: Seq<SpanView>, b: Seq<SpanView>)
    ensures
        pieces_len(a + b) == pieces_len(a) + pieces_len(b),
    decreases b.len(),
{
    if b.len() > 0 {
        lemma_pieces_len_concat(a, b.drop_last());
        assert((a + b).drop_last() =~= a + b.drop_last());
    } else {
        assert(a + b =~= a);
    }
}

proof fn lemma_line_text_concat(a: Seq<SpanView>, b: Seq<SpanView>)
    ensures
        line_text(a + b) == line_text(a) + line_text(b),
    decreases b.len(),
{
    if b.len() > 0 {
        lemma_line_text_concat(a, b.drop_last());
        assert((a + b).drop_last() =~= a + b.drop_last());
        assert(line_text(a) + line_text(b.drop_last()) + b.last().text =~= line_text(a) + (
        line_text(b.drop_last()) + b.last().text));
    } else {
        assert(a + b =~= a);
        assert(line_text(a) + line_text(b) =~= line_text(a));
    }
}

proof fn lemma_line_text_push_ch(p: Seq<SpanView>, ch: char, st: TextStyle)
    ensures
        line_text(push_ch(p, ch, st)) == line_text(p).push(ch),
{
    if p.len() > 0 && p.last().style == st && !crate::text::is_ctrl(ch) {
        let q = p.drop_last();
        let last = SpanView { text: p.last().text.push(ch), style: st };
        assert(q.push(last).drop_last() =~= q);
        assert(line_text(q) + last.text =~= (line_text(q) + p.last().text).push(ch));
    } else {
        let sp = SpanView { text: seq![ch], style: st };
        assert(p.push(sp).drop_last() =~= p);
    }
}

proof fn lemma_flush_long(s: WrapState, max: int)
    requires
        long_inv(s, max),
    ensures
        long_inv(flush_pending(s, max), max),
{
    let plen = pieces_len(s.pending);
    let f = flush_pending(s, max);
    crate::wrap_laws::lemma_flat_of_nothing();
    assert(line_text(Seq::<SpanView>::empty()) =~= Seq::<char>::empty());
    assert(no_sp(line_text(Seq::<SpanView>::empty())));
    if s.line_len + plen > max && s.cur.len() > 0 {
        lemma_pieces_len_concat(Seq::<SpanView>::empty(), s.pending);
        assert(Seq::<SpanView>::empty() + s.pending =~= s.pending);
        assert forall|k: int| 0 <= k < f.out.len() implies fits_or_unbroken(#[trigger] f.out[k], max) by {
            if k < s.out.len() {
                assert(f.out[k] == s.out[k]);
            }
        }
    } else {
        lemma_pieces_len_concat(s.cur, s.pending);
        lemma_line_text_concat(s.cur, s.pending);
        if s.cur.len() == 0 {
            assert(s.cur + s.pending =~= s.pending);
        }
    }
}

proof fn lemma_run_long(inp: Seq<(char, TextStyle)>, max: int)
    requires
        max >= 1,
    ensures
        long_inv(wrap_run(inp, max), max),
    decreases inp.len(),
{
    if inp.len() == 0 {
        assert(line_text(Seq::<SpanView>::empty()) =~= Seq::<char>::empty());
    } else {
        let p = inp.drop_last();
        lemma_run_long(p, max);
        let s = wrap_run(p, max);
        let ch = inp.last().0;
        let st = inp.last().1;
        let t = wrap_step(s, ch, st, max);
        assert(t == wrap_run(inp, max));
        lemma_pieces_len_nonneg(s.cur);
        if ch == ' ' {
            let fl = !(last_ends_with(s.pending, '(') || last_ends_with(s.pending, '['))
                && s.pending.len() > 0;
            let s1 = if fl {
                flush_pending(s, max)
            } else {
                s
            };
            lemma_flush_long(s, max);
            assert(long_inv(s1, max));
            lemma_pieces_len_nonneg(s1.cur);
            if s1.line_len + 1 > max && s1.cur.len() > 0 {
                assert(line_text(Seq::<SpanView>::empty()) =~= Seq::<char>::empty());
                assert forall|k: int| 0 <= k < t.out.len() implies fits_or_unbroken(
                    #[trigger] t.out[k],
                    max,
                ) by {
                    if k < s1.out.len() {
                        assert(t.out[k] == s1.out[k]);
                    }
                }
            } else {
                let sp = SpanView { text: seq![' '], style: st };
                lemma_pieces_len_concat(s1.cur, seq![sp]);
                assert(s1.cur + seq![sp] =~= s1.cur.push(sp));
                assert(seq![sp].drop_last() =~= Seq::<SpanView>::empty());
                assert(sp.text.drop_last() =~= Seq::<char>::empty());
                assert(crate::text::byte_len(sp.text) == crate::text::byte_len(Seq::<char>::empty())
                    + crate::text::char_width(' '));
                assert(crate::text::char_width(' ') == 1);
                assert(pieces_len(seq![sp]) == pieces_len(Seq::<SpanView>::empty())
                    + crate::text::byte_len(sp.text));
                assert(pieces_len(seq![sp]) == 1);
                if s1.cur.len() == 0 {
                    assert(pieces_len(s1.cur) == 0);
                }
            }
        } else if ch == '(' && last_ends_with(s.pending, ']') {
            lemma_flush_long(s, max);
            let sp = SpanView { text: seq!['('], style: st };
            assert(seq![sp].drop_last() =~= Seq::<SpanView>::empty());
            assert(line_text(seq![sp]) =~= seq!['(']);
        } else if ch == ')' && s.depth > 0 {
            let s1 = WrapState { pending: push_ch(s.pending, ch, st), depth: s.depth - 1, ..s };
            lemma_line_text_push_ch(s.pending, ch, st);
            assert(no_sp(line_text(s1.pending)));
            lemma_flush_long(s1, max);
        } else {
            lemma_line_text_push_ch(s.pending, ch, st);
        }
    }
}

/// A wrapped line is longer than the width only when it holds no space: it is
/// then a single chunk that cannot be broken.
pub proof fn lemma_wrap_long_lines_unbroken(spans: Seq<SpanView>, max: int)
    requires
        max >= 1,
    ensures
        forall|k: int|
            0 <= k < wrap_spans_spec(spans, max).len() ==> fits_or_unbroken(
                #[trigger] wrap_spans_spec(spans, max)[k],
                max,
            ),
{
    let inp = flat(spans);
    let s = wrap_run(inp, max);
    lemma_run_long(inp, max);
    lemma_flush_long(s, max);
    let s1 = if s.pending.len() > 0 {
        flush_pending(s, max)
    } else {
        s
    };
    let r = wrap_spans_spec(spans, max);
    assert(r == wrap_finish(s, max));
    assert forall|k: int| 0 <= k < r.len() implies fits_or_unbroken(#[trigger] r[k], max) by {
        if k < s1.out.len() {
            assert(r[k] == s1.out[k]);
        }
    }
}

/// The number of spaces in `s`.
pub open spec fn space_count(s: Seq<(char, TextStyle)>) -> int
    decreases s.len(),
{
    if s.len() == 0 {
        0
    } else {
        space_count(s.drop_last()) + if s.last().0 == ' ' {
            1int
        } else {
            0int
        }
    }
}

proof fn lemma_space_count_add(a: Seq<(char, TextStyle)>, b: Seq<(char, TextStyle)>)
    ensures
        space_count(a + b) == space_count(a) + space_count(b),
    decreases b.len(),
{
    if b.len() == 0 {
        assert(a + b =~= a);
    } else {
        lemma_space_count_add(a, b.drop_last());
        assert((a + b).drop_last() =~= a + b.drop_last());
    }
}

proof fn lemma_space_count_push(a: Seq<(char, TextStyle)>, x: (char, TextStyle))
    ensures
        space_count(a.push(x)) == space_count(a) + if x.0 == ' ' {
            1int
        } else {
            0int
        },
{
    assert(a.push(x).drop_last() =~= a);
}

/// Spaces are only ever dropped, at most one where a line ends.
#[verifier::rlimit(40)]
proof fn lemma_run_spaces(inp: Seq<(char, TextStyle)>, max: int)
    ensures
        space_count(held(wrap_run(inp, max))) <= space_count(inp) <= space_count(
            held(wrap_run(inp, max)),
        ) + wrap_run(inp, max).out.len(),
    decreases inp.len(),
{
    if inp.len() == 0 {
        crate::wrap_laws::lemma_flat_of_nothing();
        assert(held(wrap_init()) =~= Seq::<(char, TextStyle)>::empty());
    } else {
        let p = inp.drop_last();
        lemma_run_spaces(p, max);
        let s = wrap_run(p, max);
        let ch = inp.last().0;
        let st = inp.last().1;
        let t = wrap_step(s, ch, st, max);
        assert(t == wrap_run(inp, max));
        assert(inp =~= p.push((ch, st)));
        lemma_space_count_push(p, (ch, st));
        lemma_flush_held(s, max);
        if ch == ' ' {
            let fl = !(last_ends_with(s.pending, '(') || last_ends_with(s.pending, '['))
                && s.pending.len() > 0;
            let s1 = if fl {
                flush_pending(s, max)
            } else {
                s
            };
            assert(held(s1) == held(s));
            if s1.line_len + 1 > max && s1.cur.len() > 0 {
                crate::wrap_laws::lemma_flat_lines_push(s1.out, s1.cur);
                crate::wrap_laws::lemma_flat_of_nothing();
                assert(held(t) =~= held(s1));
            } else {
                let sp = SpanView { text: seq![' '], style: st };
                assert(s1.cur.push(sp).drop_last() =~= s1.cur);
                assert(styled_chars(sp) =~= seq![(' ', st)]);
                let a = crate::wrap_laws::flat_lines(s1.out) + flat(s1.cur);
                assert(held(t) =~= a + seq![(' ', st)] + flat(s1.pending));
                assert(held(s1) =~= a + flat(s1.pending));
                lemma_space_count_add(a + seq![(' ', st)], flat(s1.pending));
                lemma_space_count_add(a, flat(s1.pending));
                lemma_space_count_push(a, (' ', st));
                assert(a + seq![(' ', st)] =~= a.push((' ', st)));
            }
        } else if ch == '(' && last_ends_with(s.pending, ']') {
            let s1 = flush_pending(s, max);
            crate::wrap_laws::lemma_flat_of_nothing();
            let sp = SpanView { text: seq!['('], style: st };
            assert(seq![sp].drop_last() =~= Seq::<SpanView>::empty());
            assert(styled_chars(sp) =~= seq![('(', st)]);
            assert(held(t) =~= held(s1).push(('(', st)));
            lemma_space_count_push(held(s1), ('(', st));
        } else if ch == ')' && s.depth > 0 {
            let s1 = WrapState { pending: push_ch(s.pending, ch, st), depth: s.depth - 1, ..s };
            lemma_flat_push_ch(s.pending, ch, st);
            assert(held(s1) =~= held(s).push((ch, st)));
            lemma_space_count_push(held(s), (ch, st));
            lemma_flush_held(s1, max);
            let f = flush_pending(s1, max);
            assert(f.out.len() >= s1.out.len());
        } else {
            lemma_flat_push_ch(s.pending, ch, st);
            assert(held(t) =~= held(s).push((ch, st)));
            lemma_space_count_push(held(s), (ch, st));
        }
    }
}

/// Wrapping drops spaces only where lines end, at most one per line: the
/// spaces of the lines are no more than those of the text, and the text has
/// at most one more space per line.
pub proof fn lemma_wrap_drops_spaces_at_breaks(spans: Seq<SpanView>, max: int)
    ensures
        space_count(crate::wrap_laws::flat_lines(wrap_spans_spec(spans, max))) <= space_count(
            flat(spans),
        ),
        space_count(flat(spans)) <= space_count(
            crate::wrap_laws::flat_lines(wrap_spans_spec(spans, max)),
        ) + wrap_spans_spec(spans, max).len(),
{
    let inp = flat(spans);
    let s = wrap_run(inp, max);
    lemma_run_spaces(inp, max);
    lemma_flush_held(s, max);
    crate::wrap_laws::lemma_flat_of_nothing();
    let s1 = if s.pending.len() > 0 {
        flush_pending(s, max)
    } else {
        s
    };
    assert(held(s1) == held(s));
    assert(flat(s1.pending) =~= Seq::<(char, TextStyle)>::empty());
    let r = wrap_spans_spec(spans, max);
    assert(r == wrap_finish(s, max));
    if s1.cur.len() > 0 {
        crate::wrap_laws::lemma_flat_lines_push(s1.out, s1.cur);
    }
    assert(crate::wrap_laws::flat_lines(r) =~= held(s1));
}

/// The byte length of the text of `t` up to its first space.
pub open spec fn lead_bytes(t: Seq<char>) -> int
    decreases t.len(),
{
    if t.len() == 0 || t[0] == ' ' {
        0
    } else {
        crate::text::char_width(t[0]) + lead_bytes(t.drop_first())
    }
}

proof fn lemma_lead_bytes_prefix(a: Seq<char>, b: Seq<char>)
    ensures
        lead_bytes(a + b) >= lead_bytes(a),
        lead_bytes(b) >= 0,
    decreases a.len() + b.len(),
{
    if a.len() > 0 {
        assert((a + b)[0] == a[0]);
        assert((a + b).drop_first() =~= a.drop_first() + b);
        lemma_lead_bytes_prefix(a.drop_first(), b);
    } else if b.len() > 0 {
        lemma_lead_bytes_prefix(a, b.drop_first());
    }
}

proof fn lemma_lead_bytes_no_space(t: Seq<char>)
    requires
        no_sp(t),
    ensures
        lead_bytes(t) == crate::text::byte_len(t),
    decreases t.len(),
{
    if t.len() > 0 {
        let r = t.drop_first();
        assert(no_sp(r)) by {
            assert forall|i: int| 0 <= i < r.len() implies r[i] != ' ' by {
                assert(r[i] == t[i + 1]);
            }
        }
        lemma_lead_bytes_no_space(r);
        crate::text::lemma_byte_len_add(seq![t[0]], r);
        assert(seq![t[0]] + r =~= t);
        assert(seq![t[0]].drop_last() =~= Seq::<char>::empty());
        assert(seq![t[0]].last() == t[0]);
        assert(crate::text::byte_len(Seq::<char>::empty()) == 0);
        assert(crate::text::byte_len(seq![t[0]]) == crate::text::byte_len(seq![t[0]].drop_last())
            + crate::text::char_width(seq![t[0]].last()));
        assert(crate::text::byte_len(seq![t[0]]) == crate::text::char_width(t[0]));
        assert(t[0] != ' ');
    }
}

/// A finished line ended only where its width was reached, or where the text
/// that had to follow it up to the next space did not fit.
pub open spec fn ended_full(l: Seq<SpanView>, next: Seq<SpanView>, max: int) -> bool {
    pieces_len(l) >= max || pieces_len(l) + lead_bytes(line_text(next)) > max
}

pub open spec fn greedy_spans_inv(s: WrapState, max: int) -> bool {
    &&& s.line_len == pieces_len(s.cur)
    &&& no_sp(line_text(s.pending))
    &&& forall|k: int|
        0 <= k < s.out.len() ==> ended_full(
            #[trigger] s.out[k],
            if k + 1 < s.out.len() { s.out[k + 1] } else { s.cur },
            max,
        )
}

proof fn lemma_greedy_extend(s: WrapState, x: Seq<SpanView>, max: int)
    requires
        forall|k: int|
            0 <= k < s.out.len() ==> ended_full(
                #[trigger] s.out[k],
                if k + 1 < s.out.len() { s.out[k + 1] } else { s.cur },
                max,
            ),
    ensures
        forall|k: int|
            0 <= k < s.out.len() ==> ended_full(
                #[trigger] s.out[k],
                if k + 1 < s.out.len() { s.out[k + 1] } else { s.cur + x },
                max,
            ),
{
    lemma_line_text_concat(s.cur, x);
    lemma_lead_bytes_prefix(line_text(s.cur), line_text(x));
}

proof fn lemma_greedy_push(out: Seq<Seq<SpanView>>, cur: Seq<SpanView>, next: Seq<SpanView>, max: int)
    requires
        forall|k: int|
            0 <= k < out.len() ==> ended_full(
                #[trigger] out[k],
                if k + 1 < out.len() { out[k + 1] } else { cur },
                max,
            ),
        ended_full(cur, next, max),
    ensures
        forall|k: int|
            0 <= k < out.push(cur).len() ==> ended_full(
                #[trigger] out.push(cur)[k],
                if k + 1 < out.push(cur).len() { out.push(cur)[k + 1] } else { next },
                max,
            ),
{
    let o = out.push(cur);
    assert forall|k: int| 0 <= k < o.len() implies ended_full(
        #[trigger] o[k],
        if k + 1 < o.len() { o[k + 1] } else { next },
        max,
    ) by {
        if k < out.len() {
            assert(o[k] == out[k]);
            if k + 1 < out.len() {
                assert(o[k + 1] == out[k + 1]);
            } else {
                assert(o[k + 1] == cur);
            }
        }
    }
}

proof fn lemma_flush_greedy(s: WrapState, max: int)
    requires
        greedy_spans_inv(s, max),
    ensures
        greedy_spans_inv(flush_pending(s, max), max),
{
    let plen = pieces_len(s.pending);
    let f = flush_pending(s, max);
    assert(line_text(Seq::<SpanView>::empty()) =~= Seq::<char>::empty());
    if s.line_len + plen > max && s.cur.len() > 0 {
        lemma_pieces_len_concat(Seq::<SpanView>::empty(), s.pending);
        assert(Seq::<SpanView>::empty() + s.pending =~= s.pending);
        lemma_lead_bytes_no_space(line_text(s.pending));
        assert(crate::text::byte_len(line_text(s.pending)) == plen) by {
            lemma_pieces_bytes(s.pending);
        }
        lemma_greedy_push(s.out, s.cur, s.pending, max);
    } else {
        lemma_pieces_len_concat(s.cur, s.pending);
        lemma_greedy_extend(s, s.pending, max);
    }
}

proof fn lemma_pieces_bytes(p: Seq<SpanView>)
    ensures
        crate::text::byte_len(line_text(p)) == pieces_len(p),
    decreases p.len(),
{
    if p.len() > 0 {
        lemma_pieces_bytes(p.drop_last());
        crate::text::lemma_byte_len_add(line_text(p.drop_last()), p.last().text);
    }
}

proof fn lemma_run_greedy_spans(inp: Seq<(char, TextStyle)>, max: int)
    ensures
        greedy_spans_inv(wrap_run(inp, max), max),
    decreases inp.len(),
{
    if inp.len() == 0 {
        assert(line_text(Seq::<SpanView>::empty()) =~= Seq::<char>::empty());
    } else {
        let p = inp.drop_last();
        lemma_run_greedy_spans(p, max);
        let s = wrap_run(p, max);
        let ch = inp.last().0;
        let st = inp.last().1;
        let t = wrap_step(s, ch, st, max);
        assert(t == wrap_run(inp, max));
        lemma_pieces_len_nonneg(s.cur);
        if ch == ' ' {
            let fl = !(last_ends_with(s.pending, '(') || last_ends_with(s.pending, '['))
                && s.pending.len() > 0;
            let s1 = if fl {
                flush_pending(s, max)
            } else {
                s
            };
            lemma_flush_greedy(s, max);
            assert(greedy_spans_inv(s1, max));
            if s1.line_len + 1 > max && s1.cur.len() > 0 {
                lemma_greedy_push(s1.out, s1.cur, Seq::<SpanView>::empty(), max);
                assert(line_text(Seq::<SpanView>::empty()) =~= Seq::<char>::empty());
            } else {
                let sp = SpanView { text: seq![' '], style: st };
                lemma_pieces_len_concat(s1.cur, seq![sp]);
                assert(s1.cur + seq![sp] =~= s1.cur.push(sp));
                assert(seq![sp].drop_last() =~= Seq::<SpanView>::empty());
                assert(sp.text.drop_last() =~= Seq::<char>::empty());
                assert(crate::text::byte_len(sp.text) == crate::text::byte_len(Seq::<char>::empty())
                    + crate::text::char_width(' '));
                assert(pieces_len(seq![sp]) == pieces_len(Seq::<SpanView>::empty())
                    + crate::text::byte_len(sp.text));
                lemma_greedy_extend(s1, seq![sp], max);
            }
        } else if ch == '(' && last_ends_with(s.pending, ']') {
            lemma_flush_greedy(s, max);
            let sp = SpanView { text: seq!['('], style: st };
            assert(seq![sp].drop_last() =~= Seq::<SpanView>::empty());
            assert(line_text(seq![sp]) =~= seq!['(']);
        } else if ch == ')' && s.depth > 0 {
            let s1 = WrapState { pending: push_ch(s.pending, ch, st), depth: s.depth - 1, ..s };
            lemma_line_text_push_ch(s.pending, ch, st);
            assert(no_sp(line_text(s1.pending)));
            lemma_flush_greedy(s1, max);
        } else {
            lemma_line_text_push_ch(s.pending, ch, st);
        }
    }
}

/// Wrapping is greedy: a line ends only where it has reached the width, or
/// where the text that follows it on the next line, up to the first space,
/// did not fit after it.
pub proof fn lemma_wrap_greedy(spans: Seq<SpanView>, max: int)
    ensures
        forall|i: int|
            0 <= i < wrap_spans_spec(spans, max).len() - 1 ==> ended_full(
                #[trigger] wrap_spans_spec(spans, max)[i],
                wrap_spans_spec(spans, max)[i + 1],
                max,
            ),
{
    let inp = flat(spans);
    let s = wrap_run(inp, max);
    lemma_run_greedy_spans(inp, max);
    lemma_flush_greedy(s, max);
    let s1 = if s.pending.len() > 0 {
        flush_pending(s, max)
    } else {
        s
    };
    let r = wrap_spans_spec(spans, max);
    assert(r == wrap_finish(s, max));
    assert forall|i: int| 0 <= i < r.len() - 1 implies ended_full(#[trigger] r[i], r[i + 1], max) by {
        assert(r[i] == s1.out[i]);
        if i + 1 < s1.out.len() {
            assert(r[i + 1] == s1.out[i + 1]);
        } else {
            assert(r[i + 1] == s1.cur);
        }
    }
}

} // verus!
