//! Where wrapped paragraph lines may break: at a space, between `]` and `(`,
//! or after a `)` that closes the outermost bracket, and nowhere else.

use vstd::prelude::*;
use crate::style::{SpanView, TextStyle};
use crate::wrap::{
    WrapState, flat, flush_pending, last_ends_with, push_ch, styled_chars, wrap_finish, wrap_init,
    wrap_run, wrap_spans_spec, wrap_step,
};
use crate::wrap_laws::{
    ends_open, flat_lines, held, lemma_flat_lines_push, lemma_flat_push_ch, lemma_flush_held,
    lemma_nonspace_add, lemma_push_ch_ends, lemma_run_held, nonspace,
};

verus! {

/// The number of non-space characters of `s`.
pub open spec fn ns_count(s: Seq<(char, TextStyle)>) -> int {
    nonspace(s).len() as int
}

/// The bracket depth after `inp`: `(` and `[` open a bracket, and `)` and
/// `]` close one when one is open.
pub open spec fn bracket_depth(inp: Seq<(char, TextStyle)>) -> int
    decreases inp.len(),
{
    if inp.len() == 0 {
        0
    } else {
        let d = bracket_depth(inp.drop_last());
        let c = inp.last().0;
        if (c == ')' || c == ']') && d > 0 {
            d - 1
        } else if c == '(' || c == '[' {
            d + 1
        } else {
            d
        }
    }
}

/// `p` ends with a `)` that closes the outermost bracket.
pub open spec fn closes_group(p: Seq<(char, TextStyle)>) -> bool {
    p.len() > 0 && p.last().0 == ')' && bracket_depth(p.drop_last()) == 1
}

/// A line may end after `p`: `p` holds no non-space character, or ends with
/// a space or with a `)` that closes the outermost bracket.
pub open spec fn sealed(p: Seq<(char, TextStyle)>) -> bool {
    ns_count(p) == 0 || p.last().0 == ' ' || closes_group(p)
}

/// The break opportunities of a text, counted in non-space characters: `k`
/// is one when the `k`-th and the next non-space character are separated by a
/// space, are `]` and `(` written together, or when the `k`-th is a `)` that
/// closes the outermost bracket.
pub open spec fn break_points(inp: Seq<(char, TextStyle)>) -> Set<int>
    decreases inp.len(),
{
    if inp.len() == 0 {
        Set::empty()
    } else {
        let p = inp.drop_last();
        let c = inp.last().0;
        if c != ' ' && ns_count(p) > 0 && (p.last().0 == ' ' || closes_group(p) || (p.last().0
            == ']' && c == '(')) {
            break_points(p).insert(ns_count(p))
        } else {
            break_points(p)
        }
    }
}

/// A line may end after the first `e` non-space characters of `inp`.
pub open spec fn may_end(inp: Seq<(char, TextStyle)>, e: int) -> bool {
    e == 0 || break_points(inp).contains(e) || (e == ns_count(inp) && sealed(inp))
}

/// The number of non-space characters on the first `j` lines.
pub open spec fn line_end(ls: Seq<Seq<SpanView>>, j: int) -> int {
    ns_count(flat_lines(ls.take(j)))
}

/// The number of non-space characters on the finished and current lines.
pub open spec fn done_count(s: WrapState) -> int {
    ns_count(flat_lines(s.out) + flat(s.cur))
}

/// The finished lines end at break opportunities; the held pieces start at
/// one; the held pieces end with the last character read unless that is a
/// space, in which case they end with an opening bracket; and the depth is
/// the bracket depth of the text read.
pub open spec fn break_inv(inp: Seq<(char, TextStyle)>, s: WrapState) -> bool {
    &&& forall|j: int| 1 <= j <= s.out.len() ==> may_end(inp, #[trigger] line_end(s.out, j))
    &&& s.pending.len() > 0 ==> done_count(s) < ns_count(inp) && (done_count(s) == 0
        || break_points(inp).contains(done_count(s)))
    &&& s.pending.len() == 0 ==> done_count(s) == ns_count(inp) && sealed(inp)
    &&& s.pending.len() > 0 && inp.len() > 0 && inp.last().0 != ' ' ==> last_ends_with(
        s.pending,
        inp.last().0,
    )
    &&& s.pending.len() > 0 && inp.len() > 0 && inp.last().0 == ' ' ==> ends_open(s.pending)
    &&& s.depth == bracket_depth(inp)
}

proof fn lemma_ns_count_push(p: Seq<(char, TextStyle)>, x: (char, TextStyle))
    ensures
        ns_count(p.push(x)) == ns_count(p) + if x.0 == ' ' {
            0int
        } else {
            1int
        },
{
    assert(p.push(x).drop_last() =~= p);
}

proof fn lemma_ns_count_add(a: Seq<(char, TextStyle)>, b: Seq<(char, TextStyle)>)
    ensures
        ns_count(a + b) == ns_count(a) + ns_count(b),
{
    lemma_nonspace_add(a, b);
}

proof fn lemma_may_end_extend(p: Seq<(char, TextStyle)>, x: (char, TextStyle), e: int)
    requires
        may_end(p, e),
    ensures
        may_end(p.push(x), e),
{
    let inp = p.push(x);
    assert(inp.drop_last() =~= p);
    lemma_ns_count_push(p, x);
    assert(break_points(p).subset_of(break_points(inp)));
}

proof fn lemma_lines_extend(p: Seq<(char, TextStyle)>, x: (char, TextStyle), out: Seq<Seq<SpanView>>)
    requires
        forall|j: int| 1 <= j <= out.len() ==> may_end(p, #[trigger] line_end(out, j)),
    ensures
        forall|j: int| 1 <= j <= out.len() ==> may_end(p.push(x), #[trigger] line_end(out, j)),
{
    assert forall|j: int| 1 <= j <= out.len() implies may_end(p.push(x), #[trigger] line_end(out, j)) by {
        lemma_may_end_extend(p, x, line_end(out, j));
    }
}

proof fn lemma_lines_push(inp: Seq<(char, TextStyle)>, out: Seq<Seq<SpanView>>, cur: Seq<SpanView>)
    requires
        forall|j: int| 1 <= j <= out.len() ==> may_end(inp, #[trigger] line_end(out, j)),
        may_end(inp, ns_count(flat_lines(out) + flat(cur))),
    ensures
        forall|j: int|
            1 <= j <= out.push(cur).len() ==> may_end(inp, #[trigger] line_end(out.push(cur), j)),
{
    let o = out.push(cur);
    assert forall|j: int| 1 <= j <= o.len() implies may_end(inp, #[trigger] line_end(o, j)) by {
        if j <= out.len() {
            assert(o.take(j) =~= out.take(j));
            assert(line_end(o, j) == line_end(out, j));
        } else {
            assert(o.take(j) =~= o);
            lemma_flat_lines_push(out, cur);
        }
    }
}

proof fn lemma_flat_empty()
    ensures
        flat(Seq::<SpanView>::empty()) =~= Seq::<(char, TextStyle)>::empty(),
{
}

/// What the held pieces count: the non-space characters read so far.
proof fn lemma_counts(inp: Seq<(char, TextStyle)>, s: WrapState, max: int)
    requires
        s == wrap_run(inp, max),
    ensures
        done_count(s) + ns_count(flat(s.pending)) == ns_count(inp),
{
    lemma_run_held(inp, max);
    lemma_ns_count_add(flat_lines(s.out) + flat(s.cur), flat(s.pending));
}

/// Flushing moves every held character onto the current line.
proof fn lemma_flush_count(inp: Seq<(char, TextStyle)>, s: WrapState, max: int)
    requires
        nonspace(held(s)) == nonspace(inp),
    ensures
        flush_pending(s, max).pending.len() == 0,
        done_count(flush_pending(s, max)) == ns_count(inp),
{
    let f = flush_pending(s, max);
    lemma_flush_held(s, max);
    lemma_flat_empty();
    assert(held(f) =~= flat_lines(f.out) + flat(f.cur));
}

/// Facts of the state that the step lemma uses.
proof fn lemma_pending_facts(p: Seq<(char, TextStyle)>, s: WrapState)
    requires
        break_inv(p, s),
    ensures
        s.pending.len() > 0 ==> ns_count(p) > 0 && p.len() > 0,
        last_ends_with(s.pending, ']') ==> p.len() > 0 && p.last().0 == ']',
        done_count(s) <= ns_count(p),
{
    if s.pending.len() > 0 {
        if p.len() == 0 {
            assert(nonspace(p) =~= Seq::<(char, TextStyle)>::empty());
        }
    }
}

proof fn lemma_step_breaks(p: Seq<(char, TextStyle)>, ch: char, st: TextStyle, max: int)
    requires
        break_inv(p, wrap_run(p, max)),
    ensures
        break_inv(p.push((ch, st)), wrap_step(wrap_run(p, max), ch, st, max)),
{
    let s = wrap_run(p, max);
    let inp = p.push((ch, st));
    let t = wrap_step(s, ch, st, max);
    let n = ns_count(p);
    assert(inp.drop_last() =~= p);
    assert(inp.last() == (ch, st));
    lemma_ns_count_push(p, (ch, st));
    lemma_run_held(p, max);
    lemma_counts(p, s, max);
    lemma_pending_facts(p, s);
    lemma_lines_extend(p, (ch, st), s.out);
    assert(break_points(p).subset_of(break_points(inp)));
    let b = done_count(s);
    if ch == ' ' {
        let fl = !(last_ends_with(s.pending, '(') || last_ends_with(s.pending, '['))
            && s.pending.len() > 0;
        let s1 = if fl {
            flush_pending(s, max)
        } else {
            s
        };
        if fl {
            lemma_flush_count(p, s, max);
            if s.line_len + crate::wrap::pieces_len(s.pending) > max && s.cur.len() > 0 {
                lemma_may_end_extend(p, (ch, st), b);
                lemma_lines_push(inp, s.out, s.cur);
            } else {
                assert(s1.out == s.out);
            }
        }
        assert(forall|j: int| 1 <= j <= s1.out.len() ==> may_end(inp, #[trigger] line_end(s1.out, j)));
        assert(s1.pending.len() > 0 ==> done_count(s1) == b && ends_open(s1.pending));
        assert(s1.pending.len() == 0 ==> done_count(s1) == n);
        assert(sealed(inp));
        if s1.line_len + 1 > max && s1.cur.len() > 0 {
            assert(may_end(inp, done_count(s1)));
            lemma_lines_push(inp, s1.out, s1.cur);
            lemma_flat_lines_push(s1.out, s1.cur);
            lemma_flat_empty();
            assert(flat_lines(t.out) + flat(t.cur) =~= flat_lines(s1.out) + flat(s1.cur));
        } else {
            let sp = SpanView { text: seq![' '], style: st };
            assert(s1.cur.push(sp).drop_last() =~= s1.cur);
            assert(styled_chars(sp) =~= seq![(' ', st)]);
            let a = flat_lines(s1.out) + flat(s1.cur);
            assert(flat_lines(t.out) + flat(t.cur) =~= a.push((' ', st)));
            lemma_ns_count_push(a, (' ', st));
        }
    } else if ch == '(' && !(ch == ']') && last_ends_with(s.pending, ']') {
        let s1 = flush_pending(s, max);
        lemma_flush_count(p, s, max);
        if s.line_len + crate::wrap::pieces_len(s.pending) > max && s.cur.len() > 0 {
            lemma_may_end_extend(p, (ch, st), b);
            lemma_lines_push(inp, s.out, s.cur);
        } else {
            assert(s1.out == s.out);
        }
        assert(break_points(inp).contains(n));
        assert(done_count(t) == done_count(s1));
    } else if ch == ')' && s.depth > 0 && s.depth == 1 {
        let s1 = WrapState { pending: push_ch(s.pending, ch, st), depth: s.depth - 1, ..s };
        lemma_flat_push_ch(s.pending, ch, st);
        lemma_run_held(p, max);
        assert(held(s1) =~= held(s).push((ch, st)));
        lemma_nonspace_add(held(s), seq![(ch, st)]);
        lemma_nonspace_add(p, seq![(ch, st)]);
        assert(held(s).push((ch, st)) =~= held(s) + seq![(ch, st)]);
        assert(inp =~= p + seq![(ch, st)]);
        assert(nonspace(held(s1)) == nonspace(inp));
        lemma_flush_count(inp, s1, max);
        assert(may_end(inp, b)) by {
            if s.pending.len() == 0 {
                assert(b == n && sealed(p));
                if n > 0 {
                    assert(break_points(inp).contains(n));
                }
            }
        }
        if s1.line_len + crate::wrap::pieces_len(s1.pending) > max && s1.cur.len() > 0 {
            lemma_lines_push(inp, s1.out, s1.cur);
        } else {
            assert(t.out == s.out);
        }
        assert(closes_group(inp));
    } else {
        let s1 = WrapState { pending: push_ch(s.pending, ch, st), ..s };
        lemma_push_ch_ends(s.pending, ch, st);
        assert(t.pending == s1.pending);
        assert(done_count(t) == b);
        assert(b == 0 || break_points(inp).contains(b)) by {
            if s.pending.len() == 0 && n > 0 {
                assert(sealed(p));
                assert(break_points(inp).contains(n));
            }
        }
    }
}

pub(crate) proof fn lemma_run_breaks(inp: Seq<(char, TextStyle)>, max: int)
    ensures
        break_inv(inp, wrap_run(inp, max)),
    decreases inp.len(),
{
    if inp.len() == 0 {
        let s = wrap_init();
        lemma_flat_empty();
        assert(flat_lines(s.out) =~= Seq::<(char, TextStyle)>::empty());
        assert(nonspace(inp) =~= Seq::<(char, TextStyle)>::empty());
        assert(nonspace(flat_lines(s.out) + flat(s.cur)) =~= Seq::<(char, TextStyle)>::empty());
    } else {
        let p = inp.drop_last();
        lemma_run_breaks(p, max);
        lemma_step_breaks(p, inp.last().0, inp.last().1, max);
        assert(p.push((inp.last().0, inp.last().1)) =~= inp);
    }
}

/// Lines break only at break opportunities: two non-space characters end up
/// on different lines only where a space separated them, where they are `]`
/// and `(` written together, or where the first is a `)` that closes the
/// outermost bracket.  A bracket is never separated from the word it touches
/// otherwise.
pub proof fn lemma_wrap_breaks(spans: Seq<SpanView>, max: int)
    ensures
        forall|j: int|
            1 <= j < wrap_spans_spec(spans, max).len() ==> {
                let e = #[trigger] line_end(wrap_spans_spec(spans, max), j);
                e == 0 || e == ns_count(flat(spans)) || break_points(flat(spans)).contains(e)
            },
{
    let inp = flat(spans);
    let s = wrap_run(inp, max);
    lemma_run_breaks(inp, max);
    lemma_run_held(inp, max);
    let s1 = if s.pending.len() > 0 {
        flush_pending(s, max)
    } else {
        s
    };
    if s.pending.len() > 0 && s.line_len + crate::wrap::pieces_len(s.pending) > max && s.cur.len()
        > 0 {
        lemma_lines_push(inp, s.out, s.cur);
    }
    assert(forall|j: int| 1 <= j <= s1.out.len() ==> may_end(inp, #[trigger] line_end(s1.out, j)));
    let r = wrap_spans_spec(spans, max);
    assert(r == wrap_finish(s, max));
    assert forall|j: int| 1 <= j < r.len() implies {
        let e = #[trigger] line_end(r, j);
        e == 0 || e == ns_count(inp) || break_points(inp).contains(e)
    } by {
        if s1.cur.len() > 0 {
            assert(r.take(j) =~= s1.out.take(j));
            assert(line_end(r, j) == line_end(s1.out, j));
        }
        assert(may_end(inp, line_end(s1.out, j)));
    }
}

} // verus!
