//! Word wrapping of styled spans (paragraphs) and of plain text (list items).

use vstd::prelude::*;
use crate::style::{SpanView, StyledSpan, TextStyle, spans_view, span_lines_view};
use crate::text::{
    byte_len, byte_count, chars_of, is_ctrl, is_control, string_of, lemma_byte_len_bounds, trim_end,
    trim_start, trimmed_end, trimmed_start, extend_chars,
};

verus! {

/// A length bound above every `usize`; byte counts of whole lines are kept
/// saturated at this value, which leaves every comparison with a `usize` width
/// unchanged.
pub open spec fn len_cap() -> int {
    0x1_0000_0000_0000_0000
}

pub open spec fn sat(n: int) -> int {
    if n < len_cap() {
        n
    } else {
        len_cap()
    }
}

/// Total UTF-8 byte length of the texts of `p`.
pub open spec fn pieces_len(p: Seq<SpanView>) -> int
    decreases p.len(),
{
    if p.len() == 0 {
        0
    } else {
        pieces_len(p.drop_last()) + byte_len(p.last().text)
    }
}

/// Appends `ch` in `style` to `p`, extending the last piece when it has the
/// same style and `ch` is not a control character.
pub open spec fn push_ch(p: Seq<SpanView>, ch: char, style: TextStyle) -> Seq<SpanView> {
    if p.len() > 0 && p.last().style == style && !is_ctrl(ch) {
        p.drop_last().push(SpanView { text: p.last().text.push(ch), style })
    } else {
        p.push(SpanView { text: seq![ch], style })
    }
}

/// The text of the last piece of `p` ends with `c`.
pub open spec fn last_ends_with(p: Seq<SpanView>, c: char) -> bool {
    p.len() > 0 && p.last().text.len() > 0 && p.last().text.last() == c
}

/// The state of the wrapper: finished lines, the current line, the pieces held
/// back until the next break point, the byte length of the current line, and
/// the bracket nesting depth.
pub struct WrapState {
    pub out: Seq<Seq<SpanView>>,
    pub cur: Seq<SpanView>,
    pub pending: Seq<SpanView>,
    pub line_len: int,
    pub depth: int,
}

pub open spec fn wrap_init() -> WrapState {
    WrapState { out: seq![], cur: seq![], pending: seq![], line_len: 0, depth: 0 }
}

/// Moves the pending pieces to the current line, first starting a new line
/// when they do not fit on a non-empty current line.
pub open spec fn flush_pending(s: WrapState, max: int) -> WrapState {
    let plen = pieces_len(s.pending);
    let s1 = if s.line_len + plen > max && s.cur.len() > 0 {
        WrapState { out: s.out.push(s.cur), cur: seq![], line_len: 0, ..s }
    } else {
        s
    };
    WrapState { cur: s1.cur + s1.pending, pending: seq![], line_len: s1.line_len + plen, ..s1 }
}

/// One character of input: spaces are break points (a space that would
/// overflow a non-empty line is dropped and starts a new line); `[` and `(`
/// open a group that stays with what follows; `]` and `)` close it; `](` is a
/// break point between `]` and `(`.
pub open spec fn wrap_step(s: WrapState, ch: char, style: TextStyle, max: int) -> WrapState {
    if ch == ' ' {
        let s1 = if !(last_ends_with(s.pending, '(') || last_ends_with(s.pending, '['))
            && s.pending.len() > 0 {
            flush_pending(s, max)
        } else {
            s
        };
        if s1.line_len + 1 > max && s1.cur.len() > 0 {
            WrapState { out: s1.out.push(s1.cur), cur: seq![], line_len: 0, ..s1 }
        } else {
            WrapState {
                cur: s1.cur.push(SpanView { text: seq![' '], style }),
                line_len: s1.line_len + 1,
                ..s1
            }
        }
    } else if ch == ']' && s.depth > 0 {
        WrapState { pending: push_ch(s.pending, ch, style), depth: s.depth - 1, ..s }
    } else if ch == ']' {
        WrapState { pending: push_ch(s.pending, ch, style), ..s }
    } else if ch == '(' && last_ends_with(s.pending, ']') {
        let s1 = flush_pending(s, max);
        WrapState {
            pending: seq![SpanView { text: seq!['('], style }],
            depth: s1.depth + 1,
            ..s1
        }
    } else if ch == '(' || ch == '[' {
        WrapState { pending: push_ch(s.pending, ch, style), depth: s.depth + 1, ..s }
    } else if ch == ')' && s.depth > 0 {
        let s1 = WrapState { pending: push_ch(s.pending, ch, style), depth: s.depth - 1, ..s };
        if s1.depth == 0 {
            flush_pending(s1, max)
        } else {
            s1
        }
    } else {
        WrapState { pending: push_ch(s.pending, ch, style), ..s }
    }
}

/// The characters of a sequence of spans, each with the style of its span.
pub open spec fn flat(spans: Seq<SpanView>) -> Seq<(char, TextStyle)>
    decreases spans.len(),
{
    if spans.len() == 0 {
        seq![]
    } else {
        flat(spans.drop_last()) + styled_chars(spans.last())
    }
}

pub open spec fn styled_chars(sp: SpanView) -> Seq<(char, TextStyle)> {
    sp.text.map_values(|c: char| (c, sp.style))
}

pub open spec fn wrap_run(inp: Seq<(char, TextStyle)>, max: int) -> WrapState
    decreases inp.len(),
{
    if inp.len() == 0 {
        wrap_init()
    } else {
        wrap_step(wrap_run(inp.drop_last(), max), inp.last().0, inp.last().1, max)
    }
}

/// The lines at the end of the input: pending pieces are flushed and a
/// non-empty current line is finished.
pub open spec fn wrap_finish(s: WrapState, max: int) -> Seq<Seq<SpanView>> {
    let s1 = if s.pending.len() > 0 {
        flush_pending(s, max)
    } else {
        s
    };
    if s1.cur.len() > 0 {
        s1.out.push(s1.cur)
    } else {
        s1.out
    }
}

/// The lines into which `spans` are wrapped at width `max`.
pub open spec fn wrap_spans_spec(spans: Seq<SpanView>, max: int) -> Seq<Seq<SpanView>> {
    wrap_finish(wrap_run(flat(spans), max), max)
}

/// A piece of text being assembled.
pub struct Piece {
    pub text: Vec<char>,
    pub style: TextStyle,
}

impl Piece {
    pub open spec fn view(&self) -> SpanView {
        SpanView { text: self.text@, style: self.style }
    }
}

pub open spec fn pieces_view(v: Seq<Piece>) -> Seq<SpanView> {
    v.map_values(|p: Piece| p.view())
}

pub open spec fn piece_lines_view(v: Seq<Vec<Piece>>) -> Seq<Seq<SpanView>> {
    v.map_values(|l: Vec<Piece>| pieces_view(l@))
}

struct WrapExec {
    out: Vec<Vec<Piece>>,
    cur: Vec<Piece>,
    pending: Vec<Piece>,
    line_len: u128,
    depth: u128,
}

spec fn wrap_rel(e: WrapExec, s: WrapState) -> bool {
    &&& piece_lines_view(e.out@) == s.out
    &&& pieces_view(e.cur@) == s.cur
    &&& pieces_view(e.pending@) == s.pending
    &&& s.line_len >= 0
    &&& e.line_len == sat(s.line_len)
    &&& e.depth == s.depth
}

pub proof fn lemma_pieces_len_nonneg(p: Seq<SpanView>)
    ensures
        pieces_len(p) >= 0,
    decreases p.len(),
{
    if p.len() > 0 {
        lemma_pieces_len_nonneg(p.drop_last());
    }
}

/// Saturated byte length of the texts of `p`.
fn pieces_byte_len(p: &Vec<Piece>) -> (n: u128)
    ensures
        n == sat(pieces_len(pieces_view(p@))),
{
    let mut n: u128 = 0;
    let mut i: usize = 0;
    while i < p.len()
        invariant
            i <= p.len(),
            n == sat(pieces_len(pieces_view(p@).take(i as int))),
        decreases p.len() - i,
    {
        assert(pieces_view(p@).take(i + 1).drop_last() =~= pieces_view(p@).take(i as int));
        let b = byte_count(&p[i].text);
        proof {
            lemma_byte_len_bounds(p[i as int].text@);
            lemma_pieces_len_nonneg(pieces_view(p@).take(i as int));
        }
        let m = n + b;
        n = if m < 0x1_0000_0000_0000_0000u128 { m } else { 0x1_0000_0000_0000_0000u128 };
        i = i + 1;
    }
    assert(pieces_view(p@).take(i as int) =~= pieces_view(p@));
    n
}

/// Appends `ch` in `style` to the pending pieces.
fn push_piece_char(p: &mut Vec<Piece>, ch: char, style: TextStyle)
    ensures
        pieces_view(final(p)@) == push_ch(pieces_view(old(p)@), ch, style),
{
    let n = p.len();
    if n > 0 && p[n - 1].style == style && !is_control(ch) {
        let mut last = p.pop().unwrap();
        last.text.push(ch);
        p.push(last);
        assert(pieces_view(p@) =~= push_ch(pieces_view(old(p)@), ch, style));
    } else {
        let mut t: Vec<char> = Vec::new();
        t.push(ch);
        p.push(Piece { text: t, style });
        assert(pieces_view(p@) =~= push_ch(pieces_view(old(p)@), ch, style));
    }
}

fn last_ends_with_exec(p: &Vec<Piece>, c: char) -> (r: bool)
    ensures
        r == last_ends_with(pieces_view(p@), c),
{
    let n = p.len();
    if n == 0 {
        false
    } else {
        let m = p[n - 1].text.len();
        m > 0 && p[n - 1].text[m - 1] == c
    }
}

/// Moves the current line to the finished lines.
fn finish_line(e: &mut WrapExec)
    ensures
        piece_lines_view(final(e).out@) == piece_lines_view(old(e).out@).push(
            pieces_view(old(e).cur@),
        ),
        final(e).cur@ == Seq::<Piece>::empty(),
        pieces_view(final(e).cur@) == Seq::<SpanView>::empty(),
        final(e).pending == old(e).pending,
        final(e).line_len == 0,
        final(e).depth == old(e).depth,
{
    let mut line: Vec<Piece> = Vec::new();
    std::mem::swap(&mut line, &mut e.cur);
    e.out.push(line);
    e.line_len = 0;
    assert(piece_lines_view(e.out@) =~= piece_lines_view(old(e).out@).push(
        pieces_view(old(e).cur@),
    ));
}

fn flush_pending_exec(e: &mut WrapExec, max: usize, Ghost(s): Ghost<WrapState>)
    requires
        wrap_rel(*old(e), s),
    ensures
        wrap_rel(*final(e), flush_pending(s, max as int)),
{
    let plen = pieces_byte_len(&e.pending);
    proof {
        lemma_pieces_len_nonneg(s.pending);
    }
    if e.line_len + plen > max as u128 && e.cur.len() > 0 {
        finish_line(e);
    }
    let ghost s1 = if s.line_len + pieces_len(s.pending) > max && s.cur.len() > 0 {
        WrapState { out: s.out.push(s.cur), cur: seq![], line_len: 0, ..s }
    } else {
        s
    };
    assert(pieces_view(e.cur@) == s1.cur);
    let mut pend: Vec<Piece> = Vec::new();
    std::mem::swap(&mut pend, &mut e.pending);
    e.cur.append(&mut pend);
    assert(pieces_view(e.cur@) =~= s1.cur + s1.pending);
    assert(pieces_view(e.pending@) =~= Seq::<SpanView>::empty());
    let m = e.line_len + plen;
    e.line_len = if m < 0x1_0000_0000_0000_0000u128 { m } else { 0x1_0000_0000_0000_0000u128 };
}

fn wrap_step_exec(
    e: &mut WrapExec,
    ch: char,
    style: TextStyle,
    max: usize,
    Ghost(s): Ghost<WrapState>,
    Ghost(count): Ghost<int>,
)
    requires
        wrap_rel(*old(e), s),
        s.depth <= count,
        count + 1 < 0x1_0000_0000_0000_0000_0000_0000_0000_0000,
    ensures
        wrap_rel(*final(e), wrap_step(s, ch, style, max as int)),
        wrap_step(s, ch, style, max as int).depth <= count + 1,
{
    if ch == ' ' {
        let ghost s1 = if !(last_ends_with(s.pending, '(') || last_ends_with(s.pending, '['))
            && s.pending.len() > 0 {
            flush_pending(s, max as int)
        } else {
            s
        };
        if !(last_ends_with_exec(&e.pending, '(') || last_ends_with_exec(&e.pending, '['))
            && e.pending.len() > 0 {
            flush_pending_exec(e, max, Ghost(s));
        }
        assert(wrap_rel(*e, s1));
        if e.line_len + 1 > max as u128 && e.cur.len() > 0 {
            finish_line(e);
        } else {
            let mut t: Vec<char> = Vec::new();
            t.push(' ');
            e.cur.push(Piece { text: t, style });
            assert(pieces_view(e.cur@) =~= s1.cur.push(SpanView { text: seq![' '], style }));
            let m = e.line_len + 1;
            e.line_len = if m < 0x1_0000_0000_0000_0000u128 { m } else { 0x1_0000_0000_0000_0000u128 };
        }
    } else if ch == ']' && e.depth > 0 {
        push_piece_char(&mut e.pending, ch, style);
        e.depth = e.depth - 1;
    } else if ch == ']' {
        push_piece_char(&mut e.pending, ch, style);
    } else if ch == '(' && last_ends_with_exec(&e.pending, ']') {
        flush_pending_exec(e, max, Ghost(s));
        let mut t: Vec<char> = Vec::new();
        t.push('(');
        e.pending.push(Piece { text: t, style });
        assert(pieces_view(e.pending@) =~= seq![SpanView { text: seq!['('], style }]);
        e.depth = e.depth + 1;
    } else if ch == '(' || ch == '[' {
        push_piece_char(&mut e.pending, ch, style);
        e.depth = e.depth + 1;
    } else if ch == ')' && e.depth > 0 {
        push_piece_char(&mut e.pending, ch, style);
        e.depth = e.depth - 1;
        let ghost s1 = WrapState { pending: push_ch(s.pending, ch, style), depth: s.depth - 1, ..s };
        if e.depth == 0 {
            flush_pending_exec(e, max, Ghost(s1));
        }
    } else {
        push_piece_char(&mut e.pending, ch, style);
    }
}

proof fn lemma_flat_len(spans: Seq<SpanView>)
    ensures
        flat(spans).len() == total_chars(spans),
    decreases spans.len(),
{
    if spans.len() > 0 {
        lemma_flat_len(spans.drop_last());
    }
}

/// Total number of characters of the texts of `spans`.
pub open spec fn total_chars(spans: Seq<SpanView>) -> int
    decreases spans.len(),
{
    if spans.len() == 0 {
        0
    } else {
        total_chars(spans.drop_last()) + spans.last().text.len()
    }
}

proof fn lemma_total_bound(spans: Seq<SpanView>, m: int)
    requires
        m >= 0,
        forall|i: int| 0 <= i < spans.len() ==> #[trigger] spans[i].text.len() <= m,
    ensures
        total_chars(spans) <= spans.len() * m,
    decreases spans.len(),
{
    if spans.len() > 0 {
        let d = spans.drop_last();
        assert forall|i: int| 0 <= i < d.len() implies #[trigger] d[i].text.len() <= m by {
            assert(d[i] == spans[i]);
        }
        lemma_total_bound(d, m);
        assert(spans.len() * m == d.len() * m + m) by (nonlinear_arith)
            requires
                spans.len() == d.len() + 1,
        ;
    }
}

/// Wraps styled spans into lines of at most `max` bytes where possible.
///
/// Spaces are break points, and a space that does not fit on a non-empty line
/// is dropped.  An opening `(` or `[` stays with the text that follows it, a
/// closing `)` or `]` with the text before it, and a bracketed group is kept
/// together; the sequence `](` is a break point between its two characters.
/// Adjacent characters of the same style are merged into one span.
pub fn wrap_spans(spans: &Vec<StyledSpan>, max: usize) -> (r: Vec<Vec<StyledSpan>>)
    ensures
        span_lines_view(r@) == wrap_spans_spec(spans_view(spans@), max as int),
{
    let ghost sv = spans_view(spans@);
    let mut texts: Vec<Vec<char>> = Vec::new();
    let mut k: usize = 0;
    while k < spans.len()
        invariant
            k <= spans.len(),
            sv == spans_view(spans@),
            texts.len() == k,
            forall|i: int| 0 <= i < k ==> (#[trigger] texts[i])@ == sv[i].text,
            forall|i: int| 0 <= i < k ==> (#[trigger] texts[i])@.len() <= usize::MAX,
        decreases spans.len() - k,
    {
        let tv = chars_of(spans[k].content.as_str());
        assert(tv@.len() == tv.len());
        texts.push(tv);
        k = k + 1;
    }
    proof {
        assert forall|i: int| 0 <= i < sv.len() implies #[trigger] sv[i].text.len()
            <= usize::MAX by {
            assert(texts[i]@ == sv[i].text);
        }
        lemma_total_bound(sv, usize::MAX as int);
        assert(sv.len() * (usize::MAX as int) <= (usize::MAX as int) * (usize::MAX as int))
            by (nonlinear_arith)
            requires
                sv.len() <= usize::MAX,
        ;
        assert((usize::MAX as int) * (usize::MAX as int) <= 0xFFFF_FFFF_FFFF_FFFFint
            * 0xFFFF_FFFF_FFFF_FFFFint) by (nonlinear_arith)
            requires
                usize::MAX <= 0xFFFF_FFFF_FFFF_FFFF,
        ;
        lemma_flat_len(sv);
    }
    let mut e = WrapExec {
        out: Vec::new(),
        cur: Vec::new(),
        pending: Vec::new(),
        line_len: 0,
        depth: 0,
    };
    assert(piece_lines_view(e.out@) =~= Seq::<Seq<SpanView>>::empty());
    assert(pieces_view(e.cur@) =~= Seq::<SpanView>::empty());
    assert(pieces_view(e.pending@) =~= Seq::<SpanView>::empty());
    assert(wrap_rel(e, wrap_init()));
    let mut k: usize = 0;
    assert(sv.take(0) =~= Seq::<SpanView>::empty());
    while k < spans.len()
        invariant
            k <= spans.len(),
            sv == spans_view(spans@),
            texts.len() == spans.len(),
            forall|i: int| 0 <= i < sv.len() ==> (#[trigger] texts[i])@ == sv[i].text,
            flat(sv).len() < 0x1_0000_0000_0000_0000_0000_0000_0000_0000 - 1,
            wrap_rel(e, wrap_run(flat(sv.take(k as int)), max as int)),
            wrap_run(flat(sv.take(k as int)), max as int).depth <= flat(sv.take(k as int)).len(),
            flat(sv.take(k as int)).len() <= flat(sv).len(),
        decreases spans.len() - k,
    {
        let t = &texts[k];
        let style = spans[k].style;
        let ghost pre = flat(sv.take(k as int));
        let ghost sp = sv[k as int];
        assert(sv.take(k + 1).drop_last() =~= sv.take(k as int));
        assert(flat(sv.take(k + 1)) == pre + styled_chars(sp));
        proof {
            lemma_flat_prefix(sv, k as int + 1);
        }
        let mut j: usize = 0;
        assert(pre + styled_chars(sp).take(0) =~= pre);
        while j < t.len()
            invariant
                j <= t.len(),
                t@ == sp.text,
                style == sp.style,
                pre.len() + sp.text.len() <= flat(sv).len(),
                flat(sv).len() < 0x1_0000_0000_0000_0000_0000_0000_0000_0000 - 1,
                wrap_rel(e, wrap_run(pre + styled_chars(sp).take(j as int), max as int)),
                wrap_run(pre + styled_chars(sp).take(j as int), max as int).depth <= pre.len()
                    + j,
            decreases t.len() - j,
        {
            let ghost inp = pre + styled_chars(sp).take(j as int);
            let ghost inp1 = pre + styled_chars(sp).take(j + 1);
            assert(inp1.drop_last() =~= inp);
            assert(inp1.last() == (sp.text[j as int], sp.style));
            wrap_step_exec(
                &mut e,
                t[j],
                style,
                max,
                Ghost(wrap_run(inp, max as int)),
                Ghost(pre.len() + j),
            );
            j = j + 1;
        }
        assert(pre + styled_chars(sp).take(j as int) =~= pre + styled_chars(sp));
        k = k + 1;
    }
    assert(sv.take(k as int) =~= sv);
    let ghost s = wrap_run(flat(sv), max as int);
    if e.pending.len() > 0 {
        flush_pending_exec(&mut e, max, Ghost(s));
    }
    let ghost s1 = if s.pending.len() > 0 {
        flush_pending(s, max as int)
    } else {
        s
    };
    if e.cur.len() > 0 {
        finish_line(&mut e);
    }
    let ghost res = wrap_finish(s, max as int);
    assert(piece_lines_view(e.out@) == res);
    to_span_lines(&e.out)
}

proof fn lemma_flat_prefix(sv: Seq<SpanView>, k: int)
    requires
        0 <= k <= sv.len(),
    ensures
        flat(sv.take(k)).len() <= flat(sv).len(),
    decreases sv.len() - k,
{
    if k < sv.len() {
        lemma_flat_prefix(sv, k + 1);
        assert(sv.take(k + 1).drop_last() =~= sv.take(k));
    } else {
        assert(sv.take(k) =~= sv);
    }
}

/// Converts assembled pieces to styled spans.
fn to_span_lines(v: &Vec<Vec<Piece>>) -> (r: Vec<Vec<StyledSpan>>)
    ensures
        span_lines_view(r@) == piece_lines_view(v@),
{
    let mut r: Vec<Vec<StyledSpan>> = Vec::new();
    let mut i: usize = 0;
    while i < v.len()
        invariant
            i <= v.len(),
            span_lines_view(r@) =~= piece_lines_view(v@).take(i as int),
        decreases v.len() - i,
    {
        let line = &v[i];
        let mut l: Vec<StyledSpan> = Vec::new();
        let mut j: usize = 0;
        while j < line.len()
            invariant
                j <= line.len(),
                spans_view(l@) =~= pieces_view(line@).take(j as int),
            decreases line.len() - j,
        {
            let sp = StyledSpan { content: string_of(&line[j].text), style: line[j].style };
            assert(sp.view() == line@[j as int].view());
            l.push(sp);
            assert(pieces_view(line@).take(j + 1) =~= pieces_view(line@).take(j as int).push(
                line@[j as int].view(),
            ));
            j = j + 1;
        }
        assert(pieces_view(line@).take(line.len() as int) =~= pieces_view(line@));
        r.push(l);
        assert(piece_lines_view(v@).take(i + 1) =~= piece_lines_view(v@).take(i as int).push(
            pieces_view(v@[i as int]@),
        ));
        i = i + 1;
    }
    r
}


/// The state of plain-text wrapping: finished lines, the current line, and
/// the word being read.
pub struct LineWrapState {
    pub out: Seq<Seq<char>>,
    pub cur: Seq<char>,
    pub word: Seq<char>,
}

/// Adds a word (a piece of text up to and including a space) to the current
/// line, or starts a new line with it when it does not fit on a non-empty one.
pub open spec fn add_word(s: LineWrapState, word: Seq<char>, max: int) -> LineWrapState {
    if byte_len(s.cur) + byte_len(trim_end(word)) > max && s.cur.len() > 0 {
        LineWrapState { out: s.out.push(trim_end(s.cur)), cur: trim_start(word), ..s }
    } else {
        LineWrapState { cur: s.cur + word, ..s }
    }
}

pub open spec fn line_wrap_step(s: LineWrapState, c: char, max: int) -> LineWrapState {
    if c == ' ' {
        LineWrapState { word: seq![], ..add_word(s, s.word.push(' '), max) }
    } else {
        LineWrapState { word: s.word.push(c), ..s }
    }
}

pub open spec fn line_wrap_run(t: Seq<char>, max: int) -> LineWrapState
    decreases t.len(),
{
    if t.len() == 0 {
        LineWrapState { out: seq![], cur: seq![], word: seq![] }
    } else {
        line_wrap_step(line_wrap_run(t.drop_last(), max), t.last(), max)
    }
}

/// The lines into which `t` is wrapped at width `max`: `t` itself when it has
/// at most `max` bytes; otherwise its space-terminated words are placed on
/// lines greedily, and each line is stripped of trailing whitespace.
pub open spec fn wrap_lines_spec(t: Seq<char>, max: int) -> Seq<Seq<char>> {
    if byte_len(t) <= max {
        seq![t]
    } else {
        let s = line_wrap_run(t, max);
        let s1 = if s.word.len() > 0 {
            add_word(s, s.word, max)
        } else {
            s
        };
        if s1.cur.len() > 0 {
            s1.out.push(trim_end(s1.cur))
        } else {
            s1.out
        }
    }
}

struct LineWrapExec {
    out: Vec<Vec<char>>,
    cur: Vec<char>,
}

pub open spec fn char_lines_view(v: Seq<Vec<char>>) -> Seq<Seq<char>> {
    v.map_values(|l: Vec<char>| l@)
}

fn add_word_exec(out: &mut Vec<Vec<char>>, cur: &mut Vec<char>, word: &Vec<char>, max: usize)
    ensures
        ({
            let s = add_word(
                LineWrapState { out: char_lines_view(old(out)@), cur: old(cur)@, word: seq![] },
                word@,
                max as int,
            );
            char_lines_view(final(out)@) == s.out && final(cur)@ == s.cur
        }),
{
    let a = byte_count(cur);
    let w = trimmed_end(word);
    let b = byte_count(&w);
    if a + b > max as u128 && cur.len() > 0 {
        let line = trimmed_end(cur);
        out.push(line);
        *cur = trimmed_start(word);
        assert(char_lines_view(out@) =~= char_lines_view(old(out)@).push(trim_end(old(cur)@)));
    } else {
        extend_chars(cur, word);
    }
}

/// Wraps `t` into lines of at most `max` bytes where possible (see
/// `wrap_lines_spec`).
pub fn wrap_chars(t: &Vec<char>, max: usize) -> (r: Vec<Vec<char>>)
    ensures
        char_lines_view(r@) == wrap_lines_spec(t@, max as int),
{
    if byte_count(t) <= max as u128 {
        let mut r: Vec<Vec<char>> = Vec::new();
        r.push(t.clone());
        assert(char_lines_view(r@) =~= seq![t@]);
        return r;
    }
    let mut out: Vec<Vec<char>> = Vec::new();
    let mut cur: Vec<char> = Vec::new();
    let mut word: Vec<char> = Vec::new();
    let mut i: usize = 0;
    assert(char_lines_view(out@) =~= Seq::<Seq<char>>::empty());
    assert(t@.take(0) =~= Seq::<char>::empty());
    while i < t.len()
        invariant
            i <= t.len(),
            ({
                let s = line_wrap_run(t@.take(i as int), max as int);
                &&& char_lines_view(out@) == s.out
                &&& cur@ == s.cur
                &&& word@ == s.word
            }),
        decreases t.len() - i,
    {
        assert(t@.take(i + 1).drop_last() =~= t@.take(i as int));
        let c = t[i];
        word.push(c);
        if c == ' ' {
            add_word_exec(&mut out, &mut cur, &word, max);
            word = Vec::new();
        }
        i = i + 1;
    }
    assert(t@.take(i as int) =~= t@);
    if word.len() > 0 {
        add_word_exec(&mut out, &mut cur, &word, max);
    }
    if cur.len() > 0 {
        out.push(trimmed_end(&cur));
    }
    proof {
        let s = line_wrap_run(t@, max as int);
        let s1 = if s.word.len() > 0 {
            add_word(s, s.word, max as int)
        } else {
            s
        };
        if s1.cur.len() > 0 {
            assert(char_lines_view(out@) =~= s1.out.push(trim_end(s1.cur)));
        }
    }
    out
}

/// Wraps `text` at spaces into lines of at most `max` bytes where possible.
///
/// Text of at most `max` bytes stays whole.  Otherwise the words (pieces up
/// to and including a space) are placed greedily; a word that does not fit
/// on a non-empty line starts the next one.  Lines carry no trailing
/// whitespace, and a line that starts with a new word carries no leading
/// whitespace of that word.
pub fn wrap_lines(text: &str, max: usize) -> (r: Vec<String>)
    ensures
        r@.map_values(|s: String| s@) == wrap_lines_spec(text@, max as int),
{
    let t = chars_of(text);
    let lines = wrap_chars(&t, max);
    let mut r: Vec<String> = Vec::new();
    let mut i: usize = 0;
    while i < lines.len()
        invariant
            i <= lines.len(),
            r@.map_values(|s: String| s@) =~= char_lines_view(lines@).take(i as int),
        decreases lines.len() - i,
    {
        let ghost old_r = r@;
        r.push(string_of(&lines[i]));
        assert(r@.map_values(|s: String| s@) =~= old_r.map_values(|s: String| s@).push(
            lines@[i as int]@,
        ));
        assert(char_lines_view(lines@).take(i + 1) =~= char_lines_view(lines@).take(i as int).push(
            lines@[i as int]@,
        ));
        i = i + 1;
    }
    r
}

} // verus!
