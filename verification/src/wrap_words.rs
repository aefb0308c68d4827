//! List-item wrapping keeps the words: lines break at spaces only, and no
//! word is lost, split, merged or moved.

use vstd::prelude::*;
use crate::text::{
    is_ws, lemma_trim_start_suffix, trim_end, trim_start, byte_len,
};
use crate::wrap::{LineWrapState, add_word, line_wrap_run, line_wrap_step, wrap_lines_spec};

verus! {

/// Splitting into whitespace-separated words: the words found and the word
/// being read.
pub open spec fn words_run(s: Seq<char>) -> (Seq<Seq<char>>, Seq<char>)
    decreases s.len(),
{
    if s.len() == 0 {
        (seq![], seq![])
    } else {
        let (done, cur) = words_run(s.drop_last());
        if is_ws(s.last()) {
            (if cur.len() > 0 { done.push(cur) } else { done }, seq![])
        } else {
            (done, cur.push(s.last()))
        }
    }
}

/// The whitespace-separated words of `s`, in order.
pub open spec fn words(s: Seq<char>) -> Seq<Seq<char>> {
    let (done, cur) = words_run(s);
    if cur.len() > 0 {
        done.push(cur)
    } else {
        done
    }
}

/// The words of the lines `ls`, line after line.
pub open spec fn line_words(ls: Seq<Seq<char>>) -> Seq<Seq<char>>
    decreases ls.len(),
{
    if ls.len() == 0 {
        seq![]
    } else {
        line_words(ls.drop_last()) + words(ls.last())
    }
}

proof fn lemma_words_run_concat(a: Seq<char>, b: Seq<char>)
    requires
        words_run(a).1.len() == 0,
    ensures
        words_run(a + b) == (words_run(a).0 + words_run(b).0, words_run(b).1),
    decreases b.len(),
{
    if b.len() == 0 {
        assert(a + b =~= a);
        assert(words_run(a).0 + words_run(b).0 =~= words_run(a).0);
    } else {
        lemma_words_run_concat(a, b.drop_last());
        assert((a + b).drop_last() =~= a + b.drop_last());
        assert((a + b).last() == b.last());
        let (d, c) = words_run(b.drop_last());
        if is_ws(b.last()) && c.len() > 0 {
            assert(words_run(a).0 + d.push(c) =~= (words_run(a).0 + d).push(c));
        }
    }
}

/// Words of a text that follows a break between words are the words of the
/// two texts, one after the other.
proof fn lemma_words_concat(a: Seq<char>, b: Seq<char>)
    requires
        words_run(a).1.len() == 0,
    ensures
        words(a + b) == words(a) + words(b),
{
    lemma_words_run_concat(a, b);
    let (d, c) = words_run(b);
    if c.len() > 0 {
        assert(words_run(a).0 + d.push(c) =~= (words_run(a).0 + d).push(c));
    }
}

proof fn lemma_ws_ends_word(s: Seq<char>)
    requires
        s.len() == 0 || is_ws(s.last()),
    ensures
        words_run(s).1.len() == 0,
{
}

/// Trailing whitespace adds no word.
proof fn lemma_words_trim_end(s: Seq<char>)
    ensures
        words(trim_end(s)) == words(s),
    decreases s.len(),
{
    if s.len() > 0 && is_ws(s.last()) {
        lemma_words_trim_end(s.drop_last());
        assert(words(s) == words(s.drop_last()));
    }
}

/// Leading whitespace adds no word.
proof fn lemma_words_trim_start(s: Seq<char>)
    ensures
        words(trim_start(s)) == words(s),
    decreases s.len(),
{
    if s.len() > 0 && is_ws(s[0]) {
        lemma_words_trim_start(s.drop_first());
        assert(s =~= seq![s[0]] + s.drop_first());
        assert(seq![s[0]].drop_last() =~= Seq::<char>::empty());
        assert(words_run(seq![s[0]]).1.len() == 0);
        lemma_words_concat(seq![s[0]], s.drop_first());
        assert(words_run(Seq::<char>::empty()) == (Seq::<Seq<char>>::empty(), Seq::<char>::empty()));
        assert(seq![s[0]].last() == s[0]);
        assert(words_run(seq![s[0]]).0 =~= Seq::<Seq<char>>::empty());
        assert(words(seq![s[0]]) =~= Seq::<Seq<char>>::empty());
        assert(words(s) =~= words(s.drop_first()));
    }
}

proof fn lemma_line_words_push(ls: Seq<Seq<char>>, l: Seq<char>)
    ensures
        line_words(ls.push(l)) == line_words(ls) + words(l),
{
    assert(ls.push(l).drop_last() =~= ls);
}

/// The current line is empty or ends with a space.
pub open spec fn ends_open_line(c: Seq<char>) -> bool {
    c.len() == 0 || c.last() == ' '
}

/// The words of the finished and current lines are those of the text read up
/// to the word being read, which holds no space; and something is held once
/// anything was read.
pub open spec fn words_inv(t: Seq<char>, s: LineWrapState) -> bool {
    &&& t.len() >= s.word.len()
    &&& t.skip(t.len() - s.word.len()) == s.word
    &&& (forall|i: int| 0 <= i < s.word.len() ==> s.word[i] != ' ')
    &&& ends_open_line(t.take(t.len() - s.word.len()))
    &&& line_words(s.out) + words(s.cur) == words(t.take(t.len() - s.word.len()))
    &&& ends_open_line(s.cur)
    &&& (t.len() > 0 ==> s.out.len() > 0 || s.cur.len() > 0 || s.word.len() > 0)
}

proof fn lemma_add_word_words(s: LineWrapState, w: Seq<char>, max: int)
    requires
        ends_open_line(s.cur),
        (forall|i: int| 0 <= i < w.len() - 1 ==> w[i] != ' '),
    ensures
        line_words(add_word(s, w, max).out) + words(add_word(s, w, max).cur) == line_words(s.out)
            + words(s.cur) + words(w),
        w.len() > 0 && w.last() == ' ' ==> ends_open_line(add_word(s, w, max).cur),
        w.len() > 0 ==> add_word(s, w, max).out.len() > 0 || add_word(s, w, max).cur.len() > 0,
        add_word(s, w, max).out.len() >= s.out.len(),
{
    let r = add_word(s, w, max);
    lemma_ws_ends_word(s.cur);
    if byte_len(s.cur) + byte_len(trim_end(w)) > max && s.cur.len() > 0 {
        lemma_line_words_push(s.out, trim_end(s.cur));
        lemma_words_trim_end(s.cur);
        lemma_words_trim_start(w);
        lemma_trim_start_suffix(w);
        if w.len() > 0 && w.last() == ' ' && trim_start(w).len() > 0 {
            assert(trim_start(w) =~= w.skip(w.len() - trim_start(w).len()));
            assert(trim_start(w).last() == w.last());
        }
    } else {
        lemma_words_concat(s.cur, w);
        assert(line_words(s.out) + (words(s.cur) + words(w)) =~= line_words(s.out) + words(s.cur)
            + words(w));
        if w.len() > 0 {
            assert((s.cur + w).last() == w.last());
        }
    }
}

proof fn lemma_run_words(t: Seq<char>, max: int)
    ensures
        words_inv(t, line_wrap_run(t, max)),
    decreases t.len(),
{
    let s = line_wrap_run(t, max);
    if t.len() == 0 {
        assert(t.skip(0) =~= t);
        assert(t.take(0) =~= t);
        assert(words(Seq::<char>::empty()) =~= Seq::<Seq<char>>::empty());
        assert(line_words(s.out) =~= Seq::<Seq<char>>::empty());
        assert(words(s.cur) =~= Seq::<Seq<char>>::empty());
        assert(line_words(s.out) + words(s.cur) =~= Seq::<Seq<char>>::empty());
        assert(t.skip(t.len() - s.word.len()) =~= s.word);
    } else {
        let p = t.drop_last();
        let c = t.last();
        lemma_run_words(p, max);
        let s0 = line_wrap_run(p, max);
        assert(s == line_wrap_step(s0, c, max));
        let d0 = p.take(p.len() - s0.word.len());
        if c == ' ' {
            let w = s0.word.push(' ');
            lemma_add_word_words(s0, w, max);
            assert(p.skip(p.len() - s0.word.len()) == s0.word);
            assert(d0 + s0.word =~= p);
            lemma_words_concat(d0, w);
            assert(t =~= d0 + w);
            assert(t.skip(t.len() - 0) =~= Seq::<char>::empty());
            assert(t.take(t.len() - 0) =~= t);
            assert(s.word.len() == 0);
            assert(t.skip(t.len() - s.word.len()) =~= s.word);
            assert(ends_open_line(t));
            assert(line_words(s.out) + words(s.cur) == words(t));
            assert(ends_open_line(s.cur));
        } else {
            assert(t.take(t.len() - s.word.len()) =~= d0);
            assert(t.skip(t.len() - s.word.len()) =~= s0.word.push(c));
            assert(t.skip(t.len() - s.word.len()) =~= s.word);
            assert forall|i: int| 0 <= i < s.word.len() implies s.word[i] != ' ' by {
                if i < s0.word.len() {
                    assert(s.word[i] == s0.word[i]);
                }
            }
            assert(s.out == s0.out && s.cur == s0.cur);
        }
    }
}

/// List-item wrapping keeps the words: there is at least one line, and the
/// whitespace-separated words of the lines, line after line, are those of the
/// text, none lost, split, merged or moved, so lines break at spaces only.
pub proof fn lemma_wrap_lines_keeps_words(t: Seq<char>, max: int)
    requires
        max >= 0,
    ensures
        wrap_lines_spec(t, max).len() >= 1,
        line_words(wrap_lines_spec(t, max)) == words(t),
{
    let r = wrap_lines_spec(t, max);
    if byte_len(t) <= max {
        assert(seq![t].drop_last() =~= Seq::<Seq<char>>::empty());
        assert(seq![t].last() == t);
        assert(line_words(Seq::<Seq<char>>::empty()) =~= Seq::<Seq<char>>::empty());
        assert(line_words(seq![t]) =~= words(t));
    } else {
        crate::text::lemma_byte_len_bounds(t);
        let s = line_wrap_run(t, max);
        lemma_run_words(t, max);
        let d = t.take(t.len() - s.word.len());
        assert(d + s.word =~= t);
        lemma_ws_ends_word(d);
        lemma_words_concat(d, s.word);
        let s1 = if s.word.len() > 0 {
            add_word(s, s.word, max)
        } else {
            s
        };
        if s.word.len() > 0 {
            lemma_add_word_words(s, s.word, max);
        } else {
            assert(words(s.word) =~= Seq::<Seq<char>>::empty());
        }
        assert(line_words(s1.out) + words(s1.cur) =~= words(t));
        if s1.cur.len() > 0 {
            lemma_line_words_push(s1.out, trim_end(s1.cur));
            lemma_words_trim_end(s1.cur);
        } else {
            assert(words(s1.cur) =~= Seq::<Seq<char>>::empty());
            assert(line_words(s1.out) + words(s1.cur) =~= line_words(s1.out));
        }
    }
}

/// The lines `ls` joined with single spaces.
pub open spec fn join_spaces(ls: Seq<Seq<char>>) -> Seq<char>
    decreases ls.len(),
{
    if ls.len() == 0 {
        seq![]
    } else if ls.len() == 1 {
        ls[0]
    } else {
        join_spaces(ls.drop_last()) + seq![' '] + ls.last()
    }
}

/// `t` is words separated by single spaces: its only whitespace is the space,
/// no space starts it, and no two spaces touch.
pub open spec fn spaced_prefix(t: Seq<char>) -> bool {
    &&& forall|i: int| 0 <= i < t.len() ==> t[i] == ' ' || !is_ws(#[trigger] t[i])
    &&& t.len() > 0 ==> t[0] != ' '
    &&& forall|i: int| 0 <= i < t.len() - 1 ==> !(#[trigger] t[i] == ' ' && t[i + 1] == ' ')
}

/// `t` is words separated by single spaces, with no space at either end.
pub open spec fn single_spaced(t: Seq<char>) -> bool {
    spaced_prefix(t) && (t.len() > 0 ==> t.last() != ' ')
}

/// The text read up to the word being read is the finished lines and the
/// current line joined with single spaces; the current line is empty only at
/// the start and otherwise ends with one space after a word.
pub open spec fn join_inv(t: Seq<char>, s: LineWrapState) -> bool {
    let d = t.take(t.len() - s.word.len());
    &&& t.len() >= s.word.len()
    &&& t.skip(t.len() - s.word.len()) == s.word
    &&& (forall|i: int| 0 <= i < s.word.len() ==> !is_ws(#[trigger] s.word[i]))
    &&& (s.word.len() == 0 <==> (t.len() == 0 || t.last() == ' '))
    &&& (s.cur.len() == 0 <==> d.len() == 0)
    &&& (s.cur.len() == 0 ==> s.out.len() == 0)
    &&& (s.cur.len() > 0 ==> s.cur.len() >= 2 && s.cur.last() == ' ' && !is_ws(s.cur[s.cur.len() - 2]))
    &&& d == if s.out.len() == 0 {
        s.cur
    } else {
        join_spaces(s.out) + seq![' '] + s.cur
    }
}

proof fn lemma_trim_end_after_word(c: Seq<char>)
    requires
        c.len() >= 2,
        c.last() == ' ',
        !is_ws(c[c.len() - 2]),
    ensures
        trim_end(c) == c.drop_last(),
{
    assert(is_ws(' '));
    assert(c.drop_last().last() == c[c.len() - 2]);
    assert(trim_end(c.drop_last()) == c.drop_last());
}

proof fn lemma_trim_start_word(w: Seq<char>)
    requires
        w.len() > 0,
        !is_ws(w[0]),
    ensures
        trim_start(w) == w,
{
}

proof fn lemma_join_push(ls: Seq<Seq<char>>, l: Seq<char>)
    ensures
        join_spaces(ls.push(l)) == if ls.len() == 0 {
            l
        } else {
            join_spaces(ls) + seq![' '] + l
        },
{
    assert(ls.push(l).drop_last() =~= ls);
    if ls.len() == 0 {
        assert(ls.push(l)[0] == l);
    }
}

proof fn lemma_run_join(t: Seq<char>, max: int)
    requires
        spaced_prefix(t),
    ensures
        join_inv(t, line_wrap_run(t, max)),
    decreases t.len(),
{
    let s = line_wrap_run(t, max);
    if t.len() == 0 {
        assert(t.skip(0) =~= t);
        assert(t.take(0) =~= t);
        assert(t.skip(t.len() - s.word.len()) =~= s.word);
    } else {
        let p = t.drop_last();
        let c = t.last();
        assert(spaced_prefix(p)) by {
            assert forall|i: int| 0 <= i < p.len() implies p[i] == ' ' || !is_ws(#[trigger] p[i]) by {
                assert(p[i] == t[i]);
            }
            assert forall|i: int| 0 <= i < p.len() - 1 implies !(#[trigger] p[i] == ' ' && p[i + 1] == ' ') by {
                assert(p[i] == t[i] && p[i + 1] == t[i + 1]);
            }
        }
        lemma_run_join(p, max);
        let s0 = line_wrap_run(p, max);
        assert(s == line_wrap_step(s0, c, max));
        let d0 = p.take(p.len() - s0.word.len());
        assert(d0 + s0.word =~= p);
        if c == ' ' {
            assert(p.len() > 0) by {
                assert(t[0] != ' ');
            }
            assert(p.last() != ' ') by {
                assert(!(t[t.len() - 2] == ' ' && t[t.len() - 1] == ' '));
            }
            assert(s0.word.len() > 0);
            let w = s0.word.push(' ');
            lemma_trim_start_word(w);
            assert(w[0] == s0.word[0]);
            assert(t =~= d0 + w);
            assert(t.skip(t.len() - 0) =~= Seq::<char>::empty());
            assert(t.take(t.len() - 0) =~= t);
            assert(t.skip(t.len() - s.word.len()) =~= s.word);
            assert(w.last() == ' ' && w[w.len() - 2] == s0.word.last());
            if byte_len(s0.cur) + byte_len(trim_end(w)) > max && s0.cur.len() > 0 {
                lemma_trim_end_after_word(s0.cur);
                lemma_join_push(s0.out, s0.cur.drop_last());
                if s0.out.len() == 0 {
                    assert(s0.cur.drop_last() + seq![' '] + w =~= s0.cur + w);
                } else {
                    assert(join_spaces(s0.out) + seq![' '] + s0.cur.drop_last() + seq![' '] + w
                        =~= join_spaces(s0.out) + seq![' '] + s0.cur + w);
                }
            } else {
                if s0.cur.len() > 0 {
                    assert((s0.cur + w).last() == ' ');
                    assert((s0.cur + w)[(s0.cur + w).len() - 2] == w[w.len() - 2]);
                    if s0.out.len() > 0 {
                        assert(join_spaces(s0.out) + seq![' '] + s0.cur + w =~= join_spaces(s0.out)
                            + seq![' '] + (s0.cur + w));
                    }
                } else {
                    assert(s0.cur + w =~= w);
                }
            }
        } else {
            assert(!is_ws(c));
            assert(t.take(t.len() - s.word.len()) =~= d0);
            assert(t.skip(t.len() - s.word.len()) =~= s.word);
            assert forall|i: int| 0 <= i < s.word.len() implies !is_ws(#[trigger] s.word[i]) by {
                if i < s0.word.len() {
                    assert(s.word[i] == s0.word[i]);
                }
            }
            assert(s.out == s0.out && s.cur == s0.cur);
        }
    }
}

/// Wrapping a list item only turns spaces into line breaks: for words
/// separated by single spaces, the lines joined with single spaces give the
/// text back.
#[verifier::rlimit(50)]
pub proof fn lemma_wrap_lines_join(t: Seq<char>, max: int)
    requires
        max >= 0,
        single_spaced(t),
    ensures
        join_spaces(wrap_lines_spec(t, max)) == t,
{
    if byte_len(t) <= max {
        assert(seq![t][0] == t);
    } else {
        crate::text::lemma_byte_len_bounds(t);
        let s = line_wrap_run(t, max);
        lemma_run_join(t, max);
        let d = t.take(t.len() - s.word.len());
        assert(d + s.word =~= t);
        assert(s.word.len() > 0);
        lemma_trim_start_word(s.word);
        let s1 = add_word(s, s.word, max);
        assert(s.word.last() == t.last());
        if byte_len(s.cur) + byte_len(trim_end(s.word)) > max && s.cur.len() > 0 {
            lemma_trim_end_after_word(s.cur);
            lemma_join_push(s.out, s.cur.drop_last());
            assert(s1.cur == s.word);
            assert(trim_end(s.word) == s.word);
            lemma_join_push(s1.out, s.word);
            if s.out.len() == 0 {
                assert(s.cur.drop_last() + seq![' '] + s.word =~= s.cur + s.word);
            } else {
                assert(join_spaces(s.out) + seq![' '] + s.cur.drop_last() + seq![' '] + s.word
                    =~= join_spaces(s.out) + seq![' '] + s.cur + s.word);
            }
        } else {
            assert(s1.cur == s.cur + s.word);
            assert((s.cur + s.word).last() == t.last());
            assert(trim_end(s.cur + s.word) == s.cur + s.word);
            lemma_join_push(s1.out, s1.cur);
            if s.out.len() > 0 {
                assert(join_spaces(s.out) + seq![' '] + s.cur + s.word =~= join_spaces(s.out)
                    + seq![' '] + (s.cur + s.word));
            }
        }
    }
}

/// The text of `l` up to its first space.
pub open spec fn first_word(l: Seq<char>) -> Seq<char>
    decreases l.len(),
{
    if l.len() == 0 || l[0] == ' ' {
        seq![]
    } else {
        seq![l[0]] + first_word(l.drop_first())
    }
}

proof fn lemma_first_word_concat(a: Seq<char>, b: Seq<char>, i: int)
    requires
        0 <= i < a.len(),
        a[i] == ' ',
    ensures
        first_word(a + b) == first_word(a),
    decreases a.len(),
{
    assert((a + b)[0] == a[0]);
    if a[0] != ' ' {
        assert((a + b).drop_first() =~= a.drop_first() + b);
        lemma_first_word_concat(a.drop_first(), b, i - 1);
    }
}

proof fn lemma_first_word_of_word(a: Seq<char>)
    requires
        forall|i: int| 0 <= i < a.len() ==> a[i] != ' ',
    ensures
        first_word(a) == a,
    decreases a.len(),
{
    if a.len() > 0 {
        lemma_first_word_of_word(a.drop_first());
        assert(seq![a[0]] + a.drop_first() =~= a);
    }
}

proof fn lemma_first_word_lead(a: Seq<char>, b: Seq<char>)
    requires
        forall|i: int| 0 <= i < a.len() ==> a[i] != ' ',
        b.len() > 0,
        b[0] == ' ',
    ensures
        first_word(a + b) == a,
    decreases a.len(),
{
    if a.len() == 0 {
        assert(a + b =~= b);
    } else {
        assert((a + b).drop_first() =~= a.drop_first() + b);
        lemma_first_word_lead(a.drop_first(), b);
        assert(seq![a[0]] + a.drop_first() =~= a);
    }
}

/// Every finished line was ended only because the next word did not fit
/// after it and a space.
pub open spec fn greedy_inv(s: LineWrapState, max: int) -> bool {
    forall|k: int|
        0 <= k < s.out.len() ==> byte_len(#[trigger] s.out[k]) + 1 + byte_len(
            first_word(if k + 1 < s.out.len() { s.out[k + 1] } else { s.cur }),
        ) > max
}

proof fn lemma_byte_len_push_space(l: Seq<char>)
    ensures
        byte_len(l.push(' ')) == byte_len(l) + 1,
{
    assert(l.push(' ').drop_last() =~= l);
}

/// A step of greedy wrapping: adding the word `w` (a word and a space, or the
/// last word) keeps every finished line ended only where the next word did
/// not fit.
proof fn lemma_add_word_greedy(s: LineWrapState, w: Seq<char>, word: Seq<char>, max: int)
    requires
        greedy_inv(s, max),
        s.cur.len() == 0 ==> s.out.len() == 0,
        s.cur.len() > 0 ==> s.cur.len() >= 2 && s.cur.last() == ' ' && !is_ws(s.cur[s.cur.len() - 2]),
        word.len() > 0,
        forall|i: int| 0 <= i < word.len() ==> !is_ws(#[trigger] word[i]),
        w == word || w == word.push(' '),
    ensures
        greedy_inv(add_word(s, w, max), max),
        add_word(s, w, max).out.len() > 0 ==> first_word(add_word(s, w, max).cur) == first_word(
            trim_end(add_word(s, w, max).cur),
        ),
{
    let r = add_word(s, w, max);
    assert(is_ws(' '));
    assert forall|i: int| 0 <= i < word.len() implies word[i] != ' ' by {
        assert(!is_ws(word[i]));
    }
    lemma_first_word_of_word(word);
    assert(trim_end(w) == word) by {
        assert(word.last() == word[word.len() - 1]);
        assert(!is_ws(word.last()));
        assert(trim_end(word) == word);
        if w != word {
            assert(w.drop_last() =~= word);
            assert(w.last() == ' ');
        }
    }
    lemma_trim_start_word(w);
    assert(w[0] == word[0]);
    if w != word {
        lemma_first_word_lead(word, seq![' ']);
        assert(word + seq![' '] =~= w);
    }
    assert(first_word(w) == word);
    if byte_len(s.cur) + byte_len(trim_end(w)) > max && s.cur.len() > 0 {
        lemma_trim_end_after_word(s.cur);
        let line = s.cur.drop_last();
        assert(s.cur =~= line.push(' '));
        lemma_byte_len_push_space(line);
        assert(first_word(line) == first_word(s.cur)) by {
            assert(line + seq![' '] =~= s.cur);
            if exists|j: int| 0 <= j < line.len() && line[j] == ' ' {
                let j = choose|j: int| 0 <= j < line.len() && line[j] == ' ';
                lemma_first_word_concat(line, seq![' '], j);
            } else {
                lemma_first_word_of_word(line);
                lemma_first_word_lead(line, seq![' ']);
            }
        }
        assert forall|k: int| 0 <= k < r.out.len() implies byte_len(#[trigger] r.out[k]) + 1
            + byte_len(first_word(if k + 1 < r.out.len() { r.out[k + 1] } else { r.cur })) > max by {
            if k < s.out.len() {
                assert(r.out[k] == s.out[k]);
                if k + 1 < s.out.len() {
                    assert(r.out[k + 1] == s.out[k + 1]);
                } else {
                    assert(r.out[k + 1] == line);
                }
            }
        }
        if w != word {
            lemma_first_word_lead(word, seq![' ']);
        }
    } else {
        if s.cur.len() > 0 {
            lemma_first_word_concat(s.cur, w, s.cur.len() - 1);
        }
        assert forall|k: int| 0 <= k < r.out.len() implies byte_len(#[trigger] r.out[k]) + 1
            + byte_len(first_word(if k + 1 < r.out.len() { r.out[k + 1] } else { r.cur })) > max by {
            assert(r.out[k] == s.out[k]);
        }
        if r.out.len() > 0 {
            assert(s.cur.len() > 0);
            if w != word {
                let c = s.cur + w;
                lemma_trim_end_after_word(c);
                assert(c.drop_last() =~= s.cur + word);
                lemma_first_word_concat(s.cur, word, s.cur.len() - 1);
            } else {
                assert(trim_end(s.cur + word) == s.cur + word) by {
                    assert((s.cur + word).last() == word.last());
                    assert(word.last() == word[word.len() - 1]);
                }
            }
        }
    }
}

proof fn lemma_run_greedy(t: Seq<char>, max: int)
    requires
        spaced_prefix(t),
    ensures
        greedy_inv(line_wrap_run(t, max), max),
    decreases t.len(),
{
    lemma_run_join(t, max);
    if t.len() > 0 {
        let p = t.drop_last();
        let c = t.last();
        assert(spaced_prefix(p)) by {
            assert forall|i: int| 0 <= i < p.len() implies p[i] == ' ' || !is_ws(#[trigger] p[i]) by {
                assert(p[i] == t[i]);
            }
            assert forall|i: int| 0 <= i < p.len() - 1 implies !(#[trigger] p[i] == ' ' && p[i + 1] == ' ') by {
                assert(p[i] == t[i] && p[i + 1] == t[i + 1]);
            }
        }
        lemma_run_greedy(p, max);
        lemma_run_join(p, max);
        let s0 = line_wrap_run(p, max);
        if c == ' ' {
            assert(p.len() > 0) by {
                assert(t[0] != ' ');
            }
            assert(p.last() != ' ') by {
                assert(!(t[t.len() - 2] == ' ' && t[t.len() - 1] == ' '));
            }
            lemma_add_word_greedy(s0, s0.word.push(' '), s0.word, max);
        }
    }
}

/// List items are wrapped greedily: for words separated by single spaces, a
/// line ends only where the first word of the next line, after a space, would
/// not have fitted on it.
pub proof fn lemma_wrap_lines_greedy(t: Seq<char>, max: int)
    requires
        max >= 0,
        single_spaced(t),
    ensures
        forall|i: int|
            0 <= i < wrap_lines_spec(t, max).len() - 1 ==> byte_len(
                #[trigger] wrap_lines_spec(t, max)[i],
            ) + 1 + byte_len(first_word(wrap_lines_spec(t, max)[i + 1])) > max,
{
    let r = wrap_lines_spec(t, max);
    if byte_len(t) > max {
        crate::text::lemma_byte_len_bounds(t);
        let s = line_wrap_run(t, max);
        lemma_run_join(t, max);
        lemma_run_greedy(t, max);
        assert(s.word.len() > 0);
        let s1 = add_word(s, s.word, max);
        lemma_add_word_greedy(s, s.word, s.word, max);
        assert(s1.cur.len() > 0) by {
            if !(byte_len(s.cur) + byte_len(trim_end(s.word)) > max && s.cur.len() > 0) {
                assert((s.cur + s.word).len() > 0);
            }
        }
        assert(r == s1.out.push(trim_end(s1.cur)));
        assert forall|i: int| 0 <= i < r.len() - 1 implies byte_len(#[trigger] r[i]) + 1
            + byte_len(first_word(r[i + 1])) > max by {
            assert(r[i] == s1.out[i]);
            if i + 1 < s1.out.len() {
                assert(r[i + 1] == s1.out[i + 1]);
            }
        }
    }
}

} // verus!
