//! Layout of tables: column widths and the rendered rows.
//!
//! Each column gets a minimum width (its longest word, at most 40 bytes) and
//! three preferred widths taken from the sorted byte lengths of its cells at
//! the 60th, 80th and 100th percentile, each clamped between the minimum and
//! 40.  The columns start at their 60th-percentile width and are shrunk
//! proportionally, or grown towards their 80th- and then 100th-percentile
//! widths, to meet a target line width; what is left is given to the widest
//! column.

use vstd::prelude::*;
use crate::style::{SpanView, StyledLine, lines_view};
use crate::text::{byte_len, is_ws, char_width};
use crate::render::line_of_text;

verus! {

pub open spec fn imax(a: int, b: int) -> int {
    if a >= b {
        a
    } else {
        b
    }
}

pub open spec fn imin(a: int, b: int) -> int {
    if a <= b {
        a
    } else {
        b
    }
}

/// `a - b`, or 0 when `b > a`.
pub open spec fn sat_sub(a: int, b: int) -> int {
    if a >= b {
        a - b
    } else {
        0
    }
}

pub open spec fn sum(s: Seq<int>) -> int
    decreases s.len(),
{
    if s.len() == 0 {
        0
    } else {
        sum(s.drop_last()) + s.last()
    }
}

/// The greatest number of cells in a row.
pub open spec fn max_cols(rows: Seq<Seq<Seq<char>>>) -> int
    decreases rows.len(),
{
    if rows.len() == 0 {
        0
    } else {
        imax(max_cols(rows.drop_last()), rows.last().len() as int)
    }
}

/// State of the scan for the longest word: the longest finished word
/// (-1 when none) and the length of the word being read (-1 outside a word).
pub open spec fn word_scan(s: Seq<char>) -> (int, int)
    decreases s.len(),
{
    if s.len() == 0 {
        (-1, -1)
    } else {
        let (best, cur) = word_scan(s.drop_last());
        let c = s.last();
        if is_ws(c) {
            (if cur >= 0 { imax(best, cur) } else { best }, -1)
        } else {
            (best, if cur >= 0 { cur + char_width(c) } else { char_width(c) as int })
        }
    }
}

/// The byte length of the longest whitespace-separated word of `s`, or the
/// byte length of `s` when it has no word.
pub open spec fn longest_word(s: Seq<char>) -> int {
    let (best, cur) = word_scan(s);
    let b = if cur >= 0 { imax(best, cur) } else { best };
    if b < 0 { byte_len(s) as int } else { b }
}

/// The minimum width of column `i`: the longest word of its cells, at most 40.
pub open spec fn col_min(rows: Seq<Seq<Seq<char>>>, i: int) -> int
    decreases rows.len(),
{
    if rows.len() == 0 {
        0
    } else {
        let r = rows.last();
        imax(col_min(rows.drop_last(), i), if 0 <= i < r.len() { imin(longest_word(r[i]), 40) } else { 0 })
    }
}

/// The byte lengths of the cells of column `i`, row by row.
pub open spec fn col_lens(rows: Seq<Seq<Seq<char>>>, i: int) -> Seq<int>
    decreases rows.len(),
{
    if rows.len() == 0 {
        seq![]
    } else {
        let r = rows.last();
        col_lens(rows.drop_last(), i) + if 0 <= i < r.len() { seq![byte_len(r[i]) as int] } else { seq![] }
    }
}

/// `s` with `x` inserted before its first element greater than `x`.
pub open spec fn insert_sorted(s: Seq<int>, x: int) -> Seq<int>
    decreases s.len(),
{
    if s.len() == 0 {
        seq![x]
    } else if x < s[0] {
        seq![x] + s
    } else {
        seq![s[0]] + insert_sorted(s.drop_first(), x)
    }
}

/// `s` in ascending order.
pub open spec fn sort_ints(s: Seq<int>) -> Seq<int>
    decreases s.len(),
{
    if s.len() == 0 {
        seq![]
    } else {
        insert_sorted(sort_ints(s.drop_last()), s.last())
    }
}

/// The index of the `num`/5 quantile of `n` sorted values: the rank
/// `ceil(n * num / 5)` counted from 0.
pub open spec fn pct_index(n: int, num: int) -> int {
    sat_sub((num * n + 4) / 5, 1)
}

pub open spec fn get_or_4(s: Seq<int>, i: int) -> int {
    if 0 <= i < s.len() {
        s[i]
    } else {
        4
    }
}

/// `v` clamped between `min` and 40.
pub open spec fn clamp(v: int, min: int) -> int {
    imin(imax(v, min), 40)
}

/// The widths of one column.
pub struct ColWidths {
    pub min: int,
    pub p60: int,
    pub p80: int,
    pub p100: int,
}

pub open spec fn col_widths(rows: Seq<Seq<Seq<char>>>, i: int) -> ColWidths {
    let m = col_min(rows, i);
    let s = sort_ints(col_lens(rows, i));
    let n = s.len() as int;
    let p60 = clamp(get_or_4(s, pct_index(n, 3)), m);
    let p80 = imax(clamp(get_or_4(s, pct_index(n, 4)), m), p60);
    let p100 = imax(clamp(get_or_4(s, sat_sub(n, 1)), m), p80);
    ColWidths { min: m, p60, p80, p100 }
}

pub open spec fn all_cols(rows: Seq<Seq<Seq<char>>>) -> Seq<ColWidths> {
    Seq::new(max_cols(rows) as nat, |i: int| col_widths(rows, i))
}

/// The 60th-percentile width of each column.
pub open spec fn p60_widths(cols: Seq<ColWidths>) -> Seq<int> {
    cols.map_values(|c: ColWidths| c.p60)
}

/// The 80th-percentile width of each column.
pub open spec fn p80_widths(cols: Seq<ColWidths>) -> Seq<int> {
    cols.map_values(|c: ColWidths| c.p80)
}

/// The width of the table, without borders, that the columns are fitted to.
pub open spec fn table_target(cols: Seq<ColWidths>) -> int {
    let border: int = 3 * (cols.len() as int) + 1;
    let p80_total = sum(p80_widths(cols)) + border;
    if p80_total <= 160 {
        sat_sub(imin(imax(78, p80_total), 160), border)
    } else {
        sat_sub(78, border)
    }
}

/// The widths after shrinking: when the 60th-percentile widths exceed the
/// target, each column gives up a share of the excess in proportion to its
/// room above its minimum, but never goes below its minimum.
pub open spec fn shrink(cols: Seq<ColWidths>, target: int) -> Seq<int> {
    let w = p60_widths(cols);
    let used = sum(w);
    if used > target {
        let deficit = used - target;
        let flex = sum(Seq::new(cols.len(), |i: int| sat_sub(w[i], cols[i].min)));
        Seq::new(
            cols.len(),
            |i: int|
                {
                    let room = sat_sub(w[i], cols[i].min);
                    imax(
                        sat_sub(w[i], if flex > 0 { deficit * room / imax(flex, 1) } else { 0 }),
                        cols[i].min,
                    )
                },
        )
    } else {
        w
    }
}

/// The preferred width of a column at growth level 1 (80th percentile) or 2
/// (100th percentile).
pub open spec fn level_width(c: ColWidths, level: int) -> int {
    if level == 1 {
        c.p80
    } else {
        c.p100
    }
}

/// `ord` with index `k` inserted before the first index of smaller gain.
pub open spec fn insert_desc(ord: Seq<int>, gains: Seq<int>, k: int) -> Seq<int>
    decreases ord.len(),
{
    if ord.len() == 0 {
        seq![k]
    } else if gains[ord[0]] < gains[k] {
        seq![k] + ord
    } else {
        seq![ord[0]] + insert_desc(ord.drop_first(), gains, k)
    }
}

/// The indices `0..n` ordered by decreasing gain; indices of equal gain keep
/// their order.
pub open spec fn desc_order(gains: Seq<int>, n: int) -> Seq<int>
    decreases n,
{
    if n <= 0 {
        seq![]
    } else {
        insert_desc(desc_order(gains, n - 1), gains, n - 1)
    }
}

/// Grows the columns, in order of decreasing gain, towards their level width
/// until the widths add up to the target.
pub open spec fn grow_step(
    cols: Seq<ColWidths>,
    target: int,
    level: int,
    st: (Seq<int>, bool),
    i: int,
) -> (Seq<int>, bool) {
    let (w, done) = st;
    if done {
        st
    } else {
        let add = sat_sub(level_width(cols[i], level), w[i]);
        if add == 0 {
            st
        } else {
            let take = imin(add, target - sum(w));
            let w2 = w.update(i, w[i] + take);
            (w2, sum(w2) >= target)
        }
    }
}

pub open spec fn grow_run(
    cols: Seq<ColWidths>,
    target: int,
    level: int,
    w: Seq<int>,
    ord: Seq<int>,
) -> (Seq<int>, bool)
    decreases ord.len(),
{
    if ord.len() == 0 {
        (w, false)
    } else {
        grow_step(cols, target, level, grow_run(cols, target, level, w, ord.drop_last()), ord.last())
    }
}

pub open spec fn grow(cols: Seq<ColWidths>, target: int, level: int, w: Seq<int>) -> Seq<int> {
    if sum(w) >= target {
        w
    } else {
        let gains = Seq::new(cols.len(), |i: int| sat_sub(level_width(cols[i], level), w[i]));
        grow_run(cols, target, level, w, desc_order(gains, cols.len() as int)).0
    }
}

/// The last index of a greatest element of `w`, among the first `n`.
pub open spec fn last_argmax(w: Seq<int>, n: int) -> int
    decreases n,
{
    if n <= 1 {
        0
    } else {
        let b = last_argmax(w, n - 1);
        if w[n - 1] >= w[b] {
            n - 1
        } else {
            b
        }
    }
}

/// The final column widths: shrunk, grown in two levels, and with any width
/// still missing to the target given to the widest column.
pub open spec fn final_widths(cols: Seq<ColWidths>) -> Seq<int> {
    let target = table_target(cols);
    let w = grow(cols, target, 2, grow(cols, target, 1, shrink(cols, target)));
    let slack = sat_sub(target, sum(w));
    if slack > 0 {
        let m = last_argmax(w, w.len() as int);
        w.update(m, w[m] + slack)
    } else {
        w
    }
}

pub open spec fn repeat_char(c: char, n: int) -> Seq<char> {
    Seq::new(imax(n, 0) as nat, |i: int| c)
}

/// A separator line: `|` and, for each column, `c` repeated one more time
/// than its width, then `|`.
pub open spec fn sep_line(c: char, w: Seq<int>) -> Seq<char>
    decreases w.len(),
{
    if w.len() == 0 {
        seq!['|']
    } else {
        sep_line(c, w.drop_last()) + repeat_char(c, w.last() + 1) + seq!['|']
    }
}

/// A cell as laid out in a column of width `w`: a space, the first `w`
/// characters of the text padded with spaces to `w` characters, and `|`.
pub open spec fn cell_text(t: Seq<char>, w: int) -> Seq<char> {
    let shown = t.take(imin(t.len() as int, w));
    seq![' '] + shown + repeat_char(' ', w - shown.len()) + seq!['|']
}

/// A row line: `|` and its cells laid out in the column widths; missing
/// cells are empty.
pub open spec fn row_line(row: Seq<Seq<char>>, w: Seq<int>) -> Seq<char>
    decreases w.len(),
{
    if w.len() == 0 {
        seq!['|']
    } else {
        let j = w.len() - 1;
        row_line(row, w.drop_last()) + cell_text(if j < row.len() { row[j] } else { seq![] }, w.last())
    }
}

/// The lines of the non-empty rows: each row after the first is preceded by
/// a separator made of `=` after the first row and of `-` after later rows.
pub open spec fn body_lines(rows: Seq<Seq<Seq<char>>>, w: Seq<int>) -> (Seq<Seq<SpanView>>, int)
    decreases rows.len(),
{
    if rows.len() == 0 {
        (seq![], 0)
    } else {
        let (out, count) = body_lines(rows.drop_last(), w);
        let row = rows.last();
        if row.len() == 0 {
            (out, count)
        } else {
            let out1 = if count > 0 {
                out.push(line_of_text(sep_line(if count == 1 { '=' } else { '-' }, w)))
            } else {
                out
            };
            (out1.push(line_of_text(row_line(row, w))), count + 1)
        }
    }
}

/// The lines that a table with the given cell texts renders to: none for a
/// table without cells.
pub open spec fn table_lines(rows: Seq<Seq<Seq<char>>>) -> Seq<Seq<SpanView>> {
    if rows.len() == 0 || max_cols(rows) == 0 {
        seq![]
    } else {
        body_lines(rows, final_widths(all_cols(rows))).0
    }
}

pub open spec fn rows_view(rows: Seq<Vec<Vec<char>>>) -> Seq<Seq<Seq<char>>> {
    rows.map_values(|r: Vec<Vec<char>>| r@.map_values(|c: Vec<char>| c@))
}

pub open spec fn nums(v: Seq<u128>) -> Seq<int> {
    v.map_values(|x: u128| x as int)
}

pub proof fn lemma_sum_update(s: Seq<int>, i: int, v: int)
    requires
        0 <= i < s.len(),
    ensures
        sum(s.update(i, v)) == sum(s) - s[i] + v,
    decreases s.len(),
{
    if i < s.len() - 1 {
        lemma_sum_update(s.drop_last(), i, v);
        assert(s.update(i, v).drop_last() =~= s.drop_last().update(i, v));
    } else {
        assert(s.update(i, v).drop_last() =~= s.drop_last());
    }
}

/// Sum of numbers of at most 1000 each.
fn sum_exec(v: &Vec<u128>) -> (r: u128)
    requires
        forall|i: int| 0 <= i < v.len() ==> #[trigger] v[i] <= 1000,
    ensures
        r == sum(nums(v@)),
        r <= 1000 * v.len(),
{
    let mut r: u128 = 0;
    let mut i: usize = 0;
    while i < v.len()
        invariant
            i <= v.len(),
            forall|i: int| 0 <= i < v.len() ==> #[trigger] v[i] <= 1000,
            r == sum(nums(v@).take(i as int)),
            r <= 1000 * i,
        decreases v.len() - i,
    {
        assert(nums(v@).take(i + 1).drop_last() =~= nums(v@).take(i as int));
        r = r + v[i];
        i = i + 1;
    }
    assert(nums(v@).take(i as int) =~= nums(v@));
    r
}

/// The greatest number of cells in a row.
fn max_cols_exec(rows: &Vec<Vec<Vec<char>>>) -> (r: usize)
    ensures
        r == max_cols(rows_view(rows@)),
{
    let ghost rv = rows_view(rows@);
    let mut r: usize = 0;
    let mut i: usize = 0;
    while i < rows.len()
        invariant
            i <= rows.len(),
            rv == rows_view(rows@),
            r == max_cols(rv.take(i as int)),
        decreases rows.len() - i,
    {
        assert(rv.take(i + 1).drop_last() =~= rv.take(i as int));
        if rows[i].len() > r {
            r = rows[i].len();
        }
        i = i + 1;
    }
    assert(rv.take(i as int) =~= rv);
    r
}

/// The byte length of the longest whitespace-separated word of `s`, or of
/// `s` when it has no word.
fn longest_word_exec(s: &Vec<char>) -> (r: u128)
    ensures
        r == longest_word(s@),
{
    let mut best: u128 = 0;
    let mut has_best = false;
    let mut cur: u128 = 0;
    let mut in_word = false;
    let mut i: usize = 0;
    while i < s.len()
        invariant
            i <= s.len(),
            ({
                let (b, c) = word_scan(s@.take(i as int));
                &&& (has_best ==> b == best) && (!has_best ==> b == -1)
                &&& (in_word ==> c == cur) && (!in_word ==> c == -1)
                &&& best <= 4 * i && cur <= 4 * i
            }),
        decreases s.len() - i,
    {
        assert(s@.take(i + 1).drop_last() =~= s@.take(i as int));
        let c = s[i];
        if crate::text::is_whitespace(c) {
            if in_word {
                if !has_best || cur > best {
                    best = cur;
                }
                has_best = true;
            }
            in_word = false;
            cur = 0;
        } else {
            let w = crate::text::char_width_of(c);
            if in_word {
                cur = cur + w;
            } else {
                cur = w;
            }
            in_word = true;
        }
        i = i + 1;
    }
    assert(s@.take(i as int) =~= s@);
    if in_word {
        if !has_best || cur > best {
            best = cur;
        }
        has_best = true;
    }
    if has_best {
        best
    } else {
        crate::text::byte_count(s)
    }
}

/// The minimum width of column `i`.
fn col_min_exec(rows: &Vec<Vec<Vec<char>>>, i: usize) -> (r: u128)
    ensures
        r == col_min(rows_view(rows@), i as int),
        r <= 40,
{
    let ghost rv = rows_view(rows@);
    let mut r: u128 = 0;
    let mut k: usize = 0;
    while k < rows.len()
        invariant
            k <= rows.len(),
            rv == rows_view(rows@),
            r == col_min(rv.take(k as int), i as int),
            r <= 40,
        decreases rows.len() - k,
    {
        assert(rv.take(k + 1).drop_last() =~= rv.take(k as int));
        if i < rows[k].len() {
            let lw = longest_word_exec(&rows[k][i]);
            let m = if lw < 40 { lw } else { 40 };
            if m > r {
                r = m;
            }
        }
        k = k + 1;
    }
    assert(rv.take(k as int) =~= rv);
    r
}

/// The byte lengths of the cells of column `i`.
fn col_lens_exec(rows: &Vec<Vec<Vec<char>>>, i: usize) -> (r: Vec<u128>)
    ensures
        nums(r@) == col_lens(rows_view(rows@), i as int),
{
    let ghost rv = rows_view(rows@);
    let mut r: Vec<u128> = Vec::new();
    let mut k: usize = 0;
    while k < rows.len()
        invariant
            k <= rows.len(),
            rv == rows_view(rows@),
            nums(r@) =~= col_lens(rv.take(k as int), i as int),
        decreases rows.len() - k,
    {
        assert(rv.take(k + 1).drop_last() =~= rv.take(k as int));
        if i < rows[k].len() {
            r.push(crate::text::byte_count(&rows[k][i]));
        }
        k = k + 1;
    }
    assert(rv.take(k as int) =~= rv);
    r
}

proof fn lemma_insert_sorted(s: Seq<int>, x: int, p: int)
    requires
        0 <= p <= s.len(),
        forall|j: int| 0 <= j < p ==> s[j] <= x,
        p < s.len() ==> s[p] > x,
    ensures
        insert_sorted(s, x) =~= s.take(p) + seq![x] + s.skip(p),
    decreases s.len(),
{
    if s.len() > 0 && p > 0 {
        lemma_insert_sorted(s.drop_first(), x, p - 1);
        assert(s.drop_first().take(p - 1) =~= s.take(p).drop_first());
        assert(s.drop_first().skip(p - 1) =~= s.skip(p));
    }
}

/// `v` in ascending order.
fn sort_exec(v: &Vec<u128>) -> (r: Vec<u128>)
    ensures
        nums(r@) == sort_ints(nums(v@)),
        r.len() == v.len(),
{
    let mut r: Vec<u128> = Vec::new();
    let mut i: usize = 0;
    while i < v.len()
        invariant
            i <= v.len(),
            nums(r@) == sort_ints(nums(v@).take(i as int)),
            r.len() == i,
        decreases v.len() - i,
    {
        assert(nums(v@).take(i + 1).drop_last() =~= nums(v@).take(i as int));
        let x = v[i];
        let mut p: usize = 0;
        while p < r.len() && r[p] <= x
            invariant
                p <= r.len(),
                forall|j: int| 0 <= j < p ==> r[j] <= x,
            decreases r.len() - p,
        {
            p = p + 1;
        }
        proof {
            lemma_insert_sorted(nums(r@), x as int, p as int);
        }
        let ghost old_r = r@;
        r.insert(p, x);
        assert(nums(r@) =~= nums(old_r).take(p as int) + seq![x as int] + nums(old_r).skip(p as int));
        i = i + 1;
    }
    assert(nums(v@).take(i as int) =~= nums(v@));
    r
}

/// The widths of one column.
struct ColExec {
    min: u128,
    p60: u128,
    p80: u128,
    p100: u128,
}

impl ColExec {
    spec fn view(&self) -> ColWidths {
        ColWidths { min: self.min as int, p60: self.p60 as int, p80: self.p80 as int, p100: self.p100 as int }
    }

    spec fn bounded(&self) -> bool {
        self.min <= 40 && self.p60 <= 40 && self.p80 <= 40 && self.p100 <= 40
    }
}

spec fn cols_view(v: Seq<ColExec>) -> Seq<ColWidths> {
    v.map_values(|c: ColExec| c.view())
}

fn clamp_exec(v: u128, min: u128) -> (r: u128)
    requires
        min <= 40,
    ensures
        r == clamp(v as int, min as int),
        r <= 40,
{
    let a = if v >= min { v } else { min };
    if a <= 40 { a } else { 40 }
}

/// The element at index `idx` of `s`, or 4 when there is none.
fn get_or_4_exec(s: &Vec<u128>, idx: u128) -> (r: u128)
    ensures
        r == get_or_4(nums(s@), idx as int),
{
    if idx < s.len() as u128 {
        s[idx as usize]
    } else {
        4
    }
}

fn col_widths_exec(rows: &Vec<Vec<Vec<char>>>, i: usize) -> (r: ColExec)
    ensures
        r.view() == col_widths(rows_view(rows@), i as int),
        r.bounded(),
{
    let m = col_min_exec(rows, i);
    let lens = col_lens_exec(rows, i);
    let s = sort_exec(&lens);
    let n = s.len() as u128;
    let i60 = (3 * n + 4) / 5;
    let i60 = if i60 >= 1 { i60 - 1 } else { 0 };
    let i80 = (4 * n + 4) / 5;
    let i80 = if i80 >= 1 { i80 - 1 } else { 0 };
    let il = if n >= 1 { n - 1 } else { 0 };
    let p60 = clamp_exec(get_or_4_exec(&s, i60), m);
    let a80 = clamp_exec(get_or_4_exec(&s, i80), m);
    let p80 = if a80 >= p60 { a80 } else { p60 };
    let a100 = clamp_exec(get_or_4_exec(&s, il), m);
    let p100 = if a100 >= p80 { a100 } else { p80 };
    ColExec { min: m, p60, p80, p100 }
}

fn all_cols_exec(rows: &Vec<Vec<Vec<char>>>, n: usize) -> (r: Vec<ColExec>)
    requires
        n == max_cols(rows_view(rows@)),
    ensures
        cols_view(r@) == all_cols(rows_view(rows@)),
        r.len() == n,
        forall|j: int| 0 <= j < r.len() ==> (#[trigger] r[j]).bounded(),
{
    let mut r: Vec<ColExec> = Vec::new();
    let mut i: usize = 0;
    while i < n
        invariant
            i <= n,
            r.len() == i,
            forall|j: int| 0 <= j < i ==> (#[trigger] r[j]).view() == col_widths(rows_view(rows@), j),
            forall|j: int| 0 <= j < r.len() ==> (#[trigger] r[j]).bounded(),
        decreases n - i,
    {
        r.push(col_widths_exec(rows, i));
        i = i + 1;
    }
    assert(cols_view(r@) =~= all_cols(rows_view(rows@)));
    r
}

/// The values of one field of the columns.
fn field_exec(cols: &Vec<ColExec>, which: u8) -> (r: Vec<u128>)
    requires
        forall|j: int| 0 <= j < cols.len() ==> (#[trigger] cols[j]).bounded(),
    ensures
        r.len() == cols.len(),
        forall|j: int| 0 <= j < r.len() ==> #[trigger] r[j] <= 40,
        which == 0 ==> nums(r@) == cols_view(cols@).map_values(|c: ColWidths| c.min),
        which == 1 ==> nums(r@) == cols_view(cols@).map_values(|c: ColWidths| c.p60),
        which == 2 ==> nums(r@) == cols_view(cols@).map_values(|c: ColWidths| c.p80),
        which == 3 ==> nums(r@) == cols_view(cols@).map_values(|c: ColWidths| c.p100),
{
    let mut r: Vec<u128> = Vec::new();
    let mut i: usize = 0;
    while i < cols.len()
        invariant
            i <= cols.len(),
            r.len() == i,
            forall|j: int| 0 <= j < cols.len() ==> (#[trigger] cols[j]).bounded(),
            forall|j: int| 0 <= j < i ==> #[trigger] r[j] == if which == 0 {
                cols[j].min
            } else if which == 1 {
                cols[j].p60
            } else if which == 2 {
                cols[j].p80
            } else {
                cols[j].p100
            },
        decreases cols.len() - i,
    {
        let c = &cols[i];
        r.push(
            if which == 0 {
                c.min
            } else if which == 1 {
                c.p60
            } else if which == 2 {
                c.p80
            } else {
                c.p100
            },
        );
        i = i + 1;
    }
    assert(which == 0 ==> nums(r@) =~= cols_view(cols@).map_values(|c: ColWidths| c.min));
    assert(which == 1 ==> nums(r@) =~= cols_view(cols@).map_values(|c: ColWidths| c.p60));
    assert(which == 2 ==> nums(r@) =~= cols_view(cols@).map_values(|c: ColWidths| c.p80));
    assert(which == 3 ==> nums(r@) =~= cols_view(cols@).map_values(|c: ColWidths| c.p100));
    r
}

fn target_exec(cols: &Vec<ColExec>) -> (r: u128)
    requires
        forall|j: int| 0 <= j < cols.len() ==> (#[trigger] cols[j]).bounded(),
    ensures
        r == table_target(cols_view(cols@)),
        r <= 160,
{
    let p80 = field_exec(cols, 2);
    let total = sum_exec(&p80);
    let n = cols.len() as u128;
    let border = 3 * n + 1;
    let p80_total = total + border;
    assert(cols_view(cols@).len() == cols.len());
    if p80_total <= 160 {
        let a = if p80_total >= 78 { p80_total } else { 78 };
        let a = if a <= 160 { a } else { 160 };
        if a >= border { a - border } else { 0 }
    } else {
        if 78 >= border { 78 - border } else { 0 }
    }
}

fn shrink_exec(cols: &Vec<ColExec>, target: u128) -> (r: Vec<u128>)
    requires
        forall|j: int| 0 <= j < cols.len() ==> (#[trigger] cols[j]).bounded(),
    ensures
        nums(r@) == shrink(cols_view(cols@), target as int),
        r.len() == cols.len(),
        forall|j: int| 0 <= j < r.len() ==> #[trigger] r[j] <= 40,
{
    let ghost cv = cols_view(cols@);
    let w = field_exec(cols, 1);
    let used = sum_exec(&w);
    if used > target {
        let deficit = used - target;
        let mut rooms: Vec<u128> = Vec::new();
        let mut i: usize = 0;
        while i < cols.len()
            invariant
                i <= cols.len(),
                rooms.len() == i,
                w.len() == cols.len(),
                forall|j: int| 0 <= j < w.len() ==> #[trigger] w[j] <= 40,
                forall|j: int| 0 <= j < cols.len() ==> (#[trigger] cols[j]).bounded(),
                forall|j: int| 0 <= j < i ==> #[trigger] rooms[j] == sat_sub(w[j] as int, cols[j].min as int),
                forall|j: int| 0 <= j < i ==> #[trigger] rooms[j] <= 40,
            decreases cols.len() - i,
        {
            let r = if w[i] >= cols[i].min { w[i] - cols[i].min } else { 0 };
            rooms.push(r);
            i = i + 1;
        }
        let flex = sum_exec(&rooms);
        assert(nums(rooms@) =~= Seq::new(cv.len(), |i: int| sat_sub(nums(w@)[i], cv[i].min)));
        let mut r: Vec<u128> = Vec::new();
        let mut i: usize = 0;
        while i < cols.len()
            invariant
                i <= cols.len(),
                r.len() == i,
                w.len() == cols.len(),
                rooms.len() == cols.len(),
                used == sum(nums(w@)),
                used <= 1000 * w.len(),
                deficit == used - target,
                flex == sum(nums(rooms@)),
                forall|j: int| 0 <= j < w.len() ==> #[trigger] w[j] <= 40,
                forall|j: int| 0 <= j < cols.len() ==> (#[trigger] cols[j]).bounded(),
                forall|j: int| 0 <= j < cols.len() ==> #[trigger] rooms[j] == sat_sub(w[j] as int, cols[j].min as int),
                forall|j: int| 0 <= j < cols.len() ==> #[trigger] rooms[j] <= 40,
                forall|j: int| 0 <= j < i ==> #[trigger] r[j] <= 40,
                forall|j: int| 0 <= j < i ==> #[trigger] r[j] == {
                    let room = sat_sub(w[j] as int, cols[j].min as int);
                    imax(
                        sat_sub(w[j] as int, if flex > 0 { deficit * room / imax(flex as int, 1) } else { 0 }),
                        cols[j].min as int,
                    )
                },
            decreases cols.len() - i,
        {
            let room = rooms[i];
            let cut = if flex > 0 {
                assert(deficit * room <= deficit * 40) by (nonlinear_arith)
                    requires room <= 40;
                assert(deficit * 40 <= 40000 * w.len()) by (nonlinear_arith)
                    requires deficit <= 1000 * w.len();
                deficit * room / flex
            } else {
                0
            };
            let a = if w[i] >= cut { w[i] - cut } else { 0 };
            let v = if a >= cols[i].min { a } else { cols[i].min };
            r.push(v);
            i = i + 1;
        }
        assert(nums(r@) =~= shrink(cv, target as int));
        r
    } else {
        assert(nums(w@) =~= shrink(cv, target as int));
        w
    }
}

proof fn lemma_insert_desc(ord: Seq<int>, gains: Seq<int>, k: int, p: int)
    requires
        0 <= p <= ord.len(),
        forall|j: int| 0 <= j < p ==> !(gains[#[trigger] ord[j]] < gains[k]),
        p < ord.len() ==> gains[ord[p]] < gains[k],
    ensures
        insert_desc(ord, gains, k) =~= ord.take(p) + seq![k] + ord.skip(p),
    decreases ord.len(),
{
    if ord.len() > 0 && p > 0 {
        assert(!(gains[ord[0]] < gains[k]));
        let d = ord.drop_first();
        assert forall|j: int| 0 <= j < p - 1 implies !(gains[#[trigger] d[j]] < gains[k]) by {
            assert(d[j] == ord[j + 1]);
        }
        lemma_insert_desc(d, gains, k, p - 1);
        assert(d.take(p - 1) =~= ord.take(p).drop_first());
        assert(d.skip(p - 1) =~= ord.skip(p));
    }
}

/// The indices `0..gains.len()` by decreasing gain (see `desc_order`).
fn desc_order_exec(gains: &Vec<u128>) -> (r: Vec<usize>)
    ensures
        r@.map_values(|x: usize| x as int) == desc_order(nums(gains@), gains.len() as int),
        r.len() == gains.len(),
        forall|j: int| 0 <= j < r.len() ==> #[trigger] r[j] < gains.len(),
{
    let ghost g = nums(gains@);
    let mut r: Vec<usize> = Vec::new();
    let mut k: usize = 0;
    while k < gains.len()
        invariant
            k <= gains.len(),
            g == nums(gains@),
            r.len() == k,
            forall|j: int| 0 <= j < r.len() ==> #[trigger] r[j] < k,
            r@.map_values(|x: usize| x as int) == desc_order(g, k as int),
        decreases gains.len() - k,
    {
        let mut p: usize = 0;
        while p < r.len() && !(gains[r[p]] < gains[k])
            invariant
                p <= r.len(),
                r.len() == k,
                k < gains.len(),
                forall|j: int| 0 <= j < r.len() ==> #[trigger] r[j] < k,
                forall|j: int| 0 <= j < p ==> !(gains[#[trigger] r[j] as int] < gains[k as int]),
            decreases r.len() - p,
        {
            p = p + 1;
        }
        let ghost ord = r@.map_values(|x: usize| x as int);
        proof {
            assert forall|j: int| 0 <= j < p implies !(g[#[trigger] ord[j]] < g[k as int]) by {
                assert(ord[j] == r[j] as int);
            }
            lemma_insert_desc(ord, g, k as int, p as int);
        }
        let ghost old_r = r@;
        r.insert(p, k);
        assert(r@.map_values(|x: usize| x as int) =~= ord.take(p as int) + seq![k as int] + ord.skip(p as int));
        assert forall|j: int| 0 <= j < r.len() implies #[trigger] r[j] < k + 1 by {
            if j < p {
                assert(r[j] == old_r[j]);
            } else if j > p {
                assert(r[j] == old_r[j - 1]);
            }
        }
        k = k + 1;
    }
    r
}

/// One growth level (see `grow`).
fn grow_exec(cols: &Vec<ColExec>, target: u128, level: u8, w: Vec<u128>) -> (r: Vec<u128>)
    requires
        forall|j: int| 0 <= j < cols.len() ==> (#[trigger] cols[j]).bounded(),
        w.len() == cols.len(),
        forall|j: int| 0 <= j < w.len() ==> #[trigger] w[j] <= 40,
        level == 1 || level == 2,
    ensures
        nums(r@) == grow(cols_view(cols@), target as int, level as int, nums(w@)),
        r.len() == cols.len(),
        forall|j: int| 0 <= j < r.len() ==> #[trigger] r[j] <= 40,
{
    let ghost cv = cols_view(cols@);
    let total = sum_exec(&w);
    if total >= target {
        return w;
    }
    let mut gains: Vec<u128> = Vec::new();
    let mut i: usize = 0;
    while i < cols.len()
        invariant
            i <= cols.len(),
            gains.len() == i,
            w.len() == cols.len(),
            forall|j: int| 0 <= j < i ==> #[trigger] gains[j] == sat_sub(
                level_width(cv[j], level as int),
                w[j] as int,
            ),
            cv == cols_view(cols@),
        decreases cols.len() - i,
    {
        let lw = if level == 1 { cols[i].p80 } else { cols[i].p100 };
        gains.push(if lw >= w[i] { lw - w[i] } else { 0 });
        i = i + 1;
    }
    let ghost wv = nums(w@);
    assert(nums(gains@) =~= Seq::new(cv.len(), |i: int| sat_sub(level_width(cv[i], level as int), wv[i])));
    let ord = desc_order_exec(&gains);
    let ghost ordv = ord@.map_values(|x: usize| x as int);
    let mut w = w;
    let mut done = false;
    let mut k: usize = 0;
    while k < ord.len()
        invariant
            k <= ord.len(),
            ord.len() == cols.len(),
            w.len() == cols.len(),
            cv == cols_view(cols@),
            ordv == ord@.map_values(|x: usize| x as int),
            forall|j: int| 0 <= j < ord.len() ==> #[trigger] ord[j] < cols.len(),
            forall|j: int| 0 <= j < cols.len() ==> (#[trigger] cols[j]).bounded(),
            forall|j: int| 0 <= j < w.len() ==> #[trigger] w[j] <= 40,
            grow_run(cv, target as int, level as int, wv, ordv.take(k as int)) == (nums(w@), done),
            !done ==> sum(nums(w@)) < target,
        decreases ord.len() - k,
    {
        assert(ordv.take(k + 1).drop_last() =~= ordv.take(k as int));
        let i = ord[k];
        if !done {
            let lw = if level == 1 { cols[i].p80 } else { cols[i].p100 };
            let add = if lw >= w[i] { lw - w[i] } else { 0 };
            if add > 0 {
                let cur = sum_exec(&w);
                let room = target - cur;
                let take = if add <= room { add } else { room };
                let ghost old_w = nums(w@);
                let v = w[i] + take;
                w.set(i, v);
                proof {
                    lemma_sum_update(old_w, i as int, v as int);
                }
                assert(nums(w@) =~= old_w.update(i as int, v as int));
                let now = sum_exec(&w);
                done = now >= target;
            }
        }
        k = k + 1;
    }
    assert(ordv.take(k as int) =~= ordv);
    w
}

fn last_argmax_exec(w: &Vec<u128>) -> (r: usize)
    requires
        w.len() > 0,
    ensures
        r == last_argmax(nums(w@), w.len() as int),
        r < w.len(),
{
    let mut b: usize = 0;
    let mut n: usize = 1;
    while n < w.len()
        invariant
            1 <= n <= w.len(),
            b == last_argmax(nums(w@), n as int),
            b < n,
        decreases w.len() - n,
    {
        if w[n] >= w[b] {
            b = n;
        }
        n = n + 1;
    }
    b
}

fn final_widths_exec(cols: &Vec<ColExec>) -> (r: Vec<u128>)
    requires
        forall|j: int| 0 <= j < cols.len() ==> (#[trigger] cols[j]).bounded(),
        cols.len() > 0,
    ensures
        nums(r@) == final_widths(cols_view(cols@)),
        r.len() == cols.len(),
        forall|j: int| 0 <= j < r.len() ==> #[trigger] r[j] <= 200,
{
    let target = target_exec(cols);
    let w = shrink_exec(cols, target);
    let w = grow_exec(cols, target, 1, w);
    let mut w = grow_exec(cols, target, 2, w);
    let total = sum_exec(&w);
    if target > total {
        let slack = target - total;
        let m = last_argmax_exec(&w);
        let v = w[m] + slack;
        w.set(m, v);
    }
    w
}

pub(crate) fn push_repeat(v: &mut Vec<char>, c: char, n: u128)
    ensures
        final(v)@ =~= old(v)@ + repeat_char(c, n as int),
{
    let mut k: u128 = 0;
    while k < n
        invariant
            k <= n,
            v@ =~= old(v)@ + repeat_char(c, k as int),
        decreases n - k,
    {
        v.push(c);
        k = k + 1;
    }
}

fn sep_line_exec(c: char, w: &Vec<u128>) -> (r: Vec<char>)
    requires
        forall|j: int| 0 <= j < w.len() ==> #[trigger] w[j] <= 200,
    ensures
        r@ == sep_line(c, nums(w@)),
{
    let mut v: Vec<char> = Vec::new();
    v.push('|');
    let mut j: usize = 0;
    assert(nums(w@).take(0) =~= Seq::<int>::empty());
    while j < w.len()
        invariant
            j <= w.len(),
            forall|j: int| 0 <= j < w.len() ==> #[trigger] w[j] <= 200,
            v@ == sep_line(c, nums(w@).take(j as int)),
        decreases w.len() - j,
    {
        assert(nums(w@).take(j + 1).drop_last() =~= nums(w@).take(j as int));
        push_repeat(&mut v, c, w[j] + 1);
        v.push('|');
        j = j + 1;
    }
    assert(nums(w@).take(j as int) =~= nums(w@));
    v
}

fn row_line_exec(row: &Vec<Vec<char>>, w: &Vec<u128>) -> (r: Vec<char>)
    ensures
        r@ == row_line(row@.map_values(|c: Vec<char>| c@), nums(w@)),
{
    let ghost rowv = row@.map_values(|c: Vec<char>| c@);
    let mut v: Vec<char> = Vec::new();
    v.push('|');
    let mut j: usize = 0;
    assert(nums(w@).take(0) =~= Seq::<int>::empty());
    while j < w.len()
        invariant
            j <= w.len(),
            rowv == row@.map_values(|c: Vec<char>| c@),
            v@ == row_line(rowv, nums(w@).take(j as int)),
        decreases w.len() - j,
    {
        assert(nums(w@).take(j + 1).drop_last() =~= nums(w@).take(j as int));
        let width = w[j];
        v.push(' ');
        let mut shown: u128 = 0;
        if j < row.len() {
            let t = &row[j];
            let lim: usize = if (t.len() as u128) <= width { t.len() } else { width as usize };
            let mut k: usize = 0;
            while k < lim
                invariant
                    k <= lim <= t.len(),
                    v@ =~= row_line(rowv, nums(w@).take(j as int)) + seq![' '] + t@.take(k as int),
                decreases lim - k,
            {
                v.push(t[k]);
                k = k + 1;
            }
            shown = lim as u128;
        }
        push_repeat(&mut v, ' ', width - shown);
        v.push('|');
        j = j + 1;
    }
    assert(nums(w@).take(j as int) =~= nums(w@));
    v
}

/// Appends the lines of a table with the given cell texts.
pub fn render_table_rows(rows: &Vec<Vec<Vec<char>>>, lines: &mut Vec<StyledLine>)
    ensures
        lines_view(final(lines)@) == lines_view(old(lines)@) + table_lines(rows_view(rows@)),
{
    let ghost rv = rows_view(rows@);
    if rows.len() == 0 {
        assert(lines_view(lines@) =~= lines_view(old(lines)@) + table_lines(rv));
        return;
    }
    let n = max_cols_exec(rows);
    if n == 0 {
        assert(lines_view(lines@) =~= lines_view(old(lines)@) + table_lines(rv));
        return;
    }
    let cols = all_cols_exec(rows, n);
    let w = final_widths_exec(&cols);
    let ghost wv = nums(w@);
    let mut count: usize = 0;
    let mut k: usize = 0;
    assert(rv.take(0) =~= Seq::<Seq<Seq<char>>>::empty());
    assert(lines_view(lines@) =~= lines_view(old(lines)@) + body_lines(rv.take(0), wv).0);
    while k < rows.len()
        invariant
            k <= rows.len(),
            rv == rows_view(rows@),
            wv == nums(w@),
            forall|j: int| 0 <= j < w.len() ==> #[trigger] w[j] <= 200,
            count <= k,
            body_lines(rv.take(k as int), wv).1 == count,
            lines_view(lines@) =~= lines_view(old(lines)@) + body_lines(rv.take(k as int), wv).0,
        decreases rows.len() - k,
    {
        assert(rv.take(k + 1).drop_last() =~= rv.take(k as int));
        let row = &rows[k];
        assert(rv[k as int] == row@.map_values(|c: Vec<char>| c@));
        if row.len() > 0 {
            if count > 0 {
                let c = if count == 1 { '=' } else { '-' };
                let sep = sep_line_exec(c, &w);
                crate::render::push_line(lines, crate::render::line_from_text(&sep));
            }
            let line = row_line_exec(row, &w);
            crate::render::push_line(lines, crate::render::line_from_text(&line));
            count = count + 1;
        }
        k = k + 1;
    }
    assert(rv.take(k as int) =~= rv);
}

/// The length of a table line laid out in the column widths `w`: a `|`, and
/// for each column its width and two more characters.
pub open spec fn table_line_len(w: Seq<int>) -> int
    decreases w.len(),
{
    if w.len() == 0 {
        1
    } else {
        table_line_len(w.drop_last()) + w.last() + 2
    }
}

/// All lines of a table are equally long: a separator line and every row line
/// laid out in the same column widths have length `table_line_len(w)`,
/// whatever the cells hold (longer cells are cut, shorter ones padded).
pub proof fn lemma_table_lines_even(c: char, row: Seq<Seq<char>>, w: Seq<int>)
    requires
        forall|j: int| 0 <= j < w.len() ==> #[trigger] w[j] >= 0,
    ensures
        sep_line(c, w).len() == table_line_len(w),
        row_line(row, w).len() == table_line_len(w),
    decreases w.len(),
{
    if w.len() > 0 {
        let d = w.drop_last();
        assert forall|j: int| 0 <= j < d.len() implies #[trigger] d[j] >= 0 by {
            assert(d[j] == w[j]);
        }
        lemma_table_lines_even(c, row, d);
        assert(w.last() == w[w.len() - 1]);
        let j = w.len() - 1;
        let t = if j < row.len() {
            row[j]
        } else {
            seq![]
        };
        let shown = t.take(imin(t.len() as int, w.last()));
        assert(shown.len() <= w.last());
        assert(cell_text(t, w.last()).len() == w.last() + 2);
    }
}

} // verus!
