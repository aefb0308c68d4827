//! Short tables fill the target width: when the capped cell lengths fit in
//! 78 columns, every line of the table is widened to the 78-column target.

use vstd::prelude::*;
use crate::render::{render_node, table_rows};
use crate::style::{MarkdownTheme, SpanView, line_text};
use crate::tree::{NodeKind, Tree};
use crate::table::{
    ColWidths, all_cols, col_lens, col_min, col_widths, desc_order, final_widths,
    get_or_4, grow, grow_run, imax, imin, insert_sorted, last_argmax, lemma_sum_update,
    level_width, longest_word, max_cols, p60_widths, p80_widths, pct_index, sat_sub, shrink, sort_ints, sum,
    table_line_len, table_lines, table_target, word_scan,
};
use crate::table_laws::{
    cells_single_line, lemma_desc_order_members, lemma_last_argmax_range,
    lemma_table_lines_equal_length,
};
use crate::text::byte_len;

verus! {

/// The greatest byte length of a cell of column `i`.
pub open spec fn col_max_len(rows: Seq<Seq<Seq<char>>>, i: int) -> int
    decreases rows.len(),
{
    if rows.len() == 0 {
        0
    } else {
        let r = rows.last();
        imax(col_max_len(rows.drop_last(), i), if 0 <= i < r.len() { byte_len(r[i]) as int } else { 0 })
    }
}

/// For each of the `n` columns, its greatest cell length capped at 40.
pub open spec fn capped_lens(rows: Seq<Seq<Seq<char>>>, n: int) -> Seq<int> {
    Seq::new(n as nat, |i: int| imin(40, col_max_len(rows, i)))
}

proof fn lemma_word_scan_bound(s: Seq<char>)
    ensures
        word_scan(s).0 <= byte_len(s),
        word_scan(s).1 <= byte_len(s),
    decreases s.len(),
{
    if s.len() > 0 {
        lemma_word_scan_bound(s.drop_last());
    }
}

proof fn lemma_longest_word_bound(s: Seq<char>)
    ensures
        longest_word(s) <= byte_len(s),
{
    lemma_word_scan_bound(s);
}

proof fn lemma_col_bounds(rows: Seq<Seq<Seq<char>>>, i: int)
    ensures
        0 <= col_min(rows, i) <= col_max_len(rows, i),
        col_max_len(rows, i) >= 0,
        forall|j: int| 0 <= j < col_lens(rows, i).len() ==> #[trigger] col_lens(rows, i)[j] <= col_max_len(rows, i),
        0 <= i < max_cols(rows) ==> col_lens(rows, i).len() >= 1,
    decreases rows.len(),
{
    if rows.len() > 0 {
        let d = rows.drop_last();
        let r = rows.last();
        lemma_col_bounds(d, i);
        if 0 <= i < r.len() {
            lemma_longest_word_bound(r[i]);
        }
        let a = col_lens(d, i);
        let b: Seq<int> = if 0 <= i < r.len() { seq![byte_len(r[i]) as int] } else { seq![] };
        assert(col_lens(rows, i) == a + b);
        assert(max_cols(rows) == imax(max_cols(d), r.len() as int));
        if i < max_cols(rows) && !(i < max_cols(d)) {
            assert(i < r.len());
        }
        assert forall|j: int| 0 <= j < (a + b).len() implies #[trigger] (a + b)[j] <= col_max_len(rows, i) by {
            if j < a.len() {
                assert((a + b)[j] == a[j]);
            } else {
                assert((a + b)[j] == b[j - a.len()]);
            }
        }
    }
}

proof fn lemma_insert_sorted_bound(s: Seq<int>, x: int, m: int)
    requires
        x <= m,
        forall|j: int| 0 <= j < s.len() ==> #[trigger] s[j] <= m,
    ensures
        insert_sorted(s, x).len() == s.len() + 1,
        forall|j: int| 0 <= j < insert_sorted(s, x).len() ==> #[trigger] insert_sorted(s, x)[j] <= m,
    decreases s.len(),
{
    if s.len() > 0 && !(x < s[0]) {
        let d = s.drop_first();
        assert forall|j: int| 0 <= j < d.len() implies #[trigger] d[j] <= m by {
            assert(d[j] == s[j + 1]);
        }
        lemma_insert_sorted_bound(d, x, m);
        let r = insert_sorted(s, x);
        assert forall|j: int| 0 <= j < r.len() implies #[trigger] r[j] <= m by {
            if j > 0 {
                assert(r[j] == insert_sorted(d, x)[j - 1]);
            }
        }
    } else if s.len() > 0 {
        let r = insert_sorted(s, x);
        assert forall|j: int| 0 <= j < r.len() implies #[trigger] r[j] <= m by {
            if j > 0 {
                assert(r[j] == s[j - 1]);
            }
        }
    }
}

proof fn lemma_sort_bound(s: Seq<int>, m: int)
    requires
        forall|j: int| 0 <= j < s.len() ==> #[trigger] s[j] <= m,
    ensures
        sort_ints(s).len() == s.len(),
        forall|j: int| 0 <= j < sort_ints(s).len() ==> #[trigger] sort_ints(s)[j] <= m,
    decreases s.len(),
{
    if s.len() > 0 {
        let d = s.drop_last();
        assert forall|j: int| 0 <= j < d.len() implies #[trigger] d[j] <= m by {
            assert(d[j] == s[j]);
        }
        lemma_sort_bound(d, m);
        assert(s.last() == s[s.len() - 1]);
        lemma_insert_sorted_bound(sort_ints(d), s.last(), m);
    }
}

proof fn lemma_pct_index_range(n: int, num: int)
    requires
        n >= 1,
        1 <= num <= 5,
    ensures
        0 <= pct_index(n, num) < n,
{
    assert((num * n + 4) / 5 >= 1 && (num * n + 4) / 5 <= n) by (nonlinear_arith)
        requires
            n >= 1,
            1 <= num <= 5,
    ;
}

/// Each width of a column is at most its greatest cell length capped at 40.
proof fn lemma_col_widths_capped(rows: Seq<Seq<Seq<char>>>, i: int)
    requires
        0 <= i < max_cols(rows),
    ensures
        0 <= col_widths(rows, i).p60 <= imin(40, col_max_len(rows, i)),
        0 <= col_widths(rows, i).p80 <= imin(40, col_max_len(rows, i)),
{
    lemma_col_bounds(rows, i);
    let mx = col_max_len(rows, i);
    let m = col_min(rows, i);
    crate::table_laws::lemma_col_min_capped(rows, i);
    let s = sort_ints(col_lens(rows, i));
    lemma_sort_bound(col_lens(rows, i), mx);
    let n = s.len() as int;
    lemma_pct_index_range(n, 3);
    lemma_pct_index_range(n, 4);
    assert(get_or_4(s, pct_index(n, 3)) <= mx);
    assert(get_or_4(s, pct_index(n, 4)) <= mx);
}

proof fn lemma_sum_le(a: Seq<int>, b: Seq<int>)
    requires
        a.len() == b.len(),
        forall|j: int| 0 <= j < a.len() ==> #[trigger] a[j] <= b[j],
    ensures
        sum(a) <= sum(b),
    decreases a.len(),
{
    if a.len() > 0 {
        let (da, db) = (a.drop_last(), b.drop_last());
        assert forall|j: int| 0 <= j < da.len() implies #[trigger] da[j] <= db[j] by {
            assert(da[j] == a[j] && db[j] == b[j]);
        }
        lemma_sum_le(da, db);
        assert(a.last() == a[a.len() - 1] && b.last() == b[b.len() - 1]);
    }
}

proof fn lemma_sum_nonneg(a: Seq<int>)
    requires
        forall|j: int| 0 <= j < a.len() ==> #[trigger] a[j] >= 0,
    ensures
        sum(a) >= 0,
    decreases a.len(),
{
    if a.len() > 0 {
        let d = a.drop_last();
        assert forall|j: int| 0 <= j < d.len() implies #[trigger] d[j] >= 0 by {
            assert(d[j] == a[j]);
        }
        lemma_sum_nonneg(d);
        assert(a.last() == a[a.len() - 1]);
    }
}

proof fn lemma_grow_run_le(
    cols: Seq<ColWidths>,
    target: int,
    level: int,
    w: Seq<int>,
    ord: Seq<int>,
)
    requires
        w.len() == cols.len(),
        sum(w) <= target,
        forall|j: int| 0 <= j < ord.len() ==> 0 <= #[trigger] ord[j] < cols.len(),
    ensures
        grow_run(cols, target, level, w, ord).0.len() == cols.len(),
        sum(grow_run(cols, target, level, w, ord).0) <= target,
    decreases ord.len(),
{
    if ord.len() > 0 {
        let d = ord.drop_last();
        assert forall|j: int| 0 <= j < d.len() implies 0 <= #[trigger] d[j] < cols.len() by {
            assert(d[j] == ord[j]);
        }
        lemma_grow_run_le(cols, target, level, w, d);
        let st = grow_run(cols, target, level, w, d);
        let i = ord.last();
        assert(0 <= i < cols.len()) by {
            assert(ord.last() == ord[ord.len() - 1]);
        }
        let (v, done) = st;
        if !done {
            let add = sat_sub(level_width(cols[i], level), v[i]);
            if add != 0 {
                let take = imin(add, target - sum(v));
                lemma_sum_update(v, i, v[i] + take);
            }
        }
    }
}

proof fn lemma_grow_le(cols: Seq<ColWidths>, target: int, level: int, w: Seq<int>)
    requires
        w.len() == cols.len(),
        sum(w) <= target,
    ensures
        grow(cols, target, level, w).len() == cols.len(),
        sum(grow(cols, target, level, w)) <= target,
{
    if sum(w) < target {
        let gains = Seq::new(cols.len(), |i: int| sat_sub(level_width(cols[i], level), w[i]));
        lemma_desc_order_members(gains, cols.len() as int, cols.len() as int);
        lemma_grow_run_le(cols, target, level, w, desc_order(gains, cols.len() as int));
    }
}

proof fn lemma_table_line_len_sum(w: Seq<int>)
    ensures
        table_line_len(w) == 1 + sum(w) + 2 * w.len(),
    decreases w.len(),
{
    if w.len() > 0 {
        lemma_table_line_len_sum(w.drop_last());
    }
}

/// A table whose cells, each column capped at 40 bytes, fit in 78 columns
/// with their borders is widened to the 78-column target: every line of it
/// has 78 - n characters, n being the number of columns.
pub proof fn lemma_short_table_fills_target(rows: Seq<Seq<Seq<char>>>)
    requires
        cells_single_line(rows),
        max_cols(rows) > 0,
        sum(capped_lens(rows, max_cols(rows))) + 3 * max_cols(rows) + 1 <= 78,
    ensures
        forall|k: int|
            0 <= k < table_lines(rows).len() ==> line_text(#[trigger] table_lines(rows)[k]).len()
                == 78 - max_cols(rows),
{
    let n = max_cols(rows);
    let cols = all_cols(rows);
    let caps = capped_lens(rows, n);
    let p60s = p60_widths(cols);
    let p80s = p80_widths(cols);
    assert forall|j: int| 0 <= j < n implies 0 <= #[trigger] p80s[j] <= caps[j] by {
        assert(cols[j] == col_widths(rows, j));
        lemma_col_widths_capped(rows, j);
    }
    assert forall|j: int| 0 <= j < n implies #[trigger] p60s[j] <= caps[j] by {
        assert(cols[j] == col_widths(rows, j));
        lemma_col_widths_capped(rows, j);
    }
    lemma_sum_le(p80s, caps);
    lemma_sum_nonneg(p80s);
    lemma_sum_le(p60s, caps);
    let border: int = 3 * n + 1;
    assert(cols.len() == n);
    assert(sum(p80s) <= sum(caps));
    assert(sum(p80s) + border <= 78);
    let target = table_target(cols);
    assert(target == 78 - border);
    assert(shrink(cols, target) == p60s);
    let w1 = grow(cols, target, 1, p60s);
    lemma_grow_le(cols, target, 1, p60s);
    let w = grow(cols, target, 2, w1);
    lemma_grow_le(cols, target, 2, w1);
    let slack = sat_sub(target, sum(w));
    let fw = final_widths(cols);
    if slack > 0 {
        lemma_last_argmax_range(w, w.len() as int);
        let m = last_argmax(w, w.len() as int);
        lemma_sum_update(w, m, w[m] + slack);
    }
    assert(sum(fw) == target);
    assert(fw.len() == n);
    lemma_table_line_len_sum(fw);
    lemma_table_lines_equal_length(rows);
}


/// A table node whose cells hold no line break and whose cell texts, each
/// column capped at 40 bytes, fit in 78 columns with their borders renders
/// as lines of 78 - n characters each, n being its number of columns, and
/// then a blank line.
pub proof fn lemma_table_node_fills_target(th: MarkdownTheme, n: Tree, wrap: int)
    requires
        n.kind == NodeKind::Table,
        cells_single_line(table_rows(n.children)),
        max_cols(table_rows(n.children)) > 0,
        sum(capped_lens(table_rows(n.children), max_cols(table_rows(n.children)))) + 3 * max_cols(
            table_rows(n.children),
        ) + 1 <= 78,
    ensures
        ({
            let out = render_node(th, n, wrap);
            &&& out.len() == table_lines(table_rows(n.children)).len() + 1
            &&& out.last() == Seq::<SpanView>::empty()
            &&& forall|k: int|
                0 <= k < out.len() - 1 ==> line_text(#[trigger] out[k]).len() == 78 - max_cols(
                    table_rows(n.children),
                )
        }),
{
    let rows = table_rows(n.children);
    lemma_short_table_fills_target(rows);
    let out = render_node(th, n, wrap);
    assert forall|k: int| 0 <= k < out.len() - 1 implies line_text(#[trigger] out[k]).len() == 78
        - max_cols(rows) by {
        assert(out[k] == table_lines(rows)[k]);
    }
}


proof fn lemma_sum_le_eq(a: Seq<int>, b: Seq<int>)
    requires
        a.len() == b.len(),
        forall|j: int| 0 <= j < a.len() ==> #[trigger] a[j] <= b[j],
        sum(a) >= sum(b),
    ensures
        a == b,
    decreases a.len(),
{
    if a.len() > 0 {
        let (da, db) = (a.drop_last(), b.drop_last());
        assert forall|j: int| 0 <= j < da.len() implies #[trigger] da[j] <= db[j] by {
            assert(da[j] == a[j] && db[j] == b[j]);
        }
        lemma_sum_le(da, db);
        assert(a.last() == a[a.len() - 1] && b.last() == b[b.len() - 1]);
        lemma_sum_le_eq(da, db);
        assert(a =~= da.push(a.last()));
        assert(b =~= db.push(b.last()));
    } else {
        assert(a =~= b);
    }
}

proof fn lemma_insert_desc_contains(ord: Seq<int>, gains: Seq<int>, k: int)
    ensures
        crate::table::insert_desc(ord, gains, k).contains(k),
        forall|x: int| ord.contains(x) ==> #[trigger] crate::table::insert_desc(ord, gains, k).contains(x),
    decreases ord.len(),
{
    let r = crate::table::insert_desc(ord, gains, k);
    if ord.len() == 0 {
        assert(r[0] == k);
    } else if gains[ord[0]] < gains[k] {
        assert(r[0] == k);
        assert forall|x: int| ord.contains(x) implies #[trigger] r.contains(x) by {
            let j = choose|j: int| 0 <= j < ord.len() && ord[j] == x;
            assert(r[j + 1] == x);
        }
    } else {
        let d = ord.drop_first();
        lemma_insert_desc_contains(d, gains, k);
        let rd = crate::table::insert_desc(d, gains, k);
        assert(r == seq![ord[0]] + rd);
        let jk = choose|j: int| 0 <= j < rd.len() && rd[j] == k;
        assert(r[jk + 1] == k);
        assert forall|x: int| ord.contains(x) implies #[trigger] r.contains(x) by {
            let j = choose|j: int| 0 <= j < ord.len() && ord[j] == x;
            if j == 0 {
                assert(r[0] == x);
            } else {
                assert(0 <= j - 1 < d.len());
                assert(d[j - 1] == x);
                assert(d.contains(x));
                assert(rd.contains(x));
                let i = choose|i: int| 0 <= i < rd.len() && rd[i] == x;
                assert(r[i + 1] == x);
            }
        }
    }
}

proof fn lemma_desc_order_covers(gains: Seq<int>, n: int)
    ensures
        forall|k: int| 0 <= k < n ==> #[trigger] desc_order(gains, n).contains(k),
    decreases n,
{
    if n > 0 {
        lemma_desc_order_covers(gains, n - 1);
        lemma_insert_desc_contains(desc_order(gains, n - 1), gains, n - 1);
    }
}

/// Growing towards the 80th-percentile widths, when those add up to the
/// target: no width passes its 80th percentile, and while the target is not
/// reached every column handled so far has reached it.
proof fn lemma_grow_run_full(cols: Seq<ColWidths>, target: int, w: Seq<int>, ord: Seq<int>)
    requires
        w.len() == cols.len(),
        forall|i: int| 0 <= i < w.len() ==> #[trigger] w[i] <= cols[i].p80,
        sum(w) < target,
        forall|j: int| 0 <= j < ord.len() ==> 0 <= #[trigger] ord[j] < cols.len(),
    ensures
        ({
            let (v, done) = grow_run(cols, target, 1, w, ord);
            &&& v.len() == cols.len()
            &&& forall|i: int| 0 <= i < v.len() ==> #[trigger] v[i] <= cols[i].p80
            &&& done ==> sum(v) >= target
            &&& !done ==> sum(v) < target
            &&& !done ==> forall|j: int| 0 <= j < ord.len() ==> #[trigger] v[ord[j]] == cols[ord[j]].p80
        }),
    decreases ord.len(),
{
    if ord.len() > 0 {
        let d = ord.drop_last();
        assert forall|j: int| 0 <= j < d.len() implies 0 <= #[trigger] d[j] < cols.len() by {
            assert(d[j] == ord[j]);
        }
        lemma_grow_run_full(cols, target, w, d);
        let (v, done) = grow_run(cols, target, 1, w, d);
        let i = ord.last();
        assert(i == ord[ord.len() - 1]);
        if !done {
            let add = sat_sub(cols[i].p80, v[i]);
            if add != 0 {
                let take = imin(add, target - sum(v));
                let v2 = v.update(i, v[i] + take);
                lemma_sum_update(v, i, v[i] + take);
                let (r, done2) = grow_run(cols, target, 1, w, ord);
                assert(r == v2);
                if !done2 {
                    assert forall|j: int| 0 <= j < ord.len() implies #[trigger] r[ord[j]] == cols[ord[j]].p80 by {
                        if j < d.len() {
                            assert(ord[j] == d[j]);
                            if d[j] != i {
                                assert(r[d[j]] == v[d[j]]);
                            }
                        }
                    }
                }
            } else {
                assert forall|j: int| 0 <= j < ord.len() implies #[trigger] v[ord[j]] == cols[ord[j]].p80 by {
                    if j < d.len() {
                        assert(ord[j] == d[j]);
                    }
                }
            }
        }
    }
}

/// A table whose 80th-percentile column widths, with their borders (three
/// characters per column and one more), come to more than 78 and at most 160
/// columns is laid out at exactly those widths: the target is that total
/// less the borders, not 78 less the borders, and no column is shrunk below
/// its 80th percentile or grown past it.
pub proof fn lemma_wide_table_keeps_p80(cols: Seq<ColWidths>)
    requires
        forall|i: int| 0 <= i < cols.len() ==> 0 <= #[trigger] cols[i].p60 <= cols[i].p80,
        78 < sum(p80_widths(cols)) + 3 * cols.len() + 1 <= 160,
    ensures
        table_target(cols) == sum(p80_widths(cols)),
        final_widths(cols) == p80_widths(cols),
{
    let p60s = p60_widths(cols);
    let p80s = p80_widths(cols);
    let target = table_target(cols);
    assert forall|j: int| 0 <= j < p80s.len() implies #[trigger] p80s[j] >= 0 by {
        assert(0 <= cols[j].p60 <= cols[j].p80);
    }
    lemma_sum_nonneg(p80s);
    assert(target == sum(p80s));
    assert forall|j: int| 0 <= j < p60s.len() implies #[trigger] p60s[j] <= p80s[j] by {
        assert(0 <= cols[j].p60 <= cols[j].p80);
    }
    lemma_sum_le(p60s, p80s);
    assert(sum(p60s) <= target);
    assert(shrink(cols, target) == p60s);
    let w1 = grow(cols, target, 1, p60s);
    if sum(p60s) >= target {
        lemma_sum_le_eq(p60s, p80s);
    } else {
        let gains = Seq::new(cols.len(), |i: int| sat_sub(level_width(cols[i], 1), p60s[i]));
        let ord = desc_order(gains, cols.len() as int);
        lemma_desc_order_members(gains, cols.len() as int, cols.len() as int);
        lemma_desc_order_covers(gains, cols.len() as int);
        lemma_grow_run_full(cols, target, p60s, ord);
        let (v, done) = grow_run(cols, target, 1, p60s, ord);
        assert(w1 == v);
        assert forall|j: int| 0 <= j < v.len() implies #[trigger] v[j] <= p80s[j] by {}
        if done {
            lemma_sum_le_eq(v, p80s);
        } else {
            assert forall|k: int| 0 <= k < v.len() implies #[trigger] v[k] == p80s[k] by {
                assert(ord.contains(k));
                let j = choose|j: int| 0 <= j < ord.len() && ord[j] == k;
                assert(v[ord[j]] == cols[ord[j]].p80);
            }
            assert(v =~= p80s);
        }
    }
    assert(w1 == p80s);
    assert(grow(cols, target, 2, w1) == w1);
}


/// The width a table is fitted to, borders left out: with p the
/// 80th-percentile widths plus the borders (three per column and one), p
/// itself when it lies between 78 and 160, and 78 otherwise.
pub proof fn lemma_table_target_range(cols: Seq<ColWidths>)
    requires
        forall|i: int| 0 <= i < cols.len() ==> 0 <= #[trigger] cols[i].p80,
        3 * cols.len() + 1 <= 78,
    ensures
        ({
            let border = 3 * cols.len() + 1;
            let p = sum(p80_widths(cols)) + border;
            table_target(cols) == (if 78 <= p <= 160 { p } else { 78 }) - border
        }),
{
    let p80s = p80_widths(cols);
    assert forall|j: int| 0 <= j < p80s.len() implies #[trigger] p80s[j] >= 0 by {
        assert(0 <= cols[j].p80);
    }
    lemma_sum_nonneg(p80s);
}

/// The columns of a table whose 80th-percentile widths and borders come to
/// more than 78 and at most 160 columns are laid out at their 80th-percentile
/// widths, which add up to that total less the borders.
pub proof fn lemma_wide_table_rows(rows: Seq<Seq<Seq<char>>>)
    requires
        78 < sum(p80_widths(all_cols(rows))) + 3 * max_cols(rows) + 1 <= 160,
    ensures
        final_widths(all_cols(rows)) == p80_widths(all_cols(rows)),
        table_target(all_cols(rows)) == sum(p80_widths(all_cols(rows))),
        sum(final_widths(all_cols(rows))) == table_target(all_cols(rows)),
        forall|j: int| 0 <= j < max_cols(rows) ==> #[trigger] final_widths(all_cols(rows))[j] == col_widths(rows, j).p80,
{
    let cols = all_cols(rows);
    assert forall|i: int| 0 <= i < cols.len() implies 0 <= #[trigger] cols[i].p60 <= cols[i].p80 by {
        assert(cols[i] == col_widths(rows, i));
        lemma_col_widths_capped(rows, i);
    }
    lemma_wide_table_keeps_p80(cols);
}

} // verus!
