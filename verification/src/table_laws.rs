//! The layout promise of tables: every line of a rendered table has the same
//! length.

use vstd::prelude::*;
use crate::format::no_newline;
use crate::render::line_of_text;
use crate::style::{SpanView, line_text};
use crate::table::{
    ColWidths, all_cols, body_lines, cell_text, col_min, col_widths, desc_order, final_widths,
    grow, grow_run, imin, insert_desc, last_argmax, lemma_sum_update,
    lemma_table_lines_even, level_width, max_cols, repeat_char, row_line, sat_sub, sep_line,
    shrink, sum, table_line_len, table_lines, table_target,
};
use crate::text::{lines_run, str_lines};

verus! {

/// Every width of `w` is at least the minimum width of its column.
pub open spec fn at_least_min(w: Seq<int>, cols: Seq<ColWidths>) -> bool {
    forall|j: int| 0 <= j < w.len() && j < cols.len() ==> #[trigger] w[j] >= cols[j].min
}

/// Every number of `w` is at least 0.
pub open spec fn all_nonneg(w: Seq<int>) -> bool {
    forall|j: int| 0 <= j < w.len() ==> #[trigger] w[j] >= 0
}

/// The widths of every column are at least 0.
pub open spec fn cols_nonneg(cols: Seq<ColWidths>) -> bool {
    forall|j: int|
        0 <= j < cols.len() ==> (#[trigger] cols[j]).min >= 0 && cols[j].p60 >= 0 && cols[j].p80
            >= 0 && cols[j].p100 >= 0
}

proof fn lemma_col_min_nonneg(rows: Seq<Seq<Seq<char>>>, i: int)
    ensures
        col_min(rows, i) >= 0,
    decreases rows.len(),
{
    if rows.len() > 0 {
        lemma_col_min_nonneg(rows.drop_last(), i);
    }
}

proof fn lemma_all_cols_nonneg(rows: Seq<Seq<Seq<char>>>)
    ensures
        cols_nonneg(all_cols(rows)),
{
    let cols = all_cols(rows);
    assert forall|j: int| 0 <= j < cols.len() implies (#[trigger] cols[j]).min >= 0 && cols[j].p60
        >= 0 && cols[j].p80 >= 0 && cols[j].p100 >= 0 by {
        lemma_col_min_nonneg(rows, j);
        assert(cols[j] == col_widths(rows, j));
    }
}

proof fn lemma_shrink_nonneg(cols: Seq<ColWidths>, target: int)
    requires
        cols_nonneg(cols),
    ensures
        shrink(cols, target).len() == cols.len(),
        all_nonneg(shrink(cols, target)),
{
    let r = shrink(cols, target);
    assert forall|j: int| 0 <= j < r.len() implies #[trigger] r[j] >= 0 by {
        assert(cols[j].min >= 0 && cols[j].p60 >= 0);
    }
}

proof fn lemma_insert_desc_members(ord: Seq<int>, gains: Seq<int>, k: int, n: int)
    requires
        0 <= k < n,
        forall|j: int| 0 <= j < ord.len() ==> 0 <= #[trigger] ord[j] < n,
    ensures
        forall|j: int|
            0 <= j < insert_desc(ord, gains, k).len() ==> 0 <= #[trigger] insert_desc(
                ord,
                gains,
                k,
            )[j] < n,
    decreases ord.len(),
{
    if ord.len() > 0 && !(gains[ord[0]] < gains[k]) {
        let d = ord.drop_first();
        assert forall|j: int| 0 <= j < d.len() implies 0 <= #[trigger] d[j] < n by {
            assert(d[j] == ord[j + 1]);
        }
        lemma_insert_desc_members(d, gains, k, n);
        let r = insert_desc(ord, gains, k);
        assert forall|j: int| 0 <= j < r.len() implies 0 <= #[trigger] r[j] < n by {
            if j > 0 {
                assert(r[j] == insert_desc(d, gains, k)[j - 1]);
            }
        }
    } else if ord.len() > 0 {
        let r = insert_desc(ord, gains, k);
        assert forall|j: int| 0 <= j < r.len() implies 0 <= #[trigger] r[j] < n by {
            if j > 0 {
                assert(r[j] == ord[j - 1]);
            }
        }
    }
}

pub(crate) proof fn lemma_desc_order_members(gains: Seq<int>, n: int, m: int)
    requires
        n <= m,
    ensures
        forall|j: int|
            0 <= j < desc_order(gains, n).len() ==> 0 <= #[trigger] desc_order(gains, n)[j] < m,
    decreases n,
{
    if n > 0 {
        lemma_desc_order_members(gains, n - 1, m);
        lemma_insert_desc_members(desc_order(gains, n - 1), gains, n - 1, m);
    }
}

/// While growing, the widths stay at least 0 and their count is kept, and the
/// growth has not stopped only while the widths add up to less than the target.
proof fn lemma_grow_run_nonneg(
    cols: Seq<ColWidths>,
    target: int,
    level: int,
    w: Seq<int>,
    ord: Seq<int>,
)
    requires
        w.len() == cols.len(),
        all_nonneg(w),
        sum(w) < target,
        forall|j: int| 0 <= j < ord.len() ==> 0 <= #[trigger] ord[j] < cols.len(),
    ensures
        grow_run(cols, target, level, w, ord).0.len() == cols.len(),
        all_nonneg(grow_run(cols, target, level, w, ord).0),
        !grow_run(cols, target, level, w, ord).1 ==> sum(grow_run(cols, target, level, w, ord).0)
            < target,
        at_least_min(w, cols) ==> at_least_min(grow_run(cols, target, level, w, ord).0, cols),
    decreases ord.len(),
{
    if ord.len() > 0 {
        let d = ord.drop_last();
        assert forall|j: int| 0 <= j < d.len() implies 0 <= #[trigger] d[j] < cols.len() by {
            assert(d[j] == ord[j]);
        }
        lemma_grow_run_nonneg(cols, target, level, w, d);
        let st = grow_run(cols, target, level, w, d);
        let i = ord.last();
        assert(0 <= i < cols.len()) by {
            assert(ord.last() == ord[ord.len() - 1]);
        }
        let (v, done) = st;
        if !done {
            let add = sat_sub(level_width(cols[i], level), v[i]);
            if add != 0 {
                let take = imin(add, target - sum(v));
                lemma_sum_update(v, i, v[i] + take);
                let v2 = v.update(i, v[i] + take);
                assert forall|j: int| 0 <= j < v2.len() implies #[trigger] v2[j] >= 0 by {
                    if j != i {
                        assert(v2[j] == v[j]);
                    }
                }
                if at_least_min(w, cols) {
                    assert forall|j: int| 0 <= j < v2.len() implies #[trigger] v2[j] >= cols[j].min by {
                        if j != i {
                            assert(v2[j] == v[j]);
                        }
                    }
                }
            }
        }
    }
}

proof fn lemma_grow_nonneg(cols: Seq<ColWidths>, target: int, level: int, w: Seq<int>)
    requires
        w.len() == cols.len(),
        all_nonneg(w),
    ensures
        grow(cols, target, level, w).len() == cols.len(),
        all_nonneg(grow(cols, target, level, w)),
        at_least_min(w, cols) ==> at_least_min(grow(cols, target, level, w), cols),
{
    if sum(w) < target {
        let gains = Seq::new(cols.len(), |i: int| sat_sub(level_width(cols[i], level), w[i]));
        lemma_desc_order_members(gains, cols.len() as int, cols.len() as int);
        lemma_grow_run_nonneg(cols, target, level, w, desc_order(gains, cols.len() as int));
    }
}

pub(crate) proof fn lemma_last_argmax_range(w: Seq<int>, n: int)
    requires
        1 <= n,
    ensures
        0 <= last_argmax(w, n) < n,
    decreases n,
{
    if n > 1 {
        lemma_last_argmax_range(w, n - 1);
    }
}

/// The final column widths are at least 0, one for each column.
pub proof fn lemma_final_widths_nonneg(cols: Seq<ColWidths>)
    requires
        cols.len() > 0,
        cols_nonneg(cols),
    ensures
        final_widths(cols).len() == cols.len(),
        all_nonneg(final_widths(cols)),
{
    let target = table_target(cols);
    lemma_shrink_nonneg(cols, target);
    let w1 = grow(cols, target, 1, shrink(cols, target));
    lemma_grow_nonneg(cols, target, 1, shrink(cols, target));
    let w = grow(cols, target, 2, w1);
    lemma_grow_nonneg(cols, target, 2, w1);
    let slack = sat_sub(target, sum(w));
    if slack > 0 {
        lemma_last_argmax_range(w, w.len() as int);
        let m = last_argmax(w, w.len() as int);
        let r = w.update(m, w[m] + slack);
        assert forall|j: int| 0 <= j < r.len() implies #[trigger] r[j] >= 0 by {
            if j != m {
                assert(r[j] == w[j]);
            }
        }
    }
}

/// The text of the line that a non-empty string without line breaks makes is
/// that string.
proof fn lemma_line_of_plain_text(t: Seq<char>)
    requires
        t.len() > 0,
        no_newline(t),
    ensures
        line_text(line_of_text(t)) == t,
{
    crate::format::lemma_lines_run_append(Seq::<char>::empty(), t);
    assert(Seq::<char>::empty() + t =~= t);
    assert(lines_run(Seq::<char>::empty()).cur + t =~= t);
    assert(str_lines(t) =~= seq![t]);
    let l = line_of_text(t);
    assert(l.drop_last() =~= Seq::<SpanView>::empty());
    assert(line_text(l.drop_last()) =~= Seq::<char>::empty());
    assert(line_text(l) =~= t);
}

/// No cell of `rows` holds a line break.
pub open spec fn cells_single_line(rows: Seq<Seq<Seq<char>>>) -> bool {
    forall|r: int, c: int| 0 <= r < rows.len() && 0 <= c < rows[r].len() ==> no_newline(#[trigger] rows[r][c])
}

proof fn lemma_sep_line_shape(c: char, w: Seq<int>)
    requires
        c != '\n',
    ensures
        sep_line(c, w).len() > 0,
        no_newline(sep_line(c, w)),
    decreases w.len(),
{
    if w.len() > 0 {
        lemma_sep_line_shape(c, w.drop_last());
        let a = sep_line(c, w.drop_last());
        let b = repeat_char(c, w.last() + 1);
        let s = sep_line(c, w);
        assert forall|i: int| 0 <= i < s.len() implies s[i] != '\n' by {
            if i < a.len() {
                assert(s[i] == a[i]);
            } else if i < a.len() + b.len() {
                assert(s[i] == b[i - a.len()]);
            }
        }
    }
}

proof fn lemma_row_line_shape(row: Seq<Seq<char>>, w: Seq<int>)
    requires
        all_nonneg(w),
        forall|c: int| 0 <= c < row.len() ==> no_newline(#[trigger] row[c]),
    ensures
        row_line(row, w).len() > 0,
        no_newline(row_line(row, w)),
    decreases w.len(),
{
    if w.len() > 0 {
        assert(all_nonneg(w.drop_last())) by {
            assert forall|j: int| 0 <= j < w.drop_last().len() implies #[trigger] w.drop_last()[j]
                >= 0 by {
                assert(w.drop_last()[j] == w[j]);
            }
        }
        assert(w.last() == w[w.len() - 1]);
        lemma_row_line_shape(row, w.drop_last());
        let j = w.len() - 1;
        let t: Seq<char> = if j < row.len() {
            row[j]
        } else {
            seq![]
        };
        let a = row_line(row, w.drop_last());
        let shown = t.take(imin(t.len() as int, w.last()));
        let cell = cell_text(t, w.last());
        let s = row_line(row, w);
        let pad = repeat_char(' ', w.last() - shown.len());
        assert(cell =~= seq![' '] + shown + pad + seq!['|']);
        assert forall|i: int| 0 <= i < cell.len() implies cell[i] != '\n' by {
            if i == 0 {
                assert(cell[i] == ' ');
            } else if i < 1 + shown.len() {
                assert(cell[i] == shown[i - 1]);
                assert(shown[i - 1] == t[i - 1]);
            } else if i < 1 + shown.len() + pad.len() {
                assert(cell[i] == pad[i - 1 - shown.len()]);
            } else {
                assert(cell[i] == '|');
            }
        }
        assert forall|i: int| 0 <= i < s.len() implies s[i] != '\n' by {
            if i < a.len() {
                assert(s[i] == a[i]);
            } else {
                assert(s[i] == cell[i - a.len()]);
            }
        }
    }
}

proof fn lemma_body_lines_even(rows: Seq<Seq<Seq<char>>>, w: Seq<int>)
    requires
        all_nonneg(w),
        cells_single_line(rows),
    ensures
        forall|k: int|
            0 <= k < body_lines(rows, w).0.len() ==> line_text(#[trigger] body_lines(rows, w).0[k]).len()
                == table_line_len(w),
    decreases rows.len(),
{
    if rows.len() > 0 {
        let d = rows.drop_last();
        assert forall|r: int, c: int| 0 <= r < d.len() && 0 <= c < d[r].len() implies no_newline(
            #[trigger] d[r][c],
        ) by {
            assert(d[r] == rows[r]);
        }
        lemma_body_lines_even(d, w);
        let (out, count) = body_lines(d, w);
        let row = rows.last();
        if row.len() > 0 {
            let ch = if count == 1 {
                '='
            } else {
                '-'
            };
            assert forall|c: int| 0 <= c < row.len() implies no_newline(#[trigger] row[c]) by {
                assert(row == rows[rows.len() - 1]);
            }
            lemma_table_lines_even(ch, row, w);
            lemma_sep_line_shape(ch, w);
            lemma_row_line_shape(row, w);
            lemma_line_of_plain_text(sep_line(ch, w));
            lemma_line_of_plain_text(row_line(row, w));
            let out1 = if count > 0 {
                out.push(line_of_text(sep_line(ch, w)))
            } else {
                out
            };
            let res = out1.push(line_of_text(row_line(row, w)));
            assert forall|k: int| 0 <= k < res.len() implies line_text(#[trigger] res[k]).len()
                == table_line_len(w) by {
                if k < out.len() {
                    assert(res[k] == out[k]);
                }
            }
        }
    }
}

/// All lines of a rendered table are equally long when no cell holds a line
/// break: each is `table_line_len` of the final column widths, so every
/// column is padded (or cut) to its width.
pub proof fn lemma_table_lines_equal_length(rows: Seq<Seq<Seq<char>>>)
    requires
        cells_single_line(rows),
    ensures
        forall|k: int|
            0 <= k < table_lines(rows).len() ==> line_text(#[trigger] table_lines(rows)[k]).len()
                == table_line_len(final_widths(all_cols(rows))),
{
    if rows.len() > 0 && max_cols(rows) > 0 {
        lemma_all_cols_nonneg(rows);
        lemma_final_widths_nonneg(all_cols(rows));
        lemma_body_lines_even(rows, final_widths(all_cols(rows)));
    }
}

pub(crate) proof fn lemma_col_min_capped(rows: Seq<Seq<Seq<char>>>, i: int)
    ensures
        col_min(rows, i) <= 40,
    decreases rows.len(),
{
    if rows.len() > 0 {
        lemma_col_min_capped(rows.drop_last(), i);
    }
}

/// Every column of a rendered table is at least as wide as the longest word
/// of its cells, up to 40 bytes: `col_min` is the greatest of
/// `min(longest_word(cell), 40)` over the cells of the column.
pub proof fn lemma_table_widths_fit_words(rows: Seq<Seq<Seq<char>>>)
    requires
        max_cols(rows) > 0,
    ensures
        final_widths(all_cols(rows)).len() == max_cols(rows),
        forall|j: int|
            0 <= j < max_cols(rows) ==> #[trigger] final_widths(all_cols(rows))[j] >= col_min(
                rows,
                j,
            ),
{
    let cols = all_cols(rows);
    lemma_all_cols_nonneg(rows);
    lemma_final_widths_nonneg(cols);
    let target = table_target(cols);
    lemma_shrink_nonneg(cols, target);
    let w0 = shrink(cols, target);
    assert(at_least_min(w0, cols)) by {
        assert forall|j: int| 0 <= j < w0.len() && j < cols.len() implies #[trigger] w0[j] >= cols[j].min by {
            assert(cols[j] == col_widths(rows, j));
            lemma_col_min_capped(rows, j);
        }
    }
    let w1 = grow(cols, target, 1, w0);
    lemma_grow_nonneg(cols, target, 1, w0);
    let w = grow(cols, target, 2, w1);
    lemma_grow_nonneg(cols, target, 2, w1);
    let slack = sat_sub(target, sum(w));
    let r = final_widths(cols);
    assert forall|j: int| 0 <= j < max_cols(rows) implies #[trigger] r[j] >= col_min(rows, j) by {
        assert(cols[j] == col_widths(rows, j));
        assert(w[j] >= cols[j].min);
        if slack > 0 {
            lemma_last_argmax_range(w, w.len() as int);
            let m = last_argmax(w, w.len() as int);
            if j != m {
                assert(r[j] == w[j]);
            }
        }
    }
}

/// The rows that hold at least one cell.
pub open spec fn rows_with_cells(rows: Seq<Seq<Seq<char>>>) -> Seq<Seq<Seq<char>>>
    decreases rows.len(),
{
    if rows.len() == 0 {
        seq![]
    } else {
        rows_with_cells(rows.drop_last()) + if rows.last().len() > 0 {
            seq![rows.last()]
        } else {
            seq![]
        }
    }
}

proof fn lemma_body_layout(rows: Seq<Seq<Seq<char>>>, w: Seq<int>)
    ensures
        body_lines(rows, w).1 == rows_with_cells(rows).len(),
        body_lines(rows, w).0.len() == if rows_with_cells(rows).len() == 0 {
            0
        } else {
            2 * rows_with_cells(rows).len() - 1
        },
        forall|k: int|
            0 <= k < rows_with_cells(rows).len() ==> #[trigger] body_lines(rows, w).0[2 * k]
                == line_of_text(row_line(rows_with_cells(rows)[k], w)),
        forall|k: int|
            1 <= k < rows_with_cells(rows).len() ==> #[trigger] body_lines(rows, w).0[2 * k - 1]
                == line_of_text(sep_line(if k == 1 { '=' } else { '-' }, w)),
    decreases rows.len(),
{
    if rows.len() > 0 {
        let d = rows.drop_last();
        lemma_body_layout(d, w);
        let (out, count) = body_lines(d, w);
        let ne0 = rows_with_cells(d);
        let ne = rows_with_cells(rows);
        let row = rows.last();
        if row.len() > 0 {
            assert(ne =~= ne0.push(row));
            let ch = if count == 1 { '=' } else { '-' };
            let out1 = if count > 0 {
                out.push(line_of_text(sep_line(ch, w)))
            } else {
                out
            };
            let res = out1.push(line_of_text(row_line(row, w)));
            assert forall|k: int| 0 <= k < ne.len() implies #[trigger] res[2 * k] == line_of_text(
                row_line(ne[k], w),
            ) by {
                if k < ne0.len() {
                    assert(res[2 * k] == out[2 * k]);
                    assert(ne[k] == ne0[k]);
                }
            }
            assert forall|k: int| 1 <= k < ne.len() implies #[trigger] res[2 * k - 1]
                == line_of_text(sep_line(if k == 1 { '=' } else { '-' }, w)) by {
                if k < ne0.len() {
                    assert(res[2 * k - 1] == out[2 * k - 1]);
                }
            }
        } else {
            assert(ne =~= ne0);
        }
    }
}

proof fn lemma_sep_line_chars(c: char, w: Seq<int>)
    ensures
        sep_line(c, w).len() > 0,
        sep_line(c, w)[0] == '|',
        sep_line(c, w).last() == '|',
        forall|i: int| 0 <= i < sep_line(c, w).len() ==> #[trigger] sep_line(c, w)[i] == '|' || sep_line(c, w)[i] == c,
    decreases w.len(),
{
    if w.len() > 0 {
        lemma_sep_line_chars(c, w.drop_last());
        let a = sep_line(c, w.drop_last());
        let b = repeat_char(c, w.last() + 1);
        let s = sep_line(c, w);
        assert(s =~= a + b + seq!['|']);
        assert forall|i: int| 0 <= i < s.len() implies #[trigger] s[i] == '|' || s[i] == c by {
            if i < a.len() {
                assert(s[i] == a[i]);
            } else if i < a.len() + b.len() {
                assert(s[i] == b[i - a.len()]);
            }
        }
    }
}

proof fn lemma_row_line_ends(row: Seq<Seq<char>>, w: Seq<int>)
    ensures
        row_line(row, w).len() > 0,
        row_line(row, w)[0] == '|',
        row_line(row, w).last() == '|',
    decreases w.len(),
{
    if w.len() > 0 {
        lemma_row_line_ends(row, w.drop_last());
        let j = w.len() - 1;
        let t: Seq<char> = if j < row.len() { row[j] } else { seq![] };
        let a = row_line(row, w.drop_last());
        let c = cell_text(t, w.last());
        assert(row_line(row, w) == a + c);
        assert((a + c)[0] == a[0]);
        assert(c.last() == '|');
    }
}

/// The lines of a rendered table: for the m rows that hold cells, 2m - 1
/// lines, row k at place 2k and a separator between every two rows, the first
/// of `|` and `=`, the others of `|` and `-`; every line starts and ends with
/// `|`, and no row is split over several lines.
pub proof fn lemma_table_layout(rows: Seq<Seq<Seq<char>>>)
    requires
        max_cols(rows) > 0,
    ensures
        ({
            let ne = rows_with_cells(rows);
            let w = final_widths(all_cols(rows));
            &&& table_lines(rows).len() == if ne.len() == 0 { 0 } else { 2 * ne.len() - 1 }
            &&& forall|k: int|
                0 <= k < ne.len() ==> #[trigger] table_lines(rows)[2 * k] == line_of_text(
                    row_line(ne[k], w),
                )
            &&& forall|k: int|
                1 <= k < ne.len() ==> #[trigger] table_lines(rows)[2 * k - 1] == line_of_text(
                    sep_line(if k == 1 { '=' } else { '-' }, w),
                )
        }),
        forall|c: char, w: Seq<int>, i: int|
            0 <= i < sep_line(c, w).len() ==> #[trigger] sep_line(c, w)[i] == '|' || sep_line(c, w)[i] == c,
        forall|c: char, w: Seq<int>|
            #![trigger sep_line(c, w)]
            sep_line(c, w).len() > 0 && sep_line(c, w)[0] == '|' && sep_line(c, w).last() == '|',
        forall|row: Seq<Seq<char>>, w: Seq<int>|
            #![trigger row_line(row, w)]
            row_line(row, w).len() > 0 && row_line(row, w)[0] == '|' && row_line(row, w).last() == '|',
{
    let w = final_widths(all_cols(rows));
    if rows.len() > 0 {
        lemma_body_layout(rows, w);
    }
    assert forall|c: char, w: Seq<int>, i: int| 0 <= i < sep_line(c, w).len() implies #[trigger] sep_line(c, w)[i] == '|' || sep_line(c, w)[i] == c by {
        lemma_sep_line_chars(c, w);
    }
    assert forall|c: char, w: Seq<int>| #![trigger sep_line(c, w)]
        sep_line(c, w).len() > 0 && sep_line(c, w)[0] == '|' && sep_line(c, w).last() == '|' by {
        lemma_sep_line_chars(c, w);
    }
    assert forall|row: Seq<Seq<char>>, w: Seq<int>| #![trigger row_line(row, w)]
        row_line(row, w).len() > 0 && row_line(row, w)[0] == '|' && row_line(row, w).last() == '|' by {
        lemma_row_line_ends(row, w);
    }
}

} // verus!
