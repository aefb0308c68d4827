//! Aligning the tables of text that is already aligned changes nothing.

use vstd::prelude::*;
use crate::format::{
    align_from, align_tables_spec, align_width, aligned_cells, aligned_row, aligned_table,
    bar_line, has_rule, lemma_join_run, lemma_lines_run_no_newline, lemma_table_end,
    line_cells, marker_cell, no_newline, padded_cell, split_bars, split_run, strip_bars_end,
    strip_bars_start, strip_cr, table_cells, table_end, table_starts,
};
use crate::format_laws::{lemma_align_keeps_line_count, lemma_align_width_bound, no_lone_colon};
use crate::frontmatter::{dashes_at, find_dashes_from};
use crate::table::{repeat_char, sat_sub};
use crate::text::{
    byte_len, char_width, is_ws, lemma_byte_len_add, lemma_byte_len_bounds, lemma_trim_end_prefix,
    lemma_trim_start_suffix, lines_run, str_lines, trim, trim_end, trim_start,
};

verus! {

/// `s` holds no `|`.
pub open spec fn no_bar(s: Seq<char>) -> bool {
    forall|i: int| 0 <= i < s.len() ==> s[i] != '|'
}

/// `c` is a cell as `line_cells` gives it: no `|` in it, and no whitespace at
/// either end.
pub open spec fn clean_cell(c: Seq<char>) -> bool {
    &&& no_bar(c)
    &&& c.len() == 0 || (!is_ws(c[0]) && !is_ws(c.last()))
}

/// `s` is made of whitespace only.
pub open spec fn all_ws(s: Seq<char>) -> bool {
    forall|i: int| 0 <= i < s.len() ==> is_ws(#[trigger] s[i])
}

proof fn lemma_trim_end_ws_suffix(p: Seq<char>, q: Seq<char>)
    requires
        all_ws(q),
    ensures
        trim_end(p + q) == trim_end(p),
    decreases q.len(),
{
    if q.len() == 0 {
        assert(p + q =~= p);
    } else {
        let d = q.drop_last();
        assert(all_ws(d)) by {
            assert forall|i: int| 0 <= i < d.len() implies is_ws(#[trigger] d[i]) by {
                assert(d[i] == q[i]);
            }
        }
        lemma_trim_end_ws_suffix(p, d);
        assert((p + q).drop_last() =~= p + d);
        assert((p + q).last() == q[q.len() - 1]);
    }
}

proof fn lemma_trim_start_ws_prefix(q: Seq<char>, p: Seq<char>)
    requires
        all_ws(q),
    ensures
        trim_start(q + p) == trim_start(p),
    decreases q.len(),
{
    if q.len() == 0 {
        assert(q + p =~= p);
    } else {
        let d = q.drop_first();
        assert(all_ws(d)) by {
            assert forall|i: int| 0 <= i < d.len() implies is_ws(#[trigger] d[i]) by {
                assert(d[i] == q[i + 1]);
            }
        }
        lemma_trim_start_ws_prefix(d, p);
        assert((q + p).drop_first() =~= d + p);
        assert((q + p)[0] == q[0]);
    }
}

/// A text with no whitespace at its ends, between whitespace on both sides,
/// is given back by `trim`.
proof fn lemma_trim_framed(x: Seq<char>, a: Seq<char>, b: Seq<char>)
    requires
        all_ws(a),
        all_ws(b),
        x.len() == 0 || (!is_ws(x[0]) && !is_ws(x.last())),
    ensures
        trim(a + x + b) == x,
{
    assert(a + x + b =~= a + (x + b));
    lemma_trim_start_ws_prefix(a, x + b);
    if x.len() == 0 {
        assert(x + b =~= b + x);
        lemma_trim_start_ws_prefix(b, x);
        assert(trim_start(x) == x);
        assert(trim_end(x) == x);
    } else {
        assert((x + b)[0] == x[0]);
        assert(trim_start(x + b) == x + b);
        lemma_trim_end_ws_suffix(x, b);
        assert(trim_end(x) == x);
    }
}

proof fn lemma_spaces_ws(n: int)
    ensures
        all_ws(repeat_char(' ', n)),
{
    assert forall|i: int| 0 <= i < repeat_char(' ', n).len() implies is_ws(
        #[trigger] repeat_char(' ', n)[i],
    ) by {
        assert(repeat_char(' ', n)[i] == ' ');
    }
}

proof fn lemma_one_space_ws()
    ensures
        all_ws(seq![' ']),
{
    assert(is_ws(seq![' '][0]));
}

/// A padded cell gives its text back once trimmed.
proof fn lemma_trim_padded(c: Seq<char>, w: int)
    requires
        clean_cell(c),
    ensures
        trim(padded_cell(c, w)) == c,
{
    reveal_strlit(" ");
    let sp = repeat_char(' ', w - c.len());
    assert(padded_cell(c, w) =~= seq![' '] + c + (sp + seq![' ']));
    lemma_spaces_ws(w - c.len());
    lemma_one_space_ws();
    assert(all_ws(sp + seq![' '])) by {
        assert forall|i: int| 0 <= i < (sp + seq![' ']).len() implies is_ws(
            #[trigger] (sp + seq![' '])[i],
        ) by {
            if i < sp.len() {
                assert((sp + seq![' '])[i] == sp[i]);
            } else {
                assert((sp + seq![' '])[i] == ' ');
            }
        }
    }
    lemma_trim_framed(c, seq![' '], sp + seq![' ']);
}

/// The text of a redrawn separator cell, without the space on either side.
pub open spec fn marker_core(c: Seq<char>, w: int) -> Seq<char> {
    let l = c.len() > 0 && c[0] == ':';
    let r = c.len() > 0 && c.last() == ':';
    if l && r {
        seq![':'] + repeat_char('-', sat_sub(w, 2)) + seq![':']
    } else if l {
        seq![':'] + repeat_char('-', sat_sub(w, 1))
    } else if r {
        repeat_char('-', sat_sub(w, 1)) + seq![':']
    } else {
        repeat_char('-', w)
    }
}

proof fn lemma_marker_framed(c: Seq<char>, w: int)
    ensures
        marker_cell(c, w) == seq![' '] + marker_core(c, w) + seq![' '],
        trim(marker_cell(c, w)) == marker_core(c, w),
        no_bar(marker_core(c, w)),
{
    reveal_strlit(" :");
    reveal_strlit(": ");
    reveal_strlit(" ");
    let l = c.len() > 0 && c[0] == ':';
    let r = c.len() > 0 && c.last() == ':';
    let m = marker_core(c, w);
    if l && r {
        let d = repeat_char('-', sat_sub(w, 2));
        assert(marker_cell(c, w) =~= seq![' '] + m + seq![' ']);
        assert(m[0] == ':' && m.last() == ':');
        assert forall|i: int| 0 <= i < m.len() implies m[i] != '|' by {
            if 0 < i < m.len() - 1 {
                assert(m[i] == d[i - 1]);
            }
        }
    } else if l {
        let d = repeat_char('-', sat_sub(w, 1));
        assert(marker_cell(c, w) =~= seq![' '] + m + seq![' ']);
        assert(m[0] == ':');
        assert(m.len() > 1 ==> m.last() == d[d.len() - 1]);
        assert forall|i: int| 0 <= i < m.len() implies m[i] != '|' by {
            if 0 < i {
                assert(m[i] == d[i - 1]);
            }
        }
    } else if r {
        let d = repeat_char('-', sat_sub(w, 1));
        assert(marker_cell(c, w) =~= seq![' '] + m + seq![' ']);
        assert(m.last() == ':');
        assert(m.len() > 1 ==> m[0] == d[0]);
        assert forall|i: int| 0 <= i < m.len() implies m[i] != '|' by {
            if i < m.len() - 1 {
                assert(m[i] == d[i]);
            }
        }
    } else {
        assert(marker_cell(c, w) =~= seq![' '] + m + seq![' ']);
        assert(m.len() > 0 ==> m[0] == '-' && m.last() == '-');
        assert forall|i: int| 0 <= i < m.len() implies m[i] != '|' by {
            assert(m[i] == '-');
        }
    }
    lemma_one_space_ws();
    lemma_trim_framed(m, seq![' '], seq![' ']);
}

proof fn lemma_dashes_byte_len(n: int)
    ensures
        byte_len(repeat_char('-', n)) == if n > 0 { n } else { 0 },
    decreases if n > 0 { n } else { 0 },
{
    if n > 0 {
        lemma_dashes_byte_len(n - 1);
        assert(repeat_char('-', n).drop_last() =~= repeat_char('-', n - 1));
    } else {
        assert(repeat_char('-', n).len() == 0);
    }
}

/// Redrawing a separator cell that is no lone `:`, at a width no less than
/// its length, gives a cell of exactly that width with the same colons.
proof fn lemma_marker_core_stable(c: Seq<char>, w: int)
    requires
        c != seq![':'],
        byte_len(c) <= w,
    ensures
        byte_len(marker_core(c, w)) == w,
        marker_cell(marker_core(c, w), w) == marker_cell(c, w),
{
    lemma_byte_len_bounds(c);
    let l = c.len() > 0 && c[0] == ':';
    let r = c.len() > 0 && c.last() == ':';
    let m = marker_core(c, w);
    let colon: Seq<char> = seq![':'];
    assert(byte_len(colon) == 1) by {
        assert(colon.drop_last().len() == 0);
        assert(colon.last() == ':');
        assert(char_width(':') == 1);
        assert(byte_len(colon.drop_last()) == 0);
    }
    if l && r {
        if c.len() == 1 {
            assert(c =~= seq![':']);
        }
        let d = repeat_char('-', sat_sub(w, 2));
        lemma_dashes_byte_len(sat_sub(w, 2));
        lemma_byte_len_add(colon, d);
        lemma_byte_len_add(colon + d, colon);
        assert(m[0] == ':' && m.last() == ':');
    } else if l {
        if c.len() == 1 {
            assert(c.last() == c[0]);
        }
        let d = repeat_char('-', sat_sub(w, 1));
        lemma_dashes_byte_len(sat_sub(w, 1));
        lemma_byte_len_add(colon, d);
        assert(m[0] == ':');
        assert(m.last() == d[d.len() - 1]);
    } else if r {
        if c.len() == 1 {
            assert(c.last() == c[0]);
        }
        let d = repeat_char('-', sat_sub(w, 1));
        lemma_dashes_byte_len(sat_sub(w, 1));
        lemma_byte_len_add(d, colon);
        assert(m.last() == ':');
        assert(m[0] == d[0]);
    } else {
        lemma_dashes_byte_len(w);
        assert(m.len() > 0 ==> m[0] == '-' && m.last() == '-');
    }
}


proof fn lemma_split_append(x: Seq<char>, b: Seq<char>)
    requires
        no_bar(b),
    ensures
        split_run(x + b) == (split_run(x).0, split_run(x).1 + b),
    decreases b.len(),
{
    if b.len() == 0 {
        assert(x + b =~= x);
        assert(split_run(x).1 + b =~= split_run(x).1);
    } else {
        let b1 = b.drop_last();
        lemma_split_append(x, b1);
        assert((x + b).drop_last() =~= x + b1);
        assert(b.last() == b[b.len() - 1]);
        assert(split_run(x).1 + b1.push(b.last()) =~= (split_run(x).1 + b1).push(b.last()));
        assert(b1.push(b.last()) =~= b);
    }
}

/// Cell `m` of row `idx` as the aligned row shows it.
pub open spec fn shown_cell(rows: Seq<Seq<Seq<char>>>, idx: int, m: int) -> Seq<char> {
    let c = rows[idx][m];
    let w = align_width(rows, m) as int;
    if idx == 1 {
        marker_cell(c, w)
    } else {
        padded_cell(c, w)
    }
}

/// Every cell of every row is clean.
pub open spec fn clean_rows(rows: Seq<Seq<Seq<char>>>) -> bool {
    forall|k: int, m: int| 0 <= k < rows.len() && 0 <= m < rows[k].len() ==> #[trigger] clean_cell(rows[k][m])
}

pub proof fn lemma_shown_cell_frame(rows: Seq<Seq<Seq<char>>>, idx: int, m: int)
    requires
        0 <= idx < rows.len(),
        0 <= m < rows[idx].len(),
        clean_rows(rows),
    ensures
        no_bar(shown_cell(rows, idx, m)),
        shown_cell(rows, idx, m).len() >= 2,
        shown_cell(rows, idx, m)[0] == ' ',
        shown_cell(rows, idx, m).last() == ' ',
        trim(shown_cell(rows, idx, m)) == if idx == 1 {
            marker_core(rows[idx][m], align_width(rows, m) as int)
        } else {
            rows[idx][m]
        },
{
    reveal_strlit(" ");
    let c = rows[idx][m];
    let w = align_width(rows, m) as int;
    assert(clean_cell(rows[idx][m]));
    if idx == 1 {
        lemma_marker_framed(c, w);
        let k = marker_core(c, w);
        let t = seq![' '] + k + seq![' '];
        assert forall|i: int| 0 <= i < t.len() implies t[i] != '|' by {
            if 0 < i < t.len() - 1 {
                assert(t[i] == k[i - 1]);
            }
        }
    } else {
        let sp = repeat_char(' ', w - c.len());
        let t = seq![' '] + c + sp + seq![' '];
        assert(padded_cell(c, w) =~= t);
        assert forall|i: int| 0 <= i < t.len() implies t[i] != '|' by {
            if 0 < i < 1 + c.len() {
                assert(t[i] == c[i - 1]);
            } else if 1 + c.len() <= i < t.len() - 1 {
                assert(t[i] == sp[i - 1 - c.len()]);
            }
        }
        lemma_trim_padded(c, w);
    }
}

proof fn lemma_split_aligned(rows: Seq<Seq<Seq<char>>>, idx: int, k: int)
    requires
        0 <= idx < rows.len(),
        0 <= k <= rows[idx].len(),
        clean_rows(rows),
    ensures
        split_run(aligned_cells(rows, idx, k)) == (
            Seq::new(k as nat, |m: int| shown_cell(rows, idx, m)),
            Seq::<char>::empty(),
        ),
        k >= 1 ==> aligned_cells(rows, idx, k).len() > 0 && aligned_cells(rows, idx, k)[0] == ' ',
    decreases k,
{
    if k == 0 {
        assert(Seq::new(0, |m: int| shown_cell(rows, idx, m)) =~= Seq::<Seq<char>>::empty());
    } else {
        lemma_split_aligned(rows, idx, k - 1);
        let a = aligned_cells(rows, idx, k - 1);
        let ct = shown_cell(rows, idx, k - 1);
        lemma_shown_cell_frame(rows, idx, k - 1);
        lemma_split_append(a, ct);
        let x = aligned_cells(rows, idx, k);
        assert(x =~= (a + ct).push('|'));
        assert(x.drop_last() =~= a + ct);
        assert(Seq::<char>::empty() + ct =~= ct);
        assert(Seq::new(k as nat, |m: int| shown_cell(rows, idx, m)) =~= Seq::new(
            (k - 1) as nat,
            |m: int| shown_cell(rows, idx, m),
        ).push(ct));
        if k == 1 {
            assert(a.len() == 0);
            assert(x[0] == ct[0]);
        } else {
            assert(x[0] == a[0]);
        }
    }
}

/// The cells read back from an aligned row are its trimmed shown cells.
pub proof fn lemma_line_cells_aligned(rows: Seq<Seq<Seq<char>>>, idx: int)
    requires
        0 <= idx < rows.len(),
        rows[idx].len() >= 1,
        clean_rows(rows),
    ensures
        line_cells(aligned_row(rows, idx)) == Seq::new(
            rows[idx].len(),
            |m: int| trim(shown_cell(rows, idx, m)),
        ),
{
    let n = rows[idx].len() as int;
    let x = aligned_cells(rows, idx, n);
    let row = aligned_row(rows, idx);
    lemma_split_aligned(rows, idx, n);
    lemma_split_aligned(rows, idx, n - 1);
    assert(row.drop_first() =~= x);
    assert(strip_bars_start(x) == x);
    assert(strip_bars_start(row) == x);
    let a = aligned_cells(rows, idx, n - 1);
    let ct = shown_cell(rows, idx, n - 1);
    lemma_shown_cell_frame(rows, idx, n - 1);
    assert(x =~= (a + ct).push('|'));
    assert(x.drop_last() =~= a + ct);
    assert((a + ct).last() == ct.last());
    assert(strip_bars_end(a + ct) == a + ct);
    assert(strip_bars_end(x) == a + ct);
    lemma_split_append(a, ct);
    assert(Seq::<char>::empty() + ct =~= ct);
    let pieces = split_bars(a + ct);
    assert(pieces =~= Seq::new(n as nat, |m: int| shown_cell(rows, idx, m)));
    assert(line_cells(row) =~= Seq::new(rows[idx].len(), |m: int| trim(shown_cell(rows, idx, m))));
}


proof fn lemma_split_no_bar(s: Seq<char>)
    ensures
        forall|m: int| 0 <= m < split_run(s).0.len() ==> no_bar(#[trigger] split_run(s).0[m]),
        no_bar(split_run(s).1),
    decreases s.len(),
{
    if s.len() > 0 {
        let p = s.drop_last();
        lemma_split_no_bar(p);
        let (done, cur) = split_run(p);
        if s.last() == '|' {
            assert forall|m: int| 0 <= m < split_run(s).0.len() implies no_bar(
                #[trigger] split_run(s).0[m],
            ) by {
                if m < done.len() {
                    assert(split_run(s).0[m] == done[m]);
                } else {
                    assert(split_run(s).0[m] == cur);
                }
            }
        } else {
            let c2 = split_run(s).1;
            assert forall|i: int| 0 <= i < c2.len() implies c2[i] != '|' by {
                if i < cur.len() {
                    assert(c2[i] == cur[i]);
                }
            }
        }
    }
}

proof fn lemma_trim_clean(p: Seq<char>)
    requires
        no_bar(p),
    ensures
        clean_cell(trim(p)),
{
    let ts = trim_start(p);
    lemma_trim_start_suffix(p);
    assert(no_bar(ts)) by {
        assert forall|i: int| 0 <= i < ts.len() implies ts[i] != '|' by {
            assert(ts[i] == p[p.len() - ts.len() + i]);
        }
    }
    let te = trim_end(ts);
    lemma_trim_end_prefix(ts);
    assert(no_bar(te)) by {
        assert forall|i: int| 0 <= i < te.len() implies te[i] != '|' by {
            assert(te[i] == ts[i]);
        }
    }
    if te.len() > 0 {
        assert(te[0] == ts[0]);
    }
}

/// The cells of a line are clean, and there is at least one.
pub proof fn lemma_line_cells_clean(l: Seq<char>)
    ensures
        line_cells(l).len() >= 1,
        forall|m: int| 0 <= m < line_cells(l).len() ==> #[trigger] clean_cell(line_cells(l)[m]),
{
    let body = strip_bars_end(strip_bars_start(l));
    lemma_split_no_bar(body);
    let pieces = split_bars(body);
    assert forall|m: int| 0 <= m < line_cells(l).len() implies #[trigger] clean_cell(
        line_cells(l)[m],
    ) by {
        assert(no_bar(pieces[m])) by {
            if m < split_run(body).0.len() {
                assert(pieces[m] == split_run(body).0[m]);
            } else {
                assert(pieces[m] == split_run(body).1);
            }
        }
        lemma_trim_clean(pieces[m]);
    }
}

/// What a column adds to the width of column `j` in row `k`.
pub open spec fn col_share(rows: Seq<Seq<Seq<char>>>, k: int, j: int) -> int {
    if 0 <= j < rows[k].len() {
        byte_len(rows[k][j]) as int
    } else {
        0
    }
}

proof fn lemma_align_width_le(rows: Seq<Seq<Seq<char>>>, j: int, w: int)
    requires
        w >= 0,
        forall|k: int| 0 <= k < rows.len() ==> #[trigger] col_share(rows, k, j) <= w,
    ensures
        align_width(rows, j) <= w,
    decreases rows.len(),
{
    if rows.len() > 0 {
        let d = rows.drop_last();
        assert forall|k: int| 0 <= k < d.len() implies #[trigger] col_share(d, k, j) <= w by {
            assert(d[k] == rows[k]);
            assert(col_share(rows, k, j) <= w);
        }
        lemma_align_width_le(d, j, w);
        assert(col_share(rows, rows.len() - 1, j) <= w);
        assert(rows.last() == rows[rows.len() - 1]);
    }
}

proof fn lemma_align_width_same(a: Seq<Seq<Seq<char>>>, b: Seq<Seq<Seq<char>>>, j: int)
    requires
        a.len() == b.len(),
        forall|k: int| 0 <= k < a.len() ==> #[trigger] col_share(a, k, j) == col_share(b, k, j),
    ensures
        align_width(a, j) == align_width(b, j),
    decreases a.len(),
{
    if a.len() > 0 {
        let (da, db) = (a.drop_last(), b.drop_last());
        assert forall|k: int| 0 <= k < da.len() implies #[trigger] col_share(da, k, j) == col_share(db, k, j) by {
            assert(da[k] == a[k] && db[k] == b[k]);
            assert(col_share(a, k, j) == col_share(b, k, j));
        }
        lemma_align_width_same(da, db, j);
        assert(col_share(a, a.len() - 1, j) == col_share(b, b.len() - 1, j));
        assert(a.last() == a[a.len() - 1] && b.last() == b[b.len() - 1]);
    }
}

/// The cells read back from an aligned table: the separator row holds the
/// redrawn separator texts, the other rows their own cells.
pub open spec fn redrawn_rows(rows: Seq<Seq<Seq<char>>>) -> Seq<Seq<Seq<char>>> {
    Seq::new(
        rows.len(),
        |k: int|
            if k == 1 {
                Seq::new(rows[1].len(), |m: int| marker_core(rows[1][m], align_width(rows, m) as int))
            } else {
                rows[k]
            },
    )
}

proof fn lemma_redrawn_widths(rows: Seq<Seq<Seq<char>>>, j: int)
    requires
        no_lone_colon(rows),
        j >= 0,
    ensures
        align_width(redrawn_rows(rows), j) == align_width(rows, j),
{
    let r2 = redrawn_rows(rows);
    if rows.len() > 1 && j < rows[1].len() {
        let w = align_width(rows, j) as int;
        let c = rows[1][j];
        lemma_align_width_bound(rows, 1, j);
        assert(c != seq![':']);
        lemma_marker_core_stable(c, w);
        assert(r2[1][j] == marker_core(c, w));
        assert forall|k: int| 0 <= k < r2.len() implies #[trigger] col_share(r2, k, j) <= w by {
            if k != 1 {
                assert(r2[k] == rows[k]);
                if j < rows[k].len() {
                    lemma_align_width_bound(rows, k, j);
                }
            }
        }
        lemma_align_width_le(r2, j, w);
        lemma_align_width_bound(r2, 1, j);
    } else {
        assert forall|k: int| 0 <= k < rows.len() implies #[trigger] col_share(rows, k, j) == col_share(
            r2,
            k,
            j,
        ) by {
            if k != 1 {
                assert(r2[k] == rows[k]);
            }
        }
        lemma_align_width_same(rows, r2, j);
    }
}

proof fn lemma_redrawn_cells(rows: Seq<Seq<Seq<char>>>, idx: int, k: int)
    requires
        no_lone_colon(rows),
        0 <= idx < rows.len(),
        0 <= k <= rows[idx].len(),
    ensures
        aligned_cells(redrawn_rows(rows), idx, k) == aligned_cells(rows, idx, k),
    decreases k,
{
    if k > 0 {
        lemma_redrawn_cells(rows, idx, k - 1);
        let r2 = redrawn_rows(rows);
        lemma_redrawn_widths(rows, k - 1);
        let w = align_width(rows, k - 1) as int;
        if idx == 1 {
            let c = rows[1][k - 1];
            lemma_align_width_bound(rows, 1, k - 1);
            assert(c != seq![':']);
            lemma_marker_core_stable(c, w);
            assert(r2[1][k - 1] == marker_core(c, w));
        } else {
            assert(r2[idx] == rows[idx]);
        }
    }
}

/// Aligning a table that is already aligned changes nothing, unless a cell
/// of its separator row is a lone `:` (which is redrawn as `::`).
pub proof fn lemma_aligned_table_stable(t: Seq<Seq<char>>)
    requires
        no_lone_colon(table_cells(t)),
    ensures
        aligned_table(aligned_table(t)) == aligned_table(t),
{
    let rows = table_cells(t);
    let a = aligned_table(t);
    let r2 = redrawn_rows(rows);
    assert(clean_rows(rows)) by {
        assert forall|k: int, m: int| 0 <= k < rows.len() && 0 <= m < rows[k].len() implies #[trigger] clean_cell(
            rows[k][m],
        ) by {
            lemma_line_cells_clean(t[k]);
            assert(rows[k] == line_cells(t[k]));
        }
    }
    assert forall|k: int| 0 <= k < a.len() implies #[trigger] line_cells(a[k]) == r2[k] by {
        lemma_line_cells_clean(t[k]);
        assert(rows[k] == line_cells(t[k]));
        lemma_line_cells_aligned(rows, k);
        assert forall|m: int| 0 <= m < rows[k].len() implies #[trigger] trim(shown_cell(rows, k, m)) == r2[k][m] by {
            lemma_shown_cell_frame(rows, k, m);
        }
        assert(line_cells(a[k]) =~= r2[k]);
    }
    assert(table_cells(a) =~= r2);
    assert forall|k: int| 0 <= k < a.len() implies #[trigger] aligned_row(r2, k) == a[k] by {
        lemma_redrawn_cells(rows, k, rows[k].len() as int);
        assert(r2[k].len() == rows[k].len());
    }
    assert(aligned_table(a) =~= a);
}


/// `s` holds `---` somewhere.
pub open spec fn rule_in(s: Seq<char>) -> bool {
    exists|p: int| dashes_at(s, p)
}

proof fn lemma_find_dashes_some(s: Seq<char>, i: int)
    requires
        i >= 0,
    ensures
        (find_dashes_from(s, i) is Some) == (exists|p: int| i <= p && dashes_at(s, p)),
    decreases s.len() - i,
{
    if i + 3 > s.len() {
    } else if dashes_at(s, i) {
    } else {
        lemma_find_dashes_some(s, i + 1);
        if exists|p: int| i <= p && dashes_at(s, p) {
            let p = choose|p: int| i <= p && dashes_at(s, p);
            assert(i + 1 <= p);
        }
    }
}

proof fn lemma_has_rule(s: Seq<char>)
    ensures
        has_rule(s) == rule_in(s),
{
    lemma_find_dashes_some(s, 0);
    if rule_in(s) {
        let p = choose|p: int| dashes_at(s, p);
        assert(0 <= p && dashes_at(s, p));
    }
}

/// `---` in `a + b` lies in `a`, in `b`, or across the joint.
proof fn lemma_rule_concat(a: Seq<char>, b: Seq<char>)
    requires
        rule_in(a + b),
    ensures
        rule_in(a) || rule_in(b) || (a.len() > 0 && a.last() == '-' && b.len() > 0 && b[0] == '-'),
{
    let s = a + b;
    let p = choose|p: int| dashes_at(s, p);
    if p + 3 <= a.len() {
        assert(dashes_at(a, p));
    } else if p >= a.len() {
        assert(dashes_at(b, p - a.len()));
    } else {
        assert(s[a.len() - 1] == a.last());
        assert(s[a.len() as int] == b[0]);
    }
}

proof fn lemma_rule_in_sub(s: Seq<char>, x: int, y: int)
    requires
        0 <= x <= y <= s.len(),
        rule_in(s.subrange(x, y)),
    ensures
        rule_in(s),
{
    let p = choose|p: int| dashes_at(s.subrange(x, y), p);
    assert(dashes_at(s, p + x));
}

proof fn lemma_rule_in_prefix(a: Seq<char>, b: Seq<char>)
    requires
        rule_in(a),
    ensures
        rule_in(a + b),
{
    assert((a + b).subrange(0, a.len() as int) =~= a);
    let s = a + b;
    let p = choose|p: int| dashes_at(a, p);
    assert(dashes_at(s, p));
}

proof fn lemma_rule_in_suffix(a: Seq<char>, b: Seq<char>)
    requires
        rule_in(b),
    ensures
        rule_in(a + b),
{
    let s = a + b;
    let p = choose|p: int| dashes_at(b, p);
    assert(dashes_at(s, p + a.len()));
}

/// `s` contains no `x`.
pub open spec fn lacks(s: Seq<char>, x: char) -> bool {
    forall|i: int| 0 <= i < s.len() ==> s[i] != x
}

proof fn lemma_strip_start_suffix(s: Seq<char>)
    ensures
        strip_bars_start(s).len() <= s.len(),
        strip_bars_start(s) =~= s.skip(s.len() - strip_bars_start(s).len()),
        forall|p: int| dashes_at(s, p) ==> rule_in(strip_bars_start(s)),
    decreases s.len(),
{
    if s.len() > 0 && s[0] == '|' {
        let d = s.drop_first();
        lemma_strip_start_suffix(d);
        assert forall|p: int| dashes_at(s, p) implies rule_in(strip_bars_start(s)) by {
            assert(p >= 1);
            assert(dashes_at(d, p - 1));
        }
    } else {
        assert(s.skip(0) =~= s);
        assert forall|p: int| dashes_at(s, p) implies rule_in(strip_bars_start(s)) by {
            assert(dashes_at(strip_bars_start(s), p));
        }
    }
}

proof fn lemma_strip_end_prefix(s: Seq<char>)
    ensures
        strip_bars_end(s).len() <= s.len(),
        strip_bars_end(s) =~= s.take(strip_bars_end(s).len() as int),
        forall|p: int| dashes_at(s, p) ==> rule_in(strip_bars_end(s)),
    decreases s.len(),
{
    if s.len() > 0 && s.last() == '|' {
        let d = s.drop_last();
        lemma_strip_end_prefix(d);
        assert forall|p: int| dashes_at(s, p) implies rule_in(strip_bars_end(s)) by {
            assert(p + 3 <= d.len());
            assert(dashes_at(d, p));
        }
    } else {
        assert forall|p: int| dashes_at(s, p) implies rule_in(strip_bars_end(s)) by {
            assert(dashes_at(strip_bars_end(s), p));
        }
    }
}

proof fn lemma_trim_start_rule(s: Seq<char>)
    ensures
        forall|p: int| dashes_at(s, p) ==> rule_in(trim_start(s)),
    decreases s.len(),
{
    if s.len() > 0 && is_ws(s[0]) {
        let d = s.drop_first();
        lemma_trim_start_rule(d);
        assert forall|p: int| dashes_at(s, p) implies rule_in(trim_start(s)) by {
            assert(p >= 1);
            assert(dashes_at(d, p - 1));
        }
    } else {
        assert forall|p: int| dashes_at(s, p) implies rule_in(trim_start(s)) by {
            assert(dashes_at(trim_start(s), p));
        }
    }
}

proof fn lemma_trim_end_rule(s: Seq<char>)
    ensures
        forall|p: int| dashes_at(s, p) ==> rule_in(trim_end(s)),
    decreases s.len(),
{
    if s.len() > 0 && is_ws(s.last()) {
        let d = s.drop_last();
        lemma_trim_end_rule(d);
        assert forall|p: int| dashes_at(s, p) implies rule_in(trim_end(s)) by {
            assert(p + 3 <= d.len());
            assert(dashes_at(d, p));
        }
    } else {
        assert forall|p: int| dashes_at(s, p) implies rule_in(trim_end(s)) by {
            assert(dashes_at(trim_end(s), p));
        }
    }
}

/// The piece being read is the end of `s` after its last `|`.
proof fn lemma_split_cur(s: Seq<char>)
    ensures
        split_run(s).1.len() <= s.len(),
        split_run(s).1 =~= s.skip(s.len() - split_run(s).1.len()),
        split_run(s).1.len() < s.len() ==> s[s.len() - split_run(s).1.len() - 1] == '|',
    decreases s.len(),
{
    if s.len() > 0 {
        lemma_split_cur(s.drop_last());
    }
}

/// `---` in a piece of `s` is `---` in `s`, and `---` in `s` is `---` in
/// one of its pieces; a piece lacks what `s` lacks.
proof fn lemma_split_rule(s: Seq<char>, x: char)
    ensures
        forall|m: int|
            0 <= m < split_run(s).0.len() ==> (rule_in(#[trigger] split_run(s).0[m]) ==> rule_in(s))
                && (lacks(s, x) ==> lacks(split_run(s).0[m], x)),
        rule_in(split_run(s).1) ==> rule_in(s),
        lacks(s, x) ==> lacks(split_run(s).1, x),
        rule_in(s) ==> exists|m: int| 0 <= m < split_bars(s).len() && rule_in(#[trigger] split_bars(s)[m]),
    decreases s.len(),
{
    lemma_split_cur(s);
    let cur = split_run(s).1;
    if rule_in(cur) {
        lemma_rule_in_sub(s, s.len() - cur.len(), s.len() as int);
    }
    if lacks(s, x) {
        assert forall|i: int| 0 <= i < cur.len() implies cur[i] != x by {
            assert(cur[i] == s[s.len() - cur.len() + i]);
        }
    }
    if s.len() > 0 {
        let p = s.drop_last();
        lemma_split_rule(p, x);
        lemma_split_cur(p);
        let (done, pc) = split_run(p);
        let c = s.last();
        assert(p =~= s.subrange(0, s.len() - 1));
        assert forall|m: int| 0 <= m < split_run(s).0.len() implies (rule_in(
            #[trigger] split_run(s).0[m],
        ) ==> rule_in(s)) && (lacks(s, x) ==> lacks(split_run(s).0[m], x)) by {
            let piece = split_run(s).0[m];
            if m < done.len() {
                assert(piece == done[m]);
            } else {
                assert(piece == pc);
            }
            if rule_in(piece) {
                assert(rule_in(p));
                lemma_rule_in_sub(s, 0, s.len() - 1);
            }
            if lacks(s, x) {
                assert(lacks(p, x)) by {
                    assert forall|i: int| 0 <= i < p.len() implies p[i] != x by {
                        assert(p[i] == s[i]);
                    }
                }
            }
        }
        if rule_in(s) {
            let q = choose|q: int| dashes_at(s, q);
            let pieces = split_bars(s);
            if q + 3 <= p.len() {
                assert(dashes_at(p, q));
                let m = choose|m: int| 0 <= m < split_bars(p).len() && rule_in(#[trigger] split_bars(p)[m]);
                if c == '|' {
                    assert(pieces[m] == split_bars(p)[m]);
                } else if m < done.len() {
                    assert(pieces[m] == done[m]);
                } else {
                    assert(split_bars(p)[m] == pc);
                    assert(pieces[done.len() as int] == pc.push(c));
                    lemma_rule_in_prefix(pc, seq![c]);
                    assert(pc + seq![c] =~= pc.push(c));
                }
            } else {
                assert(c == '-');
                assert(pieces[done.len() as int] == cur);
                assert(cur.len() >= 3) by {
                    if cur.len() < 3 {
                        assert(s[s.len() - cur.len() - 1] == '|');
                    }
                }
                assert(dashes_at(cur, cur.len() - 3)) by {
                    assert(cur[cur.len() - 3] == s[s.len() - 3]);
                    assert(cur[cur.len() - 2] == s[s.len() - 2]);
                    assert(cur[cur.len() - 1] == s[s.len() - 1]);
                }
            }
        }
    }
}


/// What a cell of a line holds, the line holds: `---` in a cell is `---` in
/// the line, and a character missing from the line is missing from the cell.
pub proof fn lemma_cell_of_line(l: Seq<char>, m: int, x: char)
    requires
        0 <= m < line_cells(l).len(),
    ensures
        rule_in(line_cells(l)[m]) ==> rule_in(l),
        lacks(l, x) ==> lacks(line_cells(l)[m], x),
{
    let sb = strip_bars_start(l);
    let body = strip_bars_end(sb);
    lemma_strip_start_suffix(l);
    lemma_strip_end_prefix(sb);
    lemma_split_rule(body, x);
    let pieces = split_bars(body);
    let piece = pieces[m];
    let ts = trim_start(piece);
    lemma_trim_start_suffix(piece);
    lemma_trim_end_prefix(ts);
    let cell = line_cells(l)[m];
    assert(cell == trim_end(ts));
    if m < split_run(body).0.len() {
        assert(piece == split_run(body).0[m]);
    } else {
        assert(piece == split_run(body).1);
    }
    if rule_in(cell) {
        assert(cell =~= ts.subrange(0, cell.len() as int));
        lemma_rule_in_sub(ts, 0, cell.len() as int);
        assert(ts =~= piece.subrange(piece.len() - ts.len(), piece.len() as int));
        lemma_rule_in_sub(piece, piece.len() - ts.len(), piece.len() as int);
        assert(rule_in(body));
        assert(body =~= sb.subrange(0, body.len() as int));
        lemma_rule_in_sub(sb, 0, body.len() as int);
        assert(sb =~= l.subrange(l.len() - sb.len(), l.len() as int));
        lemma_rule_in_sub(l, l.len() - sb.len(), l.len() as int);
    }
    if lacks(l, x) {
        assert(lacks(sb, x)) by {
            assert forall|i: int| 0 <= i < sb.len() implies sb[i] != x by {
                assert(sb[i] == l[l.len() - sb.len() + i]);
            }
        }
        assert(lacks(body, x)) by {
            assert forall|i: int| 0 <= i < body.len() implies body[i] != x by {
                assert(body[i] == sb[i]);
            }
        }
        assert(lacks(cell, x)) by {
            assert forall|i: int| 0 <= i < cell.len() implies cell[i] != x by {
                assert(cell[i] == ts[i]);
                assert(ts[i] == piece[piece.len() - ts.len() + i]);
            }
        }
    }
}

/// `---` in a line is `---` in one of its cells.
proof fn lemma_line_rule_cell(l: Seq<char>)
    requires
        rule_in(l),
    ensures
        exists|m: int| 0 <= m < line_cells(l).len() && rule_in(#[trigger] line_cells(l)[m]),
{
    let sb = strip_bars_start(l);
    let body = strip_bars_end(sb);
    lemma_strip_start_suffix(l);
    let p0 = choose|p: int| dashes_at(l, p);
    assert(rule_in(sb));
    lemma_strip_end_prefix(sb);
    let p1 = choose|p: int| dashes_at(sb, p);
    assert(rule_in(body));
    lemma_split_rule(body, '|');
    let m = choose|m: int| 0 <= m < split_bars(body).len() && rule_in(#[trigger] split_bars(body)[m]);
    let piece = split_bars(body)[m];
    lemma_trim_start_rule(piece);
    let p2 = choose|p: int| dashes_at(piece, p);
    let ts = trim_start(piece);
    assert(rule_in(ts));
    lemma_trim_end_rule(ts);
    let p3 = choose|p: int| dashes_at(ts, p);
    assert(rule_in(line_cells(l)[m]));
}

proof fn lemma_no_rule_short(s: Seq<char>)
    requires
        s.len() < 3 || (forall|i: int| 0 <= i < s.len() ==> #[trigger] s[i] != '-'),
    ensures
        !rule_in(s),
{
    if rule_in(s) {
        let p = choose|p: int| dashes_at(s, p);
        assert(s[p] == '-');
    }
}

/// `---` in a shown cell of a row other than the separator is `---` in the
/// cell's own text.
proof fn lemma_shown_rule(rows: Seq<Seq<Seq<char>>>, idx: int, m: int)
    requires
        0 <= idx < rows.len(),
        idx != 1,
        0 <= m < rows[idx].len(),
        rule_in(shown_cell(rows, idx, m)),
    ensures
        rule_in(rows[idx][m]),
{
    reveal_strlit(" ");
    let c = rows[idx][m];
    let w = align_width(rows, m) as int;
    let sp = repeat_char(' ', w - c.len());
    let tail = sp + seq![' '];
    let head = seq![' '] + c;
    assert(padded_cell(c, w) =~= head + tail);
    lemma_rule_concat(head, tail);
    assert(tail[0] == ' ') by {
        if sp.len() > 0 {
            assert(tail[0] == sp[0]);
        }
    }
    assert forall|i: int| 0 <= i < tail.len() implies #[trigger] tail[i] != '-' by {
        if i < sp.len() {
            assert(tail[i] == sp[i]);
        }
    }
    lemma_no_rule_short(tail);
    if rule_in(head) {
        lemma_rule_concat(seq![' '], c);
        lemma_no_rule_short(seq![' ']);
    }
}

proof fn lemma_aligned_cells_rule(rows: Seq<Seq<Seq<char>>>, idx: int, k: int)
    requires
        0 <= idx < rows.len(),
        idx != 1,
        0 <= k <= rows[idx].len(),
        clean_rows(rows),
        rule_in(aligned_cells(rows, idx, k)),
    ensures
        exists|m: int| 0 <= m < k && rule_in(#[trigger] rows[idx][m]),
    decreases k,
{
    if k == 0 {
        lemma_no_rule_short(aligned_cells(rows, idx, k));
    } else {
        let a = aligned_cells(rows, idx, k - 1);
        let ct = shown_cell(rows, idx, k - 1);
        lemma_shown_cell_frame(rows, idx, k - 1);
        assert(aligned_cells(rows, idx, k) =~= (a + ct) + seq!['|']);
        lemma_rule_concat(a + ct, seq!['|']);
        lemma_no_rule_short(seq!['|']);
        lemma_rule_concat(a, ct);
        if rule_in(a) {
            lemma_aligned_cells_rule(rows, idx, k - 1);
            let m = choose|m: int| 0 <= m < k - 1 && rule_in(#[trigger] rows[idx][m]);
            assert(0 <= m < k && rule_in(rows[idx][m]));
        } else {
            lemma_shown_rule(rows, idx, k - 1);
        }
    }
}

/// `---` in an aligned row other than the separator is `---` in one of its
/// cells.
proof fn lemma_aligned_row_rule(rows: Seq<Seq<Seq<char>>>, idx: int)
    requires
        0 <= idx < rows.len(),
        idx != 1,
        clean_rows(rows),
        rule_in(aligned_row(rows, idx)),
    ensures
        exists|m: int| 0 <= m < rows[idx].len() && rule_in(#[trigger] rows[idx][m]),
{
    let a = aligned_cells(rows, idx, rows[idx].len() as int);
    lemma_rule_concat(seq!['|'], a);
    lemma_no_rule_short(seq!['|']);
    lemma_aligned_cells_rule(rows, idx, rows[idx].len() as int);
}

/// A separator cell holding `---` is redrawn with `---`.
proof fn lemma_marker_rule(c: Seq<char>, w: int)
    requires
        rule_in(c),
        byte_len(c) <= w,
    ensures
        rule_in(marker_core(c, w)),
{
    lemma_byte_len_bounds(c);
    let p = choose|p: int| dashes_at(c, p);
    let l = c.len() > 0 && c[0] == ':';
    let r = c.len() > 0 && c.last() == ':';
    let m = marker_core(c, w);
    if l && r {
        assert(p >= 1 && p + 3 <= c.len() - 1);
        assert(dashes_at(m, 1));
    } else if l {
        assert(p >= 1);
        assert(dashes_at(m, 1));
    } else if r {
        assert(p + 3 <= c.len() - 1);
        assert(dashes_at(m, 0));
    } else {
        assert(dashes_at(m, 0));
    }
}

proof fn lemma_aligned_cells_keep_rule(rows: Seq<Seq<Seq<char>>>, idx: int, j: int, k: int)
    requires
        0 <= idx < rows.len(),
        0 <= j < k <= rows[idx].len(),
        rule_in(shown_cell(rows, idx, j)),
    ensures
        rule_in(aligned_cells(rows, idx, k)),
    decreases k,
{
    let a = aligned_cells(rows, idx, k - 1);
    let ct = shown_cell(rows, idx, k - 1);
    assert(aligned_cells(rows, idx, k) =~= (a + ct) + seq!['|']);
    if j == k - 1 {
        lemma_rule_in_suffix(a, ct);
    } else {
        lemma_aligned_cells_keep_rule(rows, idx, j, k - 1);
        lemma_rule_in_prefix(a, ct);
    }
    lemma_rule_in_prefix(a + ct, seq!['|']);
}

/// A separator cell holding `---` gives an aligned separator row holding
/// `---`.
proof fn lemma_separator_keeps_rule(rows: Seq<Seq<Seq<char>>>, j: int)
    requires
        1 < rows.len(),
        0 <= j < rows[1].len(),
        rule_in(rows[1][j]),
    ensures
        rule_in(aligned_row(rows, 1)),
{
    let c = rows[1][j];
    let w = align_width(rows, j) as int;
    lemma_align_width_bound(rows, 1, j);
    lemma_marker_rule(c, w);
    lemma_marker_framed(c, w);
    let core = marker_core(c, w);
    lemma_rule_in_suffix(seq![' '], core);
    lemma_rule_in_prefix(seq![' '] + core, seq![' ']);
    lemma_aligned_cells_keep_rule(rows, 1, j, rows[1].len() as int);
    lemma_rule_in_suffix(seq!['|'], aligned_cells(rows, 1, rows[1].len() as int));
}

/// An aligned row lacks every character that its cells lack, other than
/// the ones it draws itself.
proof fn lemma_aligned_cells_lack(rows: Seq<Seq<Seq<char>>>, idx: int, k: int, x: char)
    requires
        0 <= idx < rows.len(),
        0 <= k <= rows[idx].len(),
        x != ' ' && x != '-' && x != ':' && x != '|',
        forall|m: int| 0 <= m < rows[idx].len() ==> lacks(#[trigger] rows[idx][m], x),
    ensures
        lacks(aligned_cells(rows, idx, k), x),
    decreases k,
{
    reveal_strlit(" ");
    if k > 0 {
        lemma_aligned_cells_lack(rows, idx, k - 1, x);
        let a = aligned_cells(rows, idx, k - 1);
        let ct = shown_cell(rows, idx, k - 1);
        let c = rows[idx][k - 1];
        let w = align_width(rows, k - 1) as int;
        assert(lacks(c, x));
        assert(lacks(ct, x)) by {
            if idx == 1 {
                lemma_marker_framed(c, w);
                let core = marker_core(c, w);
                assert forall|i: int| 0 <= i < core.len() implies core[i] == ':' || core[i] == '-' by {
                    let l = c.len() > 0 && c[0] == ':';
                    let r = c.len() > 0 && c.last() == ':';
                    if l && r {
                        if 0 < i < core.len() - 1 {
                            assert(core[i] == repeat_char('-', sat_sub(w, 2))[i - 1]);
                        }
                    } else if l {
                        if 0 < i {
                            assert(core[i] == repeat_char('-', sat_sub(w, 1))[i - 1]);
                        }
                    } else if r {
                        if i < core.len() - 1 {
                            assert(core[i] == repeat_char('-', sat_sub(w, 1))[i]);
                        }
                    } else {
                        assert(core[i] == repeat_char('-', w)[i]);
                    }
                }
                assert forall|i: int| 0 <= i < ct.len() implies ct[i] != x by {
                    if 0 < i < ct.len() - 1 {
                        assert(ct[i] == core[i - 1]);
                    }
                }
            } else {
                let sp = repeat_char(' ', w - c.len());
                assert(ct =~= seq![' '] + c + sp + seq![' ']);
                assert forall|i: int| 0 <= i < ct.len() implies ct[i] != x by {
                    if 0 < i < 1 + c.len() {
                        assert(ct[i] == c[i - 1]);
                    } else if 1 + c.len() <= i < ct.len() - 1 {
                        assert(ct[i] == sp[i - 1 - c.len()]);
                    }
                }
            }
        }
        let x2 = aligned_cells(rows, idx, k);
        assert(x2 =~= a + ct + seq!['|']);
        assert forall|i: int| 0 <= i < x2.len() implies x2[i] != x by {
            if i < a.len() {
                assert(x2[i] == a[i]);
            } else if i < a.len() + ct.len() {
                assert(x2[i] == ct[i - a.len()]);
            }
        }
    }
}

proof fn lemma_aligned_row_ends(rows: Seq<Seq<Seq<char>>>, idx: int, x: char)
    requires
        0 <= idx < rows.len(),
        x != ' ' && x != '-' && x != ':' && x != '|',
        forall|m: int| 0 <= m < rows[idx].len() ==> lacks(#[trigger] rows[idx][m], x),
    ensures
        lacks(aligned_row(rows, idx), x),
        bar_line(aligned_row(rows, idx)),
        aligned_row(rows, idx).last() == '|',
{
    let n = rows[idx].len() as int;
    lemma_aligned_cells_lack(rows, idx, n, x);
    let a = aligned_cells(rows, idx, n);
    let row = aligned_row(rows, idx);
    assert forall|i: int| 0 <= i < row.len() implies row[i] != x by {
        if i > 0 {
            assert(row[i] == a[i - 1]);
        }
    }
    if n > 0 {
        assert(row.last() == a.last());
    }
}


proof fn lemma_aligned_row_bar(rows: Seq<Seq<Seq<char>>>, idx: int)
    requires
        0 <= idx < rows.len(),
    ensures
        bar_line(aligned_row(rows, idx)),
        aligned_row(rows, idx).last() == '|',
{
    let n = rows[idx].len() as int;
    if n > 0 {
        let a = aligned_cells(rows, idx, n);
        assert(a =~= aligned_cells(rows, idx, n - 1) + shown_cell(rows, idx, n - 1) + seq!['|']);
        assert(aligned_row(rows, idx).last() == a.last());
    }
}

pub proof fn lemma_table_cells_clean(t: Seq<Seq<char>>)
    ensures
        clean_rows(table_cells(t)),
        forall|k: int| 0 <= k < t.len() ==> #[trigger] table_cells(t)[k] == line_cells(t[k]),
{
    let rows = table_cells(t);
    assert forall|k: int, m: int| 0 <= k < rows.len() && 0 <= m < rows[k].len() implies #[trigger] clean_cell(
        rows[k][m],
    ) by {
        lemma_line_cells_clean(t[k]);
        assert(rows[k] == line_cells(t[k]));
    }
}

proof fn lemma_table_end_is(ls: Seq<Seq<char>>, i: int, j: int)
    requires
        0 <= i <= j <= ls.len(),
        forall|k: int| i <= k < j ==> #[trigger] bar_line(ls[k]),
        j < ls.len() ==> !bar_line(ls[j]),
    ensures
        table_end(ls, i) == j,
    decreases j - i,
{
    if i < j {
        lemma_table_end_is(ls, i + 1, j);
    }
}

/// No separator row of a table of `ls` has a cell that is a lone `:`.
pub open spec fn separators_ok(ls: Seq<Seq<char>>) -> bool {
    forall|k: int|
        #[trigger] table_starts(ls, k) ==> forall|j: int|
            0 <= j < line_cells(ls[k + 1]).len() ==> #[trigger] line_cells(ls[k + 1])[j] != seq![':']
}

/// Aligning again, from a line where the first pass went on, gives what the
/// first pass gave from there.
proof fn lemma_realign(ls: Seq<Seq<char>>, l2: Seq<Seq<char>>, i: int)
    requires
        0 <= i <= ls.len(),
        l2.len() == ls.len(),
        l2.skip(i) == align_from(ls, i),
        separators_ok(ls),
    ensures
        align_from(l2, i) == align_from(ls, i),
    decreases ls.len() - i,
{
    lemma_align_keeps_line_count(ls, i);
    if i < ls.len() {
        if table_starts(ls, i) {
            let j = table_end(ls, i);
            lemma_table_end(ls, i);
            assert(bar_line(ls[i + 1]));
            assert(j >= i + 2);
            let t = ls.subrange(i, j);
            let rows = table_cells(t);
            let at = aligned_table(t);
            lemma_align_keeps_line_count(ls, j);
            assert(align_from(ls, i) == at + align_from(ls, j));
            assert forall|k: int| i <= k < j implies #[trigger] l2[k] == aligned_row(rows, k - i) by {
                assert(l2[k] == l2.skip(i)[k - i]);
                assert((at + align_from(ls, j))[k - i] == at[k - i]);
            }
            assert forall|k: int| i <= k < j implies #[trigger] bar_line(l2[k]) by {
                assert(l2[k] == aligned_row(rows, k - i));
                lemma_aligned_row_bar(rows, k - i);
            }
            assert(l2.skip(j) =~= align_from(ls, j)) by {
                assert forall|k: int| 0 <= k < l2.skip(j).len() implies #[trigger] l2.skip(j)[k] == align_from(ls, j)[k] by {
                    assert(l2.skip(j)[k] == l2.skip(i)[k + j - i]);
                    assert((at + align_from(ls, j))[k + j - i] == align_from(ls, j)[k]);
                }
            }
            if j < ls.len() {
                assert(!bar_line(ls[j]));
                assert(!table_starts(ls, j));
                assert(align_from(ls, j)[0] == ls[j]);
                assert(l2[j] == l2.skip(j)[0]);
            }
            lemma_table_end_is(l2, i, j);
            lemma_table_cells_clean(t);
            assert(rows[1] == line_cells(ls[i + 1])) by {
                assert(t[1] == ls[i + 1]);
            }
            assert(has_rule(l2[i + 1])) by {
                lemma_has_rule(ls[i + 1]);
                lemma_line_rule_cell(ls[i + 1]);
                let m = choose|m: int| 0 <= m < line_cells(ls[i + 1]).len() && rule_in(
                    #[trigger] line_cells(ls[i + 1])[m],
                );
                lemma_separator_keeps_rule(rows, m);
                lemma_has_rule(l2[i + 1]);
            }
            assert(table_starts(l2, i));
            assert(no_lone_colon(rows)) by {
                assert forall|m: int| 0 <= m < rows[1].len() implies #[trigger] rows[1][m] != seq![':'] by {
                    assert(table_starts(ls, i));
                    assert(line_cells(ls[i + 1])[m] != seq![':']);
                }
            }
            lemma_aligned_table_stable(t);
            assert(l2.subrange(i, j) =~= at);
            lemma_realign(ls, l2, j);
        } else {
            assert(align_from(ls, i) == seq![ls[i]] + align_from(ls, i + 1));
            assert(l2[i] == ls[i]) by {
                assert(l2[i] == l2.skip(i)[0]);
            }
            assert(l2.skip(i + 1) =~= align_from(ls, i + 1)) by {
                assert forall|k: int| 0 <= k < l2.skip(i + 1).len() implies #[trigger] l2.skip(i + 1)[k] == align_from(ls, i + 1)[k] by {
                    assert(l2.skip(i + 1)[k] == l2.skip(i)[k + 1]);
                }
            }
            if i + 1 < ls.len() && bar_line(ls[i]) {
                lemma_align_keeps_line_count(ls, i + 1);
                assert(l2[i + 1] == align_from(ls, i + 1)[0]) by {
                    assert(l2[i + 1] == l2.skip(i + 1)[0]);
                }
                if table_starts(ls, i + 1) {
                    let j2 = table_end(ls, i + 1);
                    lemma_table_end(ls, i + 1);
                    let t2 = ls.subrange(i + 1, j2);
                    let rows2 = table_cells(t2);
                    assert(align_from(ls, i + 1) == aligned_table(t2) + align_from(ls, j2));
                    assert(l2[i + 1] == aligned_row(rows2, 0));
                    if has_rule(l2[i + 1]) {
                        lemma_has_rule(l2[i + 1]);
                        lemma_table_cells_clean(t2);
                        lemma_aligned_row_rule(rows2, 0);
                        let m = choose|m: int| 0 <= m < rows2[0].len() && rule_in(#[trigger] rows2[0][m]);
                        assert(rows2[0] == line_cells(ls[i + 1])) by {
                            assert(t2[0] == ls[i + 1]);
                        }
                        lemma_cell_of_line(ls[i + 1], m, '|');
                        lemma_has_rule(ls[i + 1]);
                        assert(table_starts(ls, i));
                    }
                } else {
                    assert(align_from(ls, i + 1)[0] == ls[i + 1]);
                }
            }
            assert(!table_starts(l2, i));
            lemma_realign(ls, l2, i + 1);
        }
    }
}

/// What the lines of aligned text are: none holds a line break, and each is
/// an aligned row (ending with `|`) or the line it was.
pub proof fn lemma_aligned_lines(ls: Seq<Seq<char>>, i: int)
    requires
        0 <= i <= ls.len(),
        forall|k: int| 0 <= k < ls.len() ==> #[trigger] lacks(ls[k], '\n'),
    ensures
        forall|k: int|
            0 <= k < align_from(ls, i).len() ==> lacks(#[trigger] align_from(ls, i)[k], '\n') && ((
            align_from(ls, i)[k].len() > 0 && align_from(ls, i)[k].last() == '|')
                || align_from(ls, i)[k] == ls[i + k]),
    decreases ls.len() - i,
{
    lemma_align_keeps_line_count(ls, i);
    if i < ls.len() {
        let a = align_from(ls, i);
        if table_starts(ls, i) {
            let j = table_end(ls, i);
            lemma_table_end(ls, i);
            let t = ls.subrange(i, j);
            let rows = table_cells(t);
            let at = aligned_table(t);
            lemma_aligned_lines(ls, j);
            lemma_align_keeps_line_count(ls, j);
            assert(a == at + align_from(ls, j));
            assert forall|k: int| 0 <= k < a.len() implies lacks(#[trigger] a[k], '\n') && ((
            a[k].len() > 0 && a[k].last() == '|') || a[k] == ls[i + k]) by {
                if k < j - i {
                    assert(a[k] == aligned_row(rows, k));
                    assert forall|m: int| 0 <= m < rows[k].len() implies lacks(#[trigger] rows[k][m], '\n') by {
                        assert(rows[k] == line_cells(ls[i + k])) by {
                            assert(t[k] == ls[i + k]);
                        }
                        assert(lacks(ls[i + k], '\n'));
                        lemma_cell_of_line(ls[i + k], m, '\n');
                    }
                    lemma_aligned_row_ends(rows, k, '\n');
                } else {
                    assert(a[k] == align_from(ls, j)[k - (j - i)]);
                }
            }
        } else {
            lemma_aligned_lines(ls, i + 1);
            assert(a == seq![ls[i]] + align_from(ls, i + 1));
            assert forall|k: int| 0 <= k < a.len() implies lacks(#[trigger] a[k], '\n') && ((
            a[k].len() > 0 && a[k].last() == '|') || a[k] == ls[i + k]) by {
                if k > 0 {
                    assert(a[k] == align_from(ls, i + 1)[k - 1]);
                }
            }
        }
    }
}

/// `l` ends with `\r`.
pub open spec fn ends_cr(l: Seq<char>) -> bool {
    l.len() > 0 && l.last() == '\r'
}

/// Aligning the tables of a text a second time changes nothing, when no
/// line but the last ends with `\r`, the last line is not empty, and no
/// separator row has a cell that is a lone `:`.
pub proof fn lemma_align_tables_idempotent(t: Seq<char>)
    requires
        forall|k: int| 0 <= k < str_lines(t).len() - 1 ==> !ends_cr(#[trigger] str_lines(t)[k]),
        str_lines(t).len() == 0 || str_lines(t).last().len() > 0,
        separators_ok(str_lines(t)),
    ensures
        align_tables_spec(align_tables_spec(t)) == align_tables_spec(t),
{
    let ls = str_lines(t);
    let a = align_from(ls, 0);
    let r = align_tables_spec(t);
    lemma_align_keeps_line_count(ls, 0);
    assert(a.skip(0) =~= a);
    lemma_realign(ls, a, 0);
    lemma_lines_run_no_newline(t);
    assert forall|k: int| 0 <= k < ls.len() implies #[trigger] lacks(ls[k], '\n') by {
        if k < lines_run(t).done.len() {
            assert(ls[k] == lines_run(t).done[k]);
        } else {
            assert(ls[k] == lines_run(t).cur);
        }
    }
    lemma_aligned_lines(ls, 0);
    if a.len() == 0 {
        assert(r =~= Seq::<char>::empty());
        assert(lines_run(r).done =~= Seq::<Seq<char>>::empty());
        assert(str_lines(r) =~= a);
    } else {
        assert forall|k: int| 0 <= k < a.len() implies no_newline(#[trigger] a[k]) by {
            assert(lacks(a[k], '\n'));
        }
        lemma_join_run(a);
        let done = a.drop_last().map_values(|l: Seq<char>| strip_cr(l));
        assert forall|k: int| 0 <= k < done.len() implies done[k] == a[k] by {
            assert(a.drop_last()[k] == a[k]);
            assert(lacks(a[k], '\n'));
        }
        assert(a.last().len() > 0) by {
            assert(lacks(a[a.len() - 1], '\n'));
        }
        assert(str_lines(r) =~= a);
    }
}

} // verus!
