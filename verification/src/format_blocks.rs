//! What table alignment does to each line of a whole text: lines outside the
//! tables are kept, the cells of table lines are kept, separator cells keep
//! their colons and are otherwise dashes, and the bars of each table line up.

use vstd::prelude::*;
use crate::format::{
    align_from, align_tables_spec, align_width, aligned_row, aligned_table, join_lines,
    lemma_table_end, line_cells, table_cells, table_end, table_starts,
};
use crate::format_idem::{
    clean_rows, lacks, lemma_aligned_lines, lemma_line_cells_aligned, lemma_line_cells_clean,
    lemma_shown_cell_frame, lemma_table_cells_clean, marker_core,
};
use crate::format_laws::{aligned_len, lemma_aligned_rows_even, no_lone_colon};
use crate::table::{repeat_char, sat_sub};
use crate::text::{byte_len, lemma_byte_len_bounds, lines_run, str_lines};
use crate::format::lemma_lines_run_no_newline;
use crate::format_laws::lemma_align_width_bound;

verus! {

/// The table that line `k` belongs to, as alignment from line `i` on finds
/// the tables: its first line and the line after its last, or `None` when
/// line `k` is outside every table.
pub open spec fn table_block(ls: Seq<Seq<char>>, i: int, k: int) -> Option<(int, int)>
    decreases ls.len() - i,
{
    if i < 0 || i >= ls.len() {
        None
    } else if table_starts(ls, i) {
        let j = table_end(ls, i);
        proof {
            lemma_table_end(ls, i);
        }
        if i <= k < j {
            Some((i, j))
        } else {
            table_block(ls, j, k)
        }
    } else {
        table_block(ls, i + 1, k)
    }
}

/// The first line of the table that line `k` belongs to (see
/// `table_block`), or 0 outside every table.
pub open spec fn block_first(ls: Seq<Seq<char>>, k: int) -> int {
    match table_block(ls, 0, k) {
        Some((s, e)) => s,
        None => 0,
    }
}

/// Line `k` after alignment from line `i` on: the line itself outside the
/// tables, and its aligned row inside one.
pub open spec fn aligned_line(ls: Seq<Seq<char>>, i: int, k: int) -> Seq<char> {
    match table_block(ls, i, k) {
        None => ls[k],
        Some((s, e)) => aligned_row(table_cells(ls.subrange(s, e)), k - s),
    }
}

proof fn lemma_block_before(ls: Seq<Seq<char>>, j: int, k: int)
    requires
        k < j,
    ensures
        table_block(ls, j, k) is None,
    decreases ls.len() - j,
{
    if 0 <= j < ls.len() {
        if table_starts(ls, j) {
            lemma_table_end(ls, j);
            lemma_block_before(ls, table_end(ls, j), k);
        } else {
            lemma_block_before(ls, j + 1, k);
        }
    }
}

/// Alignment from line `i` on gives, for each line, its aligned line; a
/// table found holds the line, starts a table, and ends where `table_end`
/// says.
pub proof fn lemma_align_from_lines(ls: Seq<Seq<char>>, i: int)
    requires
        0 <= i <= ls.len(),
    ensures
        align_from(ls, i).len() == ls.len() - i,
        forall|k: int|
            0 <= k < ls.len() - i ==> #[trigger] align_from(ls, i)[k] == aligned_line(ls, i, i + k),
        forall|k: int|
            i <= k < ls.len() && #[trigger] table_block(ls, i, k) is Some ==> ({
                let (s, e) = table_block(ls, i, k)->0;
                &&& table_starts(ls, s)
                &&& e == table_end(ls, s)
                &&& s <= k < e <= ls.len()
                &&& s + 2 <= e
            }),
    decreases ls.len() - i,
{
    crate::format_laws::lemma_align_keeps_line_count(ls, i);
    if i < ls.len() {
        let a = align_from(ls, i);
        if table_starts(ls, i) {
            let j = table_end(ls, i);
            lemma_table_end(ls, i);
            assert(crate::format::bar_line(ls[i + 1]));
            lemma_align_from_lines(ls, j);
            let t = ls.subrange(i, j);
            let at = aligned_table(t);
            assert(a == at + align_from(ls, j));
            assert forall|k: int| 0 <= k < ls.len() - i implies #[trigger] a[k] == aligned_line(
                ls,
                i,
                i + k,
            ) by {
                if k < j - i {
                    assert(a[k] == at[k]);
                } else {
                    assert(a[k] == align_from(ls, j)[k - (j - i)]);
                    assert(align_from(ls, j)[k - (j - i)] == aligned_line(ls, j, j + (k - (j - i))));
                }
            }
            assert forall|k: int| i <= k < ls.len() && #[trigger] table_block(ls, i, k) is Some implies ({
                let (s, e) = table_block(ls, i, k)->0;
                &&& table_starts(ls, s)
                &&& e == table_end(ls, s)
                &&& s <= k < e <= ls.len()
                &&& s + 2 <= e
            }) by {
                if k >= j {
                    assert(table_block(ls, i, k) == table_block(ls, j, k));
                }
            }
        } else {
            lemma_align_from_lines(ls, i + 1);
            lemma_block_before(ls, i + 1, i);
            assert(table_block(ls, i, i) is None);
            assert(a == seq![ls[i]] + align_from(ls, i + 1));
            assert forall|k: int| 0 <= k < ls.len() - i implies #[trigger] a[k] == aligned_line(
                ls,
                i,
                i + k,
            ) by {
                if k > 0 {
                    assert(table_block(ls, i, i + k) == table_block(ls, i + 1, i + k));
                    assert(a[k] == align_from(ls, i + 1)[k - 1]);
                    assert(align_from(ls, i + 1)[k - 1] == aligned_line(ls, i + 1, i + 1 + (k - 1)));
                }
            }
            assert forall|k: int| i <= k < ls.len() && #[trigger] table_block(ls, i, k) is Some implies ({
                let (s, e) = table_block(ls, i, k)->0;
                &&& table_starts(ls, s)
                &&& e == table_end(ls, s)
                &&& s <= k < e <= ls.len()
                &&& s + 2 <= e
            }) by {
                if k > i {
                    assert(table_block(ls, i, k) == table_block(ls, i + 1, k));
                }
            }
        }
    }
}

/// Splitting at `\n`: the finished pieces and the piece being read.
pub open spec fn nl_run(s: Seq<char>) -> (Seq<Seq<char>>, Seq<char>)
    decreases s.len(),
{
    if s.len() == 0 {
        (seq![], seq![])
    } else {
        let (done, cur) = nl_run(s.drop_last());
        if s.last() == '\n' {
            (done.push(cur), seq![])
        } else {
            (done, cur.push(s.last()))
        }
    }
}

/// The pieces of `s` between `\n` characters, an empty last piece included;
/// one empty piece for an empty `s`.
pub open spec fn split_nl(s: Seq<char>) -> Seq<Seq<char>> {
    nl_run(s).0.push(nl_run(s).1)
}

proof fn lemma_nl_append(x: Seq<char>, b: Seq<char>)
    requires
        lacks(b, '\n'),
    ensures
        nl_run(x + b) == (nl_run(x).0, nl_run(x).1 + b),
    decreases b.len(),
{
    if b.len() == 0 {
        assert(x + b =~= x);
        assert(nl_run(x).1 + b =~= nl_run(x).1);
    } else {
        let b1 = b.drop_last();
        lemma_nl_append(x, b1);
        assert((x + b).drop_last() =~= x + b1);
        assert(b.last() == b[b.len() - 1]);
        assert(nl_run(x).1 + b1.push(b.last()) =~= (nl_run(x).1 + b1).push(b.last()));
        assert(b1.push(b.last()) =~= b);
    }
}

/// Lines without a line break, joined with `\n`, split back into themselves.
proof fn lemma_split_join(ls: Seq<Seq<char>>)
    requires
        ls.len() > 0,
        forall|k: int| 0 <= k < ls.len() ==> lacks(#[trigger] ls[k], '\n'),
    ensures
        nl_run(join_lines(ls)) == (ls.drop_last(), ls.last()),
        split_nl(join_lines(ls)) == ls,
    decreases ls.len(),
{
    if ls.len() == 1 {
        assert(lacks(ls[0], '\n'));
        lemma_nl_append(Seq::<char>::empty(), ls[0]);
        assert(Seq::<char>::empty() + ls[0] =~= ls[0]);
        assert(nl_run(Seq::<char>::empty()).1 + ls[0] =~= ls[0]);
        assert(ls.drop_last() =~= Seq::<Seq<char>>::empty());
    } else {
        let d = ls.drop_last();
        assert forall|k: int| 0 <= k < d.len() implies lacks(#[trigger] d[k], '\n') by {
            assert(d[k] == ls[k]);
        }
        lemma_split_join(d);
        let x = join_lines(d) + seq!['\n'];
        assert(x.drop_last() =~= join_lines(d));
        assert(ls.last() == ls[ls.len() - 1]);
        lemma_nl_append(x, ls.last());
        assert(nl_run(x).1 + ls.last() =~= ls.last());
        assert(d.drop_last().push(d.last()) =~= d);
    }
    assert(ls.drop_last().push(ls.last()) =~= ls);
}

/// The marks of a separator cell `d` redrawn from `c`: a `:` first exactly
/// when `c` starts with one, a `:` last exactly when `c` ends with one, and
/// dashes everywhere else.
pub open spec fn same_marks(c: Seq<char>, d: Seq<char>) -> bool {
    &&& (d.len() > 0 && d[0] == ':') == (c.len() > 0 && c[0] == ':')
    &&& (d.len() > 0 && d.last() == ':') == (c.len() > 0 && c.last() == ':')
    &&& forall|i: int|
        0 <= i < d.len() ==> #[trigger] d[i] == '-' || (i == 0 && d[i] == ':') || (i == d.len() - 1
            && d[i] == ':')
}

proof fn lemma_marker_core_marks(c: Seq<char>, w: int)
    requires
        byte_len(c) <= w,
    ensures
        same_marks(c, marker_core(c, w)),
{
    lemma_byte_len_bounds(c);
    let l = c.len() > 0 && c[0] == ':';
    let r = c.len() > 0 && c.last() == ':';
    let m = marker_core(c, w);
    if l && r {
        let d = repeat_char('-', sat_sub(w, 2));
        assert forall|i: int| 0 <= i < m.len() implies #[trigger] m[i] == '-' || (i == 0 && m[i] == ':')
            || (i == m.len() - 1 && m[i] == ':') by {
            if 0 < i < m.len() - 1 {
                assert(m[i] == d[i - 1]);
            }
        }
    } else if l {
        if c.len() == 1 {
            assert(c.last() == c[0]);
        }
        let d = repeat_char('-', sat_sub(w, 1));
        assert(m.last() == d[d.len() - 1]);
        assert forall|i: int| 0 <= i < m.len() implies #[trigger] m[i] == '-' || (i == 0 && m[i] == ':')
            || (i == m.len() - 1 && m[i] == ':') by {
            if 0 < i {
                assert(m[i] == d[i - 1]);
            }
        }
    } else if r {
        if c.len() == 1 {
            assert(c.last() == c[0]);
        }
        let d = repeat_char('-', sat_sub(w, 1));
        assert(m[0] == d[0]);
        assert forall|i: int| 0 <= i < m.len() implies #[trigger] m[i] == '-' || (i == 0 && m[i] == ':')
            || (i == m.len() - 1 && m[i] == ':') by {
            if i < m.len() - 1 {
                assert(m[i] == d[i]);
            }
        }
    } else {
        assert forall|i: int| 0 <= i < m.len() implies #[trigger] m[i] == '-' || (i == 0 && m[i] == ':')
            || (i == m.len() - 1 && m[i] == ':') by {
            assert(m[i] == '-');
        }
    }
}

/// The lines of a text once its tables are aligned, split at `\n`: as many
/// as the text has lines (one when it has none); a line outside every table
/// is kept; a table line keeps its cells, except the separator line, whose
/// cells keep their colons and are otherwise dashes; and within a table,
/// every line with the same number of cells has the same length, 1 and for
/// each column its width and three more characters (the separator line too,
/// unless one of its cells is a lone `:`).
pub proof fn lemma_align_tables_lines(t: Seq<char>)
    ensures
        ({
            let ls = str_lines(t);
            let out = split_nl(align_tables_spec(t));
            &&& out.len() == if ls.len() == 0 { 1 } else { ls.len() }
            &&& forall|k: int|
                0 <= k < ls.len() && #[trigger] table_block(ls, 0, k) is None ==> out[k] == ls[k]
            &&& forall|k: int|
                0 <= k < ls.len() && #[trigger] table_block(ls, 0, k) is Some && k
                    != block_first(ls, k) + 1 ==> line_cells(out[k]) == line_cells(ls[k])
            &&& forall|k: int|
                0 <= k < ls.len() && #[trigger] table_block(ls, 0, k) is Some && k
                    == block_first(ls, k) + 1 ==> line_cells(out[k]).len() == line_cells(
                    ls[k],
                ).len() && forall|m: int|
                    0 <= m < line_cells(ls[k]).len() ==> same_marks(
                        #[trigger] line_cells(ls[k])[m],
                        line_cells(out[k])[m],
                    )
            &&& forall|k: int|
                0 <= k < ls.len() && #[trigger] table_block(ls, 0, k) is Some ==> ({
                    let (s, e) = table_block(ls, 0, k)->0;
                    let rows = table_cells(ls.subrange(s, e));
                    k == s + 1 ==> no_lone_colon(rows) ==> out[k].len() == aligned_len(
                        rows,
                        line_cells(ls[k]).len() as int,
                    )
                })
            &&& forall|k: int|
                0 <= k < ls.len() && #[trigger] table_block(ls, 0, k) is Some ==> ({
                    let (s, e) = table_block(ls, 0, k)->0;
                    let rows = table_cells(ls.subrange(s, e));
                    k != s + 1 ==> out[k].len() == aligned_len(
                        rows,
                        line_cells(ls[k]).len() as int,
                    )
                })
        }),
{
    let ls = str_lines(t);
    let a = align_from(ls, 0);
    let out = split_nl(align_tables_spec(t));
    lemma_align_from_lines(ls, 0);
    lemma_lines_run_no_newline(t);
    assert forall|k: int| 0 <= k < ls.len() implies #[trigger] lacks(ls[k], '\n') by {
        if k < lines_run(t).done.len() {
            assert(ls[k] == lines_run(t).done[k]);
        } else {
            assert(ls[k] == lines_run(t).cur);
        }
    }
    lemma_aligned_lines(ls, 0);
    if a.len() == 0 {
        assert(align_tables_spec(t) =~= Seq::<char>::empty());
        assert(out =~= seq![Seq::<char>::empty()]);
    } else {
        assert forall|k: int| 0 <= k < a.len() implies lacks(#[trigger] a[k], '\n') by {
            assert(lacks(a[k], '\n'));
        }
        lemma_split_join(a);
        assert(out == a);
    }
    assert forall|k: int| 0 <= k < ls.len() && #[trigger] table_block(ls, 0, k) is Some implies ({
        let (s, e) = table_block(ls, 0, k)->0;
        let tb = ls.subrange(s, e);
        let rows = table_cells(tb);
        &&& out[k] == aligned_row(rows, k - s)
        &&& rows[k - s] == line_cells(ls[k])
        &&& clean_rows(rows)
        &&& aligned_table(tb)[k - s] == aligned_row(rows, k - s)
    }) by {
        let (s, e) = table_block(ls, 0, k)->0;
        let tb = ls.subrange(s, e);
        let rows = table_cells(tb);
        assert(a[k] == aligned_line(ls, 0, 0 + k));
        lemma_table_cells_clean(tb);
        assert(tb[k - s] == ls[k]);
        assert(rows[k - s] == line_cells(tb[k - s]));
    }
    assert forall|k: int| 0 <= k < ls.len() && #[trigger] table_block(ls, 0, k) is None implies out[k]
        == ls[k] by {
        assert(a[k] == aligned_line(ls, 0, 0 + k));
    }
    assert forall|k: int|
        0 <= k < ls.len() && #[trigger] table_block(ls, 0, k) is Some implies (k != block_first(ls, k) + 1 ==> line_cells(out[k]) == line_cells(ls[k])) && (k == block_first(ls, k)
            + 1 ==> line_cells(out[k]).len() == line_cells(ls[k]).len() && forall|m: int|
            0 <= m < line_cells(ls[k]).len() ==> same_marks(
                #[trigger] line_cells(ls[k])[m],
                line_cells(out[k])[m],
            )) by {
        let (s, e) = table_block(ls, 0, k)->0;
        let tb = ls.subrange(s, e);
        let rows = table_cells(tb);
        let idx = k - s;
        lemma_line_cells_clean(ls[k]);
        lemma_line_cells_aligned(rows, idx);
        assert forall|m: int| 0 <= m < rows[idx].len() implies #[trigger] line_cells(out[k])[m] == (
        if idx == 1 {
            marker_core(rows[idx][m], align_width(rows, m) as int)
        } else {
            rows[idx][m]
        }) by {
            lemma_shown_cell_frame(rows, idx, m);
        }
        if idx != 1 {
            assert(line_cells(out[k]) =~= line_cells(ls[k]));
        } else {
            assert forall|m: int| 0 <= m < line_cells(ls[k]).len() implies same_marks(
                #[trigger] line_cells(ls[k])[m],
                line_cells(out[k])[m],
            ) by {
                lemma_align_width_bound(rows, 1, m);
                lemma_marker_core_marks(rows[1][m], align_width(rows, m) as int);
            }
        }
    }
    assert forall|k: int| 0 <= k < ls.len() && #[trigger] table_block(ls, 0, k) is Some implies ({
        let (s, e) = table_block(ls, 0, k)->0;
        let rows = table_cells(ls.subrange(s, e));
        &&& k == s + 1 ==> no_lone_colon(rows) ==> out[k].len() == aligned_len(
            rows,
            line_cells(ls[k]).len() as int,
        )
        &&& k != s + 1 ==> out[k].len() == aligned_len(rows, line_cells(ls[k]).len() as int)
    }) by {
        let (s, e) = table_block(ls, 0, k)->0;
        let tb = ls.subrange(s, e);
        let rows = table_cells(tb);
        if k != s + 1 || no_lone_colon(rows) {
            lemma_aligned_rows_even(tb, k - s, line_cells(ls[k]).len() as int);
        }
    }
}

} // verus!
