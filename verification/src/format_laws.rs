//! What table alignment keeps: the number of lines, the cell texts, the
//! alignment colons, and bars that line up.

use vstd::prelude::*;
use crate::format::{
    align_from, align_width, aligned_cells, aligned_table, lemma_table_end,
    marker_cell, padded_cell, table_cells, table_end, table_starts,
};
use crate::table::{repeat_char, sat_sub};
use crate::text::{byte_len, lemma_byte_len_bounds};

verus! {

/// Alignment keeps the number of lines: every line becomes one line.
pub proof fn lemma_align_keeps_line_count(ls: Seq<Seq<char>>, i: int)
    requires
        0 <= i <= ls.len(),
    ensures
        align_from(ls, i).len() == ls.len() - i,
    decreases ls.len() - i,
{
    if i < ls.len() {
        if table_starts(ls, i) {
            lemma_table_end(ls, i);
            lemma_align_keeps_line_count(ls, table_end(ls, i));
        } else {
            lemma_align_keeps_line_count(ls, i + 1);
        }
    }
}

/// A separator cell is redrawn with dashes only, keeping a `:` at each end
/// where the cell had one, between single spaces.
pub proof fn lemma_marker_cell_shape(c: Seq<char>, w: int)
    ensures
        ({
            let m = marker_cell(c, w);
            let l = c.len() > 0 && c[0] == ':';
            let r = c.len() > 0 && c.last() == ':';
            &&& m.len() >= 2
            &&& m[0] == ' ' && m.last() == ' '
            &&& l ==> m[1] == ':'
            &&& r ==> m[m.len() - 2] == ':'
            &&& forall|i: int|
                1 <= i < m.len() - 1 && !(l && i == 1) && !(r && i == m.len() - 2)
                    ==> #[trigger] m[i] == '-'
        }),
{
    reveal_strlit(" :");
    reveal_strlit(": ");
    reveal_strlit(" ");
    let m = marker_cell(c, w);
    let l = c.len() > 0 && c[0] == ':';
    let r = c.len() > 0 && c.last() == ':';
    if l && r {
        let d = repeat_char('-', sat_sub(w, 2));
        assert(m =~= " :"@ + d + ": "@);
        assert forall|i: int| 1 <= i < m.len() - 1 && !(l && i == 1) && !(r && i == m.len() - 2)
            implies #[trigger] m[i] == '-' by {
            assert(m[i] == d[i - 2]);
        }
    } else if l {
        let d = repeat_char('-', sat_sub(w, 1));
        assert(m =~= " :"@ + d + " "@);
        assert forall|i: int| 1 <= i < m.len() - 1 && !(l && i == 1) && !(r && i == m.len() - 2)
            implies #[trigger] m[i] == '-' by {
            assert(m[i] == d[i - 2]);
        }
    } else if r {
        let d = repeat_char('-', sat_sub(w, 1));
        assert(m =~= " "@ + d + ": "@);
        assert forall|i: int| 1 <= i < m.len() - 1 && !(l && i == 1) && !(r && i == m.len() - 2)
            implies #[trigger] m[i] == '-' by {
            assert(m[i] == d[i - 1]);
        }
    } else {
        let d = repeat_char('-', w);
        assert(m =~= " "@ + d + " "@);
        assert forall|i: int| 1 <= i < m.len() - 1 && !(l && i == 1) && !(r && i == m.len() - 2)
            implies #[trigger] m[i] == '-' by {
            assert(m[i] == d[i - 1]);
        }
    }
}

/// A cell of another row keeps its text, after one space.
pub proof fn lemma_padded_cell_keeps_text(c: Seq<char>, w: int)
    ensures
        padded_cell(c, w).subrange(1, 1 + c.len() as int) == c,
        padded_cell(c, w)[0] == ' ',
{
    reveal_strlit(" ");
    let p = padded_cell(c, w);
    assert(p =~= " "@ + c + repeat_char(' ', w - c.len()) + " "@);
    assert(p.subrange(1, 1 + c.len() as int) =~= c);
}

pub proof fn lemma_align_width_bound(rows: Seq<Seq<Seq<char>>>, r: int, j: int)
    requires
        0 <= r < rows.len(),
        0 <= j < rows[r].len(),
    ensures
        align_width(rows, j) >= byte_len(rows[r][j]),
    decreases rows.len(),
{
    if r < rows.len() - 1 {
        lemma_align_width_bound(rows.drop_last(), r, j);
        assert(rows.drop_last()[r] == rows[r]);
    }
}

/// The length of a full row of a table laid out with column widths `w`.
pub open spec fn aligned_len(rows: Seq<Seq<Seq<char>>>, k: int) -> int
    decreases k,
{
    if k <= 0 {
        1
    } else {
        aligned_len(rows, k - 1) + align_width(rows, k - 1) + 3
    }
}

/// No separator cell is a lone `:`.
pub open spec fn no_lone_colon(rows: Seq<Seq<Seq<char>>>) -> bool {
    rows.len() > 1 ==> forall|j: int| 0 <= j < rows[1].len() ==> #[trigger] rows[1][j] != seq![':']
}

proof fn lemma_aligned_cells_len(rows: Seq<Seq<Seq<char>>>, idx: int, k: int)
    requires
        0 <= idx < rows.len(),
        0 <= k <= rows[idx].len(),
        no_lone_colon(rows),
    ensures
        1 + aligned_cells(rows, idx, k).len() == aligned_len(rows, k),
    decreases k,
{
    reveal_strlit(" :");
    reveal_strlit(": ");
    reveal_strlit(" ");
    if k > 0 {
        lemma_aligned_cells_len(rows, idx, k - 1);
        let c = rows[idx][k - 1];
        let w = align_width(rows, k - 1) as int;
        lemma_align_width_bound(rows, idx, k - 1);
        lemma_byte_len_bounds(c);
        if idx == 1 {
            let m = marker_cell(c, w);
            if c.len() > 0 && c[0] == ':' && c.last() == ':' {
                if c.len() == 1 {
                    assert(c =~= seq![':']);
                }
                assert(c.len() >= 2);
            }
            assert(m.len() == w + 2);
        } else {
            assert(padded_cell(c, w).len() == w + 2);
        }
    }
}

/// The bars of an aligned table line up: every row with the full number of
/// cells has the same length, 1 and for each column its width and three more
/// characters (the separator row too, unless one of its cells is a lone `:`).
pub proof fn lemma_aligned_rows_even(ls: Seq<Seq<char>>, k: int, n: int)
    requires
        0 <= k < ls.len(),
        table_cells(ls)[k].len() == n,
        k == 1 ==> no_lone_colon(table_cells(ls)),
    ensures
        aligned_table(ls)[k].len() == aligned_len(table_cells(ls), n),
{
    let rows = table_cells(ls);
    if k == 1 {
        lemma_aligned_cells_len(rows, k, n);
    } else {
        lemma_aligned_cells_len_plain(rows, k, n);
    }
}

proof fn lemma_aligned_cells_len_plain(rows: Seq<Seq<Seq<char>>>, idx: int, k: int)
    requires
        0 <= idx < rows.len(),
        idx != 1,
        0 <= k <= rows[idx].len(),
    ensures
        1 + aligned_cells(rows, idx, k).len() == aligned_len(rows, k),
    decreases k,
{
    reveal_strlit(" ");
    if k > 0 {
        lemma_aligned_cells_len_plain(rows, idx, k - 1);
        let c = rows[idx][k - 1];
        let w = align_width(rows, k - 1) as int;
        lemma_align_width_bound(rows, idx, k - 1);
        lemma_byte_len_bounds(c);
        assert(padded_cell(c, w).len() == w + 2);
    }
}

} // verus!
