//! Clean-up of CommonMark text: table columns aligned, and no whitespace at
//! the end of a line.

use vstd::prelude::*;
use crate::frontmatter::{find_dashes, find_dashes_from};
use crate::table::{push_repeat, repeat_char, sat_sub};
use crate::text::{
    LinesState, byte_count, byte_len, chars_of, extend_chars, extend_str, is_ws,
    lemma_trim_end_prefix, lines_of, lines_run, str_lines, string_of, trim, trim_end, trimmed,
    trimmed_end, vec_lines_view,
};

verus! {

/// The lines `ls` joined with `\n` between them.
pub open spec fn join_lines(ls: Seq<Seq<char>>) -> Seq<char>
    decreases ls.len(),
{
    if ls.len() == 0 {
        seq![]
    } else if ls.len() == 1 {
        ls[0]
    } else {
        join_lines(ls.drop_last()) + seq!['\n'] + ls.last()
    }
}

/// The lines of `t` (see `str_lines`), each without its trailing whitespace,
/// joined with `\n`.
pub open spec fn strip_trailing(t: Seq<char>) -> Seq<char> {
    join_lines(trimmed_lines(t))
}

/// The lines of `t` (see `str_lines`), each without its trailing whitespace.
pub open spec fn trimmed_lines(t: Seq<char>) -> Seq<Seq<char>> {
    str_lines(t).map_values(|l: Seq<char>| trim_end(l))
}

/// Joins lines with `\n` (see `join_lines`).
pub fn join_exec(ls: &Vec<Vec<char>>) -> (r: Vec<char>)
    ensures
        r@ == join_lines(vec_lines_view(ls@)),
{
    let ghost lv = vec_lines_view(ls@);
    let mut out: Vec<char> = Vec::new();
    let mut i: usize = 0;
    assert(lv.take(0) =~= Seq::<Seq<char>>::empty());
    while i < ls.len()
        invariant
            i <= ls.len(),
            lv == vec_lines_view(ls@),
            out@ == join_lines(lv.take(i as int)),
        decreases ls.len() - i,
    {
        assert(lv.take(i + 1).drop_last() =~= lv.take(i as int));
        if i > 0 {
            out.push('\n');
        }
        extend_chars(&mut out, &ls[i]);
        i = i + 1;
    }
    assert(lv.take(i as int) =~= lv);
    out
}

/// Removes the whitespace at the end of every line; the lines are joined
/// with `\n` (a final line break is not kept, and `\r\n` becomes `\n`).
pub fn strip_trailing_whitespace(text: &str) -> (r: String)
    ensures
        r@ == strip_trailing(text@),
{
    let v = chars_of(text);
    let ls = lines_of(&v);
    let ghost target = trimmed_lines(text@);
    let mut out: Vec<Vec<char>> = Vec::new();
    let mut i: usize = 0;
    while i < ls.len()
        invariant
            i <= ls.len(),
            vec_lines_view(ls@) == str_lines(text@),
            target == trimmed_lines(text@),
            vec_lines_view(out@) =~= target.take(i as int),
        decreases ls.len() - i,
    {
        let t = trimmed_end(&ls[i]);
        out.push(t);
        assert(target.take(i + 1) =~= target.take(i as int).push(target[i as int]));
        i = i + 1;
    }
    assert(target.take(i as int) =~= target);
    let j = join_exec(&out);
    string_of(&j)
}

/// `l` starts with `|`.
pub open spec fn bar_line(l: Seq<char>) -> bool {
    l.len() > 0 && l[0] == '|'
}

/// `l` holds `---`.
pub open spec fn has_rule(l: Seq<char>) -> bool {
    find_dashes_from(l, 0) is Some
}

/// Line `i` of `ls` opens a table: it and the next line start with `|`, and
/// the next line holds `---`.
pub open spec fn table_starts(ls: Seq<Seq<char>>, i: int) -> bool {
    0 <= i && i + 1 < ls.len() && bar_line(ls[i]) && bar_line(ls[i + 1]) && has_rule(ls[i + 1])
}

/// The index of the first line at or after `i` that does not start with `|`.
pub open spec fn table_end(ls: Seq<Seq<char>>, i: int) -> int
    decreases ls.len() - i,
{
    if 0 <= i < ls.len() && bar_line(ls[i]) {
        table_end(ls, i + 1)
    } else {
        i
    }
}

pub proof fn lemma_table_end(ls: Seq<Seq<char>>, i: int)
    requires
        0 <= i <= ls.len(),
    ensures
        i <= table_end(ls, i) <= ls.len(),
        i < ls.len() && bar_line(ls[i]) ==> i < table_end(ls, i),
        forall|k: int| i <= k < table_end(ls, i) ==> #[trigger] bar_line(ls[k]),
        table_end(ls, i) < ls.len() ==> !bar_line(ls[table_end(ls, i)]),
    decreases ls.len() - i,
{
    if i < ls.len() && bar_line(ls[i]) {
        lemma_table_end(ls, i + 1);
    }
}

/// `s` without its leading `|` characters.
pub open spec fn strip_bars_start(s: Seq<char>) -> Seq<char>
    decreases s.len(),
{
    if s.len() > 0 && s[0] == '|' {
        strip_bars_start(s.drop_first())
    } else {
        s
    }
}

/// `s` without its trailing `|` characters.
pub open spec fn strip_bars_end(s: Seq<char>) -> Seq<char>
    decreases s.len(),
{
    if s.len() > 0 && s.last() == '|' {
        strip_bars_end(s.drop_last())
    } else {
        s
    }
}

/// Splitting `s` at `|`: the finished pieces and the piece being read.
pub open spec fn split_run(s: Seq<char>) -> (Seq<Seq<char>>, Seq<char>)
    decreases s.len(),
{
    if s.len() == 0 {
        (seq![], seq![])
    } else {
        let (done, cur) = split_run(s.drop_last());
        if s.last() == '|' {
            (done.push(cur), seq![])
        } else {
            (done, cur.push(s.last()))
        }
    }
}

/// The pieces of `s` between `|` characters; one empty piece for an empty `s`.
pub open spec fn split_bars(s: Seq<char>) -> Seq<Seq<char>> {
    split_run(s).0.push(split_run(s).1)
}

/// The cells of a table line: the pieces between `|`, once the leading and
/// trailing `|` are gone, each trimmed of whitespace.
pub open spec fn line_cells(l: Seq<char>) -> Seq<Seq<char>> {
    split_bars(strip_bars_end(strip_bars_start(l))).map_values(|c: Seq<char>| trim(c))
}

/// The width of column `j`: the greatest byte length of a cell in it.
pub open spec fn align_width(rows: Seq<Seq<Seq<char>>>, j: int) -> nat
    decreases rows.len(),
{
    if rows.len() == 0 {
        0
    } else {
        let w = align_width(rows.drop_last(), j);
        let r = rows.last();
        let c: nat = if 0 <= j < r.len() {
            byte_len(r[j])
        } else {
            0
        };
        if c > w {
            c
        } else {
            w
        }
    }
}

/// A cell of the separator row at width `w`: dashes, with a `:` kept at
/// either end where the cell had one.
pub open spec fn marker_cell(c: Seq<char>, w: int) -> Seq<char> {
    let l = c.len() > 0 && c[0] == ':';
    let r = c.len() > 0 && c.last() == ':';
    if l && r {
        " :"@ + repeat_char('-', sat_sub(w, 2)) + ": "@
    } else if l {
        " :"@ + repeat_char('-', sat_sub(w, 1)) + " "@
    } else if r {
        " "@ + repeat_char('-', sat_sub(w, 1)) + ": "@
    } else {
        " "@ + repeat_char('-', w) + " "@
    }
}

/// A cell of any other row: the text padded with spaces to `w` characters,
/// between single spaces.
pub open spec fn padded_cell(c: Seq<char>, w: int) -> Seq<char> {
    " "@ + c + repeat_char(' ', w - c.len()) + " "@
}

/// The first `k` cells of row `idx`, each followed by `|`.
pub open spec fn aligned_cells(rows: Seq<Seq<Seq<char>>>, idx: int, k: int) -> Seq<char>
    decreases k,
{
    if k <= 0 {
        seq![]
    } else {
        let c = rows[idx][k - 1];
        let w = align_width(rows, k - 1) as int;
        aligned_cells(rows, idx, k - 1) + (if idx == 1 {
            marker_cell(c, w)
        } else {
            padded_cell(c, w)
        }) + seq!['|']
    }
}

/// Row `idx` of a table laid out with aligned columns.
pub open spec fn aligned_row(rows: Seq<Seq<Seq<char>>>, idx: int) -> Seq<char> {
    seq!['|'] + aligned_cells(rows, idx, rows[idx].len() as int)
}

/// The cells of each line of a table.
pub open spec fn table_cells(ls: Seq<Seq<char>>) -> Seq<Seq<Seq<char>>> {
    ls.map_values(|l: Seq<char>| line_cells(l))
}

/// The lines of a table with aligned columns; the second line is the
/// separator row.
pub open spec fn aligned_table(ls: Seq<Seq<char>>) -> Seq<Seq<char>> {
    let rows = table_cells(ls);
    Seq::new(rows.len(), |k: int| aligned_row(rows, k))
}

/// The lines from `i` on, each table laid out with aligned columns and the
/// other lines as they are.
pub open spec fn align_from(ls: Seq<Seq<char>>, i: int) -> Seq<Seq<char>>
    decreases ls.len() - i,
{
    if i < 0 || i >= ls.len() {
        seq![]
    } else if table_starts(ls, i) {
        let j = table_end(ls, i);
        proof {
            lemma_table_end(ls, i);
        }
        aligned_table(ls.subrange(i, j)) + align_from(ls, j)
    } else {
        seq![ls[i]] + align_from(ls, i + 1)
    }
}

/// Lines with no table among them are kept as they are.
pub proof fn lemma_align_without_tables(ls: Seq<Seq<char>>, i: int)
    requires
        0 <= i <= ls.len(),
        forall|k: int| i <= k < ls.len() ==> !#[trigger] table_starts(ls, k),
    ensures
        align_from(ls, i) == ls.skip(i),
    decreases ls.len() - i,
{
    if i < ls.len() {
        lemma_align_without_tables(ls, i + 1);
        assert(!table_starts(ls, i));
        assert(seq![ls[i]] + ls.skip(i + 1) =~= ls.skip(i));
    } else {
        assert(ls.skip(i) =~= Seq::<Seq<char>>::empty());
    }
}

/// The text with the columns of its tables aligned: a table is a run of lines
/// starting with `|` whose second line holds `---`.  The lines are joined
/// with `\n`.
pub open spec fn align_tables_spec(t: Seq<char>) -> Seq<char> {
    join_lines(align_from(str_lines(t), 0))
}


fn is_bar_line(l: &Vec<char>) -> (r: bool)
    ensures
        r == bar_line(l@),
{
    l.len() > 0 && l[0] == '|'
}

/// The cells of a table line (see `line_cells`).
fn cells_of_line(l: &Vec<char>) -> (r: Vec<Vec<char>>)
    ensures
        vec_lines_view(r@) == line_cells(l@),
{
    let n = l.len();
    let mut a: usize = 0;
    assert(l@.skip(0) =~= l@);
    while a < n && l[a] == '|'
        invariant
            a <= n == l.len(),
            strip_bars_start(l@) == strip_bars_start(l@.skip(a as int)),
        decreases n - a,
    {
        assert(l@.skip(a as int).drop_first() =~= l@.skip(a + 1));
        a = a + 1;
    }
    let ghost front = l@.skip(a as int);
    assert(strip_bars_start(l@) == front);
    let mut b: usize = n;
    assert(front =~= l@.subrange(a as int, n as int));
    while b > a && l[b - 1] == '|'
        invariant
            a <= b <= n == l.len(),
            strip_bars_end(front) == strip_bars_end(l@.subrange(a as int, b as int)),
        decreases b,
    {
        assert(l@.subrange(a as int, b as int).drop_last() =~= l@.subrange(a as int, b - 1));
        b = b - 1;
    }
    let ghost body = l@.subrange(a as int, b as int);
    assert(strip_bars_end(front) == body);
    let mut done: Vec<Vec<char>> = Vec::new();
    let mut cur: Vec<char> = Vec::new();
    let mut k: usize = a;
    assert(l@.subrange(a as int, a as int) =~= Seq::<char>::empty());
    assert(vec_lines_view(done@) =~= Seq::<Seq<char>>::empty());
    while k < b
        invariant
            a <= k <= b <= n == l.len(),
            vec_lines_view(done@) == split_run(l@.subrange(a as int, k as int)).0,
            cur@ == split_run(l@.subrange(a as int, k as int)).1,
        decreases b - k,
    {
        assert(l@.subrange(a as int, k + 1).drop_last() =~= l@.subrange(a as int, k as int));
        if l[k] == '|' {
            let ghost d0 = vec_lines_view(done@);
            done.push(cur);
            assert(vec_lines_view(done@) =~= d0.push(split_run(l@.subrange(a as int, k as int)).1));
            cur = Vec::new();
        } else {
            cur.push(l[k]);
        }
        k = k + 1;
    }
    let ghost d1 = vec_lines_view(done@);
    done.push(cur);
    assert(vec_lines_view(done@) =~= d1.push(cur@));
    assert(vec_lines_view(done@) == split_bars(body));
    let ghost pieces = split_bars(body);
    let mut out: Vec<Vec<char>> = Vec::new();
    let mut i: usize = 0;
    while i < done.len()
        invariant
            i <= done.len(),
            vec_lines_view(done@) == pieces,
            vec_lines_view(out@) =~= pieces.map_values(|c: Seq<char>| trim(c)).take(i as int),
        decreases done.len() - i,
    {
        let t = trimmed(&done[i]);
        let ghost o0 = vec_lines_view(out@);
        assert(pieces[i as int] == done@[i as int]@);
        out.push(t);
        assert(vec_lines_view(out@) =~= o0.push(trim(pieces[i as int])));
        assert(pieces.map_values(|c: Seq<char>| trim(c)).take(i + 1) =~= pieces.map_values(
            |c: Seq<char>| trim(c),
        ).take(i as int).push(trim(pieces[i as int])));
        i = i + 1;
    }
    assert(pieces.map_values(|c: Seq<char>| trim(c)).take(i as int) =~= pieces.map_values(
        |c: Seq<char>| trim(c),
    ));
    out
}

pub open spec fn cell_rows(rows: Seq<Vec<Vec<char>>>) -> Seq<Seq<Seq<char>>> {
    rows.map_values(|r: Vec<Vec<char>>| vec_lines_view(r@))
}

/// The width of column `j` (see `align_width`).
fn column_width(rows: &Vec<Vec<Vec<char>>>, j: usize) -> (w: u128)
    ensures
        w == align_width(cell_rows(rows@), j as int),
        w <= 4 * (usize::MAX as int),
{
    let ghost rv = cell_rows(rows@);
    let mut w: u128 = 0;
    let mut r: usize = 0;
    assert(rv.take(0) =~= Seq::<Seq<Seq<char>>>::empty());
    while r < rows.len()
        invariant
            r <= rows.len(),
            rv == cell_rows(rows@),
            w == align_width(rv.take(r as int), j as int),
            w <= 4 * (usize::MAX as int),
        decreases rows.len() - r,
    {
        assert(rv.take(r + 1).drop_last() =~= rv.take(r as int));
        if j < rows[r].len() {
            let c = byte_count(&rows[r][j]);
            assert(vec_lines_view(rows@[r as int]@)[j as int] == rows@[r as int]@[j as int]@);
            if c > w {
                w = c;
            }
        }
        r = r + 1;
    }
    assert(rv.take(r as int) =~= rv);
    w
}

fn sub_or_zero(a: u128, b: u128) -> (r: u128)
    ensures
        r == sat_sub(a as int, b as int),
{
    if a >= b {
        a - b
    } else {
        0
    }
}

/// Appends a cell laid out at width `w` (see `marker_cell` and `padded_cell`)
/// and a `|`.
fn push_cell(out: &mut Vec<char>, c: &Vec<char>, w: u128, marker: bool)
    ensures
        final(out)@ == old(out)@ + (if marker {
            marker_cell(c@, w as int)
        } else {
            padded_cell(c@, w as int)
        }) + seq!['|'],
{
    if marker {
        let n = c.len();
        let l = n > 0 && c[0] == ':';
        let r = n > 0 && c[n - 1] == ':';
        if l && r {
            extend_str(out, " :");
            push_repeat(out, '-', sub_or_zero(w, 2));
            extend_str(out, ": ");
        } else if l {
            extend_str(out, " :");
            push_repeat(out, '-', sub_or_zero(w, 1));
            extend_str(out, " ");
        } else if r {
            extend_str(out, " ");
            push_repeat(out, '-', sub_or_zero(w, 1));
            extend_str(out, ": ");
        } else {
            extend_str(out, " ");
            push_repeat(out, '-', w);
            extend_str(out, " ");
        }
    } else {
        extend_str(out, " ");
        extend_chars(out, c);
        let n = c.len() as u128;
        if n < w {
            push_repeat(out, ' ', w - n);
        } else {
            assert(repeat_char(' ', w - c@.len()) =~= Seq::<char>::empty());
        }
        extend_str(out, " ");
    }
    out.push('|');
}

/// Row `idx` of a table laid out with aligned columns (see `aligned_row`).
fn aligned_row_exec(rows: &Vec<Vec<Vec<char>>>, idx: usize) -> (r: Vec<char>)
    requires
        idx < rows.len(),
    ensures
        r@ == aligned_row(cell_rows(rows@), idx as int),
{
    let ghost rv = cell_rows(rows@);
    let row = &rows[idx];
    let mut out: Vec<char> = Vec::new();
    out.push('|');
    let mut k: usize = 0;
    while k < row.len()
        invariant
            k <= row.len(),
            idx < rows.len(),
            row == rows@[idx as int],
            rv == cell_rows(rows@),
            out@ =~= seq!['|'] + aligned_cells(rv, idx as int, k as int),
        decreases row.len() - k,
    {
        let w = column_width(rows, k);
        push_cell(&mut out, &row[k], w, idx == 1);
        assert(rv[idx as int][k as int] == row@[k as int]@);
        k = k + 1;
    }
    out
}

/// The lines of `ls` with the columns of each table aligned (see
/// `align_from`).
fn align_lines(ls: &Vec<Vec<char>>) -> (r: Vec<Vec<char>>)
    ensures
        vec_lines_view(r@) == align_from(vec_lines_view(ls@), 0),
{
    let ghost lv = vec_lines_view(ls@);
    let mut out: Vec<Vec<char>> = Vec::new();
    let mut i: usize = 0;
    assert(vec_lines_view(out@) + align_from(lv, 0) =~= align_from(lv, 0));
    while i < ls.len()
        invariant
            i <= ls.len(),
            lv == vec_lines_view(ls@),
            vec_lines_view(out@) + align_from(lv, i as int) == align_from(lv, 0),
        decreases ls.len() - i,
    {
        let ghost out0 = vec_lines_view(out@);
        let starts = is_bar_line(&ls[i]) && i + 1 < ls.len() && is_bar_line(&ls[i + 1])
            && find_dashes(&ls[i + 1]).is_some();
        assert(starts == table_starts(lv, i as int));
        if starts {
            let mut j: usize = i;
            proof {
                lemma_table_end(lv, i as int);
            }
            while j < ls.len() && is_bar_line(&ls[j])
                invariant
                    i <= j <= ls.len(),
                    lv == vec_lines_view(ls@),
                    table_end(lv, i as int) == table_end(lv, j as int),
                decreases ls.len() - j,
            {
                j = j + 1;
            }
            assert(table_end(lv, i as int) == j);
            let ghost tl = lv.subrange(i as int, j as int);
            let mut rows: Vec<Vec<Vec<char>>> = Vec::new();
            let mut k: usize = i;
            while k < j
                invariant
                    i <= k <= j <= ls.len(),
                    lv == vec_lines_view(ls@),
                    tl == lv.subrange(i as int, j as int),
                    cell_rows(rows@) =~= table_cells(tl).take(k - i),
                decreases j - k,
            {
                let c = cells_of_line(&ls[k]);
                let ghost r0 = cell_rows(rows@);
                rows.push(c);
                assert(tl[k - i] == ls@[k as int]@);
                assert(cell_rows(rows@) =~= r0.push(line_cells(tl[k - i])));
                assert(table_cells(tl).take(k + 1 - i) =~= table_cells(tl).take(k - i).push(
                    line_cells(tl[k - i]),
                ));
                k = k + 1;
            }
            let ghost rv = table_cells(tl);
            assert(cell_rows(rows@) =~= rv);
            let mut idx: usize = 0;
            while idx < rows.len()
                invariant
                    idx <= rows.len(),
                    cell_rows(rows@) == rv,
                    rv == table_cells(tl),
                    rv.len() == rows.len(),
                    vec_lines_view(out@) =~= out0 + aligned_table(tl).take(idx as int),
                decreases rows.len() - idx,
            {
                let line = aligned_row_exec(&rows, idx);
                let ghost o1 = vec_lines_view(out@);
                out.push(line);
                assert(vec_lines_view(out@) =~= o1.push(aligned_row(rv, idx as int)));
                assert(aligned_table(tl).take(idx + 1) =~= aligned_table(tl).take(idx as int).push(
                    aligned_row(rv, idx as int),
                ));
                idx = idx + 1;
            }
            assert(aligned_table(tl).take(idx as int) =~= aligned_table(tl));
            i = j;
        } else {
            let mut copy: Vec<char> = Vec::new();
            extend_chars(&mut copy, &ls[i]);
            out.push(copy);
            assert(vec_lines_view(out@) =~= out0.push(lv[i as int]));
            i = i + 1;
        }
    }
    assert(align_from(lv, i as int) =~= Seq::<Seq<char>>::empty());
    assert(vec_lines_view(out@) =~= align_from(lv, 0));
    out
}

/// Aligns the columns of the tables in CommonMark text: every cell is padded
/// to the widest cell of its column, and the separator row is redrawn with
/// its alignment colons kept.  Lines are joined with `\n`.
pub fn align_tables(text: &str) -> (r: String)
    ensures
        r@ == align_tables_spec(text@),
{
    let v = chars_of(text);
    let ls = lines_of(&v);
    let aligned = align_lines(&ls);
    let j = join_exec(&aligned);
    string_of(&j)
}

/// CommonMark text as the library hands it out: its tables aligned, then the
/// whitespace at the end of each line removed.
pub open spec fn tidy(t: Seq<char>) -> Seq<char> {
    strip_trailing(align_tables_spec(t))
}

/// Aligns the tables of CommonMark text and removes the whitespace at the end
/// of its lines (see `tidy`).
pub fn tidy_commonmark(formatted: &str) -> (r: String)
    ensures
        r@ == tidy(formatted@),
{
    let aligned = align_tables(formatted);
    strip_trailing_whitespace(aligned.as_str())
}

/// `l` has no line break.
pub open spec fn no_newline(l: Seq<char>) -> bool {
    forall|i: int| 0 <= i < l.len() ==> l[i] != '\n'
}

/// `l` is empty or its last character is not whitespace.
pub open spec fn no_trailing_ws(l: Seq<char>) -> bool {
    l.len() == 0 || !is_ws(l.last())
}

/// `l` without a final `\r`.
pub open spec fn strip_cr(l: Seq<char>) -> Seq<char> {
    if l.len() > 0 && l.last() == '\r' {
        l.drop_last()
    } else {
        l
    }
}

pub proof fn lemma_lines_run_append(x: Seq<char>, b: Seq<char>)
    requires
        no_newline(b),
    ensures
        lines_run(x + b) == (LinesState { done: lines_run(x).done, cur: lines_run(x).cur + b }),
    decreases b.len(),
{
    if b.len() == 0 {
        assert(x + b =~= x);
        assert(lines_run(x).cur + b =~= lines_run(x).cur);
    } else {
        let b1 = b.drop_last();
        lemma_lines_run_append(x, b1);
        assert((x + b).drop_last() =~= x + b1);
        assert(b.last() == b[b.len() - 1]);
        assert(lines_run(x).cur + b1.push(b.last()) =~= (lines_run(x).cur + b1).push(b.last()));
        assert(b1.push(b.last()) =~= b);
    }
}

pub proof fn lemma_join_run(ls: Seq<Seq<char>>)
    requires
        ls.len() > 0,
        forall|k: int| 0 <= k < ls.len() ==> no_newline(#[trigger] ls[k]),
    ensures
        lines_run(join_lines(ls)) == (LinesState {
            done: ls.drop_last().map_values(|l: Seq<char>| strip_cr(l)),
            cur: ls.last(),
        }),
    decreases ls.len(),
{
    if ls.len() == 1 {
        lemma_lines_run_append(Seq::<char>::empty(), ls[0]);
        assert(Seq::<char>::empty() + ls[0] =~= ls[0]);
        assert(lines_run(Seq::<char>::empty()).cur + ls[0] =~= ls[0]);
        assert(ls.drop_last().map_values(|l: Seq<char>| strip_cr(l)) =~= Seq::<Seq<char>>::empty());
    } else {
        let d = ls.drop_last();
        assert forall|k: int| 0 <= k < d.len() implies no_newline(#[trigger] d[k]) by {
            assert(d[k] == ls[k]);
        }
        lemma_join_run(d);
        let x = join_lines(d) + seq!['\n'];
        assert(x.drop_last() =~= join_lines(d));
        assert(ls.last() == ls[ls.len() - 1]);
        lemma_lines_run_append(x, ls.last());
        assert(lines_run(x).cur + ls.last() =~= ls.last());
        assert(d.drop_last().map_values(|l: Seq<char>| strip_cr(l)).push(strip_cr(d.last()))
            =~= ls.drop_last().map_values(|l: Seq<char>| strip_cr(l)));
    }
}

pub proof fn lemma_lines_run_no_newline(s: Seq<char>)
    ensures
        forall|k: int|
            0 <= k < lines_run(s).done.len() ==> no_newline(#[trigger] lines_run(s).done[k]),
        no_newline(lines_run(s).cur),
    decreases s.len(),
{
    if s.len() > 0 {
        let p = s.drop_last();
        lemma_lines_run_no_newline(p);
        let st = lines_run(p);
        let r = lines_run(s);
        if s.last() == '\n' {
            assert forall|k: int| 0 <= k < r.done.len() implies no_newline(#[trigger] r.done[k]) by {
                if k < st.done.len() {
                    assert(r.done[k] == st.done[k]);
                } else {
                    let line = r.done[k];
                    assert forall|i: int| 0 <= i < line.len() implies line[i] != '\n' by {
                        assert(line[i] == st.cur[i]);
                    }
                }
            }
        } else {
            assert forall|i: int| 0 <= i < r.cur.len() implies r.cur[i] != '\n' by {
                if i < st.cur.len() {
                    assert(r.cur[i] == st.cur[i]);
                }
            }
        }
    }
}

/// The lines that `strip_trailing` joins hold no line break and end in no
/// whitespace.
proof fn lemma_trimmed_lines(t: Seq<char>)
    ensures
        forall|k: int|
            0 <= k < trimmed_lines(t).len() ==> no_newline(#[trigger] trimmed_lines(t)[k])
                && no_trailing_ws(trimmed_lines(t)[k]),
{
    let src = str_lines(t);
    let ls = trimmed_lines(t);
    lemma_lines_run_no_newline(t);
    assert forall|k: int| 0 <= k < ls.len() implies no_newline(#[trigger] ls[k]) && no_trailing_ws(
        ls[k],
    ) by {
        let l = src[k];
        assert(no_newline(l)) by {
            if k < lines_run(t).done.len() {
                assert(l == lines_run(t).done[k]);
            } else {
                assert(l == lines_run(t).cur);
            }
        }
        lemma_trim_end_prefix(l);
        assert(ls[k] == trim_end(l));
        assert forall|i: int| 0 <= i < ls[k].len() implies ls[k][i] != '\n' by {
            assert(ls[k][i] == l[i]);
        }
    }
}

/// Joined lines with no line break, no whitespace at their end and a last
/// line that is not empty are read back as the same lines.
proof fn lemma_join_lines_read_back(ls: Seq<Seq<char>>)
    requires
        ls.len() > 0,
        ls.last().len() > 0,
        forall|k: int| 0 <= k < ls.len() ==> no_newline(#[trigger] ls[k]) && no_trailing_ws(ls[k]),
    ensures
        str_lines(join_lines(ls)) == ls,
{
    lemma_join_run(ls);
    let r = join_lines(ls);
    let done = ls.drop_last().map_values(|l: Seq<char>| strip_cr(l));
    assert forall|k: int| 0 <= k < done.len() implies done[k] == ls[k] by {
        assert(ls.drop_last()[k] == ls[k]);
        assert(no_trailing_ws(ls[k]));
        if ls[k].len() > 0 {
            assert(is_ws('\r'));
        }
    }
    assert(str_lines(r) =~= ls);
}

/// No line of the text that `strip_trailing` gives ends with whitespace.
pub proof fn lemma_strip_trailing_clean(t: Seq<char>)
    ensures
        forall|k: int|
            0 <= k < str_lines(strip_trailing(t)).len() ==> no_trailing_ws(
                #[trigger] str_lines(strip_trailing(t))[k],
            ),
{
    let ls = trimmed_lines(t);
    lemma_trimmed_lines(t);
    let r = strip_trailing(t);
    if ls.len() == 0 {
        assert(r =~= Seq::<char>::empty());
        assert(lines_run(r).done =~= Seq::<Seq<char>>::empty());
    } else {
        lemma_join_run(ls);
        let done = ls.drop_last().map_values(|l: Seq<char>| strip_cr(l));
        assert forall|k: int| 0 <= k < done.len() implies done[k] == ls[k] by {
            assert(ls.drop_last()[k] == ls[k]);
            assert(no_trailing_ws(ls[k]));
            if ls[k].len() > 0 {
                assert(is_ws('\r'));
            }
        }
        assert forall|k: int| 0 <= k < str_lines(r).len() implies no_trailing_ws(
            #[trigger] str_lines(r)[k],
        ) by {
            if k < done.len() {
                assert(str_lines(r)[k] == done[k]);
            } else {
                assert(str_lines(r)[k] == ls.last());
                assert(ls.last() == ls[ls.len() - 1]);
            }
        }
    }
}

/// Removing trailing whitespace a second time changes nothing, unless the
/// last line of the text is blank (it then leaves a final line break that
/// the second pass drops).
pub proof fn lemma_strip_trailing_idempotent(t: Seq<char>)
    requires
        str_lines(t).len() == 0 || trim_end(str_lines(t).last()).len() > 0,
    ensures
        strip_trailing(strip_trailing(t)) == strip_trailing(t),
{
    let ls = trimmed_lines(t);
    let r = strip_trailing(t);
    if ls.len() == 0 {
        assert(r =~= Seq::<char>::empty());
        assert(lines_run(r).done =~= Seq::<Seq<char>>::empty());
        assert(str_lines(r) =~= Seq::<Seq<char>>::empty());
        assert(trimmed_lines(r) =~= Seq::<Seq<char>>::empty());
    } else {
        lemma_trimmed_lines(t);
        assert(ls.last() == trim_end(str_lines(t).last()));
        lemma_join_lines_read_back(ls);
        assert(str_lines(r) == ls);
        assert forall|k: int| 0 <= k < ls.len() implies #[trigger] trim_end(ls[k]) == ls[k] by {
            assert(no_trailing_ws(ls[k]));
        }
        assert(trimmed_lines(r) =~= ls);
    }
}

} // verus!
