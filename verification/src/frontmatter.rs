//! Removal of a leading `---` ... `---` front-matter block.

use vstd::prelude::*;
use crate::text::{chars_of, slice_chars, trim_start, trim_start_index};

verus! {

/// `s[i..i + 3]` is `---`.
pub open spec fn dashes_at(s: Seq<char>, i: int) -> bool {
    0 <= i && i + 3 <= s.len() && s[i] == '-' && s[i + 1] == '-' && s[i + 2] == '-'
}

/// The first index `j >= i` at which `s` holds `---`, if any.
pub open spec fn find_dashes_from(s: Seq<char>, i: int) -> Option<int>
    decreases s.len() - i,
{
    if i < 0 || i + 3 > s.len() {
        None
    } else if dashes_at(s, i) {
        Some(i)
    } else {
        find_dashes_from(s, i + 1)
    }
}

/// The text that follows the front matter of `s`: when `s`, after its leading
/// whitespace, starts with `---` and a second `---` follows, the text after that
/// second `---` without its leading whitespace; otherwise `s` itself.
pub open spec fn frontmatter_body(s: Seq<char>) -> Seq<char> {
    let t = trim_start(s);
    if dashes_at(t, 0) {
        let rest = t.skip(3);
        match find_dashes_from(rest, 0) {
            Some(e) => trim_start(rest.skip(e + 3)),
            None => s,
        }
    } else {
        s
    }
}

proof fn lemma_find_dashes(s: Seq<char>, i: int, j: int)
    requires
        0 <= i <= j,
        forall|k: int| i <= k < j ==> !dashes_at(s, k),
    ensures
        find_dashes_from(s, i) == find_dashes_from(s, j),
    decreases j - i,
{
    if i < j {
        lemma_find_dashes(s, i + 1, j);
    }
}

/// First index `j >= 0` such that `v[j..j + 3]` is `---`.
pub(crate) fn find_dashes(v: &Vec<char>) -> (r: Option<usize>)
    ensures
        r matches Some(j) ==> find_dashes_from(v@, 0) == Some(j as int) && j + 3 <= v.len(),
        r is None ==> find_dashes_from(v@, 0) is None,
{
    let mut i: usize = 0;
    while v.len() >= 3 && i <= v.len() - 3
        invariant
            i <= v.len(),
            forall|k: int| 0 <= k < i ==> !dashes_at(v@, k),
        decreases v.len() - i,
    {
        if v[i] == '-' && v[i + 1] == '-' && v[i + 2] == '-' {
            proof {
                lemma_find_dashes(v@, 0, i as int);
            }
            return Some(i);
        }
        i = i + 1;
    }
    proof {
        lemma_find_dashes(v@, 0, i as int);
    }
    None
}

/// The text after a leading front-matter block delimited by `---` lines.
///
/// Leading whitespace is skipped; if the text then starts with `---` and another
/// `---` occurs later, the text after that second `---` is returned with its
/// leading whitespace removed.  Otherwise the text is returned unchanged.
pub fn strip_frontmatter(text: &str) -> (r: &str)
    ensures
        r@ == frontmatter_body(text@),
        r@.len() <= text@.len(),
        r@ =~= text@.skip(text@.len() - r@.len()),
{
    let v = chars_of(text);
    let a = trim_start_index(&v);
    let n = v.len();
    if n - a >= 3 && v[a] == '-' && v[a + 1] == '-' && v[a + 2] == '-' {
        let rest = slice_chars(&v, a + 3, n);
        assert(rest@ =~= trim_start(v@).skip(3));
        match find_dashes(&rest) {
            Some(e) => {
                let after = slice_chars(&rest, e + 3, rest.len());
                let j = trim_start_index(&after);
                let start = a + 3 + e + 3 + j;
                assert(trim_start(after@) =~= v@.skip(start as int));
                assert(after@ =~= rest@.skip(e + 3));
                return text.substring_char(start, n);
            },
            None => {},
        }
    }
    text
}


/// The front-matter block ends at the first `---` after the opening one:
/// when the text, after its leading whitespace, starts with `---` and the
/// rest holds `---` first at `e`, the result is what follows that `---`
/// without its leading whitespace, so no later `---` is removed; when the
/// text does not start so, or no `---` follows, it is kept whole.
pub proof fn lemma_frontmatter_first_close(s: Seq<char>, e: int)
    ensures
        dashes_at(trim_start(s), 0) && dashes_at(trim_start(s).skip(3), e) && (forall|k: int|
            0 <= k < e ==> !dashes_at(trim_start(s).skip(3), k)) ==> frontmatter_body(s) == trim_start(
            trim_start(s).skip(3).skip(e + 3),
        ),
        !dashes_at(trim_start(s), 0) ==> frontmatter_body(s) == s,
        (forall|k: int| !dashes_at(#[trigger] trim_start(s).skip(3), k)) ==> frontmatter_body(s) == s,
{
    let t = trim_start(s);
    let rest = t.skip(3);
    if dashes_at(t, 0) && dashes_at(rest, e) && (forall|k: int| 0 <= k < e ==> !dashes_at(rest, k)) {
        lemma_find_dashes(rest, 0, e);
    }
    if forall|k: int| !dashes_at(#[trigger] trim_start(s).skip(3), k) {
        if rest.len() >= 3 {
            lemma_find_dashes(rest, 0, rest.len() - 2);
        }
    }
}

} // verus!
