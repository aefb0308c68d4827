//! The XML reader reads back what the CommonMark XML writer writes: a whole
//! document written from a tree gives that tree, and a code block gives one
//! code-block node holding its text, whatever its info string (short of a
//! line break).

use vstd::prelude::*;
use crate::format_idem::lacks;
use crate::xml::{
    XmlMode, XmlState, after_last_gt, code_close, decode, ends_with, xml_init, xml_run, xml_step,
};
use crate::tree::{NodeKind, Tree};

verus! {

/// The reader's state after reading `y` from state `s`.
pub open spec fn xml_steps(s: XmlState, y: Seq<char>) -> XmlState
    decreases y.len(),
{
    if y.len() == 0 {
        s
    } else {
        xml_step(xml_steps(s, y.drop_last()), y.last())
    }
}

/// Reading `a + b` is reading `a`, then `b`.
pub proof fn lemma_steps_concat(s: XmlState, a: Seq<char>, b: Seq<char>)
    ensures
        xml_steps(s, a + b) == xml_steps(xml_steps(s, a), b),
    decreases b.len(),
{
    if b.len() == 0 {
        assert(a + b =~= a);
    } else {
        lemma_steps_concat(s, a, b.drop_last());
        assert((a + b).drop_last() =~= a + b.drop_last());
        assert((a + b).last() == b.last());
    }
}

/// Reading a text from the start is reading it from the initial state.
pub proof fn lemma_run_is_steps(x: Seq<char>)
    ensures
        xml_run(x) == xml_steps(xml_init(), x),
    decreases x.len(),
{
    if x.len() > 0 {
        lemma_run_is_steps(x.drop_last());
    }
}

proof fn lemma_step_one(s: XmlState, c: char)
    ensures
        xml_steps(s, seq![c]) == xml_step(s, c),
{
    assert(seq![c].drop_last() =~= Seq::<char>::empty());
    assert(xml_steps(s, seq![c].drop_last()) == s);
    assert(seq![c].last() == c);
}

/// Reads the characters of `y` one by one after `a`.
proof fn lemma_step_then(s: XmlState, a: Seq<char>, c: char)
    ensures
        xml_steps(s, a.push(c)) == xml_step(xml_steps(s, a), c),
{
    assert(a.push(c).drop_last() =~= a);
}

proof fn lemma_text_steps(s: XmlState, y: Seq<char>)
    requires
        s.mode == XmlMode::Text,
        lacks(y, '<'),
    ensures
        xml_steps(s, y) == (XmlState { text: s.text + y, ..s }),
    decreases y.len(),
{
    if y.len() == 0 {
        assert(s.text + y =~= s.text);
    } else {
        let d = y.drop_last();
        assert(lacks(d, '<')) by {
            assert forall|i: int| 0 <= i < d.len() implies d[i] != '<' by {
                assert(d[i] == y[i]);
            }
        }
        lemma_text_steps(s, d);
        assert(y.last() == y[y.len() - 1]);
        assert((s.text + d).push(y.last()) =~= s.text + y);
    }
}

proof fn lemma_open_name_steps(s: XmlState, y: Seq<char>)
    requires
        s.mode == XmlMode::OpenName,
        lacks(y, ' '),
        lacks(y, '>'),
        lacks(y, '/'),
    ensures
        xml_steps(s, y) == (XmlState { name: s.name + y, ..s }),
    decreases y.len(),
{
    if y.len() == 0 {
        assert(s.name + y =~= s.name);
    } else {
        let d = y.drop_last();
        assert(lacks(d, ' ') && lacks(d, '>') && lacks(d, '/')) by {
            assert forall|i: int| 0 <= i < d.len() implies d[i] != ' ' && d[i] != '>' && d[i] != '/' by {
                assert(d[i] == y[i]);
            }
        }
        lemma_open_name_steps(s, d);
        assert(y.last() == y[y.len() - 1]);
        assert((s.name + d).push(y.last()) =~= s.name + y);
    }
}

proof fn lemma_close_name_steps(s: XmlState, y: Seq<char>)
    requires
        s.mode == XmlMode::CloseName,
        lacks(y, '>'),
    ensures
        xml_steps(s, y) == (XmlState { name: s.name + y, ..s }),
    decreases y.len(),
{
    if y.len() == 0 {
        assert(s.name + y =~= s.name);
    } else {
        let d = y.drop_last();
        assert(lacks(d, '>')) by {
            assert forall|i: int| 0 <= i < d.len() implies d[i] != '>' by {
                assert(d[i] == y[i]);
            }
        }
        lemma_close_name_steps(s, d);
        assert(y.last() == y[y.len() - 1]);
        assert((s.name + d).push(y.last()) =~= s.name + y);
    }
}

proof fn lemma_attr_key_steps(s: XmlState, y: Seq<char>)
    requires
        s.mode == XmlMode::AttrKey,
        lacks(y, '='),
        lacks(y, '>'),
        lacks(y, '/'),
        lacks(y, ' '),
    ensures
        xml_steps(s, y) == (XmlState { key: s.key + y, ..s }),
    decreases y.len(),
{
    if y.len() == 0 {
        assert(s.key + y =~= s.key);
    } else {
        let d = y.drop_last();
        assert(lacks(d, '=') && lacks(d, '>') && lacks(d, '/') && lacks(d, ' ')) by {
            assert forall|i: int| 0 <= i < d.len() implies d[i] != '=' && d[i] != '>' && d[i]
                != '/' && d[i] != ' ' by {
                assert(d[i] == y[i]);
            }
        }
        lemma_attr_key_steps(s, d);
        assert(y.last() == y[y.len() - 1]);
        assert((s.key + d).push(y.last()) =~= s.key + y);
    }
}

proof fn lemma_attr_val_steps(s: XmlState, y: Seq<char>)
    requires
        s.mode == XmlMode::AttrVal,
        lacks(y, '"'),
    ensures
        xml_steps(s, y) == (XmlState { val: s.val + y, ..s }),
    decreases y.len(),
{
    if y.len() == 0 {
        assert(s.val + y =~= s.val);
    } else {
        let d = y.drop_last();
        assert(lacks(d, '"')) by {
            assert forall|i: int| 0 <= i < d.len() implies d[i] != '"' by {
                assert(d[i] == y[i]);
            }
        }
        lemma_attr_val_steps(s, d);
        assert(y.last() == y[y.len() - 1]);
        assert((s.val + d).push(y.last()) =~= s.val + y);
    }
}

proof fn lemma_info_steps(s: XmlState, y: Seq<char>)
    requires
        s.mode == XmlMode::Info,
        forall|j: int| 0 <= j < y.len() ==> !ends_with(#[trigger] (s.val + y.take(j + 1)), code_close()),
    ensures
        xml_steps(s, y) == (XmlState { val: s.val + y, ..s }),
    decreases y.len(),
{
    if y.len() == 0 {
        assert(s.val + y =~= s.val);
    } else {
        let d = y.drop_last();
        assert forall|j: int| 0 <= j < d.len() implies !ends_with(#[trigger] (s.val + d.take(j + 1)), code_close()) by {
            assert(d.take(j + 1) =~= y.take(j + 1));
            assert(!ends_with(s.val + y.take(j + 1), code_close()));
        }
        lemma_info_steps(s, d);
        assert(y.last() == y[y.len() - 1]);
        assert((s.val + d).push(y.last()) =~= s.val + y);
        assert(y.take(y.len() as int) =~= y);
        assert(!ends_with(s.val + y.take(y.len() - 1 + 1), code_close()));
    }
}

/// What the XML writer writes for one character of a text.
pub open spec fn escape_char(c: char) -> Seq<char> {
    if c == '"' {
        "&quot;"@
    } else if c == '&' {
        "&amp;"@
    } else if c == '<' {
        "&lt;"@
    } else if c == '>' {
        "&gt;"@
    } else if c == '\0' {
        seq!['\u{fffd}']
    } else {
        seq![c]
    }
}

/// A text as the XML writer writes it: `"`, `&`, `<` and `>` as character
/// references, and a NUL character as U+FFFD.
pub open spec fn escape_text(s: Seq<char>) -> Seq<char>
    decreases s.len(),
{
    if s.len() == 0 {
        seq![]
    } else {
        escape_char(s[0]) + escape_text(s.skip(1))
    }
}

/// Decoding a written text gives the text back, when it holds no NUL.
pub proof fn lemma_decode_escape(s: Seq<char>)
    requires
        lacks(s, '\0'),
    ensures
        decode(escape_text(s)) == s,
        lacks(escape_text(s), '<'),
        lacks(escape_text(s), '>'),
        lacks(escape_text(s), '"'),
    decreases s.len(),
{
    reveal_strlit("&quot;");
    reveal_strlit("&amp;");
    reveal_strlit("&lt;");
    reveal_strlit("&gt;");
    if s.len() > 0 {
        let r = s.skip(1);
        assert(lacks(r, '\0')) by {
            assert forall|i: int| 0 <= i < r.len() implies r[i] != '\0' by {
                assert(r[i] == s[i + 1]);
            }
        }
        lemma_decode_escape(r);
        let e0 = escape_char(s[0]);
        let er = escape_text(r);
        let x = e0 + er;
        assert(x.skip(e0.len() as int) =~= er);
        if s[0] == '"' || s[0] == '&' || s[0] == '<' || s[0] == '>' {
            assert(x[0] == '&');
        } else {
            assert(x[0] == s[0]);
            assert(x.skip(1) =~= er);
        }
        assert(decode(x) =~= seq![s[0]] + r);
        assert(seq![s[0]] + r =~= s);
        assert forall|i: int| 0 <= i < x.len() implies x[i] != '<' && x[i] != '>' && x[i] != '"' by {
            if i < e0.len() {
                assert(x[i] == e0[i]);
            } else {
                assert(x[i] == er[i - e0.len()]);
            }
        }
    }
}


/// `<` and the name of an opening tag.
proof fn lemma_read_open_name(s: XmlState, name: Seq<char>)
    requires
        s.mode == XmlMode::Text,
        name.len() > 0,
        name[0] != '/' && name[0] != '?' && name[0] != '!',
        lacks(name, ' '),
        lacks(name, '>'),
        lacks(name, '/'),
    ensures
        xml_steps(s, seq!['<'] + name) == (XmlState {
            mode: XmlMode::OpenName,
            name: name,
            attrs: seq![],
            ..s
        }),
{
    let s1 = XmlState { mode: XmlMode::TagStart, ..s };
    lemma_steps_concat(s, seq!['<'], name);
    lemma_step_one(s, '<');
    let rest = name.skip(1);
    assert(name =~= seq![name[0]] + rest);
    lemma_steps_concat(s1, seq![name[0]], rest);
    lemma_step_one(s1, name[0]);
    let s2 = XmlState { mode: XmlMode::OpenName, name: seq![name[0]], attrs: seq![], ..s1 };
    assert(lacks(rest, ' ') && lacks(rest, '>') && lacks(rest, '/')) by {
        assert forall|i: int| 0 <= i < rest.len() implies rest[i] != ' ' && rest[i] != '>' && rest[i]
            != '/' by {
            assert(rest[i] == name[i + 1]);
        }
    }
    lemma_open_name_steps(s2, rest);
    assert(seq![name[0]] + rest =~= name);
}

/// A space, an attribute name and `=` inside an opening tag.
proof fn lemma_read_attr_key(s: XmlState, key: Seq<char>)
    requires
        s.mode == XmlMode::OpenName || s.mode == XmlMode::AttrKey,
        lacks(key, '='),
        lacks(key, '>'),
        lacks(key, '/'),
        lacks(key, ' '),
    ensures
        xml_steps(s, seq![' '] + key + seq!['=']) == (XmlState {
            mode: XmlMode::AttrEq,
            key: key,
            ..s
        }),
{
    let s1 = XmlState { mode: XmlMode::AttrKey, key: seq![], ..s };
    lemma_steps_concat(s, seq![' '] + key, seq!['=']);
    lemma_steps_concat(s, seq![' '], key);
    lemma_step_one(s, ' ');
    lemma_attr_key_steps(s1, key);
    assert(Seq::<char>::empty() + key =~= key);
    let s2 = XmlState { key: key, ..s1 };
    lemma_step_one(s2, '=');
}

/// The closing tag of an element.
proof fn lemma_read_close(s: XmlState, name: Seq<char>)
    requires
        s.mode == XmlMode::Text,
        lacks(name, '>'),
    ensures
        xml_steps(s, seq!['<', '/'] + name + seq!['>']) == (XmlState {
            mode: XmlMode::Text,
            text: seq![],
            ..crate::xml::close_elem(XmlState { mode: XmlMode::CloseName, name: name, ..s })
        }),
{
    let s1 = XmlState { mode: XmlMode::TagStart, ..s };
    let s2 = XmlState { mode: XmlMode::CloseName, name: seq![], ..s1 };
    lemma_steps_concat(s, seq!['<', '/'] + name, seq!['>']);
    lemma_steps_concat(s, seq!['<', '/'], name);
    assert(seq!['<', '/'] =~= seq!['<'].push('/'));
    lemma_step_then(s, seq!['<'], '/');
    lemma_step_one(s, '<');
    lemma_close_name_steps(s2, name);
    assert(Seq::<char>::empty() + name =~= name);
    lemma_step_one(XmlState { name: name, ..s2 }, '>');
}

proof fn lemma_after_last_gt(a: Seq<char>, b: Seq<char>)
    requires
        a.len() > 0,
        a.last() == '>',
        lacks(b, '>'),
    ensures
        after_last_gt(a + b) == b,
    decreases b.len(),
{
    if b.len() == 0 {
        assert(a + b =~= a);
    } else {
        let d = b.drop_last();
        assert(lacks(d, '>')) by {
            assert forall|i: int| 0 <= i < d.len() implies d[i] != '>' by {
                assert(d[i] == b[i]);
            }
        }
        lemma_after_last_gt(a, d);
        assert((a + b).drop_last() =~= a + d);
        assert((a + b).last() == b[b.len() - 1]);
        assert(d.push(b.last()) =~= b);
    }
}

/// The attributes the XML writer puts before `xml:space` in a code block's
/// tag: the info string, when there is one, and for the info string `math`
/// the math style.
pub open spec fn info_attrs(info: Seq<char>) -> Seq<char> {
    if info.len() == 0 {
        seq![]
    } else {
        " info=\""@ + info + "\""@ + if info == "math"@ {
            " math_style=\"display\""@
        } else {
            seq![]
        }
    }
}

/// A code block as the CommonMark XML writer writes it, from its tag to the
/// line break after its closing tag.
pub open spec fn code_block_xml(info: Seq<char>, lit: Seq<char>) -> Seq<char> {
    "<code_block"@ + info_attrs(info) + " xml:space=\"preserve\">"@ + escape_text(lit) + code_close()
}

/// The code-block node holding `lit`.
pub open spec fn code_node(lit: Seq<char>) -> Tree {
    Tree { kind: NodeKind::CodeBlock, literal: lit, url: seq![], children: seq![] }
}

proof fn lemma_code_block_kind(attrs: Seq<(Seq<char>, Seq<char>)>)
    ensures
        crate::xml::kind_of("code_block"@, attrs) == NodeKind::CodeBlock,
{
    reveal_strlit("code_block");
    reveal_strlit("document");
    reveal_strlit("block_quote");
    reveal_strlit("list");
    reveal_strlit("item");
    reveal_strlit("taskitem");
    assert("code_block"@ != "document"@) by {
        assert("code_block"@[0] != "document"@[0]);
    }
    assert("code_block"@ != "block_quote"@) by {
        assert("code_block"@[0] != "block_quote"@[0]);
    }
    assert("code_block"@.len() != "list"@.len());
    assert("code_block"@.len() != "item"@.len());
    assert("code_block"@.len() != "taskitem"@.len());
}


proof fn lemma_code_close_chars()
    ensures
        code_close().len() == 14,
        code_close()[13] == '\n',
        code_close()[12] == '>',
        code_close()[11] == 'k',
        forall|i: int| 0 <= i < 13 ==> #[trigger] code_close()[i] != '\n',
{
    reveal_strlit("</code_block>\n");
}

proof fn lemma_no_close_at(a: Seq<char>, e: Seq<char>, j: int)
    requires
        a.len() >= 2,
        a.last() == '>',
        a[a.len() - 2] != 'k',
        lacks(a, '\n'),
        lacks(e, '>'),
        0 <= j < (a + e + code_close()).len() - 1,
    ensures
        !ends_with((a + e + code_close()).take(j + 1), code_close()),
{
    lemma_code_close_chars();
    let cc = code_close();
    let y = a + e + cc;
    let t = y.take(j + 1);
    if ends_with(t, cc) {
        let k = t.len() - 14;
        let u = t.skip(k);
        assert(u == cc);
        assert(u[13] == t[j] && t[j] == y[j]);
        assert(u[12] == t[j - 1] && t[j - 1] == y[j - 1]);
        assert(u[11] == t[j - 2] && t[j - 2] == y[j - 2]);
        assert(y[j] == '\n' && y[j - 1] == '>' && y[j - 2] == 'k');
        if j < a.len() {
            assert(y[j] == a[j]);
        } else if j < a.len() + e.len() {
            assert(y[j] == e[j - a.len()]);
            if j - 1 >= a.len() {
                assert(y[j - 1] == e[j - 1 - a.len()]);
            } else {
                assert(y[j - 2] == a[a.len() - 2]);
            }
        } else {
            assert(y[j] == cc[j - a.len() - e.len()]);
        }
    }
}

/// Inside a code block's tag, the reader does not take the end of the tag
/// for the end of the element: it stops only at the closing tag and the
/// line break after it.
proof fn lemma_no_early_close(a: Seq<char>, e: Seq<char>)
    requires
        a.len() >= 2,
        a.last() == '>',
        a[a.len() - 2] != 'k',
        lacks(a, '\n'),
        lacks(e, '>'),
    ensures
        forall|j: int|
            0 <= j < (a + e + code_close()).len() - 1 ==> !ends_with(
                #[trigger] (a + e + code_close()).take(j + 1),
                code_close(),
            ),
        ends_with(a + e + code_close(), code_close()),
{
    let y = a + e + code_close();
    assert forall|j: int| 0 <= j < y.len() - 1 implies !ends_with(#[trigger] y.take(j + 1), code_close()) by {
        lemma_no_close_at(a, e, j);
    }
    assert(y.skip(y.len() - code_close().len()) =~= code_close());
}

/// The reader's state `r` holds the code-block node for `lit`, read from
/// state `s`: it is back between tags, and the node is the last child of the
/// element being read, or the root when no element was open.
pub open spec fn read_code_node(s: XmlState, r: XmlState, lit: Seq<char>) -> bool {
    &&& r.mode == XmlMode::Text
    &&& r.text == seq!['\n']
    &&& s.stack.len() == 0 ==> r.stack.len() == 0 && r.root == Some(code_node(lit))
    &&& s.stack.len() > 0 ==> r.root == s.root && r.stack == s.stack.drop_last().push(
        Tree { children: s.stack.last().children.push(code_node(lit)), ..s.stack.last() },
    )
}

/// Closing the open code block `c` adds its node where `read_code_node` says.
proof fn lemma_close_code(s: XmlState, c: XmlState, lit: Seq<char>)
    requires
        c.stack == s.stack.push(
            Tree { kind: NodeKind::CodeBlock, literal: seq![], url: seq![], children: seq![] },
        ),
        decode(c.text) == lit,
        c.root == s.root,
    ensures
        s.stack.len() == 0 ==> crate::xml::close_elem(c).stack.len() == 0 && crate::xml::close_elem(
            c,
        ).root == Some(code_node(lit)),
        s.stack.len() > 0 ==> crate::xml::close_elem(c).root == s.root && crate::xml::close_elem(
            c,
        ).stack == s.stack.drop_last().push(
            Tree { children: s.stack.last().children.push(code_node(lit)), ..s.stack.last() },
        ),
{
    assert(c.stack.drop_last() =~= s.stack);
    assert(crate::xml::has_literal(NodeKind::CodeBlock));
}

proof fn lemma_read_name_code_block(s: XmlState)
    requires
        s.mode == XmlMode::Text,
    ensures
        "<code_block"@ == seq!['<'] + "code_block"@,
        lacks("code_block"@, ' ') && lacks("code_block"@, '>') && lacks("code_block"@, '/'),
        xml_steps(s, "<code_block"@) == (XmlState {
            mode: XmlMode::OpenName,
            name: "code_block"@,
            attrs: seq![],
            ..s
        }),
{
    reveal_strlit("<code_block");
    reveal_strlit("code_block");
    let name = "code_block"@;
    assert("<code_block"@ =~= seq!['<'] + name);
    assert(lacks(name, ' ') && lacks(name, '>') && lacks(name, '/')) by {
        assert forall|i: int| 0 <= i < name.len() implies name[i] != ' ' && name[i] != '>' && name[i]
            != '/' by {}
    }
    lemma_read_open_name(s, name);
}

#[verifier::rlimit(40)]
proof fn lemma_read_code_block_plain(s: XmlState, lit: Seq<char>)
    requires
        s.mode == XmlMode::Text,
        lacks(lit, '\0'),
    ensures
        read_code_node(s, xml_steps(s, code_block_xml(seq![], lit)), lit),
{
    reveal_strlit(" xml:space=\"preserve\">");
    reveal_strlit("xml:space");
    reveal_strlit("preserve");
    reveal_strlit("info");
    reveal_strlit("</code_block>\n");
    lemma_decode_escape(lit);
    let info: Seq<char> = seq![];
    let name = "code_block"@;
    let e = escape_text(lit);
    let x = code_block_xml(info, lit);
    let p1 = "<code_block"@;
    lemma_read_name_code_block(s);
    let s3 = XmlState { mode: XmlMode::OpenName, name: name, attrs: seq![], ..s };
        let k1 = "xml:space"@;
        let v1 = "preserve"@;
        assert(lacks(k1, '=') && lacks(k1, '>') && lacks(k1, '/') && lacks(k1, ' ')) by {
            assert forall|i: int| 0 <= i < k1.len() implies k1[i] != '=' && k1[i] != '>' && k1[i]
                != '/' && k1[i] != ' ' by {}
        }
        assert(lacks(v1, '"')) by {
            assert forall|i: int| 0 <= i < v1.len() implies v1[i] != '"' by {}
        }
        let p2 = seq![' '] + k1 + seq!['='];
        let x1 = p1 + p2;
        let x2 = x1 + seq!['"'];
        let x3 = x2 + v1;
        let x4 = x3 + seq!['"'];
        let x5 = x4 + seq!['>'];
        let x6 = x5 + e;
        let cl = seq!['<', '/'] + name + seq!['>'];
        let x7 = x6 + cl;
        let x8 = x7 + seq!['\n'];
        assert(info_attrs(info) =~= Seq::<char>::empty());
        reveal_strlit("code_block");
        assert(" xml:space=\"preserve\">"@ =~= seq![' '] + k1 + seq!['='] + seq!['"'] + v1 + seq!['"']
            + seq!['>']);
        assert(code_close() =~= seq!['<', '/'] + name + seq!['>'] + seq!['\n']);
        assert(x =~= x8);
        lemma_steps_concat(s, p1, p2);
        lemma_read_attr_key(s3, k1);
        let s4 = XmlState { mode: XmlMode::AttrEq, key: k1, ..s3 };
        assert(k1 != "info"@) by {
            assert(k1.len() != "info"@.len());
        }
        lemma_step_then(s, x1, '"');
        assert(x1.push('"') =~= x2);
        let s5 = XmlState { mode: XmlMode::AttrVal, val: seq![], ..s4 };
        lemma_steps_concat(s, x2, v1);
        lemma_attr_val_steps(s5, v1);
        assert(Seq::<char>::empty() + v1 =~= v1);
        let s6 = XmlState { val: v1, ..s5 };
        lemma_step_then(s, x3, '"');
        assert(x3.push('"') =~= x4);
        let s7 = XmlState { mode: XmlMode::AttrQuote, ..s6 };
        lemma_step_then(s, x4, '>');
        assert(x4.push('>') =~= x5);
        let sa = XmlState { mode: XmlMode::AttrKey, attrs: s7.attrs.push((s7.key, s7.val)), key: seq![], ..s7 };
        lemma_code_block_kind(sa.attrs);
        let s8 = XmlState { mode: XmlMode::Text, text: seq![], ..crate::xml::open_elem(sa) };
        assert(xml_steps(s, x5) == s8);
        lemma_steps_concat(s, x5, e);
        lemma_text_steps(s8, e);
        assert(Seq::<char>::empty() + e =~= e);
        let s9 = XmlState { text: e, ..s8 };
        lemma_steps_concat(s, x6, cl);
        assert(cl =~= seq!['<', '/'] + name + seq!['>']);
        assert(xml_steps(s, x2) == s5);
        assert(xml_steps(s, x3) == s6);
        assert(xml_steps(s, x4) == s7);
        assert(xml_steps(s, x6) == s9);
        lemma_read_close(s9, name);
        let s10 = XmlState {
            mode: XmlMode::Text,
            text: seq![],
            ..crate::xml::close_elem(XmlState { mode: XmlMode::CloseName, name: name, ..s9 })
        };
        assert(xml_steps(s, x7) == s10);
        lemma_step_then(s, x7, '\n');
        assert(x7.push('\n') =~= x8);
        let r = xml_steps(s, x8);
        assert(r == XmlState { text: seq!['\n'], ..s10 });
        let c = XmlState { mode: XmlMode::CloseName, name: name, ..s9 };
        assert(c.stack == s.stack.push(
            Tree { kind: NodeKind::CodeBlock, literal: seq![], url: seq![], children: seq![] },
        ));
        lemma_close_code(s, c, lit);
        assert(r.root == crate::xml::close_elem(c).root);
        assert(r.stack == crate::xml::close_elem(c).stack);
}

#[verifier::rlimit(40)]
proof fn lemma_read_code_block_info(s: XmlState, info: Seq<char>, lit: Seq<char>)
    requires
        s.mode == XmlMode::Text,
        info.len() > 0,
        lacks(info, '\n'),
        lacks(lit, '\0'),
    ensures
        read_code_node(s, xml_steps(s, code_block_xml(info, lit)), lit),
{
    reveal_strlit(" info=\"");
    reveal_strlit("\"");
    reveal_strlit(" math_style=\"display\"");
    reveal_strlit(" xml:space=\"preserve\">");
    reveal_strlit("info");
    lemma_decode_escape(lit);
    let name = "code_block"@;
    let e = escape_text(lit);
    let xs = " xml:space=\"preserve\">"@;
    let cc = code_close();
    let x = code_block_xml(info, lit);
    let p1 = "<code_block"@;
    lemma_read_name_code_block(s);
    let s3 = XmlState { mode: XmlMode::OpenName, name: name, attrs: seq![], ..s };
    lemma_code_block_kind(seq![]);
        let k1 = "info"@;
        assert(lacks(k1, '=') && lacks(k1, '>') && lacks(k1, '/') && lacks(k1, ' ')) by {
            assert forall|i: int| 0 <= i < k1.len() implies k1[i] != '=' && k1[i] != '>' && k1[i]
                != '/' && k1[i] != ' ' by {}
        }
        let m = if info == "math"@ { " math_style=\"display\""@ } else { Seq::<char>::empty() };
        let a = info + seq!['"'] + m + xs;
        let y = a + e + cc;
        let p2 = seq![' '] + k1 + seq!['='];
        let x1 = p1 + p2;
        let x2 = x1 + seq!['"'];
        assert(info_attrs(info) =~= " info=\""@ + info + "\""@ + m);
        assert(x =~= x2 + y);
        lemma_steps_concat(s, p1, p2);
        lemma_read_attr_key(s3, k1);
        let s4 = XmlState { mode: XmlMode::AttrEq, key: k1, ..s3 };
        lemma_step_then(s, x1, '"');
        assert(x1.push('"') =~= x2);
        let s5 = XmlState { mode: XmlMode::Info, val: seq![], ..s4 };
        assert(xml_steps(s, x2) == s5);
        lemma_steps_concat(s, x2, y);
        assert(lacks(a, '\n')) by {
            assert forall|i: int| 0 <= i < a.len() implies a[i] != '\n' by {
                if i < info.len() {
                    assert(a[i] == info[i]);
                } else if i == info.len() {
                } else if i < info.len() + 1 + m.len() {
                    assert(a[i] == m[i - info.len() - 1]);
                } else {
                    assert(a[i] == xs[i - info.len() - 1 - m.len()]);
                }
            }
        }
        assert(a.last() == '>' && a[a.len() - 2] == '"') by {
            assert(a.last() == xs[21]);
            assert(a[a.len() - 2] == xs[20]);
        }
        lemma_no_early_close(a, e);
        let yd = y.drop_last();
        assert forall|j: int| 0 <= j < yd.len() implies !ends_with(
            #[trigger] (s5.val + yd.take(j + 1)),
            code_close(),
        ) by {
            assert(s5.val + yd.take(j + 1) =~= y.take(j + 1));
        }
        lemma_info_steps(s5, yd);
        let sv = XmlState { val: s5.val + yd, ..s5 };
        assert(y =~= yd.push(y.last()));
        lemma_step_then(s5, yd, y.last());
        lemma_code_close_chars();
        assert(y.last() == cc[13]);
        assert(y.last() == '\n');
        assert(sv.val.push('\n') =~= y);
        assert(y.take(y.len() - cc.len()) =~= a + e);
        lemma_after_last_gt(a, e);
        let c = XmlState { text: e, ..crate::xml::open_elem(sv) };
        assert(c.stack == s.stack.push(
            Tree { kind: NodeKind::CodeBlock, literal: seq![], url: seq![], children: seq![] },
        ));
        lemma_close_code(s, c, lit);
        let r = xml_steps(s, x);
        assert(r == XmlState {
            mode: XmlMode::Text,
            text: seq!['\n'],
            val: y,
            ..crate::xml::close_elem(c)
        });
}

/// A code block written the way the CommonMark XML writer writes it, with an
/// info string that holds no line break and a text that holds no NUL, is
/// read as one code-block node holding its text: it becomes the last child
/// of the element being read, or the root when no element is open.
pub proof fn lemma_read_code_block(s: XmlState, info: Seq<char>, lit: Seq<char>)
    requires
        s.mode == XmlMode::Text,
        lacks(info, '\n'),
        lacks(lit, '\0'),
    ensures
        read_code_node(s, xml_steps(s, code_block_xml(info, lit)), lit),
{
    if info.len() == 0 {
        assert(info =~= Seq::<char>::empty());
        lemma_read_code_block_plain(s, lit);
    } else {
        lemma_read_code_block_info(s, info, lit);
    }
}


/// The element name the XML writer gives a node of kind `k`.
pub open spec fn kind_name(k: NodeKind) -> Seq<char> {
    match k {
        NodeKind::Document => "document"@,
        NodeKind::BlockQuote => "block_quote"@,
        NodeKind::List => "list"@,
        NodeKind::Item => "item"@,
        NodeKind::TaskItem(_) => "taskitem"@,
        NodeKind::CodeBlock => "code_block"@,
        NodeKind::HtmlBlock => "html_block"@,
        NodeKind::Paragraph => "paragraph"@,
        NodeKind::Heading(_) => "heading"@,
        NodeKind::ThematicBreak => "thematic_break"@,
        NodeKind::Table => "table"@,
        NodeKind::TableRow => "table_row"@,
        NodeKind::TableCell => "table_cell"@,
        NodeKind::Text => "text"@,
        NodeKind::SoftBreak => "softbreak"@,
        NodeKind::LineBreak => "linebreak"@,
        NodeKind::Code => "code"@,
        NodeKind::HtmlInline => "html_inline"@,
        NodeKind::Emph => "emph"@,
        NodeKind::Strong => "strong"@,
        NodeKind::Strikethrough => "strikethrough"@,
        NodeKind::Link => "link"@,
        NodeKind::Image => "image"@,
        NodeKind::Other => "other"@,
    }
}

proof fn lemma_reveal_names()
    ensures
        "document"@ =~= seq!['d', 'o', 'c', 'u', 'm', 'e', 'n', 't'],
        "block_quote"@ =~= seq!['b', 'l', 'o', 'c', 'k', '_', 'q', 'u', 'o', 't', 'e'],
        "list"@ =~= seq!['l', 'i', 's', 't'],
        "item"@ =~= seq!['i', 't', 'e', 'm'],
        "taskitem"@ =~= seq!['t', 'a', 's', 'k', 'i', 't', 'e', 'm'],
        "code_block"@ =~= seq!['c', 'o', 'd', 'e', '_', 'b', 'l', 'o', 'c', 'k'],
        "html_block"@ =~= seq!['h', 't', 'm', 'l', '_', 'b', 'l', 'o', 'c', 'k'],
        "paragraph"@ =~= seq!['p', 'a', 'r', 'a', 'g', 'r', 'a', 'p', 'h'],
        "heading"@ =~= seq!['h', 'e', 'a', 'd', 'i', 'n', 'g'],
        "thematic_break"@ =~= seq!['t', 'h', 'e', 'm', 'a', 't', 'i', 'c', '_', 'b', 'r', 'e', 'a', 'k'],
        "table"@ =~= seq!['t', 'a', 'b', 'l', 'e'],
        "table_row"@ =~= seq!['t', 'a', 'b', 'l', 'e', '_', 'r', 'o', 'w'],
        "table_cell"@ =~= seq!['t', 'a', 'b', 'l', 'e', '_', 'c', 'e', 'l', 'l'],
        "text"@ =~= seq!['t', 'e', 'x', 't'],
        "softbreak"@ =~= seq!['s', 'o', 'f', 't', 'b', 'r', 'e', 'a', 'k'],
        "linebreak"@ =~= seq!['l', 'i', 'n', 'e', 'b', 'r', 'e', 'a', 'k'],
        "code"@ =~= seq!['c', 'o', 'd', 'e'],
        "html_inline"@ =~= seq!['h', 't', 'm', 'l', '_', 'i', 'n', 'l', 'i', 'n', 'e'],
        "emph"@ =~= seq!['e', 'm', 'p', 'h'],
        "strong"@ =~= seq!['s', 't', 'r', 'o', 'n', 'g'],
        "strikethrough"@ =~= seq!['s', 't', 'r', 'i', 'k', 'e', 't', 'h', 'r', 'o', 'u', 'g', 'h'],
        "link"@ =~= seq!['l', 'i', 'n', 'k'],
        "image"@ =~= seq!['i', 'm', 'a', 'g', 'e'],
{
    reveal_strlit("document");
    reveal_strlit("block_quote");
    reveal_strlit("list");
    reveal_strlit("item");
    reveal_strlit("taskitem");
    reveal_strlit("code_block");
    reveal_strlit("html_block");
    reveal_strlit("paragraph");
    reveal_strlit("heading");
    reveal_strlit("thematic_break");
    reveal_strlit("table");
    reveal_strlit("table_row");
    reveal_strlit("table_cell");
    reveal_strlit("text");
    reveal_strlit("softbreak");
    reveal_strlit("linebreak");
    reveal_strlit("code");
    reveal_strlit("html_inline");
    reveal_strlit("emph");
    reveal_strlit("strong");
    reveal_strlit("strikethrough");
    reveal_strlit("link");
    reveal_strlit("image");
}

/// The element name of a kind is read back as that kind, given the
/// attributes the writer puts on it.
proof fn lemma_kind_name(k: NodeKind, attrs: Seq<(Seq<char>, Seq<char>)>)
    requires
        k != NodeKind::Other,
        k is Heading ==> crate::xml::level_of(crate::xml::attr_value(attrs, "level"@)) == k->Heading_0,
        k is TaskItem ==> (crate::xml::attr_value(attrs, "completed"@) == "true"@) == k->TaskItem_0,
    ensures
        crate::xml::kind_of(kind_name(k), attrs) == k,
        kind_name(k).len() > 0,
        kind_name(k)[0] != '/' && kind_name(k)[0] != '?' && kind_name(k)[0] != '!',
        lacks(kind_name(k), ' ') && lacks(kind_name(k), '>') && lacks(kind_name(k), '/'),
        lacks(kind_name(k), '='),
{
    lemma_reveal_names();
    let n = kind_name(k);
    assert forall|i: int| 0 <= i < n.len() implies n[i] != ' ' && n[i] != '>' && n[i] != '/'
        && n[i] != '=' by {}
    match k {
        NodeKind::Document => {},
        NodeKind::BlockQuote => {},
        NodeKind::List => {},
        NodeKind::Item => {},
        NodeKind::TaskItem(_) => {},
        NodeKind::CodeBlock => {},
        NodeKind::HtmlBlock => {},
        NodeKind::Paragraph => {},
        NodeKind::Heading(_) => {},
        NodeKind::ThematicBreak => {},
        NodeKind::Table => {},
        NodeKind::TableRow => {},
        NodeKind::TableCell => {},
        NodeKind::Text => {},
        NodeKind::SoftBreak => {},
        NodeKind::LineBreak => {},
        NodeKind::Code => {},
        NodeKind::HtmlInline => {},
        NodeKind::Emph => {},
        NodeKind::Strong => {},
        NodeKind::Strikethrough => {},
        NodeKind::Link => {},
        NodeKind::Image => {},
        NodeKind::Other => {},
    }
}


/// An attribute as the XML writer writes it: a space, the name, `="`, the
/// value and `"`.
pub open spec fn attr_xml(k: Seq<char>, v: Seq<char>) -> Seq<char> {
    seq![' '] + k + seq!['=', '"'] + v + seq!['"']
}

/// Attributes one after the other.
pub open spec fn attrs_xml(kvs: Seq<(Seq<char>, Seq<char>)>) -> Seq<char>
    decreases kvs.len(),
{
    if kvs.len() == 0 {
        seq![]
    } else {
        attrs_xml(kvs.drop_last()) + attr_xml(kvs.last().0, kvs.last().1)
    }
}

/// An attribute name the reader takes as one name: no `=`, `>`, `/` or
/// space in it, and not the info string of a code block.
pub open spec fn key_ok(k: Seq<char>) -> bool {
    lacks(k, '=') && lacks(k, '>') && lacks(k, '/') && lacks(k, ' ') && k != "info"@
}

pub open spec fn attrs_ok(kvs: Seq<(Seq<char>, Seq<char>)>) -> bool {
    forall|i: int| 0 <= i < kvs.len() ==> key_ok(#[trigger] kvs[i].0) && lacks(kvs[i].1, '"')
}

/// The reader is inside the opening tag `name`, begun from state `p`,
/// having read the attributes `kvs` (the last one not yet stored).
pub open spec fn in_tag(r: XmlState, p: XmlState, name: Seq<char>, kvs: Seq<(Seq<char>, Seq<char>)>) -> bool {
    &&& r.stack == p.stack
    &&& r.root == p.root
    &&& r.name == name
    &&& if kvs.len() == 0 {
        r.mode == XmlMode::OpenName && r.attrs == Seq::<(Seq<char>, Seq<char>)>::empty()
    } else {
        &&& r.mode == XmlMode::AttrQuote
        &&& r.attrs == kvs.drop_last()
        &&& r.key == kvs.last().0
        &&& r.val == kvs.last().1
    }
}

proof fn lemma_read_attr(q: XmlState, k: Seq<char>, v: Seq<char>)
    requires
        q.mode == XmlMode::OpenName || q.mode == XmlMode::AttrQuote,
        key_ok(k),
        lacks(v, '"'),
    ensures
        ({
            let r = xml_steps(q, attr_xml(k, v));
            &&& r.mode == XmlMode::AttrQuote
            &&& r.attrs == if q.mode == XmlMode::OpenName {
                q.attrs
            } else {
                q.attrs.push((q.key, q.val))
            }
            &&& r.key == k
            &&& r.val == v
            &&& r.name == q.name
            &&& r.stack == q.stack
            &&& r.root == q.root
        }),
{
    let a1 = if q.mode == XmlMode::OpenName { q.attrs } else { q.attrs.push((q.key, q.val)) };
    let q1 = XmlState { mode: XmlMode::AttrKey, attrs: a1, key: seq![], ..q };
    let x1 = seq![' '];
    let x2 = x1 + k;
    let x3 = x2.push('=');
    let x4 = x3.push('"');
    let x5 = x4 + v;
    let x6 = x5.push('"');
    assert(attr_xml(k, v) =~= x6);
    lemma_step_one(q, ' ');
    assert(xml_steps(q, x1) == q1);
    lemma_steps_concat(q, x1, k);
    lemma_attr_key_steps(q1, k);
    assert(Seq::<char>::empty() + k =~= k);
    let q2 = XmlState { key: k, ..q1 };
    assert(xml_steps(q, x2) == q2);
    lemma_step_then(q, x2, '=');
    let q3 = XmlState { mode: XmlMode::AttrEq, ..q2 };
    lemma_step_then(q, x3, '"');
    let q4 = XmlState { mode: XmlMode::AttrVal, val: seq![], ..q3 };
    assert(xml_steps(q, x4) == q4);
    lemma_steps_concat(q, x4, v);
    lemma_attr_val_steps(q4, v);
    assert(Seq::<char>::empty() + v =~= v);
    let q5 = XmlState { val: v, ..q4 };
    assert(xml_steps(q, x5) == q5);
    lemma_step_then(q, x5, '"');
}

proof fn lemma_read_attrs(p: XmlState, kvs: Seq<(Seq<char>, Seq<char>)>)
    requires
        p.mode == XmlMode::OpenName,
        p.attrs == Seq::<(Seq<char>, Seq<char>)>::empty(),
        attrs_ok(kvs),
    ensures
        in_tag(xml_steps(p, attrs_xml(kvs)), p, p.name, kvs),
    decreases kvs.len(),
{
    if kvs.len() == 0 {
        assert(attrs_xml(kvs) == Seq::<char>::empty());
        assert(xml_steps(p, Seq::<char>::empty()) == p);
    } else {
        let d = kvs.drop_last();
        assert(attrs_ok(d)) by {
            assert forall|i: int| 0 <= i < d.len() implies key_ok(#[trigger] d[i].0) && lacks(d[i].1, '"') by {
                assert(d[i] == kvs[i]);
            }
        }
        lemma_read_attrs(p, d);
        let q = xml_steps(p, attrs_xml(d));
        let (k, v) = kvs.last();
        assert(kvs.last() == kvs[kvs.len() - 1]);
        assert(key_ok(kvs[kvs.len() - 1].0) && lacks(kvs[kvs.len() - 1].1, '"'));
        lemma_read_attr(q, k, v);
        lemma_steps_concat(p, attrs_xml(d), attr_xml(k, v));
        assert(attrs_xml(kvs) == attrs_xml(d) + attr_xml(k, v));
        let r = xml_steps(p, attrs_xml(kvs));
        assert(r == xml_steps(q, attr_xml(k, v)));
        assert(r.mode == XmlMode::AttrQuote);
        assert(r.key == kvs.last().0 && r.val == kvs.last().1);
        if d.len() > 0 {
            assert(d.drop_last().push(d.last()) =~= d);
            assert(q.mode == XmlMode::AttrQuote);
            assert(r.attrs == d);
        } else {
            assert(r.attrs == d);
        }
    }
}

/// The node an opening tag begins: its kind, and for an image its
/// destination.
pub open spec fn open_tree(name: Seq<char>, kvs: Seq<(Seq<char>, Seq<char>)>) -> Tree {
    let k = crate::xml::kind_of(name, kvs);
    Tree {
        kind: k,
        literal: seq![],
        url: if k == NodeKind::Image {
            decode(crate::xml::attr_value(kvs, "destination"@))
        } else {
            seq![]
        },
        children: seq![],
    }
}

/// `>` ends an opening tag: the element is open.
proof fn lemma_tag_open(q: XmlState, p: XmlState, name: Seq<char>, kvs: Seq<(Seq<char>, Seq<char>)>)
    requires
        in_tag(q, p, name, kvs),
    ensures
        ({
            let r = xml_step(q, '>');
            &&& r.mode == XmlMode::Text
            &&& r.text == Seq::<char>::empty()
            &&& r.stack == p.stack.push(open_tree(name, kvs))
            &&& r.root == p.root
        }),
{
    if kvs.len() > 0 {
        assert(kvs.drop_last().push((kvs.last().0, kvs.last().1)) =~= kvs);
    }
}

/// ` />` ends an element with no content.
proof fn lemma_tag_empty(q: XmlState, p: XmlState, name: Seq<char>, kvs: Seq<(Seq<char>, Seq<char>)>)
    requires
        in_tag(q, p, name, kvs),
    ensures
        ({
            let r = xml_steps(q, seq![' ', '/', '>']);
            let c = XmlState { text: seq![], stack: p.stack.push(open_tree(name, kvs)), ..q };
            &&& r.mode == XmlMode::Text
            &&& r.text == Seq::<char>::empty()
            &&& r.stack == crate::xml::close_elem(c).stack
            &&& r.root == crate::xml::close_elem(c).root
        }),
{
    let a1 = if kvs.len() == 0 { q.attrs } else { q.attrs.push((q.key, q.val)) };
    let q1 = XmlState { mode: XmlMode::AttrKey, attrs: a1, key: seq![], ..q };
    lemma_step_one(q, ' ');
    assert(xml_steps(q, seq![' ']) == q1);
    lemma_step_then(q, seq![' '], '/');
    assert(seq![' '].push('/') =~= seq![' ', '/']);
    let q2 = XmlState { mode: XmlMode::SelfClose, ..q1 };
    lemma_step_then(q, seq![' ', '/'], '>');
    assert(seq![' ', '/'].push('>') =~= seq![' ', '/', '>']);
    if kvs.len() > 0 {
        assert(kvs.drop_last().push((kvs.last().0, kvs.last().1)) =~= kvs);
    }
}


/// `n` spaces.
pub open spec fn spaces(n: nat) -> Seq<char> {
    Seq::new(n, |i: int| ' ')
}

/// The decimal digit for `d`, 0 to 9.
pub open spec fn digit(d: u8) -> char {
    if d == 0 { '0' } else if d == 1 { '1' } else if d == 2 { '2' } else if d == 3 { '3' }
    else if d == 4 { '4' } else if d == 5 { '5' } else if d == 6 { '6' } else if d == 7 { '7' }
    else if d == 8 { '8' } else { '9' }
}

/// The attributes the XML writer puts on a node, as far as the tree records
/// them (a list is written as a tight bullet list, a link or image with an
/// empty title).
pub open spec fn node_attrs(t: Tree) -> Seq<(Seq<char>, Seq<char>)> {
    match t.kind {
        NodeKind::Document => seq![("xmlns"@, "http://commonmark.org/xml/1.0"@)],
        NodeKind::List => seq![("type"@, "bullet"@), ("tight"@, "true"@)],
        NodeKind::TaskItem(c) => seq![("completed"@, if c { "true"@ } else { "false"@ })],
        NodeKind::Heading(l) => seq![("level"@, seq![digit(l)])],
        NodeKind::Link => seq![("destination"@, escape_text(t.url)), ("title"@, seq![])],
        NodeKind::Image => seq![("destination"@, escape_text(t.url)), ("title"@, seq![])],
        _ => seq![],
    }
}

/// A node as the CommonMark XML writer writes it at indentation `ind`: a
/// node with text on one line, an empty node as ` />`, and any other node
/// as its tags around its children, each on lines of their own.
pub open spec fn node_xml(t: Tree, ind: nat) -> Seq<char>
    decreases t,
{
    let name = kind_name(t.kind);
    if crate::xml::has_literal(t.kind) {
        spaces(ind) + seq!['<'] + name + attrs_xml(
            node_attrs(t).push(("xml:space"@, "preserve"@)),
        ) + seq!['>'] + escape_text(t.literal) + seq!['<', '/'] + name + seq!['>', '\n']
    } else if t.children.len() == 0 {
        spaces(ind) + seq!['<'] + name + attrs_xml(node_attrs(t)) + seq![' ', '/', '>', '\n']
    } else {
        spaces(ind) + seq!['<'] + name + attrs_xml(node_attrs(t)) + seq!['>', '\n'] + nodes_xml(
            t.children,
            ind + 2,
        ) + spaces(ind) + seq!['<', '/'] + name + seq!['>', '\n']
    }
}

/// Nodes one after the other.
pub open spec fn nodes_xml(cs: Seq<Tree>, ind: nat) -> Seq<char>
    decreases cs,
{
    if cs.len() == 0 {
        seq![]
    } else {
        nodes_xml(cs.drop_last(), ind) + node_xml(cs.last(), ind)
    }
}

/// A tree of the shape the XML writer writes and the reader keeps: no node
/// of another kind, heading levels of one digit, text only in nodes that
/// hold text (and no children there), a URL only on images, and no NUL.
pub open spec fn written_tree(t: Tree) -> bool
    decreases t,
{
    &&& t.kind != NodeKind::Other
    &&& (t.kind is Heading ==> t.kind->Heading_0 <= 9)
    &&& (crate::xml::has_literal(t.kind) ==> t.children.len() == 0)
    &&& (!crate::xml::has_literal(t.kind) ==> t.literal == Seq::<char>::empty())
    &&& (t.kind != NodeKind::Image ==> t.url == Seq::<char>::empty())
    &&& lacks(t.literal, '\0')
    &&& lacks(t.url, '\0')
    &&& forall|i: int| 0 <= i < t.children.len() ==> written_tree(#[trigger] t.children[i])
}

/// The reader's state `r` holds the node `t`, read from state `s`: it is
/// back between tags after a line break, and `t` is the last child of the
/// element being read, or the root when no element was open.
pub open spec fn read_node(s: XmlState, r: XmlState, t: Tree) -> bool {
    &&& r.mode == XmlMode::Text
    &&& r.text == seq!['\n']
    &&& s.stack.len() == 0 ==> r.stack.len() == 0 && r.root == Some(t)
    &&& s.stack.len() > 0 ==> r.root == s.root && r.stack == s.stack.drop_last().push(
        Tree { children: s.stack.last().children.push(t), ..s.stack.last() },
    )
}

proof fn lemma_digit(l: u8)
    requires
        l <= 9,
    ensures
        crate::xml::level_of(seq![digit(l)]) == l,
{
}

/// The attributes the writer puts on a node are read back as one name and
/// one value each, and give the node's kind and URL.
proof fn lemma_node_attrs(t: Tree)
    requires
        written_tree(t),
    ensures
        attrs_ok(node_attrs(t)),
        attrs_ok(node_attrs(t).push(("xml:space"@, "preserve"@))),
        open_tree(kind_name(t.kind), node_attrs(t)) == (Tree { literal: seq![], children: seq![], ..t }),
        open_tree(kind_name(t.kind), node_attrs(t).push(("xml:space"@, "preserve"@))) == (Tree {
            literal: seq![],
            children: seq![],
            ..t
        }),
        kind_name(t.kind).len() > 0,
        kind_name(t.kind)[0] != '/' && kind_name(t.kind)[0] != '?' && kind_name(t.kind)[0] != '!',
        lacks(kind_name(t.kind), ' ') && lacks(kind_name(t.kind), '>') && lacks(kind_name(t.kind), '/'),
{
    reveal_strlit("xmlns");
    reveal_strlit("http://commonmark.org/xml/1.0");
    reveal_strlit("type");
    reveal_strlit("bullet");
    reveal_strlit("tight");
    reveal_strlit("true");
    reveal_strlit("false");
    reveal_strlit("completed");
    reveal_strlit("level");
    reveal_strlit("destination");
    reveal_strlit("title");
    reveal_strlit("xml:space");
    reveal_strlit("preserve");
    reveal_strlit("info");
    lemma_decode_escape(t.url);
    let kvs = node_attrs(t);
    let kx = kvs.push(("xml:space"@, "preserve"@));
    assert forall|i: int| 0 <= i < kx.len() implies key_ok(#[trigger] kx[i].0) && lacks(kx[i].1, '"') by {
        let k = kx[i].0;
        let v = kx[i].1;
        assert forall|j: int| 0 <= j < k.len() implies k[j] != '=' && k[j] != '>' && k[j] != '/' && k[j] != ' ' by {}
        assert(k != "info"@) by {
            if k.len() == 4 {
                assert(k[0] != "info"@[0]);
            }
        }
        assert forall|j: int| 0 <= j < v.len() implies v[j] != '"' by {}
    }
    assert forall|i: int| 0 <= i < kvs.len() implies key_ok(#[trigger] kvs[i].0) && lacks(kvs[i].1, '"') by {
        assert(kvs[i] == kx[i]);
    }
    let hk = t.kind is Heading;
    if t.kind is Heading {
        lemma_digit(t.kind->Heading_0);
    }
    assert("level"@ != "xml:space"@ && "completed"@ != "xml:space"@ && "destination"@ != "xml:space"@
        && "destination"@ != "title"@) by {
        assert("level"@.len() != "xml:space"@.len());
        assert("completed"@[0] != "xml:space"@[0]);
        assert("destination"@.len() != "xml:space"@.len());
        assert("destination"@.len() != "title"@.len());
    }
    assert("false"@ != "true"@) by {
        assert("false"@.len() != "true"@.len());
    }
    assert(kx.drop_last() =~= kvs);
    assert(kx.last().0 == "xml:space"@);
    assert(crate::xml::attr_value(kx, "level"@) == crate::xml::attr_value(kvs, "level"@));
    assert(crate::xml::attr_value(kx, "completed"@) == crate::xml::attr_value(kvs, "completed"@));
    assert(crate::xml::attr_value(kx, "destination"@) == crate::xml::attr_value(kvs, "destination"@));
    if t.kind == NodeKind::Image || t.kind == NodeKind::Link {
        assert(kvs.drop_last() =~= seq![("destination"@, escape_text(t.url))]);
        assert(kvs.drop_last().last().0 == "destination"@);
        assert(crate::xml::attr_value(kvs.drop_last(), "destination"@) == escape_text(t.url));
        assert(kvs.last().0 == "title"@);
        assert(crate::xml::attr_value(kvs, "destination"@) == escape_text(t.url));
    }
    lemma_kind_name(t.kind, kvs);
    lemma_kind_name(t.kind, kx);
}


/// Closing an element whose open node is `t` with its text left out adds
/// `t` where `read_node` says.
proof fn lemma_close_node(s: XmlState, c: XmlState, t: Tree)
    requires
        c.stack == s.stack.push(Tree { literal: seq![], ..t }),
        c.root == s.root,
        crate::xml::has_literal(t.kind) ==> decode(c.text) == t.literal,
        !crate::xml::has_literal(t.kind) ==> t.literal == Seq::<char>::empty(),
    ensures
        s.stack.len() == 0 ==> crate::xml::close_elem(c).stack.len() == 0 && crate::xml::close_elem(
            c,
        ).root == Some(t),
        s.stack.len() > 0 ==> crate::xml::close_elem(c).root == s.root && crate::xml::close_elem(
            c,
        ).stack == s.stack.drop_last().push(
            Tree { children: s.stack.last().children.push(t), ..s.stack.last() },
        ),
{
    assert(c.stack.drop_last() =~= s.stack);
}

proof fn lemma_spaces_lack(n: nat)
    ensures
        lacks(spaces(n), '<'),
{
}

/// The indentation, `<` and the name that begin a node's tag.
proof fn lemma_read_head(s: XmlState, t: Tree, ind: nat)
    requires
        s.mode == XmlMode::Text,
        written_tree(t),
    ensures
        xml_steps(s, spaces(ind) + seq!['<'] + kind_name(t.kind)) == (XmlState {
            mode: XmlMode::OpenName,
            name: kind_name(t.kind),
            attrs: seq![],
            text: s.text + spaces(ind),
            ..s
        }),
{
    let name = kind_name(t.kind);
    lemma_node_attrs(t);
    let sp = spaces(ind);
    lemma_spaces_lack(ind);
    lemma_text_steps(s, sp);
    let s1 = XmlState { text: s.text + sp, ..s };
    lemma_read_open_name(s1, name);
    let h = sp + seq!['<'] + name;
    assert(h =~= sp + (seq!['<'] + name));
    lemma_steps_concat(s, sp, seq!['<'] + name);
}

#[verifier::rlimit(40)]
proof fn lemma_read_leaf_text(s: XmlState, t: Tree, ind: nat)
    requires
        s.mode == XmlMode::Text,
        written_tree(t),
        crate::xml::has_literal(t.kind),
    ensures
        read_node(s, xml_steps(s, node_xml(t, ind)), t),
{
    let name = kind_name(t.kind);
    lemma_node_attrs(t);
    lemma_read_head(s, t, ind);
    let sp = spaces(ind);
    let h = sp + seq!['<'] + name;
    let s2 = XmlState { mode: XmlMode::OpenName, name: name, attrs: seq![], text: s.text + sp, ..s };
    let x = node_xml(t, ind);
    let kvs = node_attrs(t).push(("xml:space"@, "preserve"@));
    lemma_read_attrs(s2, kvs);
    let a = attrs_xml(kvs);
    let q = xml_steps(s2, a);
    lemma_steps_concat(s, h, a);
    lemma_tag_open(q, s2, name, kvs);
    let x3 = (h + a).push('>');
    lemma_step_then(s, h + a, '>');
    let s4 = xml_step(q, '>');
    let e = escape_text(t.literal);
    lemma_decode_escape(t.literal);
    lemma_steps_concat(s, x3, e);
    lemma_text_steps(s4, e);
    assert(s4.text + e =~= e);
    let s5 = XmlState { text: e, ..s4 };
    assert(xml_steps(s, x3 + e) == s5);
    let cl = seq!['<', '/'] + name + seq!['>'];
    lemma_steps_concat(s, x3 + e, cl);
    lemma_read_close(s5, name);
    lemma_step_then(s, x3 + e + cl, '\n');
    assert(x =~= (x3 + e + cl).push('\n'));
    let c = XmlState { mode: XmlMode::CloseName, name: name, ..s5 };
    assert(t.children =~= Seq::<Tree>::empty());
    assert(c.stack == s.stack.push(Tree { literal: seq![], ..t }));
    lemma_close_node(s, c, t);
}

#[verifier::rlimit(40)]
proof fn lemma_read_leaf_empty(s: XmlState, t: Tree, ind: nat)
    requires
        s.mode == XmlMode::Text,
        written_tree(t),
        !crate::xml::has_literal(t.kind),
        t.children.len() == 0,
    ensures
        read_node(s, xml_steps(s, node_xml(t, ind)), t),
{
    let name = kind_name(t.kind);
    lemma_node_attrs(t);
    lemma_read_head(s, t, ind);
    let sp = spaces(ind);
    let h = sp + seq!['<'] + name;
    let s2 = XmlState { mode: XmlMode::OpenName, name: name, attrs: seq![], text: s.text + sp, ..s };
    let x = node_xml(t, ind);
    let kvs = node_attrs(t);
    lemma_read_attrs(s2, kvs);
    let a = attrs_xml(kvs);
    let q = xml_steps(s2, a);
    lemma_steps_concat(s, h, a);
    lemma_tag_empty(q, s2, name, kvs);
    lemma_steps_concat(s, h + a, seq![' ', '/', '>']);
    lemma_step_then(s, h + a + seq![' ', '/', '>'], '\n');
    assert(x =~= (h + a + seq![' ', '/', '>']).push('\n'));
    let c = XmlState { text: seq![], stack: s2.stack.push(open_tree(name, kvs)), ..q };
    assert(t.children =~= Seq::<Tree>::empty());
    lemma_close_node(s, c, t);
}

#[verifier::rlimit(40)]
proof fn lemma_read_node(s: XmlState, t: Tree, ind: nat)
    requires
        s.mode == XmlMode::Text,
        written_tree(t),
    ensures
        read_node(s, xml_steps(s, node_xml(t, ind)), t),
    decreases t,
{
    if crate::xml::has_literal(t.kind) {
        lemma_read_leaf_text(s, t, ind);
    } else if t.children.len() == 0 {
        lemma_read_leaf_empty(s, t, ind);
    } else {
        let name = kind_name(t.kind);
        lemma_node_attrs(t);
        lemma_read_head(s, t, ind);
        let sp = spaces(ind);
        lemma_spaces_lack(ind);
        let h = sp + seq!['<'] + name;
        let s2 = XmlState { mode: XmlMode::OpenName, name: name, attrs: seq![], text: s.text + sp, ..s };
        let x = node_xml(t, ind);
        let kvs = node_attrs(t);
        lemma_read_attrs(s2, kvs);
        let a = attrs_xml(kvs);
        let q = xml_steps(s2, a);
        lemma_steps_concat(s, h, a);
        lemma_tag_open(q, s2, name, kvs);
        let x3 = (h + a).push('>');
        lemma_step_then(s, h + a, '>');
        let s4 = xml_step(q, '>');
        let x4 = x3.push('\n');
        lemma_step_then(s, x3, '\n');
        let s5 = XmlState { text: seq!['\n'], ..s4 };
        assert(s4.text.push('\n') =~= seq!['\n']);
        assert(xml_steps(s, x4) == s5);
        let cs = t.children;
        assert forall|i: int| 0 <= i < cs.len() implies written_tree(#[trigger] cs[i]) by {}
        lemma_read_nodes(s5, cs, ind + 2);
        let cx = nodes_xml(cs, ind + 2);
        lemma_steps_concat(s, x4, cx);
        let s6 = xml_steps(s5, cx);
        assert(s5.stack.last().children + cs =~= cs);
        assert(s5.stack.drop_last() =~= s.stack);
        lemma_steps_concat(s, x4 + cx, sp);
        lemma_text_steps(s6, sp);
        let s7 = XmlState { text: s6.text + sp, ..s6 };
        let cl = seq!['<', '/'] + name + seq!['>'];
        lemma_steps_concat(s, x4 + cx + sp, cl);
        lemma_read_close(s7, name);
        lemma_step_then(s, x4 + cx + sp + cl, '\n');
        assert(x =~= (x4 + cx + sp + cl).push('\n'));
        let c = XmlState { mode: XmlMode::CloseName, name: name, ..s7 };
        assert(c.stack == s.stack.push(Tree { literal: seq![], ..t }));
        lemma_close_node(s, c, t);
    }
}

proof fn lemma_read_nodes(s: XmlState, cs: Seq<Tree>, ind: nat)
    requires
        s.mode == XmlMode::Text,
        s.stack.len() > 0,
        forall|i: int| 0 <= i < cs.len() ==> written_tree(#[trigger] cs[i]),
    ensures
        ({
            let r = xml_steps(s, nodes_xml(cs, ind));
            &&& r.mode == XmlMode::Text
            &&& r.root == s.root
            &&& r.stack == s.stack.drop_last().push(
                Tree { children: s.stack.last().children + cs, ..s.stack.last() },
            )
            &&& cs.len() > 0 ==> r.text == seq!['\n']
        }),
    decreases cs,
{
    let top = s.stack.last();
    if cs.len() == 0 {
        assert(nodes_xml(cs, ind) == Seq::<char>::empty());
        assert(xml_steps(s, Seq::<char>::empty()) == s);
        assert(top.children + cs =~= top.children);
        assert(s.stack.drop_last().push(top) =~= s.stack);
    } else {
        let d = cs.drop_last();
        let c = cs.last();
        assert forall|i: int| 0 <= i < d.len() implies written_tree(#[trigger] d[i]) by {
            assert(d[i] == cs[i]);
        }
        assert(c == cs[cs.len() - 1]);
        lemma_read_nodes(s, d, ind);
        let r1 = xml_steps(s, nodes_xml(d, ind));
        lemma_read_node(r1, c, ind);
        lemma_steps_concat(s, nodes_xml(d, ind), node_xml(c, ind));
        assert(r1.stack.drop_last() =~= s.stack.drop_last());
        assert((top.children + d).push(c) =~= top.children + cs);
    }
}

/// The lines the XML writer puts before the document element.
pub open spec fn xml_header() -> Seq<char> {
    "<?xml version=\"1.0\" encoding=\"UTF-8\"?>\n<!DOCTYPE document SYSTEM \"CommonMark.dtd\">\n"@
}

/// A document as the CommonMark XML writer writes it.
pub open spec fn document_xml(t: Tree) -> Seq<char> {
    xml_header() + node_xml(t, 0)
}

proof fn lemma_skip_steps(s: XmlState, y: Seq<char>)
    requires
        s.mode == XmlMode::Skip,
        lacks(y, '>'),
    ensures
        xml_steps(s, y) == s,
    decreases y.len(),
{
    if y.len() > 0 {
        let d = y.drop_last();
        assert(lacks(d, '>')) by {
            assert forall|i: int| 0 <= i < d.len() implies d[i] != '>' by {
                assert(d[i] == y[i]);
            }
        }
        lemma_skip_steps(s, d);
        assert(y.last() == y[y.len() - 1]);
    }
}

/// A declaration or processing instruction on a line of its own is skipped.
proof fn lemma_read_decl(s: XmlState, c0: char, body: Seq<char>)
    requires
        s.mode == XmlMode::Text,
        c0 == '?' || c0 == '!',
        lacks(body, '>'),
    ensures
        xml_steps(s, seq!['<', c0] + body + seq!['>', '\n']) == (XmlState {
            mode: XmlMode::Text,
            text: seq!['\n'],
            ..s
        }),
{
    let s2 = XmlState { mode: XmlMode::Skip, ..s };
    lemma_step_one(s, '<');
    lemma_step_then(s, seq!['<'], c0);
    assert(seq!['<'].push(c0) =~= seq!['<', c0]);
    lemma_steps_concat(s, seq!['<', c0], body);
    lemma_skip_steps(s2, body);
    let y = seq!['<', c0] + body;
    lemma_step_then(s, y, '>');
    lemma_step_then(s, y.push('>'), '\n');
    assert(y + seq!['>', '\n'] =~= y.push('>').push('\n'));
}

/// The reader reads back every document that the XML writer writes for a
/// tree of the shape it keeps (see `written_tree` and `node_xml`).
pub proof fn lemma_parse_written_document(t: Tree)
    requires
        written_tree(t),
    ensures
        crate::xml::parse_xml(document_xml(t)) == Some(t),
{
    reveal_strlit("<?xml version=\"1.0\" encoding=\"UTF-8\"?>\n<!DOCTYPE document SYSTEM \"CommonMark.dtd\">\n");
    reveal_strlit("xml version=\"1.0\" encoding=\"UTF-8\"?");
    reveal_strlit("DOCTYPE document SYSTEM \"CommonMark.dtd\"");
    let b1 = "xml version=\"1.0\" encoding=\"UTF-8\"?"@;
    let b2 = "DOCTYPE document SYSTEM \"CommonMark.dtd\""@;
    let d1 = seq!['<', '?'] + b1 + seq!['>', '\n'];
    let d2 = seq!['<', '!'] + b2 + seq!['>', '\n'];
    assert(xml_header() =~= d1 + d2);
    assert(lacks(b1, '>')) by {
        assert forall|i: int| 0 <= i < b1.len() implies b1[i] != '>' by {}
    }
    assert(lacks(b2, '>')) by {
        assert forall|i: int| 0 <= i < b2.len() implies b2[i] != '>' by {}
    }
    let s0 = xml_init();
    lemma_read_decl(s0, '?', b1);
    let s1 = XmlState { mode: XmlMode::Text, text: seq!['\n'], ..s0 };
    lemma_read_decl(s1, '!', b2);
    lemma_steps_concat(s0, d1, d2);
    let s2 = XmlState { mode: XmlMode::Text, text: seq!['\n'], ..s1 };
    assert(xml_steps(s0, xml_header()) == s2);
    lemma_read_node(s2, t, 0);
    lemma_steps_concat(s0, xml_header(), node_xml(t, 0));
    lemma_run_is_steps(document_xml(t));
}

} // verus!
