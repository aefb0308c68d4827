//! Reading of the CommonMark XML form of a document (the tree of elements
//! with their attributes and text content) into a document tree.

use vstd::prelude::*;
use crate::text::eq_str;
use crate::tree::{MdNode, NodeKind, Tree, node_view, children_view, lemma_children_view_len};

verus! {

/// `s[i..]` starts with the characters `a`, `b`, `c` followed by `;`.
pub open spec fn has_entity3(s: Seq<char>, a: char, b: char, c: char) -> bool {
    s.len() >= 5 && s[1] == a && s[2] == b && s[3] == c && s[4] == ';'
}

/// `s` with the character references `&amp;`, `&lt;`, `&gt;` and `&quot;`
/// replaced by the characters they stand for.
pub open spec fn decode(s: Seq<char>) -> Seq<char>
    decreases s.len(),
{
    if s.len() == 0 {
        seq![]
    } else if s[0] == '&' && has_entity3(s, 'a', 'm', 'p') {
        seq!['&'] + decode(s.skip(5))
    } else if s[0] == '&' && s.len() >= 4 && s[1] == 'l' && s[2] == 't' && s[3] == ';' {
        seq!['<'] + decode(s.skip(4))
    } else if s[0] == '&' && s.len() >= 4 && s[1] == 'g' && s[2] == 't' && s[3] == ';' {
        seq!['>'] + decode(s.skip(4))
    } else if s[0] == '&' && s.len() >= 6 && s[1] == 'q' && s[2] == 'u' && s[3] == 'o' && s[4]
        == 't' && s[5] == ';' {
        seq!['"'] + decode(s.skip(6))
    } else {
        seq![s[0]] + decode(s.skip(1))
    }
}

/// Decodes character references (see `decode`).
pub fn decode_exec(s: &Vec<char>) -> (r: Vec<char>)
    ensures
        r@ == decode(s@),
{
    let mut out: Vec<char> = Vec::new();
    let mut i: usize = 0;
    let n = s.len();
    assert(s@.skip(0) =~= s@);
    while i < n
        invariant
            i <= n == s.len(),
            out@ + decode(s@.skip(i as int)) == decode(s@),
        decreases n - i,
    {
        let ghost t = s@.skip(i as int);
        if s[i] == '&' && n - i >= 5 && s[i + 1] == 'a' && s[i + 2] == 'm' && s[i + 3] == 'p'
            && s[i + 4] == ';' {
            out.push('&');
            assert(t.skip(5) =~= s@.skip(i + 5));
            i = i + 5;
        } else if s[i] == '&' && n - i >= 4 && s[i + 1] == 'l' && s[i + 2] == 't' && s[i + 3]
            == ';' {
            out.push('<');
            assert(t.skip(4) =~= s@.skip(i + 4));
            i = i + 4;
        } else if s[i] == '&' && n - i >= 4 && s[i + 1] == 'g' && s[i + 2] == 't' && s[i + 3]
            == ';' {
            out.push('>');
            assert(t.skip(4) =~= s@.skip(i + 4));
            i = i + 4;
        } else if s[i] == '&' && n - i >= 6 && s[i + 1] == 'q' && s[i + 2] == 'u' && s[i + 3]
            == 'o' && s[i + 4] == 't' && s[i + 5] == ';' {
            out.push('"');
            assert(t.skip(6) =~= s@.skip(i + 6));
            i = i + 6;
        } else {
            out.push(s[i]);
            assert(t.skip(1) =~= s@.skip(i + 1));
            i = i + 1;
        }
        assert(out@ + decode(s@.skip(i as int)) =~= decode(s@));
    }
    assert(s@.skip(i as int) =~= Seq::<char>::empty());
    assert(out@ =~= decode(s@));
    out
}

/// `s` with `&`, `<`, `>` and `"` written as the character references
/// `&amp;`, `&lt;`, `&gt;` and `&quot;`, as the XML writer escapes text.
pub open spec fn escape(s: Seq<char>) -> Seq<char>
    decreases s.len(),
{
    if s.len() == 0 {
        seq![]
    } else {
        let c = s[0];
        (if c == '&' {
            "&amp;"@
        } else if c == '<' {
            "&lt;"@
        } else if c == '>' {
            "&gt;"@
        } else if c == '"' {
            "&quot;"@
        } else {
            seq![c]
        }) + escape(s.skip(1))
    }
}

/// Decoding undoes escaping: the text read back from an escaped text is the
/// text itself.
pub proof fn lemma_decode_escape(s: Seq<char>)
    ensures
        decode(escape(s)) == s,
    decreases s.len(),
{
    reveal_strlit("&amp;");
    reveal_strlit("&lt;");
    reveal_strlit("&gt;");
    reveal_strlit("&quot;");
    if s.len() > 0 {
        lemma_decode_escape(s.skip(1));
        let c = s[0];
        let rest = escape(s.skip(1));
        let e = escape(s);
        let n: int = if c == '&' {
            5
        } else if c == '<' || c == '>' {
            4
        } else if c == '"' {
            6
        } else {
            1
        };
        assert(e.skip(n) =~= rest);
        assert(seq![c] + s.skip(1) =~= s);
    }
}

/// Where the reader is in the XML text.
#[derive(Clone, Copy, PartialEq, Eq, Structural)]
pub enum XmlMode {
    /// Between tags.
    Text,
    /// Just after `<`.
    TagStart,
    /// In the name of an opening tag.
    OpenName,
    /// In an attribute name, or between attributes.
    AttrKey,
    /// Just after `=`.
    AttrEq,
    /// In a quoted attribute value.
    AttrVal,
    /// After a `"` in a quoted value: the value ends there when a space, `>`
    /// or `/` follows, and goes on otherwise (a code block's info string is
    /// written unescaped and may hold quotes).
    AttrQuote,
    /// In a code block that has an info string, from just after the opening
    /// quote of that string up to the end of the element's closing tag: the
    /// info string is written unescaped, so the tag ends only where the
    /// element's escaped text (which holds no `>`) begins.
    Info,
    /// After a `/` in a tag: `>` ends a self-closing tag; any other
    /// character is read as part of the attributes.
    SelfClose,
    /// In the name of a closing tag.
    CloseName,
    /// In a declaration or processing instruction.
    Skip,
}

/// The state of the reader: the mode, the text read since the last tag, the
/// tag name and attributes being read, the open elements, and the finished
/// root element.
pub struct XmlState {
    pub mode: XmlMode,
    pub text: Seq<char>,
    pub name: Seq<char>,
    pub attrs: Seq<(Seq<char>, Seq<char>)>,
    pub key: Seq<char>,
    pub val: Seq<char>,
    pub stack: Seq<Tree>,
    pub root: Option<Tree>,
}

/// The value of the last attribute named `key`, or the empty text.
pub open spec fn attr_value(attrs: Seq<(Seq<char>, Seq<char>)>, key: Seq<char>) -> Seq<char>
    decreases attrs.len(),
{
    if attrs.len() == 0 {
        seq![]
    } else if attrs.last().0 == key {
        attrs.last().1
    } else {
        attr_value(attrs.drop_last(), key)
    }
}

/// A heading level written as one decimal digit, or 0.
pub open spec fn level_of(v: Seq<char>) -> u8 {
    if v.len() == 1 && '0' <= v[0] <= '9' {
        (v[0] as u32 - 48) as u8
    } else {
        0
    }
}

/// The kind of node that an element of the given name and attributes stands
/// for.
pub open spec fn kind_of(name: Seq<char>, attrs: Seq<(Seq<char>, Seq<char>)>) -> NodeKind {
    if name == "document"@ {
        NodeKind::Document
    } else if name == "block_quote"@ {
        NodeKind::BlockQuote
    } else if name == "list"@ {
        NodeKind::List
    } else if name == "item"@ {
        NodeKind::Item
    } else if name == "taskitem"@ {
        NodeKind::TaskItem(attr_value(attrs, "completed"@) == "true"@)
    } else if name == "code_block"@ {
        NodeKind::CodeBlock
    } else if name == "html_block"@ {
        NodeKind::HtmlBlock
    } else if name == "paragraph"@ {
        NodeKind::Paragraph
    } else if name == "heading"@ {
        NodeKind::Heading(level_of(attr_value(attrs, "level"@)))
    } else if name == "thematic_break"@ {
        NodeKind::ThematicBreak
    } else if name == "table"@ {
        NodeKind::Table
    } else if name == "table_row"@ {
        NodeKind::TableRow
    } else if name == "table_cell"@ {
        NodeKind::TableCell
    } else if name == "text"@ {
        NodeKind::Text
    } else if name == "softbreak"@ {
        NodeKind::SoftBreak
    } else if name == "linebreak"@ {
        NodeKind::LineBreak
    } else if name == "code"@ {
        NodeKind::Code
    } else if name == "html_inline"@ {
        NodeKind::HtmlInline
    } else if name == "emph"@ {
        NodeKind::Emph
    } else if name == "strong"@ {
        NodeKind::Strong
    } else if name == "strikethrough"@ {
        NodeKind::Strikethrough
    } else if name == "link"@ {
        NodeKind::Link
    } else if name == "image"@ {
        NodeKind::Image
    } else {
        NodeKind::Other
    }
}

/// The kinds of node whose text content is kept.
pub open spec fn has_literal(k: NodeKind) -> bool {
    k == NodeKind::Text || k == NodeKind::Code || k == NodeKind::CodeBlock || k
        == NodeKind::HtmlBlock || k == NodeKind::HtmlInline
}

/// Starts an element with the tag name and attributes read.
pub open spec fn open_elem(s: XmlState) -> XmlState {
    let k = kind_of(s.name, s.attrs);
    let url = if k == NodeKind::Image {
        decode(attr_value(s.attrs, "destination"@))
    } else {
        seq![]
    };
    XmlState {
        stack: s.stack.push(Tree { kind: k, literal: seq![], url, children: seq![] }),
        ..s
    }
}

/// Ends the innermost open element: its text content is kept when its kind
/// has one, and it becomes the last child of the element around it, or the
/// root.
pub open spec fn close_elem(s: XmlState) -> XmlState {
    if s.stack.len() == 0 {
        s
    } else {
        let top = s.stack.last();
        let node = Tree {
            literal: if has_literal(top.kind) {
                decode(s.text)
            } else {
                seq![]
            },
            ..top
        };
        let rest = s.stack.drop_last();
        if rest.len() == 0 {
            XmlState { stack: seq![], root: Some(node), ..s }
        } else {
            let parent = rest.last();
            XmlState {
                stack: rest.drop_last().push(Tree { children: parent.children.push(node), ..parent }),
                ..s
            }
        }
    }
}

/// `s` ends with `t`.
pub open spec fn ends_with(s: Seq<char>, t: Seq<char>) -> bool {
    t.len() <= s.len() && s.skip(s.len() - t.len()) == t
}

/// What the XML writer puts after the text of a code block.
pub open spec fn code_close() -> Seq<char> {
    "</code_block>\n"@
}

/// The part of `s` after its last `>`; all of `s` when it has none.
pub open spec fn after_last_gt(s: Seq<char>) -> Seq<char>
    decreases s.len(),
{
    if s.len() == 0 {
        s
    } else if s.last() == '>' {
        seq![]
    } else {
        after_last_gt(s.drop_last()).push(s.last())
    }
}

/// One character among the attributes of an opening tag.
pub open spec fn attr_key_step(s: XmlState, c: char) -> XmlState {
    if c == '=' {
        XmlState { mode: XmlMode::AttrEq, ..s }
    } else if c == '>' {
        XmlState { mode: XmlMode::Text, text: seq![], ..open_elem(s) }
    } else if c == '/' {
        XmlState { mode: XmlMode::SelfClose, ..s }
    } else if c == ' ' {
        XmlState { mode: XmlMode::AttrKey, key: seq![], ..s }
    } else {
        XmlState { mode: XmlMode::AttrKey, key: s.key.push(c), ..s }
    }
}

pub open spec fn xml_step(s: XmlState, c: char) -> XmlState {
    match s.mode {
        XmlMode::Text => if c == '<' {
            XmlState { mode: XmlMode::TagStart, ..s }
        } else {
            XmlState { text: s.text.push(c), ..s }
        },
        XmlMode::TagStart => if c == '/' {
            XmlState { mode: XmlMode::CloseName, name: seq![], ..s }
        } else if c == '?' || c == '!' {
            XmlState { mode: XmlMode::Skip, ..s }
        } else {
            XmlState { mode: XmlMode::OpenName, name: seq![c], attrs: seq![], ..s }
        },
        XmlMode::OpenName => if c == ' ' {
            XmlState { mode: XmlMode::AttrKey, key: seq![], ..s }
        } else if c == '>' {
            XmlState { mode: XmlMode::Text, text: seq![], ..open_elem(s) }
        } else if c == '/' {
            XmlState { mode: XmlMode::SelfClose, ..s }
        } else {
            XmlState { name: s.name.push(c), ..s }
        },
        XmlMode::AttrKey => attr_key_step(s, c),
        XmlMode::AttrEq => if c == '"' && s.name == "code_block"@ && s.key == "info"@ {
            XmlState { mode: XmlMode::Info, val: seq![], ..s }
        } else if c == '"' {
            XmlState { mode: XmlMode::AttrVal, val: seq![], ..s }
        } else {
            XmlState { mode: XmlMode::AttrKey, key: seq![], ..s }
        },
        XmlMode::AttrVal => if c == '"' {
            XmlState { mode: XmlMode::AttrQuote, ..s }
        } else {
            XmlState { val: s.val.push(c), ..s }
        },
        XmlMode::AttrQuote => if c == ' ' || c == '>' || c == '/' {
            attr_key_step(
                XmlState { mode: XmlMode::AttrKey, attrs: s.attrs.push((s.key, s.val)), key: seq![], ..s },
                c,
            )
        } else if c == '"' {
            XmlState { val: s.val.push('"'), ..s }
        } else {
            XmlState { mode: XmlMode::AttrVal, val: s.val.push('"').push(c), ..s }
        },
        XmlMode::SelfClose => if c == '>' {
            XmlState {
                mode: XmlMode::Text,
                text: seq![],
                ..close_elem(XmlState { text: seq![], ..open_elem(s) })
            }
        } else {
            attr_key_step(s, c)
        },
        XmlMode::CloseName => if c == '>' {
            XmlState { mode: XmlMode::Text, text: seq![], ..close_elem(s) }
        } else {
            XmlState { name: s.name.push(c), ..s }
        },
        XmlMode::Info => {
            let v = s.val.push(c);
            if ends_with(v, code_close()) {
                let lit = after_last_gt(v.take(v.len() - code_close().len()));
                XmlState {
                    mode: XmlMode::Text,
                    text: seq!['\n'],
                    val: v,
                    ..close_elem(XmlState { text: lit, ..open_elem(s) })
                }
            } else {
                XmlState { val: v, ..s }
            }
        },
        XmlMode::Skip => if c == '>' {
            XmlState { mode: XmlMode::Text, text: seq![], ..s }
        } else {
            s
        },
    }
}

pub open spec fn xml_init() -> XmlState {
    XmlState {
        mode: XmlMode::Text,
        text: seq![],
        name: seq![],
        attrs: seq![],
        key: seq![],
        val: seq![],
        stack: seq![],
        root: None,
    }
}

pub open spec fn xml_run(x: Seq<char>) -> XmlState
    decreases x.len(),
{
    if x.len() == 0 {
        xml_init()
    } else {
        xml_step(xml_run(x.drop_last()), x.last())
    }
}

/// The document tree that an XML text describes: its last completed
/// top-level element, if any.
pub open spec fn parse_xml(x: Seq<char>) -> Option<Tree> {
    xml_run(x).root
}

pub open spec fn attrs_view(a: Seq<(Vec<char>, Vec<char>)>) -> Seq<(Seq<char>, Seq<char>)> {
    a.map_values(|p: (Vec<char>, Vec<char>)| (p.0@, p.1@))
}

struct XmlExec {
    mode: XmlMode,
    text: Vec<char>,
    name: Vec<char>,
    attrs: Vec<(Vec<char>, Vec<char>)>,
    key: Vec<char>,
    val: Vec<char>,
    stack: Vec<MdNode>,
    root: Option<MdNode>,
}

spec fn root_rel(e: Option<MdNode>, s: Option<Tree>) -> bool {
    match (e, s) {
        (Some(n), Some(t)) => node_view(n) == t,
        (None, None) => true,
        _ => false,
    }
}

spec fn xrel(e: XmlExec, s: XmlState) -> bool {
    &&& e.mode == s.mode
    &&& e.text@ == s.text
    &&& e.name@ == s.name
    &&& attrs_view(e.attrs@) == s.attrs
    &&& e.key@ == s.key
    &&& e.val@ == s.val
    &&& children_view(e.stack@) == s.stack
    &&& root_rel(e.root, s.root)
}

fn attr_value_exec(attrs: &Vec<(Vec<char>, Vec<char>)>, key: &str) -> (r: Vec<char>)
    ensures
        r@ == attr_value(attrs_view(attrs@), key@),
{
    let ghost av = attrs_view(attrs@);
    let mut i: usize = attrs.len();
    assert(av.take(i as int) =~= av);
    while i > 0
        invariant
            i <= attrs.len(),
            av == attrs_view(attrs@),
            attr_value(av, key@) == attr_value(av.take(i as int), key@),
        decreases i,
    {
        assert(av.take(i as int).drop_last() =~= av.take(i - 1));
        if eq_str(&attrs[i - 1].0, key) {
            return attrs[i - 1].1.clone();
        }
        i = i - 1;
    }
    Vec::new()
}

fn level_of_exec(v: &Vec<char>) -> (r: u8)
    ensures
        r == level_of(v@),
{
    if v.len() == 1 && '0' <= v[0] && v[0] <= '9' {
        (v[0] as u32 - 48) as u8
    } else {
        0
    }
}

fn kind_of_exec(name: &Vec<char>, attrs: &Vec<(Vec<char>, Vec<char>)>) -> (r: NodeKind)
    ensures
        r == kind_of(name@, attrs_view(attrs@)),
{
    if eq_str(name, "document") {
        NodeKind::Document
    } else if eq_str(name, "block_quote") {
        NodeKind::BlockQuote
    } else if eq_str(name, "list") {
        NodeKind::List
    } else if eq_str(name, "item") {
        NodeKind::Item
    } else if eq_str(name, "taskitem") {
        let v = attr_value_exec(attrs, "completed");
        NodeKind::TaskItem(eq_str(&v, "true"))
    } else if eq_str(name, "code_block") {
        NodeKind::CodeBlock
    } else if eq_str(name, "html_block") {
        NodeKind::HtmlBlock
    } else if eq_str(name, "paragraph") {
        NodeKind::Paragraph
    } else if eq_str(name, "heading") {
        let v = attr_value_exec(attrs, "level");
        NodeKind::Heading(level_of_exec(&v))
    } else if eq_str(name, "thematic_break") {
        NodeKind::ThematicBreak
    } else if eq_str(name, "table") {
        NodeKind::Table
    } else if eq_str(name, "table_row") {
        NodeKind::TableRow
    } else if eq_str(name, "table_cell") {
        NodeKind::TableCell
    } else if eq_str(name, "text") {
        NodeKind::Text
    } else if eq_str(name, "softbreak") {
        NodeKind::SoftBreak
    } else if eq_str(name, "linebreak") {
        NodeKind::LineBreak
    } else if eq_str(name, "code") {
        NodeKind::Code
    } else if eq_str(name, "html_inline") {
        NodeKind::HtmlInline
    } else if eq_str(name, "emph") {
        NodeKind::Emph
    } else if eq_str(name, "strong") {
        NodeKind::Strong
    } else if eq_str(name, "strikethrough") {
        NodeKind::Strikethrough
    } else if eq_str(name, "link") {
        NodeKind::Link
    } else if eq_str(name, "image") {
        NodeKind::Image
    } else {
        NodeKind::Other
    }
}

proof fn lemma_children_view_push(v: Seq<MdNode>, x: MdNode)
    ensures
        children_view(v.push(x)) == children_view(v).push(node_view(x)),
{
    assert(v.push(x).drop_last() =~= v);
}

fn open_elem_exec(e: &mut XmlExec, Ghost(s): Ghost<XmlState>)
    requires
        xrel(*old(e), s),
    ensures
        xrel(*final(e), open_elem(s)),
{
    let k = kind_of_exec(&e.name, &e.attrs);
    let url = if k == NodeKind::Image {
        let d = attr_value_exec(&e.attrs, "destination");
        decode_exec(&d)
    } else {
        Vec::new()
    };
    let node = MdNode { kind: k, literal: Vec::new(), url, children: Vec::new() };
    let ghost old_stack = e.stack@;
    e.stack.push(node);
    proof {
        lemma_children_view_push(old_stack, node);
        assert(node_view(node).literal =~= Seq::<char>::empty());
        assert(node_view(node).children =~= Seq::<Tree>::empty());
        assert(node_view(node).url =~= (if k == NodeKind::Image {
            decode(attr_value(s.attrs, "destination"@))
        } else {
            seq![]
        }));
    }
}

fn close_elem_exec(e: &mut XmlExec, Ghost(s): Ghost<XmlState>)
    requires
        xrel(*old(e), s),
    ensures
        xrel(*final(e), close_elem(s)),
{
    let ghost st0 = e.stack@;
    if e.stack.len() == 0 {
        assert(s.stack.len() == 0) by {
            lemma_children_view_len(st0);
        }
        return;
    }
    let top0 = e.stack.pop().unwrap();
    proof {
        assert(st0.drop_last() =~= e.stack@);
        assert(st0 =~= e.stack@.push(top0));
        lemma_children_view_push(e.stack@, top0);
        assert(s.stack.last() == node_view(top0));
        assert(s.stack.drop_last() =~= children_view(e.stack@));
    }
    let mut top = top0;
    let keep = top.kind == NodeKind::Text || top.kind == NodeKind::Code || top.kind
        == NodeKind::CodeBlock || top.kind == NodeKind::HtmlBlock || top.kind
        == NodeKind::HtmlInline;
    let lit = if keep {
        decode_exec(&e.text)
    } else {
        Vec::new()
    };
    top.literal = lit;
    let ghost node = Tree {
        literal: if has_literal(s.stack.last().kind) {
            decode(s.text)
        } else {
            seq![]
        },
        ..s.stack.last()
    };
    proof {
        assert(keep == has_literal(top0.kind));
        if !keep {
            assert(lit@ =~= Seq::<char>::empty());
        }
        assert(node_view(top) == node);
    }
    let ghost st1 = e.stack@;
    if e.stack.len() == 0 {
        e.root = Some(top);
        proof {
            assert(children_view(e.stack@) =~= Seq::<Tree>::empty());
            assert(s.stack.drop_last().len() == 0);
        }
        return;
    }
    let mut parent = e.stack.pop().unwrap();
    proof {
        assert(st1.drop_last() =~= e.stack@);
        assert(st1 =~= e.stack@.push(parent));
        lemma_children_view_push(e.stack@, parent);
        assert(s.stack.drop_last().last() == node_view(parent));
        assert(s.stack.drop_last().drop_last() =~= children_view(e.stack@));
    }
    let ghost pc = parent.children@;
    let ghost p0 = parent;
    parent.children.push(top);
    proof {
        lemma_children_view_push(pc, top);
        assert(node_view(parent) == Tree {
            children: node_view(p0).children.push(node),
            ..node_view(p0)
        });
    }
    let ghost st2 = e.stack@;
    e.stack.push(parent);
    proof {
        lemma_children_view_push(st2, parent);
    }
}

/// The characters of `v[..n]` after its last `>` (see `after_last_gt`).
fn after_last_gt_exec(v: &Vec<char>, n: usize) -> (r: Vec<char>)
    requires
        n <= v.len(),
    ensures
        r@ == after_last_gt(v@.take(n as int)),
{
    let mut i: usize = n;
    assert(v@.subrange(n as int, n as int) =~= Seq::<char>::empty());
    assert(after_last_gt(v@.take(n as int)) =~= after_last_gt(v@.take(n as int)) + v@.subrange(
        n as int,
        n as int,
    ));
    while i > 0 && v[i - 1] != '>'
        invariant
            i <= n <= v.len(),
            after_last_gt(v@.take(n as int)) == after_last_gt(v@.take(i as int)) + v@.subrange(
                i as int,
                n as int,
            ),
        decreases i,
    {
        let ghost p = v@.take(i as int);
        assert(p.drop_last() =~= v@.take(i - 1));
        assert(p.last() == v@[i - 1]);
        assert(after_last_gt(p.drop_last()).push(p.last()) + v@.subrange(i as int, n as int)
            =~= after_last_gt(v@.take(i - 1)) + v@.subrange(i - 1, n as int));
        i = i - 1;
    }
    if i > 0 {
        assert(v@.take(i as int).last() == v@[i - 1]);
    }
    assert(after_last_gt(v@.take(i as int)) =~= Seq::<char>::empty());
    let mut r: Vec<char> = Vec::new();
    let mut k: usize = i;
    while k < n
        invariant
            i <= k <= n <= v.len(),
            r@ =~= v@.subrange(i as int, k as int),
        decreases n - k,
    {
        r.push(v[k]);
        k = k + 1;
    }
    r
}

/// Whether `v` ends with `t` (see `ends_with`).
fn ends_with_str(v: &Vec<char>, t: &str) -> (r: bool)
    ensures
        r == ends_with(v@, t@),
{
    let n = t.unicode_len();
    if n > v.len() {
        return false;
    }
    let d = v.len() - n;
    let mut i: usize = 0;
    while i < n
        invariant
            n == t@.len(),
            d + n == v.len(),
            i <= n,
            forall|k: int| 0 <= k < i ==> v@[d + k] == t@[k],
        decreases n - i,
    {
        if v[d + i] != t.get_char(i) {
            assert(v@.skip(d as int)[i as int] != t@[i as int]);
            return false;
        }
        i = i + 1;
    }
    assert(v@.skip(d as int) =~= t@);
    true
}

fn attr_key_step_exec(e: &mut XmlExec, c: char, Ghost(s): Ghost<XmlState>)
    requires
        xrel(*old(e), s),
    ensures
        xrel(*final(e), attr_key_step(s, c)),
{
    if c == '=' {
        e.mode = XmlMode::AttrEq;
    } else if c == '>' {
        open_elem_exec(e, Ghost(s));
        e.mode = XmlMode::Text;
        e.text = Vec::new();
    } else if c == '/' {
        e.mode = XmlMode::SelfClose;
    } else if c == ' ' {
        e.mode = XmlMode::AttrKey;
        e.key = Vec::new();
    } else {
        e.mode = XmlMode::AttrKey;
        e.key.push(c);
    }
}

fn xml_step_exec(e: &mut XmlExec, c: char, Ghost(s): Ghost<XmlState>)
    requires
        xrel(*old(e), s),
    ensures
        xrel(*final(e), xml_step(s, c)),
{
    match e.mode {
        XmlMode::Text => {
            if c == '<' {
                e.mode = XmlMode::TagStart;
            } else {
                e.text.push(c);
            }
        },
        XmlMode::TagStart => {
            if c == '/' {
                e.mode = XmlMode::CloseName;
                e.name = Vec::new();
            } else if c == '?' || c == '!' {
                e.mode = XmlMode::Skip;
            } else {
                e.mode = XmlMode::OpenName;
                let mut n: Vec<char> = Vec::new();
                n.push(c);
                e.name = n;
                e.attrs = Vec::new();
                assert(attrs_view(e.attrs@) =~= Seq::<(Seq<char>, Seq<char>)>::empty());
                assert(e.name@ =~= seq![c]);
            }
        },
        XmlMode::OpenName => {
            if c == ' ' {
                e.mode = XmlMode::AttrKey;
                e.key = Vec::new();
            } else if c == '>' {
                open_elem_exec(e, Ghost(s));
                e.mode = XmlMode::Text;
                e.text = Vec::new();
            } else if c == '/' {
                e.mode = XmlMode::SelfClose;
            } else {
                e.name.push(c);
            }
        },
        XmlMode::AttrKey => attr_key_step_exec(e, c, Ghost(s)),
        XmlMode::AttrEq => {
            if c == '"' && eq_str(&e.name, "code_block") && eq_str(&e.key, "info") {
                e.mode = XmlMode::Info;
                e.val = Vec::new();
            } else if c == '"' {
                e.mode = XmlMode::AttrVal;
                e.val = Vec::new();
            } else {
                e.mode = XmlMode::AttrKey;
                e.key = Vec::new();
            }
        },
        XmlMode::AttrVal => {
            if c == '"' {
                e.mode = XmlMode::AttrQuote;
            } else {
                e.val.push(c);
            }
        },
        XmlMode::AttrQuote => {
            if c == ' ' || c == '>' || c == '/' {
                let k = e.key.clone();
                let v = e.val.clone();
                let ghost a0 = e.attrs@;
                e.attrs.push((k, v));
                assert(attrs_view(e.attrs@) =~= attrs_view(a0).push((s.key, s.val)));
                e.mode = XmlMode::AttrKey;
                e.key = Vec::new();
                let ghost s1 = XmlState {
                    mode: XmlMode::AttrKey,
                    attrs: s.attrs.push((s.key, s.val)),
                    key: seq![],
                    ..s
                };
                attr_key_step_exec(e, c, Ghost(s1));
            } else if c == '"' {
                e.val.push('"');
            } else {
                e.val.push('"');
                e.val.push(c);
                e.mode = XmlMode::AttrVal;
            }
        },
        XmlMode::SelfClose => {
            if c == '>' {
                open_elem_exec(e, Ghost(s));
                e.text = Vec::new();
                let ghost s1 = XmlState { text: seq![], ..open_elem(s) };
                close_elem_exec(e, Ghost(s1));
                e.mode = XmlMode::Text;
                e.text = Vec::new();
            } else {
                attr_key_step_exec(e, c, Ghost(s));
            }
        },
        XmlMode::CloseName => {
            if c == '>' {
                close_elem_exec(e, Ghost(s));
                e.mode = XmlMode::Text;
                e.text = Vec::new();
            } else {
                e.name.push(c);
            }
        },
        XmlMode::Info => {
            e.val.push(c);
            let ghost v = s.val.push(c);
            let ghost s1 = XmlState { val: v, ..s };
            if ends_with_str(&e.val, "</code_block>\n") {
                proof {
                    reveal_strlit("</code_block>\n");
                }
                let lit = after_last_gt_exec(&e.val, e.val.len() - 14);
                open_elem_exec(e, Ghost(s1));
                e.text = lit;
                let ghost s2 = XmlState { text: lit@, ..open_elem(s1) };
                close_elem_exec(e, Ghost(s2));
                e.mode = XmlMode::Text;
                let mut nl: Vec<char> = Vec::new();
                nl.push('\n');
                e.text = nl;
                assert(e.text@ =~= seq!['\n']);
            }
        },
        XmlMode::Skip => {
            if c == '>' {
                e.mode = XmlMode::Text;
                e.text = Vec::new();
            }
        },
    }
}

/// Reads the document tree that the XML text `x` describes (see `parse_xml`).
pub fn parse_xml_exec(x: &Vec<char>) -> (r: Option<MdNode>)
    ensures
        match (r, parse_xml(x@)) {
            (Some(n), Some(t)) => n.view() == t,
            (None, None) => true,
            _ => false,
        },
{
    let mut e = XmlExec {
        mode: XmlMode::Text,
        text: Vec::new(),
        name: Vec::new(),
        attrs: Vec::new(),
        key: Vec::new(),
        val: Vec::new(),
        stack: Vec::new(),
        root: None,
    };
    assert(attrs_view(e.attrs@) =~= Seq::<(Seq<char>, Seq<char>)>::empty());
    assert(children_view(e.stack@) =~= Seq::<Tree>::empty());
    assert(xrel(e, xml_init()));
    let mut i: usize = 0;
    assert(x@.take(0) =~= Seq::<char>::empty());
    while i < x.len()
        invariant
            i <= x.len(),
            xrel(e, xml_run(x@.take(i as int))),
        decreases x.len() - i,
    {
        assert(x@.take(i + 1).drop_last() =~= x@.take(i as int));
        xml_step_exec(&mut e, x[i], Ghost(xml_run(x@.take(i as int))));
        i = i + 1;
    }
    assert(x@.take(i as int) =~= x@);
    e.root
}

} // verus!
