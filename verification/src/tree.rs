//! The document tree of a parsed Markdown text.

use vstd::prelude::*;

verus! {

/// The kind of a document node.
#[derive(Clone, Copy, Debug, PartialEq, Eq, Structural)]
pub enum NodeKind {
    Document,
    BlockQuote,
    List,
    Item,
    /// A task-list item; `true` when it is checked.
    TaskItem(bool),
    CodeBlock,
    HtmlBlock,
    Paragraph,
    /// A heading of the given level.
    Heading(u8),
    ThematicBreak,
    Table,
    TableRow,
    TableCell,
    Text,
    SoftBreak,
    LineBreak,
    Code,
    HtmlInline,
    Emph,
    Strong,
    Strikethrough,
    Link,
    Image,
    Other,
}

/// A node of the document tree.  `literal` holds the text of text, code,
/// code-block and HTML nodes; `url` holds the destination of an image.
pub struct MdNode {
    pub kind: NodeKind,
    pub literal: Vec<char>,
    pub url: Vec<char>,
    pub children: Vec<MdNode>,
}

/// A document tree as a mathematical value.
pub struct Tree {
    pub kind: NodeKind,
    pub literal: Seq<char>,
    pub url: Seq<char>,
    pub children: Seq<Tree>,
}

pub open spec fn node_view(n: MdNode) -> Tree
    decreases n,
{
    Tree { kind: n.kind, literal: n.literal@, url: n.url@, children: children_view(n.children@) }
}

pub open spec fn children_view(s: Seq<MdNode>) -> Seq<Tree>
    decreases s,
{
    if s.len() == 0 {
        seq![]
    } else {
        children_view(s.drop_last()).push(node_view(s.last()))
    }
}

impl MdNode {
    pub open spec fn view(&self) -> Tree {
        node_view(*self)
    }
}

/// The view of a prefix of `s` one longer than `s.take(i)`.
pub proof fn lemma_children_view_step(s: Seq<MdNode>, i: int)
    requires
        0 <= i < s.len(),
    ensures
        children_view(s.take(i + 1)) == children_view(s.take(i)).push(node_view(s[i])),
        children_view(s.take(i)).push(node_view(s[i])).drop_last() == children_view(s.take(i)),
        children_view(s.take(i)).push(node_view(s[i])).last() == node_view(s[i]),
{
    assert(s.take(i + 1).drop_last() =~= s.take(i));
    assert(children_view(s.take(i)).push(node_view(s[i])).drop_last() =~= children_view(s.take(i)));
}

pub proof fn lemma_children_view_len(s: Seq<MdNode>)
    ensures
        children_view(s).len() == s.len(),
        forall|i: int| 0 <= i < s.len() ==> #[trigger] children_view(s)[i] == node_view(s[i]),
    decreases s.len(),
{
    if s.len() > 0 {
        lemma_children_view_len(s.drop_last());
    }
}

} // verus!
