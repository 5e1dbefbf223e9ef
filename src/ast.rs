use vstd::prelude::*;
use crate::lexer::TokenType;

verus! {

/// A syntax-tree node: its kind, the text it carries and its children.
pub struct AstNode {
    pub data: String,
    pub children: Vec<Box<AstNode>>,
    pub node_type: TokenType,
}

/// What a node is: its kind, its text and the views of its children.
pub struct NodeView {
    pub kind: TokenType,
    pub data: Seq<char>,
    pub children: Seq<NodeView>,
}

pub open spec fn node_view(n: AstNode) -> NodeView
    decreases n, n.children@.len() + 1,
{
    NodeView { kind: n.node_type, data: n.data@, children: children_view(n, n.children@.len() as int) }
}

/// Views of the first `k` children.
pub open spec fn children_view(n: AstNode, k: int) -> Seq<NodeView>
    decreases n, k,
{
    if k <= 0 || k > n.children@.len() {
        Seq::empty()
    } else {
        children_view(n, k - 1).push(node_view(*n.children@[k - 1]))
    }
}

/// Children views depend on the children alone.
pub proof fn lemma_children_view_same(a: AstNode, b: AstNode, k: int)
    requires
        0 <= k <= a.children@.len(),
        k <= b.children@.len(),
        forall|i: int| 0 <= i < k ==> a.children@[i] == b.children@[i],
    ensures
        children_view(a, k) == children_view(b, k),
    decreases k,
{
    if k > 0 {
        lemma_children_view_same(a, b, k - 1);
    }
}

pub proof fn lemma_children_view_len(n: AstNode, k: int)
    requires
        0 <= k <= n.children@.len(),
    ensures
        children_view(n, k).len() == k,
    decreases k,
{
    if k > 0 {
        lemma_children_view_len(n, k - 1);
    }
}

/// The view of a node with one more child.
pub proof fn lemma_children_view_push(a: AstNode, b: AstNode, c: Box<AstNode>)
    requires
        b.children@ == a.children@.push(c),
    ensures
        children_view(b, b.children@.len() as int) == children_view(a, a.children@.len() as int).push(node_view(*c)),
{
    lemma_children_view_same(a, b, a.children@.len() as int);
}

} // verus!
