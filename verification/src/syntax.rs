//! The concrete syntax tree that a grammar engine hands to the front end:
//! every node has a kind, a text, and its children in source order.

use vstd::prelude::*;
use crate::text::str_eq;

verus! {

/// A node of a concrete syntax tree.
#[derive(Debug, PartialEq, Eq)]
pub struct SyntaxNode {
    /// The kind of the node: the name of its grammar rule, or the token
    /// itself. The grammar engine gives the kind `ERROR` to what it could not
    /// parse.
    pub kind: String,
    /// Whether the node stands for a named rule of the grammar rather than
    /// for a literal token.
    pub named: bool,
    /// Whether the grammar engine put the node in for a token that the
    /// source lacks.
    pub missing: bool,
    /// The source text that the node spans.
    pub text: String,
    /// The children of the node, in source order.
    pub children: Vec<SyntaxNode>,
}

/// The mathematical value of a [`SyntaxNode`].
pub struct SyntaxNodeView {
    pub kind: Seq<char>,
    pub named: bool,
    pub missing: bool,
    pub text: Seq<char>,
    pub children: Seq<SyntaxNodeView>,
}

/// The value of a node, child by child.
pub open spec fn node_view(node: SyntaxNode) -> SyntaxNodeView
    decreases node, 0nat,
{
    SyntaxNodeView {
        kind: node.kind@,
        named: node.named,
        missing: node.missing,
        text: node.text@,
        children: nodes_view(node.children@),
    }
}

/// The values of a sequence of nodes, in order.
pub open spec fn nodes_view(nodes: Seq<SyntaxNode>) -> Seq<SyntaxNodeView>
    decreases nodes, 1nat,
{
    Seq::new(
        nodes.len(),
        |i: int| if 0 <= i < nodes.len() { node_view(nodes[i]) } else { arbitrary() },
    )
}

impl View for SyntaxNode {
    type V = SyntaxNodeView;

    open spec fn view(&self) -> SyntaxNodeView {
        node_view(*self)
    }
}

/// The value of a node has as many children as the node.
pub proof fn lemma_children_len(node: SyntaxNode)
    ensures
        node@.children.len() == node.children@.len(),
{
}

/// The children of a node are viewed one by one.
pub proof fn lemma_child_view(node: SyntaxNode, i: int)
    requires
        0 <= i < node.children@.len(),
    ensures
        node@.children.len() == node.children@.len(),
        node@.children[i] == node.children@[i]@,
{
}

/// Whether a tree holds a syntax error: a node of kind `ERROR`, or a node
/// put in for a missing token, at its root or anywhere below.
pub open spec fn has_error(node: SyntaxNodeView) -> bool
    decreases node,
{
    ||| node.missing
    ||| node.kind == "ERROR"@
    ||| exists|i: int|
        #![trigger node.children[i]]
        0 <= i < node.children.len() && has_error(node.children[i])
}

impl SyntaxNode {
    /// Whether the node is of the given kind.
    pub fn is_kind(&self, kind: &str) -> (yes: bool)
        ensures
            yes == (self@.kind == kind@),
    {
        str_eq(self.kind.as_str(), kind)
    }

    /// Whether the tree under this node holds a syntax error.
    pub fn has_error(&self) -> (yes: bool)
        ensures
            yes == has_error(self@),
        decreases self,
    {
        if self.missing || self.is_kind("ERROR") {
            return true;
        }
        let mut i: usize = 0;
        proof {
            lemma_children_len(*self);
        }
        while i < self.children.len()
            invariant
                i <= self.children.len(),
                forall|j: int| 0 <= j < i ==> !has_error(#[trigger] self@.children[j]),
                self.children@.len() == self@.children.len(),
            decreases self.children.len() - i,
        {
            proof {
                lemma_child_view(*self, i as int);
            }
            if self.children[i].has_error() {
                return true;
            }
            i += 1;
        }
        false
    }
}

} // verus!
