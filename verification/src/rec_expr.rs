//! Expressions as lists of nodes.
use crate::ast_node::{node_views, AstNode, Duplicate, NodeView};
use vstd::prelude::*;

verus! {

/// An expression as a list of nodes. The arguments of a node are the indices
/// of nodes before it; the last node is the root.
#[derive(Debug)]
pub struct RecExpr<Op> {
    pub nodes: Vec<AstNode<Op>>,
}

impl<Op> View for RecExpr<Op> {
    type V = Seq<NodeView<Op>>;

    open spec fn view(&self) -> Seq<NodeView<Op>> {
        node_views(self.nodes@)
    }
}

/// Whether every argument of the node at `i` stands before it.
pub open spec fn points_back<Op>(s: Seq<NodeView<Op>>, i: int) -> bool {
    forall|j: int| 0 <= j < s[i].args.len() ==> (#[trigger] s[i].args[j]) < i
}

/// Whether the arguments of every node stand before it.
pub open spec fn well_ordered<Op>(s: Seq<NodeView<Op>>) -> bool {
    forall|i: int| 0 <= i < s.len() ==> #[trigger] points_back(s, i)
}

impl<Op> RecExpr<Op> {
    /// Whether the arguments of every node stand before it.
    pub open spec fn wf(&self) -> bool {
        well_ordered(self@)
    }

    /// An expression without nodes.
    pub fn new() -> (r: Self)
        ensures
            r.wf(),
            r@ == Seq::<NodeView<Op>>::empty(),
    {
        let r: RecExpr<Op> = RecExpr { nodes: Vec::new() };
        assert(r@ =~= Seq::<NodeView<Op>>::empty());
        r
    }

    /// Adds a node behind the others and returns its index.
    pub fn add(&mut self, node: AstNode<Op>) -> (r: usize)
        requires
            old(self).wf(),
            forall|j: int|
                0 <= j < node@.args.len() ==> (#[trigger] node@.args[j]) < old(self)@.len(),
        ensures
            final(self).wf(),
            final(self)@ == old(self)@.push(node@),
            r == old(self)@.len(),
    {
        let ghost s = self@;
        let ghost v = node@;
        let r: usize = self.nodes.len();
        self.nodes.push(node);
        assert(self@ =~= s.push(v));
        assert forall|i: int| 0 <= i < self@.len() implies #[trigger] points_back(self@, i) by {
            if i < s.len() {
                assert(points_back(s, i));
                assert(self@[i] == s[i]);
            } else {
                assert(self@[i] == v);
            }
        }
        r
    }

    /// The number of nodes.
    pub fn len(&self) -> (r: usize)
        ensures
            r == self@.len(),
    {
        self.nodes.len()
    }
}

impl<Op: Duplicate> RecExpr<Op> {
    /// A second expression with the same nodes.
    pub fn duplicate(&self) -> (r: Self)
        ensures
            r@ == self@,
    {
        let mut nodes: Vec<AstNode<Op>> = Vec::new();
        let n: usize = self.nodes.len();
        for i in 0..n
            invariant
                n == self.nodes@.len(),
                nodes@.len() == i,
                forall|j: int| 0 <= j < i ==> (#[trigger] nodes@[j])@ == self@[j],
        {
            nodes.push(self.nodes[i].duplicate());
        }
        assert(node_views(nodes@) =~= self@);
        RecExpr { nodes }
    }
}

} // verus!
