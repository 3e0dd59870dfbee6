//! Expressions, their nodes and patterns, converted and converted back.
use crate::ast_node::expr::{lemma_trees, lemma_unfold_args, root_tree, tree, tree_size, Expr};
use crate::ast_node::partial_expr::{
    holes, law_pattern_reads_back, node_count, partial_tree, pattern_tree, PartialExpr, PatternOp,
};
use crate::ast_node::Duplicate;
use crate::rec_expr::{points_back, RecExpr};
use vstd::prelude::*;

verus! {

/// An expression is that of its own nodes. There are no more nodes than parts,
/// the arguments of each stand before it, and the last is the root.
pub proof fn law_expr_reads_back<Op: Duplicate>(e: &Expr<Op>, nodes: &RecExpr<Op>, back: Expr<Op>)
    requires
        call_ensures(RecExpr::<Op>::from, (e,), *nodes),
        call_ensures(Expr::<Op>::from, (nodes,), back),
    ensures
        tree(back) == tree(*e),
        0 < nodes@.len() <= tree_size(tree(*e)),
        forall|i: int| 0 <= i < nodes@.len() ==> #[trigger] points_back(nodes@, i),
        nodes@.last().operation == e.operation,
        nodes@.last().args.len() == e.args@.len(),
{
    let last = nodes@.len() - 1;
    assert(points_back(nodes@, last));
    lemma_unfold_args(nodes@, last, nodes@[last].args.len());
    lemma_trees(e.args@);
    assert(root_tree(nodes@) == tree(*e));
}

/// Nodes that are made an expression and then nodes again stand for the same
/// tree.
pub proof fn law_nodes_read_back<Op: Duplicate>(
    nodes: &RecExpr<Op>,
    e: &Expr<Op>,
    back: RecExpr<Op>,
)
    requires
        nodes.wf(),
        nodes@.len() > 0,
        call_ensures(Expr::<Op>::from, (nodes,), *e),
        call_ensures(RecExpr::<Op>::from, (e,), back),
    ensures
        root_tree(back@) == root_tree(nodes@),
        back.wf(),
{
}

/// A partial expression is that of its own pattern, which has an entry for
/// each node and each hole, the arguments of each before it and the root last.
pub proof fn law_partial_expr_reads_back<Op: Duplicate, V: Duplicate>(
    e: &PartialExpr<Op, V>,
    pattern: &RecExpr<PatternOp<Op, V>>,
    back: PartialExpr<Op, V>,
)
    requires
        call_ensures(PartialExpr::<Op, V>::to_pattern, (e,), *pattern),
        call_ensures(PartialExpr::<Op, V>::from, (pattern,), back),
    ensures
        partial_tree(back) == partial_tree(*e),
        pattern@.len() == node_count(partial_tree(*e)) + holes(partial_tree(*e)).len(),
        forall|i: int| 0 <= i < pattern@.len() ==> #[trigger] points_back(pattern@, i),
        root_tree(pattern@) == pattern_tree(partial_tree(*e)),
{
    law_pattern_reads_back(partial_tree(*e));
}

} // verus!
