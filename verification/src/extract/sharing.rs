//! Expressions in which equal parts are one node.
use crate::ast_node::expr::{lemma_unfold_args, root_tree, unfold, unfold_args, Tree};
use crate::ast_node::{AstNode, Duplicate, Identical, NodeView};
use crate::rec_expr::{points_back, well_ordered, RecExpr};
use egg::{AstSize, EGraph, Extractor, Id, SymbolLang};
use vstd::prelude::*;

verus! {

/// Nodes whose operations are numbers.
pub open spec fn numbered_nodes(s: Seq<(usize, Seq<usize>)>) -> Seq<NodeView<usize>> {
    Seq::new(s.len(), |i: int| NodeView { operation: s[i].0, args: s[i].1 })
}

/// The nodes with their arguments as sequences.
pub open spec fn pairs_view(s: Seq<(usize, Vec<usize>)>) -> Seq<(usize, Seq<usize>)> {
    Seq::new(s.len(), |i: int| (s[i].0, s[i].1@))
}

/// Whether a node has operation `op`.
pub open spec fn has_operation(s: Seq<(usize, Vec<usize>)>, op: usize) -> bool {
    exists|j: int| 0 <= j < s.len() && (#[trigger] s[j]).0 == op
}

/// The smallest expression that `egg` extracts from an e-graph that holds
/// nothing but these nodes.
pub uninterp spec fn egg_shared(nodes: Seq<(usize, Seq<usize>)>) -> Seq<(usize, Seq<usize>)>;

/// `egg::EGraph::add_expr` on an empty e-graph, then
/// `egg::Extractor::find_best` by `egg::AstSize`: equal nodes fall into one
/// class, and each class has one node, so what is extracted is the same tree,
/// its nodes in an order that depends on the tree alone, arguments first.
#[verifier::external_body]
fn share_numbers(nodes: &Vec<(usize, Vec<usize>)>) -> (r: Vec<(usize, Vec<usize>)>)
    requires
        0 < nodes@.len() <= u32::MAX,
        well_ordered(numbered_nodes(pairs_view(nodes@))),
    ensures
        pairs_view(r@) == egg_shared(pairs_view(nodes@)),
        0 < r@.len() <= nodes@.len(),
        well_ordered(numbered_nodes(pairs_view(r@))),
        forall|i: int| 0 <= i < r@.len() ==> has_operation(nodes@, (#[trigger] r@[i]).0),
        root_tree(numbered_nodes(pairs_view(r@))) == root_tree(
            numbered_nodes(pairs_view(nodes@)),
        ),
{
    let to_egg = |n: &(usize, Vec<usize>)| {
        SymbolLang::new(n.0.to_string(), n.1.iter().copied().map(Id::from).collect())
    };
    let expr: Vec<_> = nodes.iter().map(to_egg).collect();
    let mut egraph = EGraph::new(());
    let root = egraph.add_expr(&expr.into());
    egraph.rebuild();
    let best = Extractor::new(&egraph, AstSize).find_best(root).1;
    let from_egg = |n: &SymbolLang| {
        (n.op.as_str().parse().unwrap(), n.children.iter().copied().map(usize::from).collect())
    };
    best.as_ref().iter().map(from_egg).collect()
}

/// The first node whose operation is that of the node at `i`.
pub open spec fn first_like<Op: Identical>(e: Seq<NodeView<Op>>, i: int, j: int) -> int
    decreases i - j,
{
    if j >= i || e[j].operation.s_identical(&e[i].operation) {
        j
    } else {
        first_like(e, i, j + 1)
    }
}

/// The nodes with numbers for operations: equal operations have the number of
/// the first node with them.
pub open spec fn numbered<Op: Identical>(e: Seq<NodeView<Op>>) -> Seq<(usize, Seq<usize>)> {
    Seq::new(e.len(), |i: int| (first_like(e, i, 0) as usize, e[i].args))
}

/// Nodes with the operations of `e` in place of their numbers.
pub open spec fn renamed<Op>(e: Seq<NodeView<Op>>, s: Seq<(usize, Seq<usize>)>) -> Seq<
    NodeView<Op>,
> {
    Seq::new(s.len(), |i: int| NodeView { operation: e[s[i].0 as int].operation, args: s[i].1 })
}

/// The nodes of an expression in which equal parts are one node.
pub open spec fn shared<Op: Identical>(e: Seq<NodeView<Op>>) -> Seq<NodeView<Op>> {
    if 0 < e.len() <= u32::MAX {
        renamed(e, egg_shared(numbered(e)))
    } else {
        e
    }
}

/// A tree of numbers with the operations of `e` in their place.
spec fn renamed_tree<Op>(e: Seq<NodeView<Op>>, t: Tree<usize>) -> Tree<Op>
    decreases t, 0nat,
{
    Tree { operation: e[t.operation as int].operation, args: renamed_trees(e, t.args) }
}

spec fn renamed_trees<Op>(e: Seq<NodeView<Op>>, s: Seq<Tree<usize>>) -> Seq<Tree<Op>>
    decreases s, s.len(),
{
    if s.len() == 0 {
        Seq::empty()
    } else {
        renamed_trees(e, s.drop_last()).push(renamed_tree(e, s.last()))
    }
}

proof fn lemma_renamed_trees<Op>(e: Seq<NodeView<Op>>, s: Seq<Tree<usize>>)
    ensures
        renamed_trees(e, s).len() == s.len(),
        forall|i: int|
            0 <= i < s.len() ==> (#[trigger] renamed_trees(e, s)[i]) == renamed_tree(e, s[i]),
    decreases s.len(),
{
    if s.len() > 0 {
        lemma_renamed_trees(e, s.drop_last());
    }
}

proof fn lemma_renamed<Op>(e: Seq<NodeView<Op>>, s: Seq<(usize, Seq<usize>)>, i: int)
    requires
        well_ordered(numbered_nodes(s)),
        0 <= i < s.len(),
    ensures
        unfold(renamed(e, s), i) == renamed_tree(e, unfold(numbered_nodes(s), i)),
    decreases i,
{
    let a = renamed(e, s);
    let b = numbered_nodes(s);
    let n = s[i].1.len();
    assert(points_back(b, i));
    assert(points_back(a, i)) by {
        assert forall|j: int| 0 <= j < a[i].args.len() implies (#[trigger] a[i].args[j]) < i by {
            assert(b[i].args[j] < i);
        }
    }
    lemma_unfold_args(a, i, n);
    lemma_unfold_args(b, i, n);
    let x = unfold_args(a, i, n);
    let y = unfold_args(b, i, n);
    lemma_renamed_trees(e, y);
    assert forall|j: int| 0 <= j < n implies x[j] == renamed_trees(e, y)[j] by {
        assert(b[i].args[j] < i);
        lemma_renamed(e, s, b[i].args[j] as int);
    }
    assert(x =~= renamed_trees(e, y));
}

proof fn lemma_first_like<Op: Identical>(e: Seq<NodeView<Op>>, i: int, j: int)
    requires
        0 <= j <= i < e.len(),
    ensures
        j <= first_like(e, i, j) <= i,
        e[first_like(e, i, j)].operation == e[i].operation,
    decreases i - j,
{
    if j < i {
        if e[j].operation.s_identical(&e[i].operation) {
            Op::identical_are_equal(e[j].operation, e[i].operation);
        } else {
            lemma_first_like(e, i, j + 1);
        }
    }
}

/// Sharing keeps the tree.
proof fn lemma_sharing_keeps_the_tree<Op: Identical>(e: Seq<NodeView<Op>>)
    requires
        well_ordered(e),
        0 < e.len() <= u32::MAX,
        well_ordered(numbered_nodes(egg_shared(numbered(e)))),
        egg_shared(numbered(e)).len() > 0,
        root_tree(numbered_nodes(egg_shared(numbered(e)))) == root_tree(
            numbered_nodes(numbered(e)),
        ),
    ensures
        root_tree(shared(e)) == root_tree(e),
{
    let s = numbered(e);
    let t = egg_shared(s);
    lemma_numbered_ordered(e);
    assert(renamed(e, s) =~= e) by {
        assert forall|i: int| 0 <= i < e.len() implies renamed(e, s)[i] == e[i] by {
            lemma_first_like(e, i, 0);
        }
    }
    lemma_renamed(e, s, s.len() - 1);
    lemma_renamed(e, t, t.len() - 1);
}

proof fn lemma_numbered_ordered<Op: Identical>(e: Seq<NodeView<Op>>)
    requires
        well_ordered(e),
    ensures
        well_ordered(numbered_nodes(numbered(e))),
{
    let b = numbered_nodes(numbered(e));
    assert forall|i: int| 0 <= i < b.len() implies #[trigger] points_back(b, i) by {
        assert(points_back(e, i));
        assert(b[i].args == e[i].args);
    }
}

/// The expression in which equal parts are one node.
pub fn share<Op: Duplicate + Identical>(expr: &RecExpr<Op>) -> (r: RecExpr<Op>)
    requires
        expr.wf(),
    ensures
        r@ == shared(expr@),
        r.wf(),
        r@.len() > 0 <==> expr@.len() > 0,
        expr@.len() > 0 ==> root_tree(r@) == root_tree(expr@),
{
    let ghost e = expr@;
    let n: usize = expr.nodes.len();
    if n == 0 || n as u64 > u32::MAX as u64 {
        return expr.duplicate();
    }
    let mut pairs: Vec<(usize, Vec<usize>)> = Vec::new();
    for i in 0..n
        invariant
            e == expr@,
            n == e.len(),
            pairs@.len() == i,
            forall|k: int|
                0 <= k < i ==> (#[trigger] pairs@[k]).0 == numbered(e)[k].0 && pairs@[k].1@
                    == numbered(e)[k].1 && pairs@[k].0 < n,
    {
        let node: &AstNode<Op> = &expr.nodes[i];
        assert(e[i as int] == node@);
        let mut j: usize = 0;
        while j < i && !expr.nodes[j].operation.identical(&node.operation)
            invariant
                e == expr@,
                i < n == e.len(),
                j <= i,
                *node == expr.nodes@[i as int],
                first_like(e, i as int, 0) == first_like(e, i as int, j as int),
            decreases i - j,
        {
            assert(e[j as int] == expr.nodes@[j as int]@);
            j = j + 1;
        }
        assert(e[j as int] == expr.nodes@[j as int]@);
        let m: usize = node.args.len();
        let mut args: Vec<usize> = Vec::new();
        for k in 0..m
            invariant
                m == node.args@.len(),
                args@ == node.args@.take(k as int),
        {
            args.push(node.args[k]);
            assert(args@ =~= node.args@.take(k + 1));
        }
        assert(args@ =~= node.args@);
        pairs.push((j, args));
    }
    assert(pairs_view(pairs@) =~= numbered(e));
    proof {
        lemma_numbered_ordered(e);
    }
    let out: Vec<(usize, Vec<usize>)> = share_numbers(&pairs);
    let ghost t = pairs_view(out@);
    proof {
        lemma_sharing_keeps_the_tree(e);
    }
    let mut nodes: Vec<AstNode<Op>> = Vec::new();
    let m: usize = out.len();
    for i in 0..m
        invariant
            e == expr@,
            n == e.len() == pairs@.len(),
            m == out@.len(),
            t == pairs_view(out@),
            forall|k: int| 0 <= k < n ==> (#[trigger] pairs@[k]).0 < n,
            forall|k: int| 0 <= k < m ==> has_operation(pairs@, (#[trigger] out@[k]).0),
            nodes@.len() == i,
            forall|k: int| 0 <= k < i ==> (#[trigger] nodes@[k])@ == renamed(e, t)[k],
    {
        let op: usize = out[i].0;
        assert(op < n) by {
            assert(has_operation(pairs@, out@[i as int].0));
            let j = choose|j: int|
                0 <= j < pairs@.len() && (#[trigger] pairs@[j]).0 == out@[i as int].0;
            assert(pairs@[j].0 < n);
        }
        let given: &Vec<usize> = &out[i].1;
        let q: usize = given.len();
        let mut args: Vec<usize> = Vec::new();
        for k in 0..q
            invariant
                q == given@.len(),
                args@ == given@.take(k as int),
        {
            args.push(given[k]);
            assert(args@ =~= given@.take(k + 1));
        }
        assert(args@ =~= given@);
        assert(e[op as int] == expr.nodes@[op as int]@);
        nodes.push(AstNode::new(expr.nodes[op].operation.duplicate(), args));
        assert(t[i as int] == (op, given@));
    }
    let r: RecExpr<Op> = RecExpr { nodes };
    assert(r@ =~= renamed(e, t));
    assert(r.wf()) by {
        assert forall|i: int| 0 <= i < r@.len() implies #[trigger] points_back(r@, i) by {
            assert(points_back(numbered_nodes(t), i));
            assert(r@[i].args == numbered_nodes(t)[i].args);
        }
    }
    r
}

} // verus!
