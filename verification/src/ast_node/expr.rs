//! Expressions as trees whose parts may be shared.
use crate::ast_node::{AstNode, Duplicate, NodeView};
use crate::number::Number;
use crate::rec_expr::{points_back, well_ordered, RecExpr};
use crate::teachable::Teachable;
use std::sync::Arc;
use vstd::prelude::*;

verus! {

/// An abstract syntax tree.
#[derive(Debug)]
pub struct Expr<Op> {
    pub operation: Op,
    pub args: Vec<Arc<Expr<Op>>>,
}

/// A tree of operations.
#[verifier::ext_equal]
pub struct Tree<Op> {
    pub operation: Op,
    pub args: Seq<Tree<Op>>,
}

/// The tree of an expression.
pub open spec fn tree<Op>(e: Expr<Op>) -> Tree<Op>
    decreases e, 0nat,
{
    Tree { operation: e.operation, args: trees(e.args@) }
}

/// The trees of expressions.
pub open spec fn trees<Op>(s: Seq<Arc<Expr<Op>>>) -> Seq<Tree<Op>>
    decreases s, s.len(),
{
    if s.len() == 0 {
        Seq::empty()
    } else {
        trees(s.drop_last()).push(tree(*s.last()))
    }
}

/// The number of nodes of a tree.
pub open spec fn tree_size<Op>(t: Tree<Op>) -> nat
    decreases t, 0nat,
{
    1 + tree_sizes(t.args)
}

/// The number of nodes of several trees.
pub open spec fn tree_sizes<Op>(s: Seq<Tree<Op>>) -> nat
    decreases s, s.len(),
{
    if s.len() == 0 {
        0
    } else {
        tree_sizes(s.drop_last()) + tree_size(s.last())
    }
}

/// The tree that the node at `i` stands for.
pub open spec fn unfold<Op>(e: Seq<NodeView<Op>>, i: int) -> Tree<Op>
    decreases i, e[i].args.len() + 1,
{
    Tree { operation: e[i].operation, args: unfold_args(e, i, e[i].args.len()) }
}

/// The trees that the first `k` arguments of the node at `i` stand for.
pub open spec fn unfold_args<Op>(e: Seq<NodeView<Op>>, i: int, k: nat) -> Seq<Tree<Op>>
    decreases i, k,
{
    if k == 0 {
        Seq::empty()
    } else {
        let arg = e[i].args[k - 1] as int;
        unfold_args(e, i, (k - 1) as nat).push(
            if arg < i {
                unfold(e, arg)
            } else {
                arbitrary()
            },
        )
    }
}

/// The tree that an expression stands for: that of its last node.
pub open spec fn root_tree<Op>(e: Seq<NodeView<Op>>) -> Tree<Op> {
    unfold(e, e.len() - 1)
}

pub(crate) proof fn lemma_trees<Op>(s: Seq<Arc<Expr<Op>>>)
    ensures
        trees(s).len() == s.len(),
        forall|i: int| 0 <= i < s.len() ==> (#[trigger] trees(s)[i]) == tree(*s[i]),
    decreases s.len(),
{
    if s.len() > 0 {
        lemma_trees(s.drop_last());
    }
}

pub(crate) proof fn lemma_unfold_args<Op>(e: Seq<NodeView<Op>>, i: int, k: nat)
    requires
        points_back(e, i),
        k <= e[i].args.len(),
    ensures
        unfold_args(e, i, k).len() == k,
        forall|j: int|
            0 <= j < k ==> (#[trigger] unfold_args(e, i, k)[j]) == unfold(e, e[i].args[j] as int),
    decreases k,
{
    if k > 0 {
        lemma_unfold_args(e, i, (k - 1) as nat);
        assert(e[i].args[k - 1] < i);
    }
}

/// What a node stands for depends only on what stands at or before it, and
/// not on where the whole stands.
pub(crate) proof fn lemma_unfold_shifted<Op>(
    e: Seq<NodeView<Op>>,
    t: Seq<NodeView<Op>>,
    off: int,
    i: int,
)
    requires
        well_ordered(e),
        well_ordered(t),
        0 <= off,
        0 <= i < e.len(),
        off + i < t.len(),
        forall|j: int|
            0 <= j <= i ==> {
                &&& (#[trigger] t[off + j]).operation == e[j].operation
                &&& t[off + j].args.len() == e[j].args.len()
                &&& forall|m: int|
                    0 <= m < e[j].args.len() ==> (#[trigger] t[off + j].args[m]) == off
                        + e[j].args[m]
            },
    ensures
        unfold(t, off + i) == unfold(e, i),
    decreases i,
{
    assert(points_back(e, i));
    assert(points_back(t, off + i));
    let n = e[i].args.len();
    assert(t[off + i].args.len() == n);
    lemma_unfold_args(e, i, n);
    lemma_unfold_args(t, off + i, n);
    let a = unfold_args(e, i, n);
    let b = unfold_args(t, off + i, n);
    assert forall|m: int| 0 <= m < n implies a[m] == b[m] by {
        let arg = e[i].args[m] as int;
        assert(e[i].args[m] < i);
        assert(t[off + i].args[m] == off + arg);
        lemma_unfold_shifted(e, t, off, arg);
    }
    assert(a =~= b);
}

/// What a node stands for does not change when nodes are added behind it.
pub(crate) proof fn lemma_unfold_prefix<Op>(e: Seq<NodeView<Op>>, t: Seq<NodeView<Op>>, i: int)
    requires
        well_ordered(e),
        well_ordered(t),
        e.is_prefix_of(t),
        0 <= i < e.len(),
    ensures
        unfold(t, i) == unfold(e, i),
{
    assert forall|j: int| 0 <= j <= i implies (#[trigger] t[0 + j]) == e[j] by {
        assert(e[j] == t.subrange(0, e.len() as int)[j]);
    }
    lemma_unfold_shifted(e, t, 0, i);
}

/// `std::ptr::eq` on two expressions: where it answers that they stand at the
/// same place in memory, they are the same expression. Where they stand at
/// different places it says nothing of them.
#[verifier::external_body]
fn at_same_place<Op>(a: &Expr<Op>, b: &Expr<Op>) -> (r: bool)
    ensures
        r ==> *a == *b,
{
    std::ptr::eq(a, b)
}

/// Whether each entry of the table names a node that stands for its
/// expression.
spec fn table_holds<Op>(table: Seq<(&Expr<Op>, usize)>, e: Seq<NodeView<Op>>) -> bool {
    forall|k: int|
        0 <= k < table.len() ==> (#[trigger] table[k]).1 < e.len() && unfold(
            e,
            table[k].1 as int,
        ) == tree(*table[k].0)
}

proof fn lemma_table_holds<Op>(
    table: Seq<(&Expr<Op>, usize)>,
    e: Seq<NodeView<Op>>,
    t: Seq<NodeView<Op>>,
)
    requires
        well_ordered(e),
        well_ordered(t),
        e.is_prefix_of(t),
        table_holds(table, e),
    ensures
        table_holds(table, t),
{
    assert forall|k: int| 0 <= k < table.len() implies (#[trigger] table[k]).1 < t.len()
        && unfold(t, table[k].1 as int) == tree(*table[k].0) by {
        lemma_unfold_prefix(e, t, table[k].1 as int);
    }
}

/// Adds the nodes of an expression that are not there yet, and returns the
/// index of its root.
fn build<'a, Op: Duplicate>(
    table: &mut Vec<(&'a Expr<Op>, usize)>,
    out: &mut RecExpr<Op>,
    expr: &'a Expr<Op>,
) -> (r: usize)
    requires
        old(out).wf(),
        table_holds(old(table)@, old(out)@),
    ensures
        final(out).wf(),
        table_holds(final(table)@, final(out)@),
        old(out)@.is_prefix_of(final(out)@),
        r < final(out)@.len(),
        unfold(final(out)@, r as int) == tree(*expr),
        final(out)@.len() <= old(out)@.len() + tree_size(tree(*expr)),
        old(table)@.len() == 0 ==> r == final(out)@.len() - 1,
    decreases expr,
{
    let n: usize = table.len();
    for i in 0..n
        invariant
            n == table@.len(),
            out.wf(),
            table_holds(table@, out@),
            *table == *old(table),
            *out == *old(out),
    {
        if at_same_place(table[i].0, expr) {
            assert(unfold(out@, table@[i as int].1 as int) == tree(*table@[i as int].0));
            assert(out@ =~= out@.subrange(0, out@.len() as int));
            return table[i].1;
        }
    }
    let ghost start = out@;
    assert(start =~= start.subrange(0, start.len() as int));
    let m: usize = expr.args.len();
    let ghost parts = trees(expr.args@);
    proof {
        lemma_trees(expr.args@);
    }
    let mut ids: Vec<usize> = Vec::new();
    for j in 0..m
        invariant
            m == expr.args@.len() == parts.len(),
            forall|k: int| 0 <= k < m ==> (#[trigger] parts[k]) == tree(*expr.args@[k]),
            out.wf(),
            table_holds(table@, out@),
            start.is_prefix_of(out@),
            out@.len() <= start.len() + tree_sizes(parts.take(j as int)),
            ids@.len() == j,
            forall|k: int|
                0 <= k < j ==> (#[trigger] ids@[k]) < out@.len() && unfold(out@, ids@[k] as int)
                    == tree(*expr.args@[k]),
        decreases m - j,
    {
        let ghost before = out@;
        assert(decreases_to!(expr => expr.args@[j as int]));
        let id: usize = build(table, out, &*expr.args[j]);
        proof {
            assert(parts.take(j + 1).drop_last() =~= parts.take(j as int));
            assert(parts[j as int] == tree(*expr.args@[j as int]));
            assert(start =~= out@.subrange(0, start.len() as int)) by {
                assert forall|k: int| 0 <= k < start.len() implies start[k] == out@[k] by {
                    assert(start[k] == before.subrange(0, start.len() as int)[k]);
                    assert(before[k] == out@.subrange(0, before.len() as int)[k]);
                }
            }
            assert forall|k: int| 0 <= k < j implies (#[trigger] ids@[k]) < out@.len() && unfold(
                out@,
                ids@[k] as int,
            ) == tree(*expr.args@[k]) by {
                lemma_unfold_prefix(before, out@, ids@[k] as int);
            }
        }
        ids.push(id);
    }
    assert(parts.take(m as int) =~= parts);
    let ghost before = out@;
    let node: AstNode<Op> = AstNode::new(expr.operation.duplicate(), ids);
    let id: usize = out.add(node);
    proof {
        assert(before =~= out@.subrange(0, before.len() as int));
        assert(start =~= out@.subrange(0, start.len() as int)) by {
            assert forall|k: int| 0 <= k < start.len() implies start[k] == out@[k] by {
                assert(start[k] == before.subrange(0, start.len() as int)[k]);
            }
        }
        lemma_table_holds(table@, before, out@);
        let e = out@;
        assert(points_back(e, id as int));
        lemma_unfold_args(e, id as int, e[id as int].args.len());
        lemma_trees(expr.args@);
        let a = unfold_args(e, id as int, e[id as int].args.len());
        assert(a =~= trees(expr.args@)) by {
            assert forall|k: int| 0 <= k < m implies a[k] == trees(expr.args@)[k] by {
                lemma_unfold_prefix(before, e, e[id as int].args[k] as int);
                assert(unfold(before, ids@[k] as int) == tree(*expr.args@[k]));
            }
        }
    }
    table.push((expr, id));
    id
}

impl<Op: Duplicate> RecExpr<Op> {
    /// The nodes of an expression. Parts that are shared become one node.
    pub fn from(expr: &Expr<Op>) -> (r: Self)
        ensures
            r.wf(),
            0 < r@.len() <= tree_size(tree(*expr)),
            root_tree(r@) == tree(*expr),
    {
        let mut table: Vec<(&Expr<Op>, usize)> = Vec::new();
        let mut out: RecExpr<Op> = RecExpr::new();
        let _root: usize = build(&mut table, &mut out, expr);
        out
    }
}

impl<Op: Duplicate> Expr<Op> {
    /// The expression that nodes stand for. Each node becomes one part, which is
    /// shared by the nodes that it is an argument of.
    pub fn from(rec: &RecExpr<Op>) -> (r: Self)
        requires
            rec.wf(),
            rec@.len() > 0,
        ensures
            tree(r) == root_tree(rec@),
    {
        let n: usize = rec.nodes.len();
        let mut parts: Vec<Arc<Expr<Op>>> = Vec::new();
        let last: usize = n - 1;
        for i in 0..last
            invariant
                rec.wf(),
                n == rec@.len(),
                last == n - 1,
                parts@.len() == i,
                forall|k: int| 0 <= k < i ==> tree(*#[trigger] parts@[k]) == unfold(rec@, k),
        {
            let part: Expr<Op> = node_expr(rec, i, &parts);
            parts.push(Arc::new(part));
        }
        node_expr(rec, last, &parts)
    }
}

/// The expression of the node at `i`, where those of the nodes before it are
/// there.
fn node_expr<Op: Duplicate>(rec: &RecExpr<Op>, i: usize, parts: &Vec<Arc<Expr<Op>>>) -> (r: Expr<
    Op,
>)
    requires
        rec.wf(),
        i < rec@.len(),
        parts@.len() == i,
        forall|k: int| 0 <= k < i ==> tree(*#[trigger] parts@[k]) == unfold(rec@, k),
    ensures
        tree(r) == unfold(rec@, i as int),
{
    let node: &AstNode<Op> = &rec.nodes[i];
    let ghost e = rec@;
    assert(e[i as int] == node@);
    assert(points_back(e, i as int));
    let m: usize = node.args.len();
    let mut args: Vec<Arc<Expr<Op>>> = Vec::new();
    for j in 0..m
        invariant
            e == rec@,
            i < e.len(),
            e[i as int] == node@,
            m == node@.args.len(),
            points_back(e, i as int),
            parts@.len() == i,
            args@.len() == j,
            forall|k: int| 0 <= k < j ==> (#[trigger] args@[k]) == parts@[node@.args[k] as int],
    {
        assert(e[i as int].args[j as int] < i);
        args.push(parts[node.args[j]].clone());
    }
    let r: Expr<Op> = Expr { operation: node.operation.duplicate(), args };
    proof {
        lemma_unfold_args(e, i as int, m as nat);
        lemma_trees(args@);
        assert(trees(args@) =~= unfold_args(e, i as int, m as nat)) by {
            assert forall|k: int| 0 <= k < m implies trees(args@)[k] == unfold_args(
                e,
                i as int,
                m as nat,
            )[k] by {
                assert(e[i as int].args[k] < i);
                assert(tree(*parts@[node@.args[k] as int]) == unfold(e, node@.args[k] as int));
            }
        }
    }
    r
}

impl<Op> Expr<Op> {
    /// The operation and the arguments.
    pub fn into_inner(self) -> (r: AstNode<Op, Arc<Expr<Op>>>)
        ensures
            r@ == (NodeView { operation: self.operation, args: self.args@ }),
    {
        AstNode::new(self.operation, self.args)
    }

    /// The expression of an operation and its arguments.
    pub fn from_node(node: AstNode<Op, Arc<Expr<Op>>>) -> (r: Self)
        ensures
            r.operation == node@.operation,
            r.args@ == node@.args,
    {
        let (operation, args) = node.into_parts();
        Expr { operation, args }
    }

    /// The number of nodes of the tree. A shared part counts at each place.
    pub fn len(&self) -> (r: usize)
        requires
            tree_size(tree(*self)) <= usize::MAX,
        ensures
            r == tree_size(tree(*self)),
            r > 0,
        decreases self,
    {
        let n: usize = self.args.len();
        let mut total: usize = 0;
        let ghost s = trees(self.args@);
        proof {
            lemma_trees(self.args@);
        }
        for i in 0..n
            invariant
                n == self.args@.len() == s.len(),
                s == trees(self.args@),
                forall|k: int| 0 <= k < n ==> (#[trigger] s[k]) == tree(*self.args@[k]),
                total == tree_sizes(s.take(i as int)),
                1 + tree_sizes(s) <= usize::MAX,
            decreases n - i,
        {
            proof {
                assert(s.take(i + 1).drop_last() =~= s.take(i as int));
                lemma_sizes_prefix(s, i + 1);
                assert(s[i as int] == tree(*self.args@[i as int]));
                assert(decreases_to!(self => self.args@[i as int]));
            }
            total = total + self.args[i].len();
        }
        assert(s.take(n as int) =~= s);
        total + 1
    }
}

proof fn lemma_sizes_prefix<Op>(s: Seq<Tree<Op>>, n: int)
    requires
        0 <= n <= s.len(),
    ensures
        tree_sizes(s.take(n)) <= tree_sizes(s),
    decreases s.len(),
{
    if n == s.len() {
        assert(s.take(n) =~= s);
    } else {
        lemma_sizes_prefix(s.drop_last(), n);
        assert(s.drop_last().take(n) =~= s.take(n));
    }
}

/// The trees of a list of expressions.
pub open spec fn expr_trees<Op>(s: Seq<Expr<Op>>) -> Seq<Tree<Op>> {
    Seq::new(s.len(), |i: int| tree(s[i]))
}

/// Whether these are the nodes of the expressions, one after the other.
pub open spec fn are_nodes_of<Op>(parts: Seq<Seq<NodeView<Op>>>, exprs: Seq<Expr<Op>>) -> bool {
    &&& parts.len() == exprs.len()
    &&& forall|i: int|
        0 <= i < parts.len() ==> {
            &&& well_ordered(#[trigger] parts[i])
            &&& 0 < parts[i].len() <= tree_size(tree(exprs[i]))
            &&& root_tree(parts[i]) == tree(exprs[i])
        }
}

/// The number of nodes of all parts together.
pub open spec fn total_len<Op>(parts: Seq<Seq<NodeView<Op>>>) -> nat
    decreases parts.len(),
{
    if parts.len() == 0 {
        0
    } else {
        total_len(parts.drop_last()) + parts.last().len()
    }
}

/// Joins expressions into one: a list of them. Its nodes are those of the
/// expressions and one for the list.
pub fn combine_exprs<Op: Duplicate + Teachable<N>, N: Number>(exprs: &Vec<Expr<Op>>) -> (r: RecExpr<
    Op,
>)
    ensures
        r.wf(),
        exists|parts: Seq<Seq<NodeView<Op>>>| #[trigger]
            are_nodes_of(parts, exprs@) && r@.len() == total_len(parts) + 1,
        0 < r@.len() <= tree_sizes(expr_trees(exprs@)) + 1,
        root_tree(r@) == (Tree { operation: Op::s_list(), args: expr_trees(exprs@) }),
{
    let mut out: RecExpr<Op> = RecExpr::new();
    let mut roots: Vec<usize> = Vec::new();
    let n: usize = exprs.len();
    let ghost all = expr_trees(exprs@);
    let ghost mut parts: Seq<Seq<NodeView<Op>>> = Seq::empty();
    for i in 0..n
        invariant
            n == exprs@.len(),
            all == expr_trees(exprs@),
            out.wf(),
            roots@.len() == i,
            are_nodes_of(parts, exprs@.take(i as int)),
            out@.len() == total_len(parts),
            out@.len() <= tree_sizes(all.take(i as int)),
            forall|k: int|
                0 <= k < i ==> (#[trigger] roots@[k]) < out@.len() && unfold(out@, roots@[k] as int)
                    == tree(exprs@[k]),
    {
        let rec: RecExpr<Op> = RecExpr::from(&exprs[i]);
        let ghost before = out@;
        append_shifted(&mut out, &rec);
        proof {
            let more = parts.push(rec@);
            assert(more.drop_last() =~= parts);
            assert forall|k: int| 0 <= k < more.len() implies {
                &&& well_ordered(#[trigger] more[k])
                &&& 0 < more[k].len() <= tree_size(tree(exprs@.take(i + 1)[k]))
                &&& root_tree(more[k]) == tree(exprs@.take(i + 1)[k])
            } by {
                if k < i {
                    assert(more[k] == parts[k]);
                    assert(exprs@.take(i as int)[k] == exprs@.take(i + 1)[k]);
                }
            }
            parts = more;
            assert(all.take(i + 1).drop_last() =~= all.take(i as int));
            assert forall|k: int| 0 <= k < i implies (#[trigger] roots@[k]) < out@.len() && unfold(
                out@,
                roots@[k] as int,
            ) == tree(exprs@[k]) by {
                lemma_unfold_prefix(before, out@, roots@[k] as int);
            }
            lemma_unfold_shifted(rec@, out@, before.len() as int, rec@.len() - 1);
        }
        let root: usize = out.len() - 1;
        roots.push(root);
    }
    let ghost before = out@;
    let ghost ids = roots@;
    let root: usize = out.add(AstNode::new(Op::list(), roots));
    proof {
        assert(exprs@.take(n as int) =~= exprs@);
        assert(all.take(n as int) =~= all);
        assert(are_nodes_of(parts, exprs@));
        let e = out@;
        let k = root as int;
        assert(points_back(e, k));
        assert(before =~= e.subrange(0, before.len() as int));
        lemma_unfold_args(e, k, e[k].args.len());
        assert(unfold_args(e, k, e[k].args.len()) =~= expr_trees(exprs@)) by {
            assert forall|j: int| 0 <= j < n implies unfold_args(e, k, e[k].args.len())[j]
                == expr_trees(exprs@)[j] by {
                lemma_unfold_prefix(before, e, ids[j] as int);
            }
        }
    }
    out
}

/// Adds the nodes of `more` behind those of `out`.
pub(crate) fn append_shifted<Op: Duplicate>(out: &mut RecExpr<Op>, more: &RecExpr<Op>)
    requires
        old(out).wf(),
        more.wf(),
    ensures
        final(out).wf(),
        final(out)@.len() == old(out)@.len() + more@.len(),
        old(out)@.is_prefix_of(final(out)@),
        forall|j: int|
            0 <= j < more@.len() ==> {
                &&& (#[trigger] final(out)@[old(out)@.len() + j]).operation == more@[j].operation
                &&& final(out)@[old(out)@.len() + j].args.len() == more@[j].args.len()
                &&& forall|m: int|
                    0 <= m < more@[j].args.len() ==> (#[trigger] final(out)@[old(out)@.len()
                        + j].args[m]) == old(out)@.len() + more@[j].args[m]
            },
{
    let ghost start = out@;
    let off: usize = out.len();
    let n: usize = more.nodes.len();
    assert(start =~= start.subrange(0, start.len() as int));
    for i in 0..n
        invariant
            more.wf(),
            n == more@.len(),
            off == start.len(),
            out.wf(),
            out@.len() == off + i,
            start.is_prefix_of(out@),
            forall|j: int|
                0 <= j < i ==> {
                    &&& (#[trigger] out@[off + j]).operation == more@[j].operation
                    &&& out@[off + j].args.len() == more@[j].args.len()
                    &&& forall|m: int|
                        0 <= m < more@[j].args.len() ==> (#[trigger] out@[off + j].args[m]) == off
                            + more@[j].args[m]
                },
    {
        let node: &AstNode<Op> = &more.nodes[i];
        assert(more@[i as int] == node@);
        assert(points_back(more@, i as int));
        let size: usize = out.len();
        let m: usize = node.args.len();
        let mut args: Vec<usize> = Vec::new();
        for k in 0..m
            invariant
                m == node@.args.len(),
                i < more@.len(),
                more@[i as int] == node@,
                points_back(more@, i as int),
                size == off + i,
                args@.len() == k,
                forall|q: int|
                    0 <= q < k ==> (#[trigger] args@[q]) == off + node@.args[q] && args@[q] < size,
        {
            assert(more@[i as int].args[k as int] < i);
            args.push(node.args[k] + off);
        }
        let ghost before = out@;
        let _id: usize = out.add(AstNode::new(node.operation.duplicate(), args));
        proof {
            assert(start =~= out@.subrange(0, start.len() as int)) by {
                assert forall|k: int| 0 <= k < start.len() implies start[k] == out@[k] by {
                    assert(start[k] == before.subrange(0, start.len() as int)[k]);
                }
            }
            assert forall|j: int| 0 <= j < i implies (#[trigger] out@[off + j]) == before[off
                + j] by {}
        }
    }
}

} // verus!
