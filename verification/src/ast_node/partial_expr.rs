//! Expressions with holes.
use crate::ast_node::expr::{
    lemma_trees, lemma_unfold_args, lemma_unfold_prefix, root_tree, tree, tree_size,
    tree_sizes, trees, unfold, unfold_args, Expr, Tree,
};
use crate::ast_node::{AstNode, Duplicate};
use crate::number::Number;
use crate::rec_expr::{points_back, RecExpr};
use crate::runner::operation::OperationInfo;
use crate::teachable::{binding_of, BindingExpr, Teachable};
use std::sync::Arc;
use vstd::prelude::*;
use vstd::std_specs::cmp::PartialEqSpec;

verus! {

/// An expression in which holes may stand for subexpressions.
#[derive(Debug)]
pub enum PartialExpr<Op, T> {
    /// A node of the tree.
    Node(AstNode<Op, PartialExpr<Op, T>>),
    /// A hole with a value.
    Hole(T),
}

/// A tree with holes.
#[verifier::ext_equal]
pub enum PartialTree<Op, T> {
    Node(Op, Seq<PartialTree<Op, T>>),
    Hole(T),
}

/// The tree of a partial expression.
pub open spec fn partial_tree<Op, T>(p: PartialExpr<Op, T>) -> PartialTree<Op, T>
    decreases p, 0nat,
{
    match p {
        PartialExpr::Node(node) => PartialTree::Node(
            node.operation,
            partial_trees(node.args@),
        ),
        PartialExpr::Hole(hole) => PartialTree::Hole(hole),
    }
}

/// The trees of partial expressions.
pub open spec fn partial_trees<Op, T>(s: Seq<PartialExpr<Op, T>>) -> Seq<PartialTree<Op, T>>
    decreases s, s.len(),
{
    if s.len() == 0 {
        Seq::empty()
    } else {
        partial_trees(s.drop_last()).push(partial_tree(s.last()))
    }
}

pub(crate) proof fn lemma_partial_trees<Op, T>(s: Seq<PartialExpr<Op, T>>)
    ensures
        partial_trees(s).len() == s.len(),
        forall|i: int| 0 <= i < s.len() ==> (#[trigger] partial_trees(s)[i]) == partial_tree(s[i]),
    decreases s.len(),
{
    if s.len() > 0 {
        lemma_partial_trees(s.drop_last());
    }
}

pub(crate) proof fn lemma_arg_is_smaller<Op, T>(p: PartialExpr<Op, T>, i: int)
    requires
        p is Node,
        0 <= i < p->Node_0.args@.len(),
    ensures
        decreases_to!(p => p->Node_0.args@[i]),
{
    assert(decreases_to!(p => p->Node_0));
    assert(decreases_to!(p->Node_0 => p->Node_0.args));
    assert(decreases_to!(p->Node_0.args => p->Node_0.args@));
    assert(decreases_to!(p->Node_0.args@ => p->Node_0.args@[i]));
}

// ---------------------------------------------------------------------------
// Counting
// ---------------------------------------------------------------------------

/// The nodes of a tree, without its holes.
pub open spec fn node_count<Op, T>(t: PartialTree<Op, T>) -> nat
    decreases t, 0nat,
{
    match t {
        PartialTree::Node(_, args) => 1 + node_counts(args),
        PartialTree::Hole(_) => 0,
    }
}

/// The nodes of several trees, without their holes.
pub open spec fn node_counts<Op, T>(s: Seq<PartialTree<Op, T>>) -> nat
    decreases s, s.len(),
{
    if s.len() == 0 {
        0
    } else {
        node_counts(s.drop_last()) + node_count(s.last())
    }
}

/// The holes of a tree, from left to right.
pub open spec fn holes<Op, T>(t: PartialTree<Op, T>) -> Seq<T>
    decreases t, 0nat,
{
    match t {
        PartialTree::Node(_, args) => all_holes(args),
        PartialTree::Hole(hole) => seq![hole],
    }
}

/// The holes of several trees, from left to right.
pub open spec fn all_holes<Op, T>(s: Seq<PartialTree<Op, T>>) -> Seq<T>
    decreases s, s.len(),
{
    if s.len() == 0 {
        Seq::empty()
    } else {
        all_holes(s.drop_last()) + holes(s.last())
    }
}

/// Whether every leaf of a tree is a hole. A node without arguments counts as
/// having no leaf.
pub open spec fn only_holes<Op, T>(t: PartialTree<Op, T>) -> bool
    decreases t, 0nat,
{
    match t {
        PartialTree::Node(_, args) => all_only_holes(args),
        PartialTree::Hole(_) => true,
    }
}

/// Whether every leaf of several trees is a hole.
pub open spec fn all_only_holes<Op, T>(s: Seq<PartialTree<Op, T>>) -> bool
    decreases s, s.len(),
{
    if s.len() == 0 {
        true
    } else {
        all_only_holes(s.drop_last()) && only_holes(s.last())
    }
}

/// Whether an operation of a tree works on vectors.
pub open spec fn uses_vectors<Op: OperationInfo<N>, T, N: Number>(t: PartialTree<Op, T>) -> bool
    decreases t, 0nat,
{
    match t {
        PartialTree::Node(op, args) => op.s_is_vector_op() || some_uses_vectors::<Op, T, N>(args),
        PartialTree::Hole(_) => false,
    }
}

/// Whether an operation of one of the trees works on vectors.
pub open spec fn some_uses_vectors<Op: OperationInfo<N>, T, N: Number>(
    s: Seq<PartialTree<Op, T>>,
) -> bool
    decreases s, s.len(),
{
    if s.len() == 0 {
        false
    } else {
        some_uses_vectors::<Op, T, N>(s.drop_last()) || uses_vectors::<Op, T, N>(s.last())
    }
}

proof fn lemma_counts_prefix<Op, T>(s: Seq<PartialTree<Op, T>>, n: int)
    requires
        0 <= n <= s.len(),
    ensures
        node_counts(s.take(n)) <= node_counts(s),
        all_holes(s.take(n)).len() <= all_holes(s).len(),
    decreases s.len(),
{
    if n == s.len() {
        assert(s.take(n) =~= s);
    } else {
        lemma_counts_prefix(s.drop_last(), n);
        assert(s.drop_last().take(n) =~= s.take(n));
    }
}

impl<Op, T> PartialExpr<Op, T> {
    /// Whether this is a node.
    pub fn is_node(&self) -> (r: bool)
        ensures
            r == (self is Node),
    {
        match self {
            PartialExpr::Node(_) => true,
            PartialExpr::Hole(_) => false,
        }
    }

    /// Whether this is a hole.
    pub fn is_hole(&self) -> (r: bool)
        ensures
            r == (self is Hole),
    {
        match self {
            PartialExpr::Node(_) => false,
            PartialExpr::Hole(_) => true,
        }
    }

    /// The node, where this is one.
    pub fn node(self) -> (r: Option<AstNode<Op, PartialExpr<Op, T>>>)
        ensures
            r == match self {
                PartialExpr::Node(node) => Some(node),
                PartialExpr::Hole(_) => None,
            },
    {
        match self {
            PartialExpr::Node(node) => Some(node),
            PartialExpr::Hole(_) => None,
        }
    }

    /// The value of the hole, where this is one.
    pub fn hole(self) -> (r: Option<T>)
        ensures
            r == match self {
                PartialExpr::Node(_) => None,
                PartialExpr::Hole(hole) => Some(hole),
            },
    {
        match self {
            PartialExpr::Node(_) => None,
            PartialExpr::Hole(hole) => Some(hole),
        }
    }

    /// The number of nodes and holes.
    pub fn size(&self) -> (r: usize)
        requires
            node_count(partial_tree(*self)) + holes(partial_tree(*self)).len() <= usize::MAX,
        ensures
            r == node_count(partial_tree(*self)) + holes(partial_tree(*self)).len(),
    {
        self.num_nodes() + self.num_holes()
    }

    /// The number of nodes, without the holes.
    pub fn num_nodes(&self) -> (r: usize)
        requires
            node_count(partial_tree(*self)) <= usize::MAX,
        ensures
            r == node_count(partial_tree(*self)),
        decreases self,
    {
        match self {
            PartialExpr::Hole(_) => 0,
            PartialExpr::Node(node) => {
                let n: usize = node.args.len();
                let mut total: usize = 0;
                let ghost s = partial_trees(node.args@);
                proof {
                    lemma_partial_trees(node.args@);
                }
                for i in 0..n
                    invariant
                        n == node.args@.len() == s.len(),
                        s == partial_trees(node.args@),
                        *self == PartialExpr::Node(*node),
                        forall|k: int| 0 <= k < n ==> (#[trigger] s[k]) == partial_tree(node.args@[k]),
                        total == node_counts(s.take(i as int)),
                        1 + node_counts(s) <= usize::MAX,
                    decreases n - i,
                {
                    proof {
                        assert(s.take(i + 1).drop_last() =~= s.take(i as int));
                        lemma_counts_prefix(s, i + 1);
                        assert(s[i as int] == partial_tree(node.args@[i as int]));
                        lemma_arg_is_smaller(*self, i as int);
                    }
                    total = total + node.args[i].num_nodes();
                }
                assert(s.take(n as int) =~= s);
                total + 1
            },
        }
    }

    /// The number of holes.
    pub fn num_holes(&self) -> (r: usize)
        requires
            holes(partial_tree(*self)).len() <= usize::MAX,
        ensures
            r == holes(partial_tree(*self)).len(),
        decreases self,
    {
        match self {
            PartialExpr::Hole(_) => 1,
            PartialExpr::Node(node) => {
                let n: usize = node.args.len();
                let mut total: usize = 0;
                let ghost s = partial_trees(node.args@);
                proof {
                    lemma_partial_trees(node.args@);
                }
                for i in 0..n
                    invariant
                        n == node.args@.len() == s.len(),
                        s == partial_trees(node.args@),
                        *self == PartialExpr::Node(*node),
                        forall|k: int| 0 <= k < n ==> (#[trigger] s[k]) == partial_tree(node.args@[k]),
                        total == all_holes(s.take(i as int)).len(),
                        all_holes(s).len() <= usize::MAX,
                    decreases n - i,
                {
                    proof {
                        assert(s.take(i + 1).drop_last() =~= s.take(i as int));
                        lemma_counts_prefix(s, i + 1);
                        assert(s[i as int] == partial_tree(node.args@[i as int]));
                        lemma_arg_is_smaller(*self, i as int);
                    }
                    total = total + node.args[i].num_holes();
                }
                assert(s.take(n as int) =~= s);
                total
            },
        }
    }

    /// Whether the expression is complete, without any hole.
    pub fn has_holes(&self) -> (r: bool)
        ensures
            r == (holes(partial_tree(*self)).len() == 0),
        decreases self,
    {
        match self {
            PartialExpr::Hole(_) => false,
            PartialExpr::Node(node) => {
                let n: usize = node.args.len();
                let ghost s = partial_trees(node.args@);
                proof {
                    lemma_partial_trees(node.args@);
                }
                for i in 0..n
                    invariant
                        n == node.args@.len() == s.len(),
                        s == partial_trees(node.args@),
                        *self == PartialExpr::Node(*node),
                        forall|k: int| 0 <= k < n ==> (#[trigger] s[k]) == partial_tree(node.args@[k]),
                        all_holes(s.take(i as int)).len() == 0,
                    decreases n - i,
                {
                    proof {
                        assert(s.take(i + 1).drop_last() =~= s.take(i as int));
                        assert(s[i as int] == partial_tree(node.args@[i as int]));
                        lemma_counts_prefix(s, i + 1);
                        lemma_arg_is_smaller(*self, i as int);
                    }
                    if !node.args[i].has_holes() {
                        return false;
                    }
                }
                assert(s.take(n as int) =~= s);
                true
            },
        }
    }

    /// Whether every leaf is a hole; a node without arguments does not count
    /// as a leaf.
    pub fn leaves_are_all_holes(&self) -> (r: bool)
        ensures
            r == only_holes(partial_tree(*self)),
        decreases self,
    {
        match self {
            PartialExpr::Hole(_) => true,
            PartialExpr::Node(node) => {
                let n: usize = node.args.len();
                let ghost s = partial_trees(node.args@);
                proof {
                    lemma_partial_trees(node.args@);
                }
                for i in 0..n
                    invariant
                        n == node.args@.len() == s.len(),
                        s == partial_trees(node.args@),
                        *self == PartialExpr::Node(*node),
                        forall|k: int| 0 <= k < n ==> (#[trigger] s[k]) == partial_tree(node.args@[k]),
                        all_only_holes(s.take(i as int)),
                    decreases n - i,
                {
                    proof {
                        assert(s.take(i + 1).drop_last() =~= s.take(i as int));
                        assert(s[i as int] == partial_tree(node.args@[i as int]));
                        lemma_arg_is_smaller(*self, i as int);
                    }
                    if !node.args[i].leaves_are_all_holes() {
                        proof {
                            lemma_only_holes_prefix(s, i + 1);
                        }
                        return false;
                    }
                }
                assert(s.take(n as int) =~= s);
                true
            },
        }
    }

    /// Whether an operation works on vectors.
    pub fn has_vector_op<N: Number>(&self) -> (r: bool) where Op: OperationInfo<N>
        ensures
            r == uses_vectors::<Op, T, N>(partial_tree(*self)),
        decreases self,
    {
        match self {
            PartialExpr::Hole(_) => false,
            PartialExpr::Node(node) => {
                if node.operation.is_vector_op() {
                    return true;
                }
                let n: usize = node.args.len();
                let ghost s = partial_trees(node.args@);
                proof {
                    lemma_partial_trees(node.args@);
                }
                for i in 0..n
                    invariant
                        n == node.args@.len() == s.len(),
                        s == partial_trees(node.args@),
                        *self == PartialExpr::Node(*node),
                        !node.operation.s_is_vector_op(),
                        forall|k: int| 0 <= k < n ==> (#[trigger] s[k]) == partial_tree(node.args@[k]),
                        !some_uses_vectors::<Op, T, N>(s.take(i as int)),
                    decreases n - i,
                {
                    proof {
                        assert(s.take(i + 1).drop_last() =~= s.take(i as int));
                        assert(s[i as int] == partial_tree(node.args@[i as int]));
                        lemma_arg_is_smaller(*self, i as int);
                    }
                    if node.args[i].has_vector_op() {
                        proof {
                            lemma_uses_vectors_prefix::<Op, T, N>(s, i + 1);
                        }
                        return true;
                    }
                }
                assert(s.take(n as int) =~= s);
                false
            },
        }
    }
}

proof fn lemma_only_holes_prefix<Op, T>(s: Seq<PartialTree<Op, T>>, n: int)
    requires
        0 <= n <= s.len(),
        !all_only_holes(s.take(n)),
    ensures
        !all_only_holes(s),
    decreases s.len(),
{
    if n == s.len() {
        assert(s.take(n) =~= s);
    } else {
        assert(s.drop_last().take(n) =~= s.take(n));
        lemma_only_holes_prefix(s.drop_last(), n);
    }
}

proof fn lemma_uses_vectors_prefix<Op: OperationInfo<N>, T, N: Number>(
    s: Seq<PartialTree<Op, T>>,
    n: int,
)
    requires
        0 <= n <= s.len(),
        some_uses_vectors::<Op, T, N>(s.take(n)),
    ensures
        some_uses_vectors::<Op, T, N>(s),
    decreases s.len(),
{
    if n == s.len() {
        assert(s.take(n) =~= s);
    } else {
        assert(s.drop_last().take(n) =~= s.take(n));
        lemma_uses_vectors_prefix::<Op, T, N>(s.drop_last(), n);
    }
}

// ---------------------------------------------------------------------------
// Filling holes
// ---------------------------------------------------------------------------

/// Whether `r` is `p` with each hole replaced by what `f` gives for it.
pub open spec fn filled<Op, T, U, F: FnMut(T) -> PartialExpr<Op, U>>(
    f: F,
    p: PartialExpr<Op, T>,
    r: PartialExpr<Op, U>,
) -> bool
    decreases p,
{
    match p {
        PartialExpr::Hole(hole) => call_ensures(f, (hole,), r),
        PartialExpr::Node(node) => match r {
            PartialExpr::Node(out) => {
                &&& out.operation == node.operation
                &&& out.args@.len() == node.args@.len()
                &&& forall|i: int|
                    0 <= i < node.args@.len() ==> filled(f, node.args@[i], #[trigger] out.args@[i])
            },
            PartialExpr::Hole(_) => false,
        },
    }
}

/// The number of binders around the arguments of a node that has `depth`
/// around itself.
pub open spec fn inner_depth<Op: Teachable<N>, T, N: Number>(
    node: AstNode<Op, PartialExpr<Op, T>>,
    depth: int,
) -> int {
    match binding_of::<Op, PartialExpr<Op, T>, N>(node@) {
        Some(BindingExpr::Lambda(_)) => depth + 1,
        _ => depth,
    }
}

/// Whether `r` is `p` with each hole replaced by what `f` gives for it and
/// for the number of binders around it.
pub open spec fn filled_under<
    Op: Teachable<N>,
    T,
    U,
    N: Number,
    F: FnMut(T, usize) -> PartialExpr<Op, U>,
>(f: F, p: PartialExpr<Op, T>, depth: int, r: PartialExpr<Op, U>) -> bool
    decreases p,
{
    match p {
        PartialExpr::Hole(hole) => call_ensures(f, (hole, depth as usize), r),
        PartialExpr::Node(node) => match r {
            PartialExpr::Node(out) => {
                &&& out.operation == node.operation
                &&& out.args@.len() == node.args@.len()
                &&& forall|i: int|
                    0 <= i < node.args@.len() ==> filled_under::<Op, T, U, N, F>(
                        f,
                        node.args@[i],
                        inner_depth::<Op, T, N>(node, depth),
                        #[trigger] out.args@[i],
                    )
            },
            PartialExpr::Hole(_) => false,
        },
    }
}

/// Whether `r` is `p` with each node without arguments replaced by what `f`
/// gives for it and for the number of binders around it.
pub open spec fn leaves_mapped<
    Op: Teachable<N>,
    T,
    N: Number,
    F: FnMut(AstNode<Op, PartialExpr<Op, T>>, usize) -> PartialExpr<Op, T>,
>(f: F, p: PartialExpr<Op, T>, depth: int, r: PartialExpr<Op, T>) -> bool
    decreases p,
{
    match p {
        PartialExpr::Hole(_) => r == p,
        PartialExpr::Node(node) => if node.args@.len() == 0 {
            call_ensures(f, (node, depth as usize), r)
        } else {
            match r {
                PartialExpr::Node(out) => {
                    &&& out.operation == node.operation
                    &&& out.args@.len() == node.args@.len()
                    &&& forall|i: int|
                        0 <= i < node.args@.len() ==> leaves_mapped::<Op, T, N, F>(
                            f,
                            node.args@[i],
                            inner_depth::<Op, T, N>(node, depth),
                            #[trigger] out.args@[i],
                        )
                },
                PartialExpr::Hole(_) => false,
            }
        },
    }
}

/// The most binders around any part of an expression.
pub open spec fn binders<Op: Teachable<N>, T, N: Number>(p: PartialExpr<Op, T>) -> nat
    decreases p, 0nat,
{
    match p {
        PartialExpr::Hole(_) => 0,
        PartialExpr::Node(node) => (inner_depth::<Op, T, N>(node, 0) + most_binders::<Op, T, N>(
            node.args@,
        )) as nat,
    }
}

/// The most binders within any of the expressions.
pub open spec fn most_binders<Op: Teachable<N>, T, N: Number>(s: Seq<PartialExpr<Op, T>>) -> nat
    decreases s, s.len(),
{
    if s.len() == 0 {
        0
    } else {
        let m = most_binders::<Op, T, N>(s.drop_last());
        let b = binders::<Op, T, N>(s.last());
        if b > m {
            b
        } else {
            m
        }
    }
}

proof fn lemma_binders<Op: Teachable<N>, T, N: Number>(s: Seq<PartialExpr<Op, T>>, i: int)
    requires
        0 <= i < s.len(),
    ensures
        binders::<Op, T, N>(s[i]) <= most_binders::<Op, T, N>(s),
    decreases s.len(),
{
    if i < s.len() - 1 {
        lemma_binders::<Op, T, N>(s.drop_last(), i);
    }
}

impl<Op, T> PartialExpr<Op, T> {
    /// Replaces each hole by what `f` gives for its value.
    pub fn fill<U, F: FnMut(T) -> PartialExpr<Op, U>>(self, mut f: F) -> (r: PartialExpr<Op, U>)
        requires
            forall|t: T| #[trigger] call_requires(f, (t,)),
        ensures
            filled(f, self, r),
    {
        self.fill_mut(&mut f)
    }

    /// As [`PartialExpr::fill`], with a reference to the function.
    fn fill_mut<U, F: FnMut(T) -> PartialExpr<Op, U>>(self, f: &mut F) -> (r: PartialExpr<Op, U>)
        requires
            forall|t: T| #[trigger] call_requires(*old(f), (t,)),
        ensures
            *final(f) == *old(f),
            filled(*old(f), self, r),
        decreases self,
    {
        let ghost p = self;
        match self {
            PartialExpr::Hole(hole) => f(hole),
            PartialExpr::Node(node) => {
                let ghost start = node;
                let (operation, mut args) = node.into_parts();
                let mut out: Vec<PartialExpr<Op, U>> = Vec::new();
                while args.len() > 0
                    invariant
                        p == PartialExpr::Node(start),
                        self == p,
                        *f == *old(f),
                        forall|t: T| #[trigger] call_requires(*f, (t,)),
                        out@.len() + args@.len() == start.args@.len(),
                        args@ == start.args@.skip(out@.len() as int),
                        forall|i: int|
                            0 <= i < out@.len() ==> filled(*f, start.args@[i], #[trigger] out@[i]),
                    decreases args@.len(),
                {
                    let ghost i = out@.len() as int;
                    assert(args@[0] == start.args@[i]);
                    let child: PartialExpr<Op, T> = args.remove(0);
                    proof {
                        lemma_arg_is_smaller(p, i);
                        assert(args@ =~= start.args@.skip(i + 1));
                    }
                    let r: PartialExpr<Op, U> = child.fill_mut(f);
                    out.push(r);
                }
                PartialExpr::Node(AstNode::new(operation, out))
            },
        }
    }
}

impl<Op, T> PartialExpr<Op, T> {
    /// As [`PartialExpr::fill`], where `f` is also told the number of binders
    /// around the hole.
    pub fn fill_with_binders<N: Number, U, F: FnMut(T, usize) -> PartialExpr<Op, U>>(
        self,
        mut f: F,
    ) -> (r: PartialExpr<Op, U>) where Op: Teachable<N>
        requires
            binders::<Op, T, N>(self) <= usize::MAX,
            forall|t: T, d: usize| #[trigger] call_requires(f, (t, d)),
        ensures
            filled_under::<Op, T, U, N, F>(f, self, 0, r),
    {
        self.fill_with_binders_helper(&mut f, 0)
    }

    fn fill_with_binders_helper<N: Number, U, F: FnMut(T, usize) -> PartialExpr<Op, U>>(
        self,
        f: &mut F,
        depth: usize,
    ) -> (r: PartialExpr<Op, U>) where Op: Teachable<N>
        requires
            depth + binders::<Op, T, N>(self) <= usize::MAX,
            forall|t: T, d: usize| #[trigger] call_requires(*old(f), (t, d)),
        ensures
            *final(f) == *old(f),
            filled_under::<Op, T, U, N, F>(*old(f), self, depth as int, r),
        decreases self,
    {
        let ghost p = self;
        match self {
            PartialExpr::Hole(hole) => f(hole, depth),
            PartialExpr::Node(node) => {
                let ghost start = node;
                let inner: usize = match Op::as_binding_expr(&node) {
                    Some(BindingExpr::Lambda(_)) => depth + 1,
                    _ => depth,
                };
                let (operation, mut args) = node.into_parts();
                let mut out: Vec<PartialExpr<Op, U>> = Vec::new();
                while args.len() > 0
                    invariant
                        p == PartialExpr::Node(start),
                        self == p,
                        inner == inner_depth::<Op, T, N>(start, depth as int),
                        inner + most_binders::<Op, T, N>(start.args@) <= usize::MAX,
                        *f == *old(f),
                        forall|t: T, d: usize| #[trigger] call_requires(*f, (t, d)),
                        out@.len() + args@.len() == start.args@.len(),
                        args@ == start.args@.skip(out@.len() as int),
                        forall|i: int|
                            0 <= i < out@.len() ==> filled_under::<Op, T, U, N, F>(
                                *f,
                                start.args@[i],
                                inner as int,
                                #[trigger] out@[i],
                            ),
                    decreases args@.len(),
                {
                    let ghost i = out@.len() as int;
                    assert(args@[0] == start.args@[i]);
                    let child: PartialExpr<Op, T> = args.remove(0);
                    proof {
                        lemma_arg_is_smaller(p, i);
                        lemma_binders::<Op, T, N>(start.args@, i);
                        assert(args@ =~= start.args@.skip(i + 1));
                    }
                    let r: PartialExpr<Op, U> = child.fill_with_binders_helper(f, inner);
                    out.push(r);
                }
                PartialExpr::Node(AstNode::new(operation, out))
            },
        }
    }

    /// Replaces each node without arguments by what `f` gives for it and for
    /// the number of binders around it.
    pub fn map_leaves_with_binders<
        N: Number,
        F: FnMut(AstNode<Op, PartialExpr<Op, T>>, usize) -> PartialExpr<Op, T>,
    >(self, mut f: F) -> (r: Self) where Op: Teachable<N>
        requires
            binders::<Op, T, N>(self) <= usize::MAX,
            forall|n: AstNode<Op, PartialExpr<Op, T>>, d: usize| #[trigger]
                call_requires(f, (n, d)),
        ensures
            leaves_mapped::<Op, T, N, F>(f, self, 0, r),
    {
        self.map_leaves_with_binders_mut(&mut f, 0)
    }

    fn map_leaves_with_binders_mut<
        N: Number,
        F: FnMut(AstNode<Op, PartialExpr<Op, T>>, usize) -> PartialExpr<Op, T>,
    >(self, f: &mut F, depth: usize) -> (r: Self) where Op: Teachable<N>
        requires
            depth + binders::<Op, T, N>(self) <= usize::MAX,
            forall|n: AstNode<Op, PartialExpr<Op, T>>, d: usize| #[trigger]
                call_requires(*old(f), (n, d)),
        ensures
            *final(f) == *old(f),
            leaves_mapped::<Op, T, N, F>(*old(f), self, depth as int, r),
        decreases self,
    {
        let ghost p = self;
        match self {
            PartialExpr::Hole(hole) => PartialExpr::Hole(hole),
            PartialExpr::Node(node) => {
                if node.is_empty() {
                    return f(node, depth);
                }
                let ghost start = node;
                let inner: usize = match Op::as_binding_expr(&node) {
                    Some(BindingExpr::Lambda(_)) => depth + 1,
                    _ => depth,
                };
                let (operation, mut args) = node.into_parts();
                let mut out: Vec<PartialExpr<Op, T>> = Vec::new();
                while args.len() > 0
                    invariant
                        p == PartialExpr::Node(start),
                        self == p,
                        inner == inner_depth::<Op, T, N>(start, depth as int),
                        inner + most_binders::<Op, T, N>(start.args@) <= usize::MAX,
                        *f == *old(f),
                        forall|n: AstNode<Op, PartialExpr<Op, T>>, d: usize| #[trigger]
                            call_requires(*f, (n, d)),
                        out@.len() + args@.len() == start.args@.len(),
                        args@ == start.args@.skip(out@.len() as int),
                        forall|i: int|
                            0 <= i < out@.len() ==> leaves_mapped::<Op, T, N, F>(
                                *f,
                                start.args@[i],
                                inner as int,
                                #[trigger] out@[i],
                            ),
                    decreases args@.len(),
                {
                    let ghost i = out@.len() as int;
                    assert(args@[0] == start.args@[i]);
                    let child: PartialExpr<Op, T> = args.remove(0);
                    proof {
                        lemma_arg_is_smaller(p, i);
                        lemma_binders::<Op, T, N>(start.args@, i);
                        assert(args@ =~= start.args@.skip(i + 1));
                    }
                    let r: PartialExpr<Op, T> = child.map_leaves_with_binders_mut(f, inner);
                    out.push(r);
                }
                PartialExpr::Node(AstNode::new(operation, out))
            },
        }
    }
}

// ---------------------------------------------------------------------------
// The holes
// ---------------------------------------------------------------------------

/// Whether one of `s` is equal to `x`.
pub open spec fn has_equal<T: PartialEq>(s: Seq<T>, x: T) -> bool {
    exists|i: int| 0 <= i < s.len() && (#[trigger] s[i]).eq_spec(&x)
}

/// The first `n` of `s`, of equal ones only the first.
pub open spec fn first_of_equals<T: PartialEq>(s: Seq<T>, n: nat) -> Seq<T>
    decreases n,
{
    if n == 0 {
        Seq::empty()
    } else {
        let before = first_of_equals(s, (n - 1) as nat);
        if has_equal(before, s[n - 1]) {
            before
        } else {
            before.push(s[n - 1])
        }
    }
}

/// The values behind references.
pub open spec fn values_of<T>(s: Seq<&T>) -> Seq<T> {
    Seq::new(s.len(), |i: int| *s[i])
}

impl<Op, T> PartialExpr<Op, T> {
    /// Adds references to the holes behind those that are there.
    fn gather_holes<'a>(&'a self, out: &mut Vec<&'a T>)
        ensures
            values_of(final(out)@) == values_of(old(out)@) + holes(partial_tree(*self)),
        decreases self,
    {
        match self {
            PartialExpr::Hole(hole) => {
                let ghost s = values_of(out@);
                out.push(hole);
                assert(values_of(out@) =~= s + seq![*hole]);
            },
            PartialExpr::Node(node) => {
                let n: usize = node.args.len();
                let ghost s = partial_trees(node.args@);
                let ghost start = values_of(out@);
                proof {
                    lemma_partial_trees(node.args@);
                }
                assert(start =~= start + all_holes(s.take(0)));
                for i in 0..n
                    invariant
                        n == node.args@.len() == s.len(),
                        s == partial_trees(node.args@),
                        *self == PartialExpr::Node(*node),
                        forall|k: int| 0 <= k < n ==> (#[trigger] s[k]) == partial_tree(node.args@[k]),
                        values_of(out@) == start + all_holes(s.take(i as int)),
                    decreases n - i,
                {
                    proof {
                        assert(s.take(i + 1).drop_last() =~= s.take(i as int));
                        assert(s[i as int] == partial_tree(node.args@[i as int]));
                        lemma_arg_is_smaller(*self, i as int);
                    }
                    node.args[i].gather_holes(out);
                    assert(values_of(out@) =~= start + all_holes(s.take(i + 1)));
                }
                assert(s.take(n as int) =~= s);
            },
        }
    }
}

impl<Op, T: PartialEq> PartialExpr<Op, T> {
    /// The values of the holes, of equal ones only the first.
    pub fn unique_holes(&self) -> (r: Vec<&T>)
        requires
            T::obeys_eq_spec(),
        ensures
            values_of(r@) == first_of_equals(
                holes(partial_tree(*self)),
                holes(partial_tree(*self)).len(),
            ),
    {
        let mut all: Vec<&T> = Vec::new();
        self.gather_holes(&mut all);
        let ghost s = holes(partial_tree(*self));
        assert(values_of(all@) =~= s);
        let mut r: Vec<&T> = Vec::new();
        let n: usize = all.len();
        assert(values_of(r@) =~= first_of_equals(s, 0));
        for i in 0..n
            invariant
                T::obeys_eq_spec(),
                n == all@.len() == s.len(),
                s == values_of(all@),
                values_of(r@) == first_of_equals(s, i as nat),
        {
            let ghost before = values_of(r@);
            let x: &T = all[i];
            assert(s[i as int] == *x);
            let m: usize = r.len();
            let mut known: bool = false;
            for j in 0..m
                invariant
                    T::obeys_eq_spec(),
                    m == r@.len(),
                    before == values_of(r@),
                    known == exists|k: int|
                        0 <= k < j && (#[trigger] before[k]).eq_spec(x),
            {
                assert(before[j as int] == *r@[j as int]);
                if *r[j] == *x {
                    known = true;
                }
            }
            if !known {
                r.push(x);
                assert(values_of(r@) =~= before.push(*x));
            }
        }
        r
    }
}

// ---------------------------------------------------------------------------
// Conversions
// ---------------------------------------------------------------------------

/// Why a partial expression is not a node: it is a hole.
#[derive(Debug)]
pub struct IncompleteExprError<T> {
    /// The hole.
    pub hole: T,
}

impl<T: crate::extract::beam_pareto::Shown> IncompleteExprError<T> {
    /// The error as a text.
    pub fn to_text(&self) -> (r: String)
        ensures
            r@ == "expected expression but found hole "@ + self.hole.s_shown(),
    {
        let mut s: String = "expected expression but found hole ".to_owned();
        s.append(self.hole.shown().as_str());
        s
    }
}

/// Whether `t` is the tree `p` where each hole is a leaf with a default
/// operation.
pub open spec fn completed<Op: Default, T>(p: PartialTree<Op, T>, t: Tree<Op>) -> bool
    decreases p, 0nat,
{
    match p {
        PartialTree::Hole(_) => t.args.len() == 0 && call_ensures(Op::default, (), t.operation),
        PartialTree::Node(op, args) => t.operation == op && all_completed(args, t.args),
    }
}

/// Whether each of `ts` is the tree of `ps` with default leaves for holes.
pub open spec fn all_completed<Op: Default, T>(
    ps: Seq<PartialTree<Op, T>>,
    ts: Seq<Tree<Op>>,
) -> bool
    decreases ps, ps.len(),
{
    if ps.len() == 0 {
        ts.len() == 0
    } else {
        ts.len() > 0 && all_completed(ps.drop_last(), ts.drop_last()) && completed(
            ps.last(),
            ts.last(),
        )
    }
}

proof fn lemma_completed_size<Op: Default, T>(p: PartialTree<Op, T>, t: Tree<Op>)
    requires
        completed(p, t),
    ensures
        tree_size(t) == node_count(p) + holes(p).len(),
    decreases p, 0nat,
{
    match p {
        PartialTree::Hole(_) => {},
        PartialTree::Node(_, args) => {
            lemma_completed_sizes(args, t.args);
        },
    }
}

proof fn lemma_completed_sizes<Op: Default, T>(ps: Seq<PartialTree<Op, T>>, ts: Seq<Tree<Op>>)
    requires
        all_completed(ps, ts),
    ensures
        tree_sizes(ts) == node_counts(ps) + all_holes(ps).len(),
    decreases ps, ps.len(),
{
    if ps.len() > 0 {
        lemma_completed_sizes(ps.drop_last(), ts.drop_last());
        lemma_completed_size(ps.last(), ts.last());
    }
}

impl<Op: Default + Duplicate, T> PartialExpr<Op, T> {
    /// The expression with a default operation for each hole.
    pub fn to_expr(&self) -> (r: Expr<Op>)
        ensures
            completed(partial_tree(*self), tree(r)),
        decreases self,
    {
        match self {
            PartialExpr::Hole(_) => {
                let r: Expr<Op> = Expr { operation: Op::default(), args: Vec::new() };
                r
            },
            PartialExpr::Node(node) => {
                let n: usize = node.args.len();
                let ghost s = partial_trees(node.args@);
                proof {
                    lemma_partial_trees(node.args@);
                }
                let mut args: Vec<Arc<Expr<Op>>> = Vec::new();
                for i in 0..n
                    invariant
                        n == node.args@.len() == s.len(),
                        s == partial_trees(node.args@),
                        *self == PartialExpr::Node(*node),
                        forall|k: int| 0 <= k < n ==> (#[trigger] s[k]) == partial_tree(node.args@[k]),
                        args@.len() == i,
                        all_completed(s.take(i as int), trees(args@)),
                    decreases n - i,
                {
                    proof {
                        assert(s.take(i + 1).drop_last() =~= s.take(i as int));
                        assert(s[i as int] == partial_tree(node.args@[i as int]));
                        lemma_arg_is_smaller(*self, i as int);
                    }
                    let ghost before = args@;
                    args.push(Arc::new(node.args[i].to_expr()));
                    assert(args@.drop_last() =~= before);
                    assert(trees(args@).drop_last() =~= trees(before));
                }
                assert(s.take(n as int) =~= s);
                Expr { operation: node.operation.duplicate(), args }
            },
        }
    }

    /// The delay of the expression, where an operation takes one more than
    /// its arguments together.
    pub fn get_delay(&self) -> (r: usize)
        requires
            node_count(partial_tree(*self)) + holes(partial_tree(*self)).len() <= usize::MAX,
        ensures
            r == node_count(partial_tree(*self)) + holes(partial_tree(*self)).len(),
    {
        let expr: Expr<Op> = self.to_expr();
        let rec: RecExpr<Op> = RecExpr::from(&expr);
        let ghost e = rec@;
        proof {
            lemma_completed_size(partial_tree(*self), tree(expr));
        }
        let n: usize = rec.nodes.len();
        let mut delays: Vec<usize> = Vec::new();
        let mut last: usize = 0;
        for i in 0..n
            invariant
                rec.wf(),
                e == rec@,
                n == e.len(),
                tree_size(root_tree(e)) <= usize::MAX,
                delays@.len() == i,
                forall|k: int|
                    0 <= k < i ==> delay_seen((#[trigger] delays@[k]), tree_size(unfold(e, k))),
                i > 0 ==> last == delays@[i - 1],
        {
            last = sum_delays(&rec, i, &delays);
            delays.push(last);
        }
        proof {
            assert(delay_seen(delays@[n - 1], tree_size(unfold(e, n - 1))));
        }
        last
    }
}

/// Whether a recorded delay is right: it saturates.
pub open spec fn delay_seen(d: usize, size: nat) -> bool {
    if size <= usize::MAX {
        d == size
    } else {
        d == usize::MAX
    }
}

/// One more than the delays of the arguments together; `usize::MAX` where it
/// is larger.
fn sum_delays<Op>(rec: &RecExpr<Op>, i: usize, delays: &Vec<usize>) -> (r: usize)
    requires
        rec.wf(),
        i < rec@.len(),
        delays@.len() == i,
        forall|k: int|
            0 <= k < i ==> delay_seen((#[trigger] delays@[k]), tree_size(unfold(rec@, k))),
    ensures
        delay_seen(r, tree_size(unfold(rec@, i as int))),
{
    let ghost e = rec@;
    let node: &AstNode<Op> = &rec.nodes[i];
    assert(e[i as int] == node@);
    assert(points_back(e, i as int));
    let m: usize = node.args.len();
    let mut total: usize = 1;
    for j in 0..m
        invariant
            e == rec@,
            i < e.len(),
            e[i as int] == node@,
            m == node@.args.len(),
            points_back(e, i as int),
            delays@.len() == i,
            forall|k: int|
                0 <= k < i ==> delay_seen((#[trigger] delays@[k]), tree_size(unfold(e, k))),
            delay_seen(total, 1 + tree_sizes(unfold_args(e, i as int, j as nat))),
    {
        let arg: usize = node.args[j];
        assert(e[i as int].args[j as int] < i);
        let d: usize = delays[arg];
        assert(delay_seen(d, tree_size(unfold(e, arg as int))));
        let ghost before = unfold_args(e, i as int, j as nat);
        let ghost after = unfold_args(e, i as int, (j + 1) as nat);
        assert(after.drop_last() =~= before);
        assert(after.last() == unfold(e, arg as int));
        total = total.saturating_add(d);
    }
    total
}

impl<Op, T> PartialExpr<Op, T> {
    /// The node, or an error with the hole.
    pub fn into_node(self) -> (r: Result<
        AstNode<Op, PartialExpr<Op, T>>,
        IncompleteExprError<T>,
    >)
        ensures
            match self {
                PartialExpr::Node(node) => r == Ok::<_, IncompleteExprError<T>>(node),
                PartialExpr::Hole(hole) => r is Err && r->Err_0.hole == hole,
            },
    {
        match self {
            PartialExpr::Node(node) => Ok(node),
            PartialExpr::Hole(hole) => Err(IncompleteExprError { hole }),
        }
    }

    /// The partial expression of a node.
    pub fn from_node(node: AstNode<Op, PartialExpr<Op, T>>) -> (r: Self)
        ensures
            r == PartialExpr::Node(node),
    {
        PartialExpr::Node(node)
    }
}

/// A tree as one that could have holes.
pub open spec fn whole<Op, T>(t: Tree<Op>) -> PartialTree<Op, T>
    decreases t, 0nat,
{
    PartialTree::Node(t.operation, wholes(t.args))
}

/// Trees as ones that could have holes.
pub open spec fn wholes<Op, T>(s: Seq<Tree<Op>>) -> Seq<PartialTree<Op, T>>
    decreases s, s.len(),
{
    if s.len() == 0 {
        Seq::empty()
    } else {
        wholes(s.drop_last()).push(whole(s.last()))
    }
}

impl<Op: Duplicate, T> PartialExpr<Op, T> {
    /// An expression as a partial one.
    pub fn from_expr(expr: &Expr<Op>) -> (r: Self)
        ensures
            partial_tree(r) == whole::<Op, T>(tree(*expr)),
        decreases expr,
    {
        let n: usize = expr.args.len();
        let ghost s = trees(expr.args@);
        proof {
            lemma_trees(expr.args@);
        }
        let mut args: Vec<PartialExpr<Op, T>> = Vec::new();
        for i in 0..n
            invariant
                n == expr.args@.len() == s.len(),
                s == trees(expr.args@),
                forall|k: int| 0 <= k < n ==> (#[trigger] s[k]) == tree(*expr.args@[k]),
                args@.len() == i,
                partial_trees(args@) == wholes::<Op, T>(s.take(i as int)),
            decreases n - i,
        {
            proof {
                assert(s.take(i + 1).drop_last() =~= s.take(i as int));
                assert(s[i as int] == tree(*expr.args@[i as int]));
                assert(decreases_to!(expr => expr.args@[i as int]));
            }
            let ghost before = args@;
            args.push(PartialExpr::from_expr(&*expr.args[i]));
            assert(args@.drop_last() =~= before);
        }
        assert(s.take(n as int) =~= s);
        PartialExpr::Node(AstNode::new(expr.operation.duplicate(), args))
    }
}

/// An expression is complete: as a partial one it has no holes, and it
/// completes to itself.
pub proof fn law_whole_is_complete<Op: Default, T>(t: Tree<Op>)
    ensures
        holes(whole::<Op, T>(t)).len() == 0,
        completed(whole::<Op, T>(t), t),
    decreases t, 0nat,
{
    lemma_wholes_are_complete::<Op, T>(t.args);
}

proof fn lemma_wholes_are_complete<Op: Default, T>(s: Seq<Tree<Op>>)
    ensures
        all_holes(wholes::<Op, T>(s)).len() == 0,
        all_completed(wholes::<Op, T>(s), s),
    decreases s, s.len(),
{
    if s.len() > 0 {
        lemma_wholes_are_complete::<Op, T>(s.drop_last());
        law_whole_is_complete::<Op, T>(s.last());
        assert(wholes::<Op, T>(s).drop_last() =~= wholes::<Op, T>(s.drop_last()));
    }
}

// ---------------------------------------------------------------------------
// Patterns
// ---------------------------------------------------------------------------

/// An operation of a pattern, or one of its variables. A pattern is an
/// expression of these, where variables have no arguments.
#[derive(Debug)]
pub enum PatternOp<Op, V> {
    Op(Op),
    Var(V),
}

impl<Op: Duplicate, V: Duplicate> Duplicate for PatternOp<Op, V> {
    fn duplicate(&self) -> (r: Self) {
        match self {
            PatternOp::Op(op) => PatternOp::Op(op.duplicate()),
            PatternOp::Var(v) => PatternOp::Var(v.duplicate()),
        }
    }
}

/// The pattern of a tree with holes: the holes are its variables.
pub open spec fn pattern_tree<Op, V>(t: PartialTree<Op, V>) -> Tree<PatternOp<Op, V>>
    decreases t, 0nat,
{
    match t {
        PartialTree::Node(op, args) => Tree {
            operation: PatternOp::Op(op),
            args: pattern_trees(args),
        },
        PartialTree::Hole(v) => Tree { operation: PatternOp::Var(v), args: Seq::empty() },
    }
}

/// The patterns of trees with holes.
pub open spec fn pattern_trees<Op, V>(s: Seq<PartialTree<Op, V>>) -> Seq<Tree<PatternOp<Op, V>>>
    decreases s, s.len(),
{
    if s.len() == 0 {
        Seq::empty()
    } else {
        pattern_trees(s.drop_last()).push(pattern_tree(s.last()))
    }
}

/// The tree with holes of a pattern.
pub open spec fn tree_of_pattern<Op, V>(t: Tree<PatternOp<Op, V>>) -> PartialTree<Op, V>
    decreases t, 0nat,
{
    match t.operation {
        PatternOp::Op(op) => PartialTree::Node(op, trees_of_patterns(t.args)),
        PatternOp::Var(v) => PartialTree::Hole(v),
    }
}

/// The trees with holes of patterns.
pub open spec fn trees_of_patterns<Op, V>(s: Seq<Tree<PatternOp<Op, V>>>) -> Seq<
    PartialTree<Op, V>,
>
    decreases s, s.len(),
{
    if s.len() == 0 {
        Seq::empty()
    } else {
        trees_of_patterns(s.drop_last()).push(tree_of_pattern(s.last()))
    }
}

/// A tree with holes is that of its own pattern.
pub proof fn law_pattern_reads_back<Op, V>(t: PartialTree<Op, V>)
    ensures
        tree_of_pattern(pattern_tree(t)) == t,
    decreases t, 0nat,
{
    match t {
        PartialTree::Node(_, args) => {
            lemma_patterns_read_back(args);
        },
        PartialTree::Hole(_) => {},
    }
}

proof fn lemma_patterns_read_back<Op, V>(s: Seq<PartialTree<Op, V>>)
    ensures
        trees_of_patterns(pattern_trees(s)) == s,
    decreases s, s.len(),
{
    if s.len() > 0 {
        lemma_patterns_read_back(s.drop_last());
        law_pattern_reads_back(s.last());
        let p = pattern_trees(s);
        assert(p.drop_last() =~= pattern_trees(s.drop_last()));
        assert(trees_of_patterns(p) =~= s);
    } else {
        assert(trees_of_patterns(pattern_trees(s)) =~= s);
    }
}

impl<Op: Duplicate, V: Duplicate> PartialExpr<Op, V> {
    /// The pattern whose variables are the holes.
    pub fn to_pattern(&self) -> (r: RecExpr<PatternOp<Op, V>>)
        ensures
            r.wf(),
            r@.len() == node_count(partial_tree(*self)) + holes(partial_tree(*self)).len(),
            r@.len() > 0,
            root_tree(r@) == pattern_tree(partial_tree(*self)),
    {
        let mut out: RecExpr<PatternOp<Op, V>> = RecExpr::new();
        let _root: usize = self.build_pattern(&mut out);
        out
    }

    /// Adds the nodes of the pattern and returns the index of its root, which
    /// is the last.
    fn build_pattern(&self, out: &mut RecExpr<PatternOp<Op, V>>) -> (r: usize)
        requires
            old(out).wf(),
        ensures
            final(out).wf(),
            old(out)@.is_prefix_of(final(out)@),
            r == final(out)@.len() - 1,
            final(out)@.len() == old(out)@.len() + node_count(partial_tree(*self)) + holes(
                partial_tree(*self),
            ).len(),
            unfold(final(out)@, r as int) == pattern_tree(partial_tree(*self)),
        decreases self,
    {
        let ghost start = out@;
        assert(start =~= start.subrange(0, start.len() as int));
        match self {
            PartialExpr::Hole(v) => {
                let id: usize = out.add(AstNode::leaf(PatternOp::Var(v.duplicate())));
                proof {
                    assert(start =~= out@.subrange(0, start.len() as int));
                    let e = out@;
                    assert(unfold_args(e, id as int, 0) =~= Seq::empty());
                }
                id
            },
            PartialExpr::Node(node) => {
                let n: usize = node.args.len();
                let ghost s = partial_trees(node.args@);
                proof {
                    lemma_partial_trees(node.args@);
                    lemma_pattern_trees(s);
                }
                let mut ids: Vec<usize> = Vec::new();
                for i in 0..n
                    invariant
                        n == node.args@.len() == s.len(),
                        s == partial_trees(node.args@),
                        *self == PartialExpr::Node(*node),
                        forall|k: int| 0 <= k < n ==> (#[trigger] s[k]) == partial_tree(node.args@[k]),
                        out.wf(),
                        start.is_prefix_of(out@),
                        out@.len() == start.len() + node_counts(s.take(i as int)) + all_holes(
                            s.take(i as int),
                        ).len(),
                        ids@.len() == i,
                        forall|k: int|
                            0 <= k < i ==> (#[trigger] ids@[k]) < out@.len() && unfold(
                                out@,
                                ids@[k] as int,
                            ) == pattern_tree(s[k]),
                    decreases n - i,
                {
                    let ghost before = out@;
                    proof {
                        assert(s.take(i + 1).drop_last() =~= s.take(i as int));
                        assert(s[i as int] == partial_tree(node.args@[i as int]));
                        lemma_arg_is_smaller(*self, i as int);
                    }
                    let id: usize = node.args[i].build_pattern(out);
                    proof {
                        assert(start =~= out@.subrange(0, start.len() as int)) by {
                            assert forall|k: int| 0 <= k < start.len() implies start[k]
                                == out@[k] by {
                                assert(start[k] == before.subrange(0, start.len() as int)[k]);
                                assert(before[k] == out@.subrange(0, before.len() as int)[k]);
                            }
                        }
                        assert forall|k: int| 0 <= k < i implies (#[trigger] ids@[k]) < out@.len()
                            && unfold(out@, ids@[k] as int) == pattern_tree(s[k]) by {
                            lemma_unfold_prefix(before, out@, ids@[k] as int);
                        }
                    }
                    ids.push(id);
                }
                assert(s.take(n as int) =~= s);
                let ghost before = out@;
                let ghost held = ids@;
                let id: usize = out.add(
                    AstNode::new(PatternOp::Op(node.operation.duplicate()), ids),
                );
                proof {
                    let e = out@;
                    assert(before =~= e.subrange(0, before.len() as int));
                    assert(start =~= e.subrange(0, start.len() as int)) by {
                        assert forall|k: int| 0 <= k < start.len() implies start[k] == e[k] by {
                            assert(start[k] == before.subrange(0, start.len() as int)[k]);
                        }
                    }
                    assert(points_back(e, id as int));
                    lemma_unfold_args(e, id as int, n as nat);
                    assert(unfold_args(e, id as int, n as nat) =~= pattern_trees(s)) by {
                        assert forall|k: int| 0 <= k < n implies unfold_args(
                            e,
                            id as int,
                            n as nat,
                        )[k] == pattern_trees(s)[k] by {
                            lemma_unfold_prefix(before, e, held[k] as int);
                        }
                    }
                }
                id
            },
        }
    }

    /// The partial expression whose holes are the variables of a pattern.
    pub fn from(pattern: &RecExpr<PatternOp<Op, V>>) -> (r: Self)
        requires
            pattern.wf(),
            pattern@.len() > 0,
        ensures
            partial_tree(r) == tree_of_pattern(root_tree(pattern@)),
    {
        PartialExpr::from_entry(pattern, pattern.nodes.len() - 1)
    }

    fn from_entry(pattern: &RecExpr<PatternOp<Op, V>>, i: usize) -> (r: Self)
        requires
            pattern.wf(),
            i < pattern@.len(),
        ensures
            partial_tree(r) == tree_of_pattern(unfold(pattern@, i as int)),
        decreases i,
    {
        let node: &AstNode<PatternOp<Op, V>> = &pattern.nodes[i];
        let ghost e = pattern@;
        assert(e[i as int] == node@);
        assert(points_back(e, i as int));
        match &node.operation {
            PatternOp::Var(v) => PartialExpr::Hole(v.duplicate()),
            PatternOp::Op(op) => {
                let n: usize = node.args.len();
                let ghost s = unfold_args(e, i as int, n as nat);
                proof {
                    lemma_unfold_args(e, i as int, n as nat);
                }
                let mut args: Vec<PartialExpr<Op, V>> = Vec::new();
                for j in 0..n
                    invariant
                        pattern.wf(),
                        e == pattern@,
                        i < e.len(),
                        e[i as int] == node@,
                        n == node@.args.len() == s.len(),
                        points_back(e, i as int),
                        forall|k: int|
                            0 <= k < n ==> (#[trigger] s[k]) == unfold(
                                e,
                                e[i as int].args[k] as int,
                            ),
                        args@.len() == j,
                        partial_trees(args@) == trees_of_patterns(s.take(j as int)),
                    decreases n - j,
                {
                    assert(e[i as int].args[j as int] < i);
                    let ghost before = args@;
                    assert(s.take(j + 1).drop_last() =~= s.take(j as int));
                    assert(s[j as int] == unfold(e, e[i as int].args[j as int] as int));
                    args.push(PartialExpr::from_entry(pattern, node.args[j]));
                    assert(args@.drop_last() =~= before);
                }
                assert(s.take(n as int) =~= s);
                PartialExpr::Node(AstNode::new(op.duplicate(), args))
            },
        }
    }
}

proof fn lemma_pattern_trees<Op, V>(s: Seq<PartialTree<Op, V>>)
    ensures
        pattern_trees(s).len() == s.len(),
        forall|i: int| 0 <= i < s.len() ==> (#[trigger] pattern_trees(s)[i]) == pattern_tree(s[i]),
    decreases s.len(),
{
    if s.len() > 0 {
        lemma_pattern_trees(s.drop_last());
    }
}

} // verus!
