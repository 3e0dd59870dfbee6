//! Searching an e-graph for a partial expression.
use crate::ast_node::partial_expr::{
    all_holes, first_of_equals, has_equal, holes, lemma_arg_is_smaller, lemma_partial_trees, partial_tree,
    partial_trees, values_of, PartialExpr, PartialTree,
};
use crate::ast_node::{Identical, NodeView};
use crate::egraph::{EClass, EGraph};
use crate::learn::{add_match, match_order, match_views, Match};
use crate::sorting::in_order;
use vstd::prelude::*;
use vstd::std_specs::cmp::PartialEqSpec;

verus! {

/// Whether the equality of a type is reflexive, symmetric and transitive.
pub open spec fn is_equivalence<T: PartialEq>() -> bool {
    &&& forall|a: T| #[trigger] a.eq_spec(&a)
    &&& forall|a: T, b: T| #[trigger] a.eq_spec(&b) ==> b.eq_spec(&a)
    &&& forall|a: T, b: T, c: T| #[trigger]
        a.eq_spec(&b) && #[trigger] b.eq_spec(&c) ==> a.eq_spec(&c)
}

/// Whether a hole with this value stands for the class: `u` are the values of
/// the holes, and `p` what they stand for.
pub open spec fn bound_to<T: PartialEq>(
    u: Seq<T>,
    p: Seq<Option<usize>>,
    hole: T,
    class: usize,
) -> bool {
    exists|k: int| 0 <= k < u.len() && (#[trigger] u[k]).eq_spec(&hole) && p[k] == Some(class)
}

/// Whether a class matches a tree, where the holes with the values `u` stand
/// for the classes `p`: a hole matches the class that it stands for, and a
/// node a class with a node of the same operation whose arguments match.
pub open spec fn tree_matches<Op: Identical, D, T: PartialEq>(
    g: EGraph<Op, D>,
    t: PartialTree<Op, T>,
    class: usize,
    u: Seq<T>,
    p: Seq<Option<usize>>,
) -> bool
    decreases t,
{
    match t {
        PartialTree::Hole(hole) => bound_to(u, p, hole, class),
        PartialTree::Node(op, args) => exists|n: int|
            0 <= n < g.class(class).nodes@.len() && {
                let node = (#[trigger] g.class(class).nodes@[n])@;
                &&& op.s_identical(&node.operation)
                &&& node.args.len() == args.len()
                &&& forall|j: int|
                    0 <= j < args.len() ==> tree_matches(
                        g,
                        #[trigger] args[j],
                        g.class(node.args[j]).id,
                        u,
                        p,
                    )
            },
    }
}

/// In how many ways a class matches a tree: a hole in one way, and a node in
/// those of the nodes of the class.
pub open spec fn ways<Op: Identical, D, T: PartialEq>(
    g: EGraph<Op, D>,
    t: PartialTree<Op, T>,
    class: usize,
    u: Seq<T>,
    p: Seq<Option<usize>>,
) -> nat
    decreases t, 3nat, 0nat,
{
    match t {
        PartialTree::Hole(hole) => if bound_to(u, p, hole, class) {
            1
        } else {
            0
        },
        PartialTree::Node(_, _) => class_ways(g, t, class, g.class(class).nodes@.len(), u, p),
    }
}

/// In how many ways the first `n` nodes of a class match a tree.
pub open spec fn class_ways<Op: Identical, D, T: PartialEq>(
    g: EGraph<Op, D>,
    t: PartialTree<Op, T>,
    class: usize,
    n: nat,
    u: Seq<T>,
    p: Seq<Option<usize>>,
) -> nat
    decreases t, 2nat, n,
{
    if n == 0 {
        0
    } else {
        class_ways(g, t, class, (n - 1) as nat, u, p) + node_ways(
            g,
            t,
            g.class(class).nodes@[n - 1]@,
            u,
            p,
        )
    }
}

/// In how many ways a node matches a tree.
pub open spec fn node_ways<Op: Identical, D, T: PartialEq>(
    g: EGraph<Op, D>,
    t: PartialTree<Op, T>,
    node: NodeView<Op>,
    u: Seq<T>,
    p: Seq<Option<usize>>,
) -> nat
    decreases t, 1nat, 0nat,
{
    if t is Node && t->Node_0.s_identical(&node.operation) && node.args.len() == t->Node_1.len() {
        arg_ways(g, t, t->Node_1.len(), node.args, u, p)
    } else {
        0
    }
}

/// In how many ways the first `j` arguments match those of a tree, each in
/// its ways.
pub open spec fn arg_ways<Op: Identical, D, T: PartialEq>(
    g: EGraph<Op, D>,
    t: PartialTree<Op, T>,
    j: nat,
    args: Seq<usize>,
    u: Seq<T>,
    p: Seq<Option<usize>>,
) -> nat
    decreases t, 0nat, j,
{
    if t is Node && 0 < j <= t->Node_1.len() {
        arg_ways(g, t, (j - 1) as nat, args, u, p) * ways(
            g,
            t->Node_1[j - 1],
            g.class(args[j - 1]).id,
            u,
            p,
        )
    } else {
        1
    }
}

/// Whether the class of an identifier matches a tree, where the holes stand
/// for the classes `actuals`, in the order of their first appearance.
pub open spec fn is_match<Op: Identical, D, T: PartialEq>(
    g: EGraph<Op, D>,
    t: PartialTree<Op, T>,
    found: (usize, Seq<usize>),
) -> bool {
    let u = first_of_equals(holes(t), holes(t).len());
    &&& exists|k: int| 0 <= k < g.classes@.len() && (#[trigger] g.classes@[k]).id == found.0
    &&& found.1.len() == u.len()
    &&& tree_matches(g, t, found.0, u, all_bound(found.1))
}

/// In how many ways the class of an identifier matches a tree, where the holes
/// stand for the classes `actuals`, in the order of their first appearance.
pub open spec fn match_count<Op: Identical, D, T: PartialEq>(
    g: EGraph<Op, D>,
    t: PartialTree<Op, T>,
    found: (usize, Seq<usize>),
) -> nat {
    let u = first_of_equals(holes(t), holes(t).len());
    if (exists|k: int| 0 <= k < g.classes@.len() && (#[trigger] g.classes@[k]).id == found.0)
        && found.1.len() == u.len() {
        ways(g, t, found.0, u, all_bound(found.1))
    } else {
        0
    }
}

/// Every hole stands for a class.
pub open spec fn all_bound(actuals: Seq<usize>) -> Seq<Option<usize>> {
    Seq::new(actuals.len(), |i: int| Some(actuals[i]))
}

/// Whether a value is among those of the holes.
pub open spec fn named<T: PartialEq>(x: T, hs: Seq<T>) -> bool {
    exists|i: int| 0 <= i < hs.len() && x.eq_spec(&#[trigger] hs[i])
}

/// Whether no two values are equal.
pub open spec fn differ<T: PartialEq>(u: Seq<T>) -> bool {
    forall|i: int, j: int| 0 <= i < j < u.len() ==> !(#[trigger] u[i]).eq_spec(#[trigger] &u[j])
}

/// Whether a hole is named in `u`.
pub open spec fn covered<T: PartialEq>(u: Seq<T>, hole: T) -> bool {
    exists|k: int| 0 <= k < u.len() && (#[trigger] u[k]).eq_spec(&hole)
}

/// Whether every hole is named in `u`.
pub open spec fn covers<T: PartialEq>(u: Seq<T>, hs: Seq<T>) -> bool {
    forall|i: int| 0 <= i < hs.len() ==> covered(u, #[trigger] hs[i])
}

/// Whether `q` is `p`, with all holes `hs` bound and no others.
spec fn grown<T: PartialEq>(
    u: Seq<T>,
    hs: Seq<T>,
    p: Seq<Option<usize>>,
    q: Seq<Option<usize>>,
) -> bool {
    &&& q.len() == p.len()
    &&& forall|k: int|
        0 <= k < q.len() ==> match p[k] {
            Some(x) => (#[trigger] q[k]) == Some(x),
            None => q[k] is Some <==> named(u[k], hs),
        }
}

/// How often something stands in a sequence.
spec fn times<A>(s: Seq<A>, x: A) -> nat {
    s.to_multiset().count(x)
}

/// In how many ways matching a tree leads from `p` to `q`.
spec fn reached<Op: Identical, D, T: PartialEq>(
    g: EGraph<Op, D>,
    t: PartialTree<Op, T>,
    class: usize,
    u: Seq<T>,
    p: Seq<Option<usize>>,
    q: Seq<Option<usize>>,
) -> nat {
    if grown(u, holes(t), p, q) {
        ways(g, t, class, u, q)
    } else {
        0
    }
}

/// In how many ways the first `n` nodes of a class lead from `p` to `q`.
spec fn nodes_reached<Op: Identical, D, T: PartialEq>(
    g: EGraph<Op, D>,
    t: PartialTree<Op, T>,
    class: usize,
    n: nat,
    u: Seq<T>,
    p: Seq<Option<usize>>,
    q: Seq<Option<usize>>,
) -> nat {
    if grown(u, holes(t), p, q) {
        class_ways(g, t, class, n, u, q)
    } else {
        0
    }
}

/// In how many ways matching the first `j` arguments leads from `p` to `q`.
spec fn args_reached<Op: Identical, D, T: PartialEq>(
    g: EGraph<Op, D>,
    t: PartialTree<Op, T>,
    j: nat,
    args: Seq<usize>,
    u: Seq<T>,
    p: Seq<Option<usize>>,
    q: Seq<Option<usize>>,
) -> nat {
    if grown(u, all_holes(t->Node_1.take(j as int)), p, q) {
        arg_ways(g, t, j, args, u, q)
    } else {
        0
    }
}

/// `q`, with what is bound in `p` or named in `hs` and nothing else.
spec fn narrowed<T: PartialEq>(
    u: Seq<T>,
    hs: Seq<T>,
    p: Seq<Option<usize>>,
    q: Seq<Option<usize>>,
) -> Seq<Option<usize>> {
    Seq::new(
        q.len(),
        |k: int|
            if p[k] is Some || named(u[k], hs) {
                q[k]
            } else {
                None
            },
    )
}

/// In how many ways matching one more argument, from one of `ps`, leads from
/// `p` to `q`.
spec fn next_reached<Op: Identical, D, T: PartialEq>(
    g: EGraph<Op, D>,
    t: PartialTree<Op, T>,
    j: nat,
    class: usize,
    u: Seq<T>,
    p: Seq<Option<usize>>,
    ps: Seq<Seq<Option<usize>>>,
    q: Seq<Option<usize>>,
) -> nat {
    let ts = t->Node_1;
    if grown(u, all_holes(ts.take(j as int + 1)), p, q) {
        times(ps, narrowed(u, all_holes(ts.take(j as int)), p, q)) * ways(
            g,
            ts[j as int],
            class,
            u,
            q,
        )
    } else {
        0
    }
}

/// How often a match is found in one of the first `n` classes.
spec fn count_in<Op: Identical, D, T: PartialEq>(
    g: EGraph<Op, D>,
    t: PartialTree<Op, T>,
    n: int,
    found: (usize, Seq<usize>),
) -> nat {
    let u = first_of_equals(holes(t), holes(t).len());
    if (exists|k: int| 0 <= k < n && (#[trigger] g.classes@[k]).id == found.0) && found.1.len()
        == u.len() {
        ways(g, t, found.0, u, all_bound(found.1))
    } else {
        0
    }
}

/// How often a match is found in a class, where these are the bindings.
spec fn here_times(class: usize, fs: Seq<Seq<Option<usize>>>, found: (usize, Seq<usize>)) -> nat {
    if found.0 == class {
        times(fs, all_bound(found.1))
    } else {
        0
    }
}

/// The bindings as sequences.
spec fn bindings(v: Seq<Vec<Option<usize>>>) -> Seq<Seq<Option<usize>>> {
    Seq::new(v.len(), |i: int| v[i]@)
}

proof fn lemma_named_next<Op, T: PartialEq>(x: T, ts: Seq<PartialTree<Op, T>>, j: int)
    requires
        0 <= j < ts.len(),
    ensures
        named(x, all_holes(ts.take(j + 1))) <==> named(x, all_holes(ts.take(j))) || named(
            x,
            holes(ts[j]),
        ),
{
    let a = all_holes(ts.take(j));
    let b = holes(ts[j]);
    assert(ts.take(j + 1).drop_last() =~= ts.take(j));
    let c = all_holes(ts.take(j + 1));
    assert(c == a + b);
    if named(x, c) {
        let i = choose|i: int| 0 <= i < c.len() && x.eq_spec(&#[trigger] c[i]);
        if i < a.len() {
            assert(x.eq_spec(&a[i]));
        } else {
            assert(x.eq_spec(&b[i - a.len()]));
        }
    }
    if named(x, a) {
        let i = choose|i: int| 0 <= i < a.len() && x.eq_spec(&#[trigger] a[i]);
        assert(x.eq_spec(&c[i]));
    }
    if named(x, b) {
        let i = choose|i: int| 0 <= i < b.len() && x.eq_spec(&#[trigger] b[i]);
        assert(x.eq_spec(&c[a.len() + i]));
    }
}

/// The holes of a tree are among those of several.
proof fn lemma_named_within<Op, T: PartialEq>(x: T, ts: Seq<PartialTree<Op, T>>, j: int)
    requires
        0 <= j < ts.len(),
        named(x, holes(ts[j])),
    ensures
        named(x, all_holes(ts)),
    decreases ts.len(),
{
    let last = ts.len() - 1;
    assert(ts.take(last + 1) =~= ts);
    lemma_named_next(x, ts, last);
    if j < last {
        assert(ts.take(last)[j] == ts[j]);
        lemma_named_within(x, ts.take(last), j);
    }
}

proof fn lemma_times_sum<A>(a: Seq<A>, b: Seq<A>, x: A)
    ensures
        times(a + b, x) == times(a, x) + times(b, x),
{
    broadcast use vstd::multiset::group_multiset_axioms;

    vstd::seq_lib::lemma_multiset_commutative(a, b);
}

proof fn lemma_times_push<A>(a: Seq<A>, y: A, x: A)
    ensures
        times(a.push(y), x) == times(a, x) + (if x == y {
            1nat
        } else {
            0
        }),
{
    broadcast use {vstd::multiset::group_multiset_axioms, vstd::seq_lib::group_to_multiset_ensures};

}

proof fn lemma_times<A>(a: Seq<A>, x: A)
    ensures
        times(a, x) > 0 <==> a.contains(x),
        a.len() == 0 ==> times(a, x) == 0,
        a.len() == 1 ==> times(a, x) == (if x == a[0] {
            1nat
        } else {
            0
        }),
{
    broadcast use vstd::seq_lib::group_to_multiset_ensures;

    if a.len() == 1 {
        let none = Seq::<A>::empty();
        assert(a =~= none.push(a[0]));
        lemma_times_push(none, a[0], x);
        assert(!none.contains(x));
    }
}

/// The ways of the arguments, of a node and of a class depend on those of the
/// parts of the tree alone.
proof fn lemma_parts_agree<Op: Identical, D, T: PartialEq>(
    g: EGraph<Op, D>,
    t: PartialTree<Op, T>,
    j: nat,
    args: Seq<usize>,
    u: Seq<T>,
    q: Seq<Option<usize>>,
    r: Seq<Option<usize>>,
)
    requires
        t is Node,
        j <= t->Node_1.len(),
        forall|i: int, c: usize|
            0 <= i < j ==> #[trigger] ways(g, t->Node_1[i], c, u, q) == ways(
                g,
                t->Node_1[i],
                c,
                u,
                r,
            ),
    ensures
        arg_ways(g, t, j, args, u, q) == arg_ways(g, t, j, args, u, r),
    decreases j,
{
    if j > 0 {
        lemma_parts_agree(g, t, (j - 1) as nat, args, u, q, r);
        let c = g.class(args[j - 1]).id;
        assert(ways(g, t->Node_1[j - 1], c, u, q) == ways(g, t->Node_1[j - 1], c, u, r));
    }
}

proof fn lemma_nodes_agree<Op: Identical, D, T: PartialEq>(
    g: EGraph<Op, D>,
    t: PartialTree<Op, T>,
    class: usize,
    n: nat,
    u: Seq<T>,
    q: Seq<Option<usize>>,
    r: Seq<Option<usize>>,
)
    requires
        t is Node,
        forall|i: int, c: usize|
            0 <= i < t->Node_1.len() ==> #[trigger] ways(g, t->Node_1[i], c, u, q) == ways(
                g,
                t->Node_1[i],
                c,
                u,
                r,
            ),
    ensures
        class_ways(g, t, class, n, u, q) == class_ways(g, t, class, n, u, r),
    decreases n,
{
    if n > 0 {
        lemma_nodes_agree(g, t, class, (n - 1) as nat, u, q, r);
        let node = g.class(class).nodes@[n - 1]@;
        lemma_parts_agree(g, t, t->Node_1.len(), node.args, u, q, r);
        assert(node_ways(g, t, node, u, q) == node_ways(g, t, node, u, r));
    }
}

/// In how many ways a class matches depends on the holes of the tree alone.
proof fn lemma_agree<Op: Identical, D, T: PartialEq>(
    g: EGraph<Op, D>,
    t: PartialTree<Op, T>,
    class: usize,
    u: Seq<T>,
    q: Seq<Option<usize>>,
    r: Seq<Option<usize>>,
)
    requires
        forall|k: int| 0 <= k < u.len() && named(#[trigger] u[k], holes(t)) ==> r[k] == q[k],
    ensures
        ways(g, t, class, u, q) == ways(g, t, class, u, r),
    decreases t,
{
    match t {
        PartialTree::Hole(hole) => {
            assert(holes(t)[0] == hole);
            assert forall|k: int| 0 <= k < u.len() && (#[trigger] u[k]).eq_spec(&hole) implies r[k]
                == q[k] by {
                assert(named(u[k], holes(t)));
            }
        },
        PartialTree::Node(_, args) => {
            assert forall|j: int, c: usize| 0 <= j < args.len() implies #[trigger] ways(
                g,
                args[j],
                c,
                u,
                q,
            ) == ways(g, args[j], c, u, r) by {
                assert forall|k: int|
                    0 <= k < u.len() && named(#[trigger] u[k], holes(args[j])) implies r[k]
                    == q[k] by {
                    lemma_named_within(u[k], args, j);
                }
                lemma_agree(g, args[j], c, u, q, r);
            }
            lemma_nodes_agree(g, t, class, g.class(class).nodes@.len(), u, q, r);
        },
    }
}

/// Arguments match where each of them does.
pub(crate) proof fn lemma_arg_ways<Op: Identical, D, T: PartialEq>(
    g: EGraph<Op, D>,
    t: PartialTree<Op, T>,
    j: nat,
    args: Seq<usize>,
    u: Seq<T>,
    p: Seq<Option<usize>>,
)
    requires
        t is Node,
        j <= t->Node_1.len(),
    ensures
        arg_ways(g, t, j, args, u, p) > 0 <==> forall|i: int|
            0 <= i < j ==> ways(g, #[trigger] t->Node_1[i], g.class(args[i]).id, u, p) > 0,
    decreases j,
{
    if j > 0 {
        lemma_arg_ways(g, t, (j - 1) as nat, args, u, p);
        let a = arg_ways(g, t, (j - 1) as nat, args, u, p);
        let b = ways(g, t->Node_1[j - 1], g.class(args[j - 1]).id, u, p);
        assert(a * b > 0 <==> a > 0 && b > 0) by (nonlinear_arith);
    }
}

/// A class matches where one of its nodes does.
pub(crate) proof fn lemma_class_ways<Op: Identical, D, T: PartialEq>(
    g: EGraph<Op, D>,
    t: PartialTree<Op, T>,
    class: usize,
    n: nat,
    u: Seq<T>,
    p: Seq<Option<usize>>,
)
    ensures
        class_ways(g, t, class, n, u, p) > 0 <==> exists|k: int|
            0 <= k < n && node_ways(g, t, #[trigger] g.class(class).nodes@[k]@, u, p) > 0,
    decreases n,
{
    if n > 0 {
        lemma_class_ways(g, t, class, (n - 1) as nat, u, p);
        if node_ways(g, t, g.class(class).nodes@[n - 1]@, u, p) > 0 {
            assert(0 <= n - 1 < n);
        }
    }
}

/// There is a way where a class matches.
pub(crate) proof fn lemma_ways<Op: Identical, D, T: PartialEq>(
    g: EGraph<Op, D>,
    t: PartialTree<Op, T>,
    class: usize,
    u: Seq<T>,
    p: Seq<Option<usize>>,
)
    ensures
        ways(g, t, class, u, p) > 0 <==> tree_matches(g, t, class, u, p),
    decreases t,
{
    if let PartialTree::Node(op, args) = t {
        let nodes = g.class(class).nodes@;
        assert forall|j: int, c: usize| 0 <= j < args.len() implies (#[trigger] ways(
            g,
            args[j],
            c,
            u,
            p,
        ) > 0) == tree_matches(g, args[j], c, u, p) by {
            lemma_ways(g, args[j], c, u, p);
        }
        lemma_class_ways(g, t, class, nodes.len(), u, p);
        assert forall|n: int| 0 <= n < nodes.len() implies (node_ways(
            g,
            t,
            (#[trigger] nodes[n])@,
            u,
            p,
        ) > 0) == {
            &&& op.s_identical(&nodes[n]@.operation)
            &&& nodes[n]@.args.len() == args.len()
            &&& forall|j: int|
                0 <= j < args.len() ==> tree_matches(
                    g,
                    #[trigger] args[j],
                    g.class(nodes[n]@.args[j]).id,
                    u,
                    p,
                )
        } by {
            let of = nodes[n]@.args;
            lemma_arg_ways(g, t, args.len(), of, u, p);
            assert forall|j: int| 0 <= j < args.len() implies (ways(
                g,
                #[trigger] args[j],
                g.class(of[j]).id,
                u,
                p,
            ) > 0) == tree_matches(g, args[j], g.class(of[j]).id, u, p) by {}
        }
        if tree_matches(g, t, class, u, p) {
            let n = choose|n: int|
                0 <= n < nodes.len() && {
                    let node = (#[trigger] nodes[n])@;
                    &&& op.s_identical(&node.operation)
                    &&& node.args.len() == args.len()
                    &&& forall|j: int|
                        0 <= j < args.len() ==> tree_matches(
                            g,
                            #[trigger] args[j],
                            g.class(node.args[j]).id,
                            u,
                            p,
                        )
                };
            assert(node_ways(g, t, nodes[n]@, u, p) > 0);
        }
        if class_ways(g, t, class, nodes.len(), u, p) > 0 {
            let n = choose|n: int|
                0 <= n < nodes.len() && node_ways(
                    g,
                    t,
                    #[trigger] g.class(class).nodes@[n]@,
                    u,
                    p,
                ) > 0;
            assert(nodes[n] == nodes[n]);
        }
    }
}

/// What leads from one of several bindings to `q` is the only one that can.
proof fn lemma_narrowed<Op, T: PartialEq>(
    ts: Seq<PartialTree<Op, T>>,
    j: int,
    u: Seq<T>,
    p: Seq<Option<usize>>,
    x: Seq<Option<usize>>,
    q: Seq<Option<usize>>,
)
    requires
        0 <= j < ts.len(),
        p.len() == u.len(),
        grown(u, all_holes(ts.take(j)), p, x),
    ensures
        grown(u, holes(ts[j]), x, q) <==> grown(u, all_holes(ts.take(j + 1)), p, q) && x
            == narrowed(u, all_holes(ts.take(j)), p, q),
{
    let hs = all_holes(ts.take(j));
    assert forall|k: int| 0 <= k < u.len() implies (named(
        #[trigger] u[k],
        all_holes(ts.take(j + 1)),
    ) <==> named(u[k], hs) || named(u[k], holes(ts[j]))) by {
        lemma_named_next(u[k], ts, j);
    }
    assert forall|k: int| 0 <= k < p.len() implies match p[k] {
        Some(y) => (#[trigger] x[k]) == Some(y),
        None => x[k] is Some <==> named(u[k], hs),
    } by {}
    if grown(u, holes(ts[j]), x, q) {
        assert forall|k: int| 0 <= k < q.len() implies match p[k] {
            Some(y) => (#[trigger] q[k]) == Some(y),
            None => q[k] is Some <==> named(u[k], all_holes(ts.take(j + 1))),
        } by {
            assert(x[k] == x[k]);
        }
        assert forall|k: int| 0 <= k < x.len() implies x[k] == narrowed(u, hs, p, q)[k] by {
            assert(q[k] == q[k]);
        }
        assert(x =~= narrowed(u, hs, p, q));
    }
    if grown(u, all_holes(ts.take(j + 1)), p, q) && x == narrowed(u, hs, p, q) {
        assert forall|k: int| 0 <= k < q.len() implies match x[k] {
            Some(y) => (#[trigger] q[k]) == Some(y),
            None => q[k] is Some <==> named(u[k], holes(ts[j])),
        } by {}
    }
}

/// What is narrowed is grown, and matches as before.
proof fn lemma_narrowed_grows<Op: Identical, D, T: PartialEq>(
    g: EGraph<Op, D>,
    t: PartialTree<Op, T>,
    j: nat,
    args: Seq<usize>,
    u: Seq<T>,
    p: Seq<Option<usize>>,
    q: Seq<Option<usize>>,
)
    requires
        t is Node,
        j < t->Node_1.len(),
        p.len() == u.len(),
        grown(u, all_holes(t->Node_1.take(j as int + 1)), p, q),
    ensures
        ({
            let hs = all_holes(t->Node_1.take(j as int));
            let x = narrowed(u, hs, p, q);
            &&& grown(u, hs, p, x)
            &&& arg_ways(g, t, j, args, u, x) == arg_ways(g, t, j, args, u, q)
        }),
{
    let ts = t->Node_1;
    let hs = all_holes(ts.take(j as int));
    let x = narrowed(u, hs, p, q);
    assert forall|k: int| 0 <= k < x.len() implies match p[k] {
        Some(y) => (#[trigger] x[k]) == Some(y),
        None => x[k] is Some <==> named(u[k], hs),
    } by {
        assert(q[k] == q[k]);
        lemma_named_next(u[k], ts, j as int);
    }
    assert forall|i: int, c: usize| 0 <= i < j implies #[trigger] ways(g, ts[i], c, u, x) == ways(
        g,
        ts[i],
        c,
        u,
        q,
    ) by {
        assert forall|k: int| 0 <= k < u.len() && named(#[trigger] u[k], holes(ts[i])) implies q[k]
            == x[k] by {
            assert(ts.take(j as int)[i] == ts[i]);
            lemma_named_within(u[k], ts.take(j as int), i);
        }
        lemma_agree(g, ts[i], c, u, x, q);
    }
    lemma_parts_agree(g, t, j, args, u, x, q);
}

/// Before any argument is matched, nothing is bound.
proof fn lemma_no_args<Op: Identical, D, T: PartialEq>(
    g: EGraph<Op, D>,
    t: PartialTree<Op, T>,
    args: Seq<usize>,
    u: Seq<T>,
    p: Seq<Option<usize>>,
    q: Seq<Option<usize>>,
)
    requires
        t is Node,
        p.len() == u.len(),
    ensures
        args_reached(g, t, 0, args, u, p, q) == (if q == p {
            1nat
        } else {
            0
        }),
{
    let ts = t->Node_1;
    assert(ts.take(0) =~= Seq::<PartialTree<Op, T>>::empty());
    assert(all_holes(ts.take(0)) =~= Seq::<T>::empty());
    if grown(u, all_holes(ts.take(0)), p, q) {
        assert forall|k: int| 0 <= k < p.len() implies q[k] == p[k] by {
            assert(!named(u[k], all_holes(ts.take(0))));
        }
        assert(q =~= p);
    }
}

/// The bindings that one more argument leads to, from one more of those
/// before.
proof fn lemma_next_reached<Op: Identical, D, T: PartialEq>(
    g: EGraph<Op, D>,
    t: PartialTree<Op, T>,
    j: nat,
    class: usize,
    u: Seq<T>,
    p: Seq<Option<usize>>,
    ps: Seq<Seq<Option<usize>>>,
    x: Seq<Option<usize>>,
    q: Seq<Option<usize>>,
)
    requires
        t is Node,
        j < t->Node_1.len(),
        p.len() == u.len(),
        grown(u, all_holes(t->Node_1.take(j as int)), p, x),
    ensures
        next_reached(g, t, j, class, u, p, ps.push(x), q) == next_reached(
            g,
            t,
            j,
            class,
            u,
            p,
            ps,
            q,
        ) + reached(g, t->Node_1[j as int], class, u, x, q),
{
    let ts = t->Node_1;
    lemma_narrowed(ts, j as int, u, p, x, q);
    let y = narrowed(u, all_holes(ts.take(j as int)), p, q);
    lemma_times_push(ps, x, y);
    let (a, w) = (times(ps, y), ways(g, ts[j as int], class, u, q));
    assert((a + 1) * w == a * w + w) by (nonlinear_arith);
}

/// One more argument.
proof fn lemma_next_arg<Op: Identical, D, T: PartialEq>(
    g: EGraph<Op, D>,
    t: PartialTree<Op, T>,
    j: nat,
    args: Seq<usize>,
    u: Seq<T>,
    p: Seq<Option<usize>>,
    ps: Seq<Seq<Option<usize>>>,
    q: Seq<Option<usize>>,
)
    requires
        t is Node,
        j < t->Node_1.len(),
        p.len() == u.len(),
        forall|x: Seq<Option<usize>>| #[trigger]
            times(ps, x) == args_reached(g, t, j, args, u, p, x),
    ensures
        next_reached(g, t, j, g.class(args[j as int]).id, u, p, ps, q) == args_reached(
            g,
            t,
            j + 1,
            args,
            u,
            p,
            q,
        ),
{
    if grown(u, all_holes(t->Node_1.take(j as int + 1)), p, q) {
        lemma_narrowed_grows(g, t, j, args, u, p, q);
        let x = narrowed(u, all_holes(t->Node_1.take(j as int)), p, q);
        assert(times(ps, x) == args_reached(g, t, j, args, u, p, x));
    }
}

proof fn lemma_covers_arg<Op, T: PartialEq>(
    u: Seq<T>,
    t: PartialTree<Op, T>,
    ts: Seq<PartialTree<Op, T>>,
    j: int,
)
    requires
        t is Node,
        t->Node_1 == ts,
        0 <= j < ts.len(),
        covers(u, holes(t)),
    ensures
        covers(u, holes(ts[j])),
{
    assert forall|i: int| 0 <= i < holes(ts[j]).len() implies covered(
        u,
        #[trigger] holes(ts[j])[i],
    ) by {
        lemma_hole_within(ts, j, i);
        let m = choose|m: int|
            0 <= m < all_holes(ts).len() && #[trigger] all_holes(ts)[m] == holes(ts[j])[i];
        assert(holes(t) == all_holes(ts));
        assert(covered(u, holes(t)[m]));
    }
}

proof fn lemma_hole_within<Op, T>(ts: Seq<PartialTree<Op, T>>, j: int, i: int)
    requires
        0 <= j < ts.len(),
        0 <= i < holes(ts[j]).len(),
    ensures
        exists|m: int|
            0 <= m < all_holes(ts).len() && #[trigger] all_holes(ts)[m] == holes(ts[j])[i],
    decreases ts.len(),
{
    let rest = ts.drop_last();
    if j == ts.len() - 1 {
        assert(all_holes(ts)[all_holes(rest).len() + i] == holes(ts[j])[i]);
    } else {
        assert(rest[j] == ts[j]);
        lemma_hole_within(rest, j, i);
        let m = choose|m: int|
            0 <= m < all_holes(rest).len() && #[trigger] all_holes(rest)[m] == holes(rest[j])[i];
        assert(all_holes(ts)[m] == holes(ts[j])[i]);
    }
}

/// The first of equal holes differ, are holes, and every hole is like one of
/// them.
pub(crate) proof fn lemma_first_of_equals<T: PartialEq>(s: Seq<T>, n: nat)
    requires
        n <= s.len(),
        is_equivalence::<T>(),
    ensures
        differ(first_of_equals(s, n)),
        covers(first_of_equals(s, n), s.take(n as int)),
        forall|k: int|
            0 <= k < first_of_equals(s, n).len() ==> named(
                #[trigger] first_of_equals(s, n)[k],
                s,
            ),
    decreases n,
{
    let u = first_of_equals(s, n);
    if n > 0 {
        let before = first_of_equals(s, (n - 1) as nat);
        let x = s[n - 1];
        lemma_first_of_equals(s, (n - 1) as nat);
        assert(x.eq_spec(&x));
        assert forall|i: int, j: int| 0 <= i < j < u.len() implies !(#[trigger] u[i]).eq_spec(
            #[trigger] &u[j],
        ) by {
            if j < before.len() {
                assert(!before[i].eq_spec(&before[j]));
            } else {
                assert(before[i] == u[i] && u[j] == x);
            }
        }
        assert forall|i: int| 0 <= i < n implies covered(u, #[trigger] s.take(n as int)[i]) by {
            if i < n - 1 {
                assert(s.take(n - 1)[i] == s.take(n as int)[i]);
                assert(covered(before, s.take(n - 1)[i]));
                let k = choose|k: int|
                    0 <= k < before.len() && (#[trigger] before[k]).eq_spec(&s[i]);
                assert(u[k].eq_spec(&s[i]));
            } else if has_equal(before, x) {
                let k = choose|k: int| 0 <= k < before.len() && (#[trigger] before[k]).eq_spec(&x);
                assert(u[k].eq_spec(&x));
            } else {
                assert(u[before.len() as int].eq_spec(&x));
            }
        }
        assert forall|k: int| 0 <= k < u.len() implies named(#[trigger] u[k], s) by {
            if k < before.len() {
                assert(before[k] == u[k]);
            } else {
                assert(u[k].eq_spec(&s[n - 1]));
            }
        }
    }
}

fn copy_binding(v: &Vec<Option<usize>>) -> (r: Vec<Option<usize>>)
    ensures
        r@ == v@,
{
    let mut r: Vec<Option<usize>> = Vec::new();
    let n: usize = v.len();
    for i in 0..n
        invariant
            n == v@.len(),
            r@ == v@.take(i as int),
    {
        r.push(v[i]);
        assert(r@ =~= v@.take(i + 1));
    }
    assert(r@ =~= v@);
    r
}

/// Moves bindings behind others.
fn move_bindings(to: &mut Vec<Vec<Option<usize>>>, from: Vec<Vec<Option<usize>>>)
    ensures
        bindings(final(to)@) == bindings(old(to)@) + bindings(from@),
{
    let mut from: Vec<Vec<Option<usize>>> = from;
    let ghost a = to@;
    let ghost b = from@;
    to.append(&mut from);
    assert(to@ =~= a + b);
    assert(bindings(to@) =~= bindings(a) + bindings(b));
}

impl<Op: Identical, T: PartialEq> PartialExpr<Op, T> {
    /// What the holes may stand for where a class matches, in addition to
    /// what they stand for already, once for each way.
    fn match_class<D>(
        &self,
        egraph: &EGraph<Op, D>,
        u: &Vec<&T>,
        class: usize,
        start: &Vec<Option<usize>>,
    ) -> (r: Vec<Vec<Option<usize>>>)
        requires
            egraph.wf(),
            T::obeys_eq_spec(),
            is_equivalence::<T>(),
            class < egraph.slots@.len(),
            start@.len() == u@.len(),
            differ(values_of(u@)),
            covers(values_of(u@), holes(partial_tree(*self))),
        ensures
            forall|q: Seq<Option<usize>>| #[trigger]
                times(bindings(r@), q) == reached(
                    *egraph,
                    partial_tree(*self),
                    class,
                    values_of(u@),
                    start@,
                    q,
                ),
        decreases self,
    {
        let ghost g = *egraph;
        let ghost w = values_of(u@);
        let ghost p = start@;
        let ghost t = partial_tree(*self);
        match self {
            PartialExpr::Hole(hole) => {
                let mut k: usize = 0;
                let known: usize = u.len();
                proof {
                    assert(holes(t)[0] == *hole);
                    assert(covered(w, holes(t)[0]));
                }
                while *u[k] != *hole
                    invariant
                        T::obeys_eq_spec(),
                        w == values_of(u@),
                        k < known == u@.len(),
                        exists|i: int| k <= i < w.len() && (#[trigger] w[i]).eq_spec(hole),
                    decreases known - k,
                {
                    proof {
                        let i = choose|i: int| k <= i < w.len() && (#[trigger] w[i]).eq_spec(hole);
                        assert(w[k as int] == *u@[k as int]);
                        assert(i != k);
                    }
                    k = k + 1;
                }
                assert(w[k as int] == *u@[k as int]);
                proof {
                    assert forall|i: int| 0 <= i < w.len() implies ((#[trigger] w[i]).eq_spec(hole)
                        <==> i == k) by {
                        if w[i].eq_spec(hole) && i != k {
                            assert(hole.eq_spec(&w[k as int]));
                            assert(hole.eq_spec(&w[i]));
                            assert(w[i].eq_spec(&w[k as int]));
                            assert(w[k as int].eq_spec(&w[i]));
                        }
                    }
                    assert forall|i: int| 0 <= i < w.len() implies (named(
                        #[trigger] w[i],
                        holes(t),
                    ) <==> i == k) by {
                        assert(holes(t)[0] == *hole);
                    }
                }
                let mut r: Vec<Vec<Option<usize>>> = Vec::new();
                match start[k] {
                    Some(bound) => {
                        if bound == class {
                            r.push(copy_binding(start));
                            proof {
                                assert(bindings(r@)[0] == p);
                                assert(w[k as int].eq_spec(hole) && p[k as int] == Some(class));
                            }
                        }
                        proof {
                            assert forall|q: Seq<Option<usize>>| #[trigger]
                                times(bindings(r@), q) == reached(g, t, class, w, p, q) by {
                                lemma_times(bindings(r@), q);
                                if grown(w, holes(t), p, q) {
                                    assert forall|i: int| 0 <= i < p.len() implies q[i] == p[i] by {
                                        assert(named(w[i], holes(t)) <==> i == k);
                                    }
                                    assert(q =~= p);
                                }
                            }
                        }
                    },
                    None => {
                        let mut one: Vec<Option<usize>> = copy_binding(start);
                        one.set(k, Some(class));
                        let ghost x = one@;
                        r.push(one);
                        proof {
                            assert(bindings(r@)[0] == x);
                            assert(w[k as int].eq_spec(hole) && x[k as int] == Some(class));
                            assert forall|i: int| 0 <= i < x.len() implies match p[i] {
                                Some(y) => (#[trigger] x[i]) == Some(y),
                                None => x[i] is Some <==> named(w[i], holes(t)),
                            } by {}
                            assert forall|q: Seq<Option<usize>>| #[trigger]
                                times(bindings(r@), q) == reached(g, t, class, w, p, q) by {
                                lemma_times(bindings(r@), q);
                                if grown(w, holes(t), p, q) && bound_to(w, q, *hole, class) {
                                    assert(q[k as int] == Some(class));
                                    assert forall|i: int| 0 <= i < p.len() implies q[i] == x[i] by {
                                        assert(named(w[i], holes(t)) <==> i == k);
                                    }
                                    assert(q =~= x);
                                }
                            }
                        }
                    },
                }
                r
            },
            PartialExpr::Node(pattern) => {
                let ghost ts = partial_trees(pattern.args@);
                proof {
                    lemma_partial_trees(pattern.args@);
                    assert(ts.take(ts.len() as int) =~= ts);
                    assert(holes(t) == all_holes(ts));
                }
                let count: usize = pattern.args.len();
                let here: &EClass<Op, D> = egraph.get(class);
                let total: usize = here.nodes.len();
                let mut out: Vec<Vec<Option<usize>>> = Vec::new();
                assert forall|q: Seq<Option<usize>>| #[trigger]
                    times(bindings(out@), q) == nodes_reached(g, t, class, 0, w, p, q) by {
                    lemma_times(bindings(out@), q);
                }
                for n in 0..total
                    invariant
                        g == *egraph,
                        egraph.wf(),
                        T::obeys_eq_spec(),
                        is_equivalence::<T>(),
                        w == values_of(u@),
                        p == start@,
                        p.len() == w.len(),
                        differ(w),
                        *self == PartialExpr::Node(*pattern),
                        t == partial_tree(*self),
                        t == PartialTree::Node(pattern.operation, ts),
                        covers(w, holes(t)),
                        holes(t) == all_holes(ts.take(ts.len() as int)),
                        count == pattern.args@.len() == ts.len(),
                        forall|k: int|
                            0 <= k < count ==> (#[trigger] ts[k]) == partial_tree(pattern.args@[k]),
                        class < egraph.slots@.len(),
                        *here == g.class(class),
                        total == here.nodes@.len(),
                        forall|q: Seq<Option<usize>>| #[trigger]
                            times(bindings(out@), q) == nodes_reached(
                                g,
                                t,
                                class,
                                n as nat,
                                w,
                                p,
                                q,
                            ),
                    decreases total - n,
                {
                    let node = &here.nodes[n];
                    let ghost args = node@.args;
                    let ghost before = bindings(out@);
                    if pattern.operation.identical(&node.operation) && node.args.len() == count {
                        let mut level: Vec<Vec<Option<usize>>> = Vec::new();
                        level.push(copy_binding(start));
                        proof {
                            let at = g.slots@[class as int] as int;
                            assert(g.args_valid(g.classes@[at].nodes@[n as int]@));
                            assert forall|q: Seq<Option<usize>>| #[trigger]
                                times(bindings(level@), q) == args_reached(
                                    g,
                                    t,
                                    0,
                                    args,
                                    w,
                                    p,
                                    q,
                                ) by {
                                lemma_no_args(g, t, args, w, p, q);
                                assert(bindings(level@)[0] == p);
                                lemma_times(bindings(level@), q);
                            }
                        }
                        for j in 0..count
                            invariant
                                g == *egraph,
                                egraph.wf(),
                                T::obeys_eq_spec(),
                                is_equivalence::<T>(),
                                w == values_of(u@),
                                p == start@,
                                p.len() == w.len(),
                                differ(w),
                                *self == PartialExpr::Node(*pattern),
                                t == partial_tree(*self),
                                t == PartialTree::Node(pattern.operation, ts),
                                covers(w, holes(t)),
                                count == pattern.args@.len() == ts.len(),
                                forall|k: int|
                                    0 <= k < count ==> (#[trigger] ts[k]) == partial_tree(
                                        pattern.args@[k],
                                    ),
                                args == node@.args,
                                args.len() == count,
                                g.args_valid(node@),
                                forall|q: Seq<Option<usize>>| #[trigger]
                                    times(bindings(level@), q) == args_reached(
                                        g,
                                        t,
                                        j as nat,
                                        args,
                                        w,
                                        p,
                                        q,
                                    ),
                            decreases count - j,
                        {
                            let part: &PartialExpr<Op, T> = &pattern.args[j];
                            assert(node@.args[j as int] < g.slots@.len());
                            let arg: &EClass<Op, D> = egraph.get(node.args[j]);
                            let arg_class: usize = arg.id;
                            let ghost tj = ts[j as int];
                            let ghost ps = bindings(level@);
                            proof {
                                assert(tj == partial_tree(*part));
                                lemma_arg_is_smaller(*self, j as int);
                                let at = g.slots@[args[j as int] as int] as int;
                                assert(g.classes@[at].id < g.slots@.len());
                                assert(arg_class == g.class(args[j as int]).id);
                                lemma_covers_arg(w, t, ts, j as int);
                            }
                            let mut next: Vec<Vec<Option<usize>>> = Vec::new();
                            let most: usize = level.len();
                            assert forall|q: Seq<Option<usize>>| #[trigger]
                                times(bindings(next@), q) == next_reached(
                                    g,
                                    t,
                                    j as nat,
                                    arg_class,
                                    w,
                                    p,
                                    ps.take(0),
                                    q,
                                ) by {
                                lemma_times(bindings(next@), q);
                                lemma_times(
                                    ps.take(0),
                                    narrowed(w, all_holes(ts.take(j as int)), p, q),
                                );
                            }
                            for m in 0..most
                                invariant
                                    g == *egraph,
                                    egraph.wf(),
                                    T::obeys_eq_spec(),
                                    is_equivalence::<T>(),
                                    w == values_of(u@),
                                    p.len() == w.len(),
                                    differ(w),
                                    covers(w, holes(tj)),
                                    tj == partial_tree(*part),
                                    t == PartialTree::Node(pattern.operation, ts),
                                    j < ts.len(),
                                    tj == ts[j as int],
                                    decreases_to!(self => part),
                                    arg_class < egraph.slots@.len(),
                                    ps == bindings(level@),
                                    most == level@.len(),
                                    forall|q: Seq<Option<usize>>| #[trigger]
                                        times(ps, q) == args_reached(
                                            g,
                                            t,
                                            j as nat,
                                            args,
                                            w,
                                            p,
                                            q,
                                        ),
                                    forall|q: Seq<Option<usize>>| #[trigger]
                                        times(bindings(next@), q) == next_reached(
                                            g,
                                            t,
                                            j as nat,
                                            arg_class,
                                            w,
                                            p,
                                            ps.take(m as int),
                                            q,
                                        ),
                                decreases most - m,
                            {
                                let ghost x = ps[m as int];
                                proof {
                                    assert(x == level@[m as int]@);
                                    assert(ps.contains(x));
                                    lemma_times(ps, x);
                                    assert(args_reached(g, t, j as nat, args, w, p, x) > 0);
                                }
                                let more: Vec<Vec<Option<usize>>> = part.match_class(
                                    egraph,
                                    u,
                                    arg_class,
                                    &level[m],
                                );
                                let ghost a = bindings(next@);
                                let ghost b = bindings(more@);
                                move_bindings(&mut next, more);
                                proof {
                                    assert(ps.take(m + 1) =~= ps.take(m as int).push(x));
                                    assert forall|q: Seq<Option<usize>>| #[trigger]
                                        times(bindings(next@), q) == next_reached(
                                            g,
                                            t,
                                            j as nat,
                                            arg_class,
                                            w,
                                            p,
                                            ps.take(m + 1),
                                            q,
                                        ) by {
                                        lemma_times_sum(a, b, q);
                                        assert(times(a, q) == next_reached(
                                            g,
                                            t,
                                            j as nat,
                                            arg_class,
                                            w,
                                            p,
                                            ps.take(m as int),
                                            q,
                                        ));
                                        assert(times(b, q) == reached(g, tj, arg_class, w, x, q));
                                        lemma_next_reached(
                                            g,
                                            t,
                                            j as nat,
                                            arg_class,
                                            w,
                                            p,
                                            ps.take(m as int),
                                            x,
                                            q,
                                        );
                                    }
                                }
                            }
                            proof {
                                assert(ps.take(most as int) =~= ps);
                                assert forall|q: Seq<Option<usize>>| #[trigger]
                                    times(bindings(next@), q) == args_reached(
                                        g,
                                        t,
                                        (j + 1) as nat,
                                        args,
                                        w,
                                        p,
                                        q,
                                    ) by {
                                    lemma_next_arg(g, t, j as nat, args, w, p, ps, q);
                                }
                            }
                            level = next;
                        }
                        let ghost b = bindings(level@);
                        move_bindings(&mut out, level);
                        proof {
                            assert forall|q: Seq<Option<usize>>| #[trigger]
                                times(bindings(out@), q) == nodes_reached(
                                    g,
                                    t,
                                    class,
                                    (n + 1) as nat,
                                    w,
                                    p,
                                    q,
                                ) by {
                                lemma_times_sum(before, b, q);
                                assert(times(before, q) == nodes_reached(
                                    g,
                                    t,
                                    class,
                                    n as nat,
                                    w,
                                    p,
                                    q,
                                ));
                                assert(times(b, q) == args_reached(
                                    g,
                                    t,
                                    count as nat,
                                    args,
                                    w,
                                    p,
                                    q,
                                ));
                                assert(node_ways(g, t, here.nodes@[n as int]@, w, q) == arg_ways(
                                    g,
                                    t,
                                    count as nat,
                                    args,
                                    w,
                                    q,
                                ));
                            }
                        }
                    } else {
                        proof {
                            assert forall|q: Seq<Option<usize>>| #[trigger]
                                times(bindings(out@), q) == nodes_reached(
                                    g,
                                    t,
                                    class,
                                    (n + 1) as nat,
                                    w,
                                    p,
                                    q,
                                ) by {
                                assert(node_ways(g, t, here.nodes@[n as int]@, w, q) == 0);
                            }
                        }
                    }
                }
                out
            },
        }
    }

    /// Where the expression matches, in order, once for each way: the class,
    /// and the classes that the holes stand for, holes with equal values for
    /// the same one.
    pub fn get_match<D>(&self, egraph: &EGraph<Op, D>) -> (r: Vec<Match>)
        requires
            egraph.wf(),
            T::obeys_eq_spec(),
            is_equivalence::<T>(),
        ensures
            forall|x: (usize, Seq<usize>)| #[trigger]
                match_views(r@).to_multiset().count(x) == match_count(
                    *egraph,
                    partial_tree(*self),
                    x,
                ),
            forall|x: (usize, Seq<usize>)| #[trigger]
                match_views(r@).contains(x) <==> is_match(*egraph, partial_tree(*self), x),
            in_order(match_views(r@), match_order()),
    {
        let ghost g = *egraph;
        let ghost t = partial_tree(*self);
        let u: Vec<&T> = self.unique_holes();
        let ghost w = values_of(u@);
        let count: usize = u.len();
        let mut start: Vec<Option<usize>> = Vec::new();
        for i in 0..count
            invariant
                start@.len() == i,
                forall|k: int| 0 <= k < i ==> start@[k] is None,
        {
            start.push(None);
        }
        proof {
            lemma_first_of_equals(holes(t), holes(t).len());
            assert(holes(t).take(holes(t).len() as int) =~= holes(t));
        }
        let mut r: Vec<Match> = Vec::new();
        let total: usize = egraph.classes.len();
        assert forall|x: (usize, Seq<usize>)| #[trigger]
            times(match_views(r@), x) == count_in(g, t, 0, x) by {
            lemma_times(match_views(r@), x);
        }
        for k in 0..total
            invariant
                g == *egraph,
                egraph.wf(),
                T::obeys_eq_spec(),
                is_equivalence::<T>(),
                t == partial_tree(*self),
                w == values_of(u@),
                w == first_of_equals(holes(t), holes(t).len()),
                count == u@.len() == w.len(),
                start@.len() == count,
                forall|k: int| 0 <= k < count ==> start@[k] is None,
                differ(w),
                covers(w, holes(t)),
                forall|k: int| 0 <= k < w.len() ==> named(#[trigger] w[k], holes(t)),
                total == g.classes@.len(),
                in_order(match_views(r@), match_order()),
                forall|x: (usize, Seq<usize>)| #[trigger]
                    times(match_views(r@), x) == count_in(g, t, k as int, x),
        {
            let class: usize = egraph.classes[k].id;
            let found: Vec<Vec<Option<usize>>> = self.match_class(egraph, &u, class, &start);
            let ghost fs = bindings(found@);
            let ghost before = match_views(r@);
            let most: usize = found.len();
            proof {
                assert forall|x: (usize, Seq<usize>)| #[trigger]
                    times(before, x) == times(before, x) + here_times(class, fs.take(0), x) by {
                    lemma_times(fs.take(0), all_bound(x.1));
                }
            }
            for m in 0..most
                invariant
                    fs == bindings(found@),
                    most == found@.len(),
                    w == values_of(u@),
                    count == u@.len() == w.len(),
                    start@.len() == count,
                    forall|k: int| 0 <= k < count ==> start@[k] is None,
                    forall|k: int| 0 <= k < w.len() ==> named(#[trigger] w[k], holes(t)),
                    forall|q: Seq<Option<usize>>| #[trigger]
                        times(fs, q) == reached(g, t, class, w, start@, q),
                    in_order(match_views(r@), match_order()),
                    forall|x: (usize, Seq<usize>)| #[trigger]
                        times(match_views(r@), x) == times(before, x) + here_times(
                            class,
                            fs.take(m as int),
                            x,
                        ),
            {
                let ghost q = fs[m as int];
                proof {
                    assert(q == found@[m as int]@);
                    assert(fs.contains(q));
                    lemma_times(fs, q);
                    assert(reached(g, t, class, w, start@, q) > 0);
                    assert(q.len() == count);
                    assert forall|i: int| 0 <= i < count implies #[trigger] q[i] is Some by {
                        assert(named(w[i], holes(t)));
                    }
                }
                let mut actuals: Vec<usize> = Vec::new();
                for i in 0..count
                    invariant
                        m < found@.len(),
                        q == found@[m as int]@,
                        q.len() == count,
                        forall|i: int| 0 <= i < count ==> #[trigger] q[i] is Some,
                        actuals@.len() == i,
                        forall|j: int| 0 <= j < i ==> q[j] == Some(#[trigger] actuals@[j]),
                {
                    assert(q[i as int] is Some);
                    actuals.push(found[m][i].unwrap());
                }
                let ghost a = actuals@;
                assert(q =~= all_bound(a));
                let ghost now = match_views(r@);
                add_match(&mut r, Match::new(class, actuals));
                proof {
                    assert(fs.take(m + 1) =~= fs.take(m as int).push(q));
                    assert forall|x: (usize, Seq<usize>)| #[trigger]
                        times(match_views(r@), x) == times(before, x) + here_times(
                            class,
                            fs.take(m + 1),
                            x,
                        ) by {
                        broadcast use vstd::multiset::group_multiset_axioms;

                        assert(times(now, x) == times(before, x) + here_times(
                            class,
                            fs.take(m as int),
                            x,
                        ));
                        lemma_times_push(fs.take(m as int), q, all_bound(x.1));
                        if all_bound(x.1) == q {
                            assert(x.1 =~= a) by {
                                assert forall|i: int| 0 <= i < a.len() implies x.1[i] == a[i] by {
                                    assert(all_bound(x.1)[i] == all_bound(a)[i]);
                                }
                            }
                        }
                    }
                }
            }
            proof {
                assert(fs.take(most as int) =~= fs);
                assert forall|x: (usize, Seq<usize>)| #[trigger]
                    times(match_views(r@), x) == count_in(g, t, k + 1, x) by {
                    assert(times(before, x) == count_in(g, t, k as int, x));
                    let q = all_bound(x.1);
                    assert(times(fs, q) == reached(g, t, class, w, start@, q));
                    if x.0 == class {
                        assert(g.classes@[k as int].id == x.0);
                        assert forall|i: int| 0 <= i < k implies (#[trigger] g.classes@[i]).id
                            != x.0 by {
                            assert(g.slots@[g.classes@[i].id as int] == i);
                            assert(g.slots@[g.classes@[k as int].id as int] == k);
                        }
                        if q.len() == count {
                            assert forall|i: int| 0 <= i < q.len() implies match start@[i] {
                                Some(y) => (#[trigger] q[i]) == Some(y),
                                None => q[i] is Some <==> named(w[i], holes(t)),
                            } by {
                                assert(named(w[i], holes(t)));
                            }
                        }
                    }
                    if exists|i: int| 0 <= i < k && (#[trigger] g.classes@[i]).id == x.0 {
                        let i = choose|i: int| 0 <= i < k && (#[trigger] g.classes@[i]).id == x.0;
                        assert(0 <= i < k + 1);
                    }
                    if exists|i: int| 0 <= i < k + 1 && (#[trigger] g.classes@[i]).id == x.0 {
                        let i = choose|i: int|
                            0 <= i < k + 1 && (#[trigger] g.classes@[i]).id == x.0;
                        assert(i == k || 0 <= i < k);
                    }
                }
            }
        }
        proof {
            assert forall|x: (usize, Seq<usize>)| #[trigger]
                match_views(r@).contains(x) <==> is_match(g, t, x) by {
                lemma_times(match_views(r@), x);
                assert(times(match_views(r@), x) == count_in(g, t, total as int, x));
                lemma_ways(g, t, x.0, w, all_bound(x.1));
            }
            assert forall|x: (usize, Seq<usize>)| #[trigger]
                match_views(r@).to_multiset().count(x) == match_count(g, t, x) by {
                assert(times(match_views(r@), x) == count_in(g, t, total as int, x));
            }
        }
        r
    }
}

} // verus!
