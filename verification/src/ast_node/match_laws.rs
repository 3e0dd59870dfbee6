//! How often a search of an e-graph finds a match.
use crate::ast_node::matching::{
    all_bound, arg_ways, class_ways, differ, is_equivalence, lemma_arg_ways, lemma_class_ways,
    lemma_first_of_equals, lemma_ways, match_count, node_ways, tree_matches, ways,
};
use crate::ast_node::partial_expr::{
    first_of_equals, holes, partial_tree, PartialExpr, PartialTree,
};
use crate::ast_node::{Identical, NodeView};
use crate::egraph::EGraph;
use crate::learn::{match_views, Match};
use vstd::prelude::*;
use vstd::std_specs::cmp::PartialEqSpec;

verus! {

/// Whether two nodes have the same operation and arguments in the same
/// classes.
pub open spec fn same_term<Op, D>(g: EGraph<Op, D>, a: NodeView<Op>, b: NodeView<Op>) -> bool {
    &&& a.operation == b.operation
    &&& a.args.len() == b.args.len()
    &&& forall|j: int|
        0 <= j < a.args.len() ==> g.class(#[trigger] a.args[j]).id == g.class(b.args[j]).id
}

/// Whether no node stands in two places of the e-graph.
pub open spec fn congruent<Op, D>(g: EGraph<Op, D>) -> bool {
    forall|k: int, n: int, l: int, m: int|
        0 <= k < g.classes@.len() && 0 <= n < g.classes@[k].nodes@.len() && 0 <= l
            < g.classes@.len() && 0 <= m < g.classes@[l].nodes@.len() && same_term(
            g,
            (#[trigger] g.classes@[k].nodes@[n])@,
            (#[trigger] g.classes@[l].nodes@[m])@,
        ) ==> k == l && n == m
}

/// Whether this is the identifier that a class itself holds.
spec fn own_id<Op, D>(g: EGraph<Op, D>, class: usize) -> bool {
    class < g.slots@.len() && g.class(class).id == class
}

/// Two nodes that match a tree are the same.
proof fn lemma_one_node<Op: Identical, D, T: PartialEq>(
    g: EGraph<Op, D>,
    t: PartialTree<Op, T>,
    k: int,
    n: int,
    l: int,
    m: int,
    u: Seq<T>,
    p: Seq<Option<usize>>,
)
    requires
        g.wf(),
        congruent(g),
        is_equivalence::<T>(),
        differ(u),
        t is Node,
        0 <= k < g.classes@.len(),
        0 <= n < g.classes@[k].nodes@.len(),
        0 <= l < g.classes@.len(),
        0 <= m < g.classes@[l].nodes@.len(),
        node_matches(g, t, g.classes@[k].nodes@[n]@, u, p),
        node_matches(g, t, g.classes@[l].nodes@[m]@, u, p),
    ensures
        k == l,
        n == m,
    decreases t, 0nat,
{
    let a = g.classes@[k].nodes@[n]@;
    let b = g.classes@[l].nodes@[m]@;
    let ts = t->Node_1;
    Op::identical_are_equal(t->Node_0, a.operation);
    Op::identical_are_equal(t->Node_0, b.operation);
    assert(g.args_valid(a) && g.args_valid(b));
    assert forall|j: int| 0 <= j < a.args.len() implies g.class(#[trigger] a.args[j]).id == g.class(
        b.args[j],
    ).id by {
        assert(tree_matches(g, ts[j], g.class(a.args[j]).id, u, p));
        assert(tree_matches(g, ts[j], g.class(b.args[j]).id, u, p));
        lemma_own_id(g, a.args[j]);
        lemma_own_id(g, b.args[j]);
        lemma_one_class(g, ts[j], g.class(a.args[j]).id, g.class(b.args[j]).id, u, p);
    }
    assert(same_term(g, a, b));
}

/// Whether a node matches a tree.
spec fn node_matches<Op: Identical, D, T: PartialEq>(
    g: EGraph<Op, D>,
    t: PartialTree<Op, T>,
    node: NodeView<Op>,
    u: Seq<T>,
    p: Seq<Option<usize>>,
) -> bool {
    &&& t->Node_0.s_identical(&node.operation)
    &&& node.args.len() == t->Node_1.len()
    &&& forall|j: int|
        0 <= j < t->Node_1.len() ==> tree_matches(
            g,
            #[trigger] t->Node_1[j],
            g.class(node.args[j]).id,
            u,
            p,
        )
}

proof fn lemma_own_id<Op, D>(g: EGraph<Op, D>, id: usize)
    requires
        g.wf(),
        id < g.slots@.len(),
    ensures
        own_id(g, g.class(id).id),
{
    let at = g.slots@[id as int] as int;
    assert(g.slots@[g.classes@[at].id as int] == at);
}

/// Two classes that match a tree are the same.
proof fn lemma_one_class<Op: Identical, D, T: PartialEq>(
    g: EGraph<Op, D>,
    t: PartialTree<Op, T>,
    a: usize,
    b: usize,
    u: Seq<T>,
    p: Seq<Option<usize>>,
)
    requires
        g.wf(),
        congruent(g),
        is_equivalence::<T>(),
        differ(u),
        own_id(g, a),
        own_id(g, b),
        tree_matches(g, t, a, u, p),
        tree_matches(g, t, b, u, p),
    ensures
        a == b,
    decreases t, 1nat,
{
    match t {
        PartialTree::Hole(hole) => {
            let i = choose|i: int|
                0 <= i < u.len() && (#[trigger] u[i]).eq_spec(&hole) && p[i] == Some(a);
            let j = choose|j: int|
                0 <= j < u.len() && (#[trigger] u[j]).eq_spec(&hole) && p[j] == Some(b);
            assert(hole.eq_spec(&u[i]) && hole.eq_spec(&u[j]));
            assert(u[i].eq_spec(&u[j]) && u[j].eq_spec(&u[i]));
            if i != j {
                assert(if i < j {
                    !u[i].eq_spec(&u[j])
                } else {
                    !u[j].eq_spec(&u[i])
                });
            }
        },
        PartialTree::Node(_, _) => {
            let n = choose|n: int|
                0 <= n < g.class(a).nodes@.len() && node_matches(
                    g,
                    t,
                    (#[trigger] g.class(a).nodes@[n])@,
                    u,
                    p,
                );
            let m = choose|m: int|
                0 <= m < g.class(b).nodes@.len() && node_matches(
                    g,
                    t,
                    (#[trigger] g.class(b).nodes@[m])@,
                    u,
                    p,
                );
            lemma_one_node(
                g,
                t,
                g.slots@[a as int] as int,
                n,
                g.slots@[b as int] as int,
                m,
                u,
                p,
            );
        },
    }
}

proof fn lemma_args_once<Op: Identical, D, T: PartialEq>(
    g: EGraph<Op, D>,
    t: PartialTree<Op, T>,
    j: nat,
    args: Seq<usize>,
    u: Seq<T>,
    p: Seq<Option<usize>>,
)
    requires
        t is Node,
        j <= t->Node_1.len(),
        forall|i: int|
            0 <= i < j ==> ways(g, #[trigger] t->Node_1[i], g.class(args[i]).id, u, p) <= 1,
    ensures
        arg_ways(g, t, j, args, u, p) <= 1,
    decreases j,
{
    if j > 0 {
        lemma_args_once(g, t, (j - 1) as nat, args, u, p);
        let a = arg_ways(g, t, (j - 1) as nat, args, u, p);
        let b = ways(g, t->Node_1[j - 1], g.class(args[j - 1]).id, u, p);
        assert(a * b <= 1) by (nonlinear_arith)
            requires
                0 <= a <= 1,
                0 <= b <= 1,
        ;
    }
}

/// A node matches in a way where the arguments do.
proof fn lemma_node_ways<Op: Identical, D, T: PartialEq>(
    g: EGraph<Op, D>,
    t: PartialTree<Op, T>,
    node: NodeView<Op>,
    u: Seq<T>,
    p: Seq<Option<usize>>,
)
    requires
        t is Node,
        node_ways(g, t, node, u, p) > 0,
    ensures
        node_matches(g, t, node, u, p),
{
    let ts = t->Node_1;
    lemma_arg_ways(g, t, ts.len(), node.args, u, p);
    assert forall|j: int| 0 <= j < ts.len() implies tree_matches(
        g,
        #[trigger] ts[j],
        g.class(node.args[j]).id,
        u,
        p,
    ) by {
        lemma_ways(g, ts[j], g.class(node.args[j]).id, u, p);
    }
}

proof fn lemma_nodes_once<Op: Identical, D, T: PartialEq>(
    g: EGraph<Op, D>,
    t: PartialTree<Op, T>,
    class: usize,
    n: nat,
    u: Seq<T>,
    p: Seq<Option<usize>>,
)
    requires
        g.wf(),
        congruent(g),
        is_equivalence::<T>(),
        differ(u),
        t is Node,
        class < g.slots@.len(),
        n <= g.class(class).nodes@.len(),
        forall|i: int, c: usize|
            0 <= i < t->Node_1.len() && own_id(g, c) ==> #[trigger] ways(
                g,
                t->Node_1[i],
                c,
                u,
                p,
            ) <= 1,
    ensures
        class_ways(g, t, class, n, u, p) <= 1,
    decreases n,
{
    if n > 0 {
        let before = (n - 1) as nat;
        let nodes = g.class(class).nodes@;
        let at = g.slots@[class as int] as int;
        let node = nodes[n - 1]@;
        lemma_nodes_once(g, t, class, before, u, p);
        assert(g.args_valid(g.classes@[at].nodes@[n - 1]@));
        if node.args.len() == t->Node_1.len() {
            assert forall|i: int| 0 <= i < t->Node_1.len() implies ways(
                g,
                #[trigger] t->Node_1[i],
                g.class(node.args[i]).id,
                u,
                p,
            ) <= 1 by {
                assert(node.args[i] < g.slots@.len());
                lemma_own_id(g, node.args[i]);
            }
            lemma_args_once(g, t, t->Node_1.len(), node.args, u, p);
        }
        assert(node_ways(g, t, node, u, p) <= 1);
        if node_ways(g, t, node, u, p) > 0 && class_ways(g, t, class, before, u, p) > 0 {
            lemma_class_ways(g, t, class, before, u, p);
            let k = choose|k: int|
                0 <= k < before && node_ways(g, t, #[trigger] g.class(class).nodes@[k]@, u, p) > 0;
            lemma_node_ways(g, t, node, u, p);
            lemma_node_ways(g, t, nodes[k]@, u, p);
            lemma_one_node(g, t, at, k, at, n - 1, u, p);
        }
    }
}

proof fn lemma_once<Op: Identical, D, T: PartialEq>(
    g: EGraph<Op, D>,
    t: PartialTree<Op, T>,
    class: usize,
    u: Seq<T>,
    p: Seq<Option<usize>>,
)
    requires
        g.wf(),
        congruent(g),
        is_equivalence::<T>(),
        differ(u),
        own_id(g, class),
    ensures
        ways(g, t, class, u, p) <= 1,
    decreases t,
{
    if let PartialTree::Node(_, args) = t {
        assert forall|i: int, c: usize| 0 <= i < args.len() && own_id(g, c) implies #[trigger] ways(
            g,
            args[i],
            c,
            u,
            p,
        ) <= 1 by {
            lemma_once(g, args[i], c, u, p);
        }
        lemma_nodes_once(g, t, class, g.class(class).nodes@.len(), u, p);
    }
}

/// In an e-graph where no node stands twice, a search finds each match once.
pub proof fn law_a_match_is_found_once<Op: Identical, D, T: PartialEq>(
    e: &PartialExpr<Op, T>,
    egraph: &EGraph<Op, D>,
    r: Vec<Match>,
)
    requires
        egraph.wf(),
        congruent(*egraph),
        is_equivalence::<T>(),
        call_ensures(PartialExpr::<Op, T>::get_match::<D>, (e, egraph), r),
    ensures
        match_views(r@).no_duplicates(),
{
    let g = *egraph;
    let t = partial_tree(*e);
    let u = first_of_equals(holes(t), holes(t).len());
    lemma_first_of_equals(holes(t), holes(t).len());
    let s = match_views(r@);
    assert forall|x: (usize, Seq<usize>)| s.to_multiset().contains(x) implies s.to_multiset().count(
        x,
    ) == 1 by {
        assert(s.to_multiset().count(x) == match_count(g, t, x));
        let k = choose|k: int| 0 <= k < g.classes@.len() && (#[trigger] g.classes@[k]).id == x.0;
        lemma_own_id(g, g.classes@[k].id);
        lemma_once(g, t, x.0, u, all_bound(x.1));
    }
    s.lemma_multiset_has_no_duplicates_conv();
}

} // verus!
