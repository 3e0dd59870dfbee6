//! What filling the holes of a partial expression keeps and adds, where what
//! fills a hole depends on its value alone.
use crate::ast_node::partial_expr::{
    all_holes, filled, holes, lemma_arg_is_smaller, lemma_partial_trees, node_count, node_counts,
    partial_tree, partial_trees, PartialExpr, PartialTree,
};
use vstd::prelude::*;

verus! {

/// The tree with each hole replaced by what `m` gives for it.
pub open spec fn filled_tree<Op, T, U>(
    t: PartialTree<Op, T>,
    m: spec_fn(T) -> PartialTree<Op, U>,
) -> PartialTree<Op, U>
    decreases t, 0nat,
{
    match t {
        PartialTree::Node(op, args) => PartialTree::Node(op, filled_trees(args, m)),
        PartialTree::Hole(hole) => m(hole),
    }
}

/// The trees with each hole replaced by what `m` gives for it.
pub open spec fn filled_trees<Op, T, U>(
    s: Seq<PartialTree<Op, T>>,
    m: spec_fn(T) -> PartialTree<Op, U>,
) -> Seq<PartialTree<Op, U>>
    decreases s, s.len(),
{
    if s.len() == 0 {
        Seq::empty()
    } else {
        filled_trees(s.drop_last(), m).push(filled_tree(s.last(), m))
    }
}

/// Whether a function gives for each hole what `m` says.
pub open spec fn gives<Op, T, U, F: FnMut(T) -> PartialExpr<Op, U>>(
    f: F,
    m: spec_fn(T) -> PartialTree<Op, U>,
) -> bool {
    forall|hole: T, r: PartialExpr<Op, U>| #[trigger]
        call_ensures(f, (hole,), r) ==> partial_tree(r) == m(hole)
}

/// The nodes of what `m` gives for the holes.
pub open spec fn nodes_filled_in<Op, T, U>(
    s: Seq<T>,
    m: spec_fn(T) -> PartialTree<Op, U>,
) -> nat
    decreases s.len(),
{
    if s.len() == 0 {
        0
    } else {
        nodes_filled_in(s.drop_last(), m) + node_count(m(s.last()))
    }
}

/// The holes of what `m` gives for the holes, from left to right.
pub open spec fn holes_filled_in<Op, T, U>(
    s: Seq<T>,
    m: spec_fn(T) -> PartialTree<Op, U>,
) -> Seq<U>
    decreases s.len(),
{
    if s.len() == 0 {
        Seq::empty()
    } else {
        holes_filled_in(s.drop_last(), m) + holes(m(s.last()))
    }
}

proof fn lemma_filled_trees<Op, T, U>(
    s: Seq<PartialTree<Op, T>>,
    m: spec_fn(T) -> PartialTree<Op, U>,
)
    ensures
        filled_trees(s, m).len() == s.len(),
        forall|i: int|
            0 <= i < s.len() ==> (#[trigger] filled_trees(s, m)[i]) == filled_tree(s[i], m),
    decreases s.len(),
{
    if s.len() > 0 {
        lemma_filled_trees(s.drop_last(), m);
    }
}

/// Filling the holes of an expression with what depends on their values alone
/// fills the holes of its tree.
pub proof fn law_filled_tree<Op, T, U, F: FnMut(T) -> PartialExpr<Op, U>>(
    f: F,
    m: spec_fn(T) -> PartialTree<Op, U>,
    p: PartialExpr<Op, T>,
    r: PartialExpr<Op, U>,
)
    requires
        gives(f, m),
        filled(f, p, r),
    ensures
        partial_tree(r) == filled_tree(partial_tree(p), m),
    decreases p,
{
    if let PartialExpr::Node(node) = p {
        let out = r->Node_0;
        let s = partial_trees(node.args@);
        lemma_partial_trees(node.args@);
        lemma_partial_trees(out.args@);
        lemma_filled_trees(s, m);
        assert forall|i: int| 0 <= i < s.len() implies partial_trees(out.args@)[i] == filled_trees(
            s,
            m,
        )[i] by {
            lemma_arg_is_smaller(p, i);
            assert(filled(f, node.args@[i], out.args@[i]));
            law_filled_tree(f, m, node.args@[i], out.args@[i]);
            assert(s[i] == partial_tree(node.args@[i]));
            assert(partial_trees(out.args@)[i] == partial_tree(out.args@[i]));
        }
        assert(partial_trees(out.args@) =~= filled_trees(s, m));
    }
}

proof fn lemma_filled_with_holes<Op, T>(t: PartialTree<Op, T>)
    ensures
        filled_tree(t, |hole: T| PartialTree::<Op, T>::Hole(hole)) == t,
    decreases t, 0nat,
{
    if let PartialTree::Node(_, args) = t {
        lemma_all_filled_with_holes(args);
    }
}

proof fn lemma_all_filled_with_holes<Op, T>(s: Seq<PartialTree<Op, T>>)
    ensures
        filled_trees(s, |hole: T| PartialTree::<Op, T>::Hole(hole)) == s,
    decreases s, s.len(),
{
    let m = |hole: T| PartialTree::<Op, T>::Hole(hole);
    if s.len() > 0 {
        lemma_all_filled_with_holes(s.drop_last());
        lemma_filled_with_holes(s.last());
    }
    assert(filled_trees(s, m) =~= s);
}

proof fn lemma_filled_twice<Op, T, U, V>(
    t: PartialTree<Op, T>,
    a: spec_fn(T) -> PartialTree<Op, U>,
    b: spec_fn(U) -> PartialTree<Op, V>,
)
    ensures
        filled_tree(filled_tree(t, a), b) == filled_tree(t, |hole: T| filled_tree(a(hole), b)),
    decreases t, 0nat,
{
    if let PartialTree::Node(_, args) = t {
        lemma_all_filled_twice(args, a, b);
    }
}

proof fn lemma_all_filled_twice<Op, T, U, V>(
    s: Seq<PartialTree<Op, T>>,
    a: spec_fn(T) -> PartialTree<Op, U>,
    b: spec_fn(U) -> PartialTree<Op, V>,
)
    ensures
        filled_trees(filled_trees(s, a), b) == filled_trees(s, |hole: T| filled_tree(a(hole), b)),
    decreases s, s.len(),
{
    let both = |hole: T| filled_tree(a(hole), b);
    if s.len() > 0 {
        lemma_all_filled_twice(s.drop_last(), a, b);
        lemma_filled_twice(s.last(), a, b);
        assert(filled_trees(s, a).drop_last() =~= filled_trees(s.drop_last(), a));
    }
    assert(filled_trees(filled_trees(s, a), b) =~= filled_trees(s, both));
}

proof fn lemma_filled_in_parts<Op, T, U>(
    a: Seq<T>,
    b: Seq<T>,
    m: spec_fn(T) -> PartialTree<Op, U>,
)
    ensures
        nodes_filled_in(a + b, m) == nodes_filled_in(a, m) + nodes_filled_in(b, m),
        holes_filled_in(a + b, m) == holes_filled_in(a, m) + holes_filled_in(b, m),
    decreases b.len(),
{
    if b.len() == 0 {
        assert(a + b =~= a);
        assert(holes_filled_in(a, m) + holes_filled_in(b, m) =~= holes_filled_in(a, m));
    } else {
        lemma_filled_in_parts(a, b.drop_last(), m);
        assert((a + b).drop_last() =~= a + b.drop_last());
        assert((a + b).last() == b.last());
        assert(holes_filled_in(a, m) + holes_filled_in(b, m) =~= (holes_filled_in(a, m)
            + holes_filled_in(b.drop_last(), m)) + holes(m(b.last())));
    }
}

proof fn lemma_counts_filled<Op, T, U>(
    t: PartialTree<Op, T>,
    m: spec_fn(T) -> PartialTree<Op, U>,
)
    ensures
        node_count(filled_tree(t, m)) == node_count(t) + nodes_filled_in(holes(t), m),
        holes(filled_tree(t, m)) == holes_filled_in(holes(t), m),
    decreases t, 0nat,
{
    match t {
        PartialTree::Node(_, args) => {
            lemma_all_counts_filled(args, m);
        },
        PartialTree::Hole(hole) => {
            let one = seq![hole];
            assert(one.drop_last() =~= Seq::empty());
            assert(one.last() == hole);
            reveal_with_fuel(nodes_filled_in, 2);
            reveal_with_fuel(holes_filled_in, 2);
            assert(holes_filled_in(one, m) =~= holes(m(hole)));
        },
    }
}

proof fn lemma_all_counts_filled<Op, T, U>(
    s: Seq<PartialTree<Op, T>>,
    m: spec_fn(T) -> PartialTree<Op, U>,
)
    ensures
        node_counts(filled_trees(s, m)) == node_counts(s) + nodes_filled_in(all_holes(s), m),
        all_holes(filled_trees(s, m)) == holes_filled_in(all_holes(s), m),
    decreases s, s.len(),
{
    if s.len() > 0 {
        lemma_all_counts_filled(s.drop_last(), m);
        lemma_counts_filled(s.last(), m);
        lemma_filled_in_parts(all_holes(s.drop_last()), holes(s.last()), m);
        assert(filled_trees(s, m).drop_last() =~= filled_trees(s.drop_last(), m));
    }
}

/// Filling each hole with itself changes nothing.
pub proof fn law_filling_with_holes<Op, T, F: FnMut(T) -> PartialExpr<Op, T>>(
    f: F,
    p: PartialExpr<Op, T>,
    r: PartialExpr<Op, T>,
)
    requires
        forall|hole: T, out: PartialExpr<Op, T>| #[trigger]
            call_ensures(f, (hole,), out) ==> out == PartialExpr::<Op, T>::Hole(hole),
        filled(f, p, r),
    ensures
        partial_tree(r) == partial_tree(p),
{
    let m = |hole: T| PartialTree::<Op, T>::Hole(hole);
    assert(gives(f, m));
    law_filled_tree(f, m, p, r);
    lemma_filled_with_holes(partial_tree(p));
}

/// To fill the holes and then those of the result is to fill each hole with
/// what fills it, filled in turn.
pub proof fn law_filling_twice<Op, T, U, V, F, G, H>(
    f: F,
    g: G,
    both: H,
    a: spec_fn(T) -> PartialTree<Op, U>,
    b: spec_fn(U) -> PartialTree<Op, V>,
    p: PartialExpr<Op, T>,
    q: PartialExpr<Op, U>,
    r: PartialExpr<Op, V>,
    s: PartialExpr<Op, V>,
) where
    F: FnMut(T) -> PartialExpr<Op, U>,
    G: FnMut(U) -> PartialExpr<Op, V>,
    H: FnMut(T) -> PartialExpr<Op, V>,

    requires
        gives(f, a),
        gives(g, b),
        gives(both, |hole: T| filled_tree(a(hole), b)),
        filled(f, p, q),
        filled(g, q, r),
        filled(both, p, s),
    ensures
        partial_tree(r) == partial_tree(s),
{
    law_filled_tree(f, a, p, q);
    law_filled_tree(g, b, q, r);
    law_filled_tree(both, |hole: T| filled_tree(a(hole), b), p, s);
    lemma_filled_twice(partial_tree(p), a, b);
}

/// The nodes of a filled expression are its own and those of what fills each
/// of its holes, and its holes are those of what fills them, in order.
pub proof fn law_filled_counts<Op, T, U, F: FnMut(T) -> PartialExpr<Op, U>>(
    f: F,
    m: spec_fn(T) -> PartialTree<Op, U>,
    p: PartialExpr<Op, T>,
    r: PartialExpr<Op, U>,
)
    requires
        gives(f, m),
        filled(f, p, r),
    ensures
        node_count(partial_tree(r)) == node_count(partial_tree(p)) + nodes_filled_in(
            holes(partial_tree(p)),
            m,
        ),
        holes(partial_tree(r)) == holes_filled_in(holes(partial_tree(p)), m),
{
    law_filled_tree(f, m, p, r);
    lemma_counts_filled(partial_tree(p), m);
}

} // verus!
