//! Where the basic blocks come from that are carried down from the roots.
use crate::ast_node::AstNode;
use crate::bb_query::BBInfo;
use crate::egraph::EGraph;
use crate::extract::beam_pareto::ISAXCost;
use crate::number::Number;
use crate::perf_infer::{
    class_tagged, first_tagged, has_arg, inferred, lemma_settle, next_tagged, node_tagged,
    root_stack, settled, spread, tagged_from_next, unsettled, with_args, with_nodes,
};
use vstd::prelude::*;

verus! {

/// Whether a class is reached with the blocks `b`: it is a root and they are
/// its own, or they are those of a class that has it as an argument.
pub open spec fn reached_with<Op, N: Number, T>(
    g: EGraph<Op, ISAXCost<N, T>>,
    roots: Seq<usize>,
    blocks: Seq<Option<Seq<Seq<char>>>>,
    id: usize,
    b: Seq<Seq<char>>,
) -> bool {
    ||| roots.contains(id) && b == g.class(id).data@.bb
    ||| exists|above: usize|
        above < blocks.len() && blocks[above as int] == Some(b) && #[trigger] has_arg(g, above, id)
}

/// Whether `r` is the first block of `b`, where there is one.
pub open spec fn is_first_of(r: Seq<Seq<char>>, b: Seq<Seq<char>>) -> bool {
    if b.len() == 0 {
        r.len() == 0
    } else {
        r.len() == 1 && r[0] == b[0]
    }
}

/// Whether node `n` is the first that has basic blocks.
pub open spec fn is_first_with_blocks<Op: BBInfo>(nodes: Seq<AstNode<Op>>, n: int) -> bool {
    &&& 0 <= n < nodes.len()
    &&& nodes[n].operation.s_bbs().len() > 0
    &&& forall|m: int| 0 <= m < n ==> (#[trigger] nodes[m]).operation.s_bbs().len() == 0
}

/// Whether `r` is the block of a class that is reached with `b`: that of the
/// first of its nodes that has one, or else that with which it is reached.
pub open spec fn is_block_of<Op: BBInfo>(
    nodes: Seq<AstNode<Op>>,
    b: Seq<Seq<char>>,
    r: Seq<Seq<char>>,
) -> bool {
    &&& forall|n: int| #[trigger]
        is_first_with_blocks(nodes, n) ==> is_first_of(r, nodes[n].operation.s_bbs())
    &&& (forall|n: int|
        0 <= n < nodes.len() ==> (#[trigger] nodes[n]).operation.s_bbs().len() == 0)
        ==> is_first_of(r, b)
}

proof fn lemma_first_tagged<Op: BBInfo>(nodes: Seq<AstNode<Op>>, n: nat)
    requires
        n <= nodes.len(),
    ensures
        forall|k: int| #[trigger]
            is_first_with_blocks(nodes, k) && k < n ==> first_tagged(nodes, n)
                == nodes[k].operation.s_bbs(),
        (forall|k: int| 0 <= k < n ==> (#[trigger] nodes[k]).operation.s_bbs().len() == 0)
            ==> first_tagged(nodes, n).len() == 0,
        first_tagged(nodes, n).len() == 0 ==> forall|k: int|
            0 <= k < n ==> (#[trigger] nodes[k]).operation.s_bbs().len() == 0,
    decreases n,
{
    if n > 0 {
        lemma_first_tagged(nodes, (n - 1) as nat);
        assert forall|k: int| #[trigger]
            is_first_with_blocks(nodes, k) && k < n implies first_tagged(nodes, n)
            == nodes[k].operation.s_bbs() by {
            if k == n - 1 {
                assert forall|m: int| 0 <= m < n - 1 implies (
                #[trigger] nodes[m]).operation.s_bbs().len() == 0 by {}
                assert(first_tagged(nodes, (n - 1) as nat).len() == 0);
            }
        }
    }
}

proof fn lemma_settled<Op: BBInfo, N: Number, T>(
    g: EGraph<Op, ISAXCost<N, T>>,
    id: usize,
    b: Seq<Seq<char>>,
)
    ensures
        is_block_of(g.class(id).nodes@, b, settled(g, id, b)),
{
    let nodes = g.class(id).nodes@;
    lemma_first_tagged(nodes, nodes.len());
}

spec fn stack_is_reached<Op, N: Number, T>(
    g: EGraph<Op, ISAXCost<N, T>>,
    roots: Seq<usize>,
    stack: Seq<(usize, Seq<Seq<char>>)>,
    done: Seq<Option<Seq<Seq<char>>>>,
) -> bool {
    forall|i: int|
        0 <= i < stack.len() ==> reached_with(
            g,
            roots,
            done,
            (#[trigger] stack[i]).0,
            stack[i].1,
        )
}

/// Whether the block of a class is there for a reason.
pub open spec fn is_founded<Op: BBInfo, N: Number, T>(
    g: EGraph<Op, ISAXCost<N, T>>,
    roots: Seq<usize>,
    done: Seq<Option<Seq<Seq<char>>>>,
    id: usize,
) -> bool {
    exists|b: Seq<Seq<char>>| #[trigger]
        reached_with(g, roots, done, id, b) && is_block_of(
            g.class(id).nodes@,
            b,
            done[id as int]->Some_0,
        )
}

spec fn all_founded<Op: BBInfo, N: Number, T>(
    g: EGraph<Op, ISAXCost<N, T>>,
    roots: Seq<usize>,
    done: Seq<Option<Seq<Seq<char>>>>,
) -> bool {
    forall|id: usize|
        id < done.len() && (#[trigger] done[id as int]) is Some ==> is_founded(g, roots, done, id)
}

proof fn lemma_reached_stays<Op, N: Number, T>(
    g: EGraph<Op, ISAXCost<N, T>>,
    roots: Seq<usize>,
    done: Seq<Option<Seq<Seq<char>>>>,
    at: usize,
    bbs: Seq<Seq<char>>,
    id: usize,
    b: Seq<Seq<char>>,
)
    requires
        at < done.len(),
        done[at as int] is None,
        reached_with(g, roots, done, id, b),
    ensures
        reached_with(g, roots, done.update(at as int, Some(bbs)), id, b),
{
    let more = done.update(at as int, Some(bbs));
    if !(roots.contains(id) && b == g.class(id).data@.bb) {
        let above = choose|above: usize|
            above < done.len() && done[above as int] == Some(b) && #[trigger] has_arg(g, above, id);
        assert(more[above as int] == Some(b) && has_arg(g, above, id));
    }
}

proof fn lemma_args_reached<Op, N: Number, T>(
    g: EGraph<Op, ISAXCost<N, T>>,
    roots: Seq<usize>,
    stack: Seq<(usize, Seq<Seq<char>>)>,
    id: usize,
    n: int,
    k: nat,
    bbs: Seq<Seq<char>>,
    done: Seq<Option<Seq<Seq<char>>>>,
)
    requires
        stack_is_reached(g, roots, stack, done),
        id < done.len(),
        done[id as int] == Some(bbs),
        0 <= n < g.class(id).nodes@.len(),
        k <= g.class(id).nodes@[n].args@.len(),
    ensures
        stack_is_reached(
            g,
            roots,
            with_args(stack, g.class(id).nodes@[n].args@, k, bbs, done),
            done,
        ),
    decreases k,
{
    let args = g.class(id).nodes@[n].args@;
    if k > 0 {
        lemma_args_reached(g, roots, stack, id, n, (k - 1) as nat, bbs, done);
        let s = with_args(stack, args, (k - 1) as nat, bbs, done);
        let t = with_args(stack, args, k, bbs, done);
        assert forall|i: int| 0 <= i < t.len() implies reached_with(
            g,
            roots,
            done,
            (#[trigger] t[i]).0,
            t[i].1,
        ) by {
            if i < s.len() {
                assert(t[i] == s[i]);
            } else {
                assert(g.class(id).nodes@[n].args@[k - 1] == t[i].0);
                assert(has_arg(g, id, t[i].0));
            }
        }
    }
}

proof fn lemma_nodes_reached<Op, N: Number, T>(
    g: EGraph<Op, ISAXCost<N, T>>,
    roots: Seq<usize>,
    stack: Seq<(usize, Seq<Seq<char>>)>,
    id: usize,
    n: nat,
    bbs: Seq<Seq<char>>,
    done: Seq<Option<Seq<Seq<char>>>>,
)
    requires
        stack_is_reached(g, roots, stack, done),
        id < done.len(),
        done[id as int] == Some(bbs),
        n <= g.class(id).nodes@.len(),
    ensures
        stack_is_reached(
            g,
            roots,
            with_nodes(stack, g.class(id).nodes@, n, bbs, done),
            done,
        ),
    decreases n,
{
    if n > 0 {
        let nodes = g.class(id).nodes@;
        lemma_nodes_reached(g, roots, stack, id, (n - 1) as nat, bbs, done);
        lemma_args_reached(
            g,
            roots,
            with_nodes(stack, nodes, (n - 1) as nat, bbs, done),
            id,
            n - 1,
            nodes[n - 1].args@.len(),
            bbs,
            done,
        );
    }
}

proof fn lemma_spread_is_founded<Op: BBInfo, N: Number, T>(
    g: EGraph<Op, ISAXCost<N, T>>,
    roots: Seq<usize>,
    stack: Seq<(usize, Seq<Seq<char>>)>,
    done: Seq<Option<Seq<Seq<char>>>>,
)
    requires
        stack_is_reached(g, roots, stack, done),
        all_founded(g, roots, done),
    ensures
        all_founded(g, roots, spread(g, stack, done)),
        spread(g, stack, done).len() == done.len(),
    decreases unsettled(done), stack.len(),
{
    if stack.len() > 0 {
        let (id, b) = stack.last();
        let rest = stack.drop_last();
        assert(stack[stack.len() - 1] == (id, b));
        assert(reached_with(g, roots, done, id, b));
        assert(stack_is_reached(g, roots, rest, done)) by {
            assert forall|i: int| 0 <= i < rest.len() implies reached_with(
                g,
                roots,
                done,
                (#[trigger] rest[i]).0,
                rest[i].1,
            ) by {
                assert(rest[i] == stack[i]);
            }
        }
        if id < done.len() && done[id as int] is None {
            let bbs = settled(g, id, b);
            let more = done.update(id as int, Some(bbs));
            let nodes = g.class(id).nodes@;
            lemma_settle(done, id as int, bbs);
            lemma_settled(g, id, b);
            assert(stack_is_reached(g, roots, rest, more)) by {
                assert forall|i: int| 0 <= i < rest.len() implies reached_with(
                    g,
                    roots,
                    more,
                    (#[trigger] rest[i]).0,
                    rest[i].1,
                ) by {
                    lemma_reached_stays(g, roots, done, id, bbs, rest[i].0, rest[i].1);
                }
            }
            assert(all_founded(g, roots, more)) by {
                assert forall|k: usize| k < more.len() && (#[trigger] more[k as int]) is Some implies
                    is_founded(g, roots, more, k) by {
                    if k == id {
                        lemma_reached_stays(g, roots, done, id, bbs, id, b);
                    } else {
                        assert(done[k as int] is Some);
                        assert(is_founded(g, roots, done, k));
                        let c = choose|c: Seq<Seq<char>>| #[trigger]
                            reached_with(g, roots, done, k, c) && is_block_of(
                                g.class(k).nodes@,
                                c,
                                done[k as int]->Some_0,
                            );
                        lemma_reached_stays(g, roots, done, id, bbs, k, c);
                    }
                }
            }
            lemma_nodes_reached(g, roots, rest, id, nodes.len(), bbs, more);
            lemma_spread_is_founded(
                g,
                roots,
                with_nodes(rest, nodes, nodes.len(), bbs, more),
                more,
            );
        } else {
            lemma_spread_is_founded(g, roots, rest, done);
        }
    }
}

/// The block of every class that is reached has a reason: the class is a root,
/// or an argument of a class that has a block. It is the first block of the
/// first of its nodes that has one; where none has, it is the block of that
/// root or of that other class.
pub proof fn law_blocks_are_handed_down<Op: BBInfo, N: Number, T>(
    g: EGraph<Op, ISAXCost<N, T>>,
    roots: Seq<usize>,
    id: usize,
)
    requires
        id < g.slots@.len(),
        inferred(g, roots)[id as int] is Some,
    ensures
        is_founded(g, roots, inferred(g, roots), id),
{
    let none = Seq::new(g.slots@.len(), |i: int| None::<Seq<Seq<char>>>);
    let start = root_stack(g, roots);
    assert(stack_is_reached(g, roots, start, none)) by {
        assert forall|i: int| 0 <= i < start.len() implies reached_with(
            g,
            roots,
            none,
            (#[trigger] start[i]).0,
            start[i].1,
        ) by {
            assert(roots[i] == start[i].0);
            assert(roots.contains(roots[i]));
        }
    }
    lemma_spread_is_founded(g, roots, start, none);
    assert(inferred(g, roots)[id as int] is Some);
}

/// A class that is reached records its block. Its nodes without blocks take
/// it, and those with blocks keep theirs; nothing else changes.
pub proof fn law_classes_take_their_block<Op: BBInfo, N: Number, T>(
    g: EGraph<Op, ISAXCost<N, T>>,
    h: EGraph<Op, ISAXCost<N, T>>,
    roots: Seq<usize>,
    k: int,
)
    requires
        0 <= k < g.classes@.len() == h.classes@.len(),
        ({
            let before = g.classes@[k];
            match inferred(g, roots)[before.id as int] {
                Some(bbs) => class_tagged(before, h.classes@[k], bbs),
                None => h.classes@[k] == before,
            }
        }),
    ensures
        ({
            let (before, after) = (g.classes@[k], h.classes@[k]);
            &&& after.id == before.id
            &&& after.data@.cs == before.data@.cs
            &&& after.nodes@.len() == before.nodes@.len()
            &&& match inferred(g, roots)[before.id as int] {
                None => after == before,
                Some(b) => {
                    &&& after.data@.bb == b
                    &&& forall|n: int|
                        0 <= n < before.nodes@.len() ==> {
                            let (x, y) = (before.nodes@[n], #[trigger] after.nodes@[n]);
                            &&& y.args@ == x.args@
                            &&& x.operation.s_bbs().len() > 0 ==> y == x
                            &&& x.operation.s_bbs().len() == 0 ==> y.operation.s_bbs() == b
                                && x.operation.s_same_but_bbs(y.operation)
                        }
                },
            }
        }),
{
    let (before, after) = (g.classes@[k], h.classes@[k]);
    if let Some(b) = inferred(g, roots)[before.id as int] {
        assert forall|n: int| 0 <= n < before.nodes@.len() implies ({
            let (x, y) = (before.nodes@[n], #[trigger] after.nodes@[n]);
            &&& y.args@ == x.args@
            &&& x.operation.s_bbs().len() > 0 ==> y == x
            &&& x.operation.s_bbs().len() == 0 ==> y.operation.s_bbs() == b
                && x.operation.s_same_but_bbs(y.operation)
        }) by {
            assert(node_tagged(before.nodes@[n], after.nodes@[n], b));
        }
    }
}

proof fn lemma_next<Op: BBInfo>(nodes: Seq<AstNode<Op>>, i: int, j: int)
    requires
        0 <= i < j < nodes.len(),
        forall|k: int| i < k < j ==> (#[trigger] nodes[k]).operation.s_bbs().len() == 0,
        nodes[j].operation.s_bbs().len() > 0,
    ensures
        next_tagged(nodes, i) == j,
    decreases j - i,
{
    if i + 1 < j {
        assert(nodes[i + 1].operation.s_bbs().len() == 0);
        lemma_next(nodes, i + 1, j);
    }
}

/// In an expression, a node without blocks takes those of the next node that
/// has any, and a node with blocks stays as it is.
pub proof fn law_nodes_take_the_next_blocks<Op: BBInfo>(
    before: Seq<AstNode<Op>>,
    after: Seq<AstNode<Op>>,
    i: int,
    j: int,
)
    requires
        0 <= i < before.len() == after.len(),
        tagged_from_next(before, i, after[i]),
    ensures
        before[i].operation.s_bbs().len() > 0 ==> after[i] == before[i],
        i < j < before.len() && before[i].operation.s_bbs().len() == 0
            && before[j].operation.s_bbs().len() > 0 && (forall|k: int|
            i < k < j ==> (#[trigger] before[k]).operation.s_bbs().len() == 0) ==> {
            &&& after[i].operation.s_bbs() == before[j].operation.s_bbs()
            &&& after[i].args@ == before[i].args@
        },
{
    if i < j < before.len() && before[j].operation.s_bbs().len() > 0 && (forall|k: int|
        i < k < j ==> (#[trigger] before[k]).operation.s_bbs().len() == 0) {
        lemma_next(before, i, j);
    }
}

} // verus!
