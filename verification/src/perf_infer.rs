//! Carrying basic blocks from roots down to the nodes that have none.
use crate::ast_node::AstNode;
use crate::bb_query::BBInfo;
use crate::egraph::{EClass, EGraph};
use crate::extract::beam_pareto::ISAXCost;
use crate::number::Number;
use crate::rec_expr::RecExpr;
use crate::text::{copy_texts, texts};
use vstd::prelude::*;

verus! {

/// The basic blocks of the first of the first `n` nodes that has any, or
/// none.
pub open spec fn first_tagged<Op: BBInfo>(nodes: Seq<AstNode<Op>>, n: nat) -> Seq<Seq<char>>
    decreases n,
{
    if n == 0 {
        Seq::empty()
    } else {
        let before = first_tagged(nodes, (n - 1) as nat);
        if before.len() > 0 {
            before
        } else {
            nodes[n - 1].operation.s_bbs()
        }
    }
}

/// The first of `bbs`, if there is one.
pub open spec fn first_only(bbs: Seq<Seq<char>>) -> Seq<Seq<char>> {
    if bbs.len() > 1 {
        bbs.take(1)
    } else {
        bbs
    }
}

/// The basic block of a class that inherits `inherited`: its own, where one
/// of its nodes has any.
pub open spec fn settled<Op: BBInfo, D>(
    g: EGraph<Op, D>,
    id: usize,
    inherited: Seq<Seq<char>>,
) -> Seq<Seq<char>> {
    let nodes = g.class(id).nodes@;
    let own = first_tagged(nodes, nodes.len());
    first_only(
        if own.len() > 0 {
            own
        } else {
            inherited
        },
    )
}

/// `stack` with the first `k` arguments that are not settled yet.
pub open spec fn with_args(
    stack: Seq<(usize, Seq<Seq<char>>)>,
    args: Seq<usize>,
    k: nat,
    bbs: Seq<Seq<char>>,
    done: Seq<Option<Seq<Seq<char>>>>,
) -> Seq<(usize, Seq<Seq<char>>)>
    decreases k,
{
    if k == 0 {
        stack
    } else {
        let s = with_args(stack, args, (k - 1) as nat, bbs, done);
        let arg = args[k - 1];
        if done[arg as int] is None {
            s.push((arg, bbs))
        } else {
            s
        }
    }
}

/// `stack` with the arguments of the first `n` nodes that are not settled
/// yet.
pub open spec fn with_nodes<Op>(
    stack: Seq<(usize, Seq<Seq<char>>)>,
    nodes: Seq<AstNode<Op>>,
    n: nat,
    bbs: Seq<Seq<char>>,
    done: Seq<Option<Seq<Seq<char>>>>,
) -> Seq<(usize, Seq<Seq<char>>)>
    decreases n,
{
    if n == 0 {
        stack
    } else {
        let args = nodes[n - 1].args@;
        with_args(
            with_nodes(stack, nodes, (n - 1) as nat, bbs, done),
            args,
            args.len(),
            bbs,
            done,
        )
    }
}

/// The number of identifiers that are not settled.
pub open spec fn unsettled(done: Seq<Option<Seq<Seq<char>>>>) -> nat
    decreases done.len(),
{
    if done.len() == 0 {
        0
    } else {
        unsettled(done.drop_last()) + if done.last() is None {
            1nat
        } else {
            0
        }
    }
}

/// Settling an identifier leaves one fewer.
pub proof fn lemma_settle(
    done: Seq<Option<Seq<Seq<char>>>>,
    id: int,
    bbs: Seq<Seq<char>>,
)
    requires
        0 <= id < done.len(),
        done[id] is None,
    ensures
        unsettled(done.update(id, Some(bbs))) + 1 == unsettled(done),
    decreases done.len(),
{
    let t = done.update(id, Some(bbs));
    if id == done.len() - 1 {
        assert(t.drop_last() =~= done.drop_last());
    } else {
        lemma_settle(done.drop_last(), id, bbs);
        assert(t.drop_last() =~= done.drop_last().update(id, Some(bbs)));
    }
}

/// The basic blocks of each identifier when everything on the stack, the last
/// first, has been settled and has passed its block on to its arguments.
pub open spec fn spread<Op: BBInfo, D>(
    g: EGraph<Op, D>,
    stack: Seq<(usize, Seq<Seq<char>>)>,
    done: Seq<Option<Seq<Seq<char>>>>,
) -> Seq<Option<Seq<Seq<char>>>>
    decreases unsettled(done), stack.len(),
{
    if stack.len() == 0 {
        done
    } else {
        let (id, inherited) = stack.last();
        let rest = stack.drop_last();
        if id < done.len() && done[id as int] is None {
            let bbs = settled(g, id, inherited);
            let more = done.update(id as int, Some(bbs));
            let nodes = g.class(id).nodes@;
            proof {
                lemma_settle(done, id as int, bbs);
            }
            spread(g, with_nodes(rest, nodes, nodes.len(), bbs, more), more)
        } else {
            spread(g, rest, done)
        }
    }
}

/// The roots with their basic blocks.
pub open spec fn root_stack<Op, N: Number, T>(
    g: EGraph<Op, ISAXCost<N, T>>,
    roots: Seq<usize>,
) -> Seq<(usize, Seq<Seq<char>>)> {
    Seq::new(roots.len(), |i: int| (roots[i], g.class(roots[i]).data@.bb))
}

/// The basic block that each identifier gets from the roots.
pub open spec fn inferred<Op: BBInfo, N: Number, T>(
    g: EGraph<Op, ISAXCost<N, T>>,
    roots: Seq<usize>,
) -> Seq<Option<Seq<Seq<char>>>> {
    spread(g, root_stack(g, roots), Seq::new(g.slots@.len(), |i: int| None))
}

/// Whether `after` is the node `before` with `bbs` where it had no basic
/// blocks.
pub open spec fn node_tagged<Op: BBInfo>(
    before: AstNode<Op>,
    after: AstNode<Op>,
    bbs: Seq<Seq<char>>,
) -> bool {
    if before.operation.s_bbs().len() == 0 {
        &&& after.args@ == before.args@
        &&& after.operation.s_bbs() == bbs
        &&& before.operation.s_same_but_bbs(after.operation)
    } else {
        after == before
    }
}

/// Whether `after` is the class `before` with the basic block `bbs`.
pub open spec fn class_tagged<Op: BBInfo, N: Number, T>(
    before: EClass<Op, ISAXCost<N, T>>,
    after: EClass<Op, ISAXCost<N, T>>,
    bbs: Seq<Seq<char>>,
) -> bool {
    &&& after.id == before.id
    &&& after.data.cs == before.data.cs
    &&& after.data.ty == before.data.ty
    &&& after.data.vec_len == before.data.vec_len
    &&& after.data@.bb == bbs
    &&& after.nodes@.len() == before.nodes@.len()
    &&& forall|n: int|
        0 <= n < before.nodes@.len() ==> node_tagged(
            before.nodes@[n],
            #[trigger] after.nodes@[n],
            bbs,
        )
}

// ---------------------------------------------------------------------------
// Executably
// ---------------------------------------------------------------------------

/// A stack of identifiers with their basic blocks.
pub open spec fn stack_view(s: Seq<(usize, Vec<String>)>) -> Seq<(usize, Seq<Seq<char>>)> {
    Seq::new(s.len(), |i: int| (s[i].0, texts(s[i].1@)))
}

/// The basic blocks of each identifier.
pub open spec fn done_view(s: Seq<Option<Vec<String>>>) -> Seq<Option<Seq<Seq<char>>>> {
    Seq::new(
        s.len(),
        |i: int|
            match s[i] {
                Some(v) => Some(texts(v@)),
                None => None,
            },
    )
}

fn find_tagged<Op: BBInfo>(nodes: &Vec<AstNode<Op>>) -> (r: Vec<String>)
    ensures
        texts(r@) == first_tagged(nodes@, nodes@.len()),
{
    let mut r: Vec<String> = Vec::new();
    let n: usize = nodes.len();
    assert(texts(r@) =~= first_tagged(nodes@, 0));
    for i in 0..n
        invariant
            n == nodes@.len(),
            texts(r@) == first_tagged(nodes@, i as nat),
    {
        assert(texts(r@).len() == r@.len());
        if r.len() == 0 {
            r = copy_texts(nodes[i].operation.bbs_info());
        }
    }
    r
}

/// Pushes the arguments of `node` that are not settled yet.
fn push_args<Op>(
    stack: &mut Vec<(usize, Vec<String>)>,
    node: &AstNode<Op>,
    bbs: &Vec<String>,
    done: &Vec<Option<Vec<String>>>,
)
    requires
        forall|j: int| 0 <= j < node.args@.len() ==> (#[trigger] node.args@[j]) < done@.len(),
        forall|i: int|
            0 <= i < old(stack)@.len() ==> (#[trigger] stack_view(old(stack)@)[i]).0 < done@.len(),
    ensures
        stack_view(final(stack)@) == with_args(
            stack_view(old(stack)@),
            node.args@,
            node.args@.len(),
            texts(bbs@),
            done_view(done@),
        ),
        forall|i: int|
            0 <= i < final(stack)@.len() ==> (#[trigger] stack_view(final(stack)@)[i]).0
                < done@.len(),
{
    let ghost s0 = stack_view(stack@);
    let n: usize = node.args.len();
    for k in 0..n
        invariant
            n == node.args@.len(),
            forall|j: int| 0 <= j < node.args@.len() ==> (#[trigger] node.args@[j]) < done@.len(),
            stack_view(stack@) == with_args(
                s0,
                node.args@,
                k as nat,
                texts(bbs@),
                done_view(done@),
            ),
            forall|i: int|
                0 <= i < stack@.len() ==> (#[trigger] stack_view(stack@)[i]).0 < done@.len(),
    {
        let arg: usize = node.args[k];
        assert(node.args@[k as int] < done@.len());
        assert(done_view(done@)[arg as int] is None <==> done@[arg as int] is None);
        if done[arg].is_none() {
            let ghost s = stack_view(stack@);
            let copy: Vec<String> = copy_texts(bbs);
            stack.push((arg, copy));
            assert(stack_view(stack@) =~= s.push((arg, texts(bbs@))));
        }
    }
}

/// Settles everything on the stack and passes the blocks on.
fn spread_blocks<Op: BBInfo, D>(g: &EGraph<Op, D>, start: Vec<(usize, Vec<String>)>) -> (r: Vec<
    Option<Vec<String>>,
>)
    requires
        g.wf(),
        forall|i: int|
            0 <= i < start@.len() ==> (#[trigger] stack_view(start@)[i]).0 < g.slots@.len(),
    ensures
        r@.len() == g.slots@.len(),
        done_view(r@) == spread(
            *g,
            stack_view(start@),
            Seq::new(g.slots@.len(), |i: int| None),
        ),
{
    let mut stack: Vec<(usize, Vec<String>)> = start;
    let mut done: Vec<Option<Vec<String>>> = Vec::new();
    let n: usize = g.slots.len();
    for i in 0..n
        invariant
            done@.len() == i,
            forall|j: int| 0 <= j < i ==> (#[trigger] done@[j]) is None,
    {
        done.push(None);
    }
    let ghost result = spread(*g, stack_view(stack@), Seq::new(g.slots@.len(), |i: int| None));
    assert(done_view(done@) =~= Seq::new(g.slots@.len(), |i: int| None));
    while stack.len() > 0
        invariant
            g.wf(),
            n == g.slots@.len(),
            done@.len() == n,
            forall|i: int|
                0 <= i < stack@.len() ==> (#[trigger] stack_view(stack@)[i]).0 < done@.len(),
            result == spread(*g, stack_view(stack@), done_view(done@)),
        decreases unsettled(done_view(done@)), stack@.len(),
    {
        let ghost s = stack_view(stack@);
        let ghost d = done_view(done@);
        let ghost old_stack = stack@;
        assert(s.last() == (old_stack.last().0, texts(old_stack.last().1@)));
        let (id, inherited) = stack.pop().unwrap();
        assert(stack_view(stack@) =~= s.drop_last());
        assert(s[s.len() - 1].0 < done@.len());
        assert forall|i: int| 0 <= i < stack@.len() implies (#[trigger] stack_view(stack@)[i]).0
            < done@.len() by {
            assert(stack_view(stack@)[i] == s[i]);
        }
        assert(d[id as int] is None <==> done@[id as int] is None);
        if done[id].is_none() {
            let class: &EClass<Op, D> = g.get(id);
            let mut bbs: Vec<String> = find_tagged(&class.nodes);
            assert(texts(bbs@).len() == bbs@.len());
            if bbs.len() == 0 {
                bbs = inherited;
            }
            let ghost full = texts(bbs@);
            assert(texts(bbs@).len() == bbs@.len());
            if bbs.len() > 1 {
                bbs.truncate(1);
                assert(texts(bbs@) =~= full.take(1));
            }
            assert(texts(bbs@) == settled(*g, id, s.last().1));
            proof {
                lemma_settle(d, id as int, texts(bbs@));
            }
            done.set(id, Some(copy_texts(&bbs)));
            assert(done_view(done@) =~= d.update(id as int, Some(texts(bbs@))));
            let m: usize = class.nodes.len();
            for k in 0..m
                invariant
                    g.wf(),
                    n == g.slots@.len() == done@.len(),
                    id < n,
                    s.len() > 0,
                    *class == g.class(id),
                    m == class.nodes@.len(),
                    stack_view(stack@) == with_nodes(
                        s.drop_last(),
                        class.nodes@,
                        k as nat,
                        texts(bbs@),
                        done_view(done@),
                    ),
                    forall|i: int|
                        0 <= i < stack@.len() ==> (#[trigger] stack_view(stack@)[i]).0
                            < done@.len(),
            {
                let ghost node = class.nodes@[k as int];
                assert(g.args_valid(
                    g.classes@[g.slots@[id as int] as int].nodes@[k as int]@,
                ));
                assert forall|j: int| 0 <= j < node.args@.len() implies (#[trigger] node.args@[j])
                    < done@.len() by {
                    assert(node@.args[j] < g.slots@.len());
                }
                push_args(&mut stack, &class.nodes[k], &bbs, &done);
            }
        }
    }
    done
}

/// Starting from each root, carries basic blocks down through every class
/// that can be reached: a class keeps the first block of its own, and else
/// takes the one that it was reached with. Each class that was reached
/// records its block, and each of its nodes without a block takes it.
pub fn perf_infer<Op: BBInfo, N: Number, T>(
    egraph: &mut EGraph<Op, ISAXCost<N, T>>,
    roots: &Vec<usize>,
)
    requires
        old(egraph).wf(),
        forall|i: int| 0 <= i < roots@.len() ==> (#[trigger] roots@[i]) < old(egraph).slots@.len(),
    ensures
        final(egraph).wf(),
        final(egraph).slots == old(egraph).slots,
        final(egraph).classes@.len() == old(egraph).classes@.len(),
        forall|k: int|
            0 <= k < old(egraph).classes@.len() ==> ({
                let before = old(egraph).classes@[k];
                match inferred(*old(egraph), roots@)[before.id as int] {
                    Some(bbs) => class_tagged(before, #[trigger] final(egraph).classes@[k], bbs),
                    None => final(egraph).classes@[k] == before,
                }
            }),
{
    let ghost g = *egraph;
    let mut stack: Vec<(usize, Vec<String>)> = Vec::new();
    let n: usize = roots.len();
    for i in 0..n
        invariant
            egraph.wf(),
            g == *egraph,
            n == roots@.len(),
            forall|i: int| 0 <= i < roots@.len() ==> (#[trigger] roots@[i]) < egraph.slots@.len(),
            stack@.len() == i,
            forall|j: int|
                0 <= j < i ==> (#[trigger] stack_view(stack@)[j]) == root_stack(g, roots@)[j],
    {
        let root: usize = roots[i];
        assert(roots@[i as int] < egraph.slots@.len());
        let bb: Vec<String> = copy_texts(&egraph.get(root).data.bb);
        let ghost s = stack_view(stack@);
        stack.push((root, bb));
        assert(stack_view(stack@) =~= s.push((root, texts(bb@))));
    }
    assert(stack_view(stack@) =~= root_stack(g, roots@));
    assert forall|i: int| 0 <= i < stack@.len() implies (#[trigger] stack_view(stack@)[i]).0
        < g.slots@.len() by {
        assert(roots@[i] < g.slots@.len());
    }
    let done: Vec<Option<Vec<String>>> = spread_blocks(egraph, stack);
    let ghost result = inferred(g, roots@);
    assert(done_view(done@) == result);
    let m: usize = egraph.classes.len();
    for k in 0..m
        invariant
            g.wf(),
            m == g.classes@.len() == egraph.classes@.len(),
            egraph.slots == g.slots,
            done@.len() == g.slots@.len(),
            done_view(done@) == result,
            forall|j: int|
                0 <= j < k ==> ({
                    let before = g.classes@[j];
                    match result[before.id as int] {
                        Some(bbs) => class_tagged(before, #[trigger] egraph.classes@[j], bbs),
                        None => egraph.classes@[j] == before,
                    }
                }),
            forall|j: int| k <= j < m ==> (#[trigger] egraph.classes@[j]) == g.classes@[j],
    {
        assert(egraph.classes@[k as int] == g.classes@[k as int]);
        let id: usize = egraph.classes[k].id;
        assert(g.classes@[k as int].id < g.slots@.len());
        assert(done_view(done@)[id as int] == match done@[id as int] {
            Some(v) => Some(texts(v@)),
            None => None,
        });
        match &done[id] {
            None => {},
            Some(bbs) => {
                let class = &mut egraph.classes[k];
                tag_class(class, bbs);
            },
        }
    }
    assert(egraph.wf()) by {
        lemma_tagged_wf(g, *egraph, result);
    }
}

/// Records the basic block of a class and gives it to the nodes without one.
fn tag_class<Op: BBInfo, N: Number, T>(class: &mut EClass<Op, ISAXCost<N, T>>, bbs: &Vec<String>)
    ensures
        class_tagged(*old(class), *final(class), texts(bbs@)),
{
    let ghost before = *class;
    class.data.bb = copy_texts(bbs);
    let n: usize = class.nodes.len();
    for i in 0..n
        invariant
            n == class.nodes@.len() == before.nodes@.len(),
            class.id == before.id,
            class.data.cs == before.data.cs,
            class.data.ty == before.data.ty,
            class.data.vec_len == before.data.vec_len,
            class.data@.bb == texts(bbs@),
            forall|j: int|
                0 <= j < i ==> node_tagged(
                    before.nodes@[j],
                    #[trigger] class.nodes@[j],
                    texts(bbs@),
                ),
            forall|j: int| i <= j < n ==> (#[trigger] class.nodes@[j]) == before.nodes@[j],
    {
        assert(class.nodes@[i as int] == before.nodes@[i as int]);
        let empty: bool = class.nodes[i].operation.bbs_info().len() == 0;
        assert(empty == (before.nodes@[i as int].operation.s_bbs().len() == 0));
        if empty {
            let ghost mid = class.nodes@;
            let node = &mut class.nodes[i];
            tag_node(node, bbs);
            assert(forall|j: int| 0 <= j < n && j != i ==> class.nodes@[j] == mid[j]);
        }
    }
}

fn tag_node<Op: BBInfo>(node: &mut AstNode<Op>, bbs: &Vec<String>)
    ensures
        final(node).args@ == old(node).args@,
        final(node).operation.s_bbs() == texts(bbs@),
        old(node).operation.s_same_but_bbs(final(node).operation),
{
    let copy: Vec<String> = copy_texts(bbs);
    let tags = node.operation.get_mut_bbs_info();
    *tags = copy;
}

proof fn lemma_tagged_wf<Op: BBInfo, N: Number, T>(
    g: EGraph<Op, ISAXCost<N, T>>,
    h: EGraph<Op, ISAXCost<N, T>>,
    result: Seq<Option<Seq<Seq<char>>>>,
)
    requires
        g.wf(),
        h.slots == g.slots,
        h.classes@.len() == g.classes@.len(),
        forall|k: int|
            0 <= k < g.classes@.len() ==> ({
                let before = g.classes@[k];
                match result[before.id as int] {
                    Some(bbs) => class_tagged(before, #[trigger] h.classes@[k], bbs),
                    None => h.classes@[k] == before,
                }
            }),
    ensures
        h.wf(),
{
    assert forall|k: int| 0 <= k < h.classes@.len() implies {
        &&& (#[trigger] h.classes@[k]).id < h.slots@.len()
        &&& h.slots@[h.classes@[k].id as int] == k
    } by {
        assert(g.classes@[k].id < g.slots@.len());
    }
    assert forall|k: int, n: int|
        0 <= k < h.classes@.len() && 0 <= n < h.classes@[k].nodes@.len() implies #[trigger] h.args_valid(
        h.classes@[k].nodes@[n]@,
    ) by {
        let before = g.classes@[k];
        let after = h.classes@[k];
        assert(after.nodes@.len() == before.nodes@.len());
        assert(g.args_valid(before.nodes@[n]@));
        assert(after.nodes@[n].args@ == before.nodes@[n].args@);
        assert forall|j: int| 0 <= j < after.nodes@[n]@.args.len() implies (
        #[trigger] after.nodes@[n]@.args[j]) < h.slots@.len() by {
            assert(before.nodes@[n]@.args[j] < g.slots@.len());
        }
    }
}

// ---------------------------------------------------------------------------
// What is reached
// ---------------------------------------------------------------------------

/// Whether `arg` is an argument of a node in the class of `id`.
pub open spec fn has_arg<Op, D>(g: EGraph<Op, D>, id: usize, arg: usize) -> bool {
    exists|n: int, j: int|
        0 <= n < g.class(id).nodes@.len() && 0 <= j < g.class(id).nodes@[n].args@.len()
            && #[trigger] g.class(id).nodes@[n].args@[j] == arg
}

/// Whether `path` leads from a root down along arguments.
pub open spec fn descends<Op, D>(g: EGraph<Op, D>, roots: Seq<usize>, path: Seq<usize>) -> bool {
    &&& path.len() > 0
    &&& roots.contains(path[0])
    &&& forall|i: int|
        0 < i < path.len() ==> has_arg(g, path[i - 1], #[trigger] path[i])
}

/// Whether every identifier that occurs is that of its class.
pub open spec fn canonical<Op, D>(g: EGraph<Op, D>) -> bool {
    forall|id: usize, arg: usize| #[trigger] has_arg(g, id, arg) ==> g.class(arg).id == arg
}

/// Whether the arguments of everything settled are settled or on the stack.
spec fn closed<Op, D>(
    g: EGraph<Op, D>,
    stack: Seq<(usize, Seq<Seq<char>>)>,
    done: Seq<Option<Seq<Seq<char>>>>,
) -> bool {
    forall|id: usize, arg: usize|
        id < done.len() && done[id as int] is Some && #[trigger] has_arg(g, id, arg)
            ==> done[arg as int] is Some || on_stack(stack, arg)
}

spec fn on_stack(stack: Seq<(usize, Seq<Seq<char>>)>, id: usize) -> bool {
    exists|i: int| 0 <= i < stack.len() && (#[trigger] stack[i]).0 == id
}

/// Whether everything on the stack and everything settled has a basic block.
spec fn tagged(
    stack: Seq<(usize, Seq<Seq<char>>)>,
    done: Seq<Option<Seq<Seq<char>>>>,
) -> bool {
    &&& forall|i: int| 0 <= i < stack.len() ==> (#[trigger] stack[i]).1.len() > 0
    &&& forall|i: int| 0 <= i < done.len() && (#[trigger] done[i]) is Some ==> done[i]->Some_0.len() > 0
}

proof fn lemma_with_args(
    stack: Seq<(usize, Seq<Seq<char>>)>,
    args: Seq<usize>,
    k: nat,
    bbs: Seq<Seq<char>>,
    done: Seq<Option<Seq<Seq<char>>>>,
)
    requires
        k <= args.len(),
    ensures
        ({
            let t = with_args(stack, args, k, bbs, done);
            &&& forall|id: usize| #[trigger] on_stack(stack, id) ==> on_stack(t, id)
            &&& forall|j: int|
                0 <= j < k ==> done[(#[trigger] args[j]) as int] is Some || on_stack(t, args[j])
            &&& bbs.len() > 0 && tagged(stack, done) ==> tagged(t, done)
        }),
    decreases k,
{
    if k > 0 {
        lemma_with_args(stack, args, (k - 1) as nat, bbs, done);
        let s = with_args(stack, args, (k - 1) as nat, bbs, done);
        let t = with_args(stack, args, k, bbs, done);
        assert forall|id: usize| #[trigger] on_stack(s, id) implies on_stack(t, id) by {
            let i = choose|i: int| 0 <= i < s.len() && (#[trigger] s[i]).0 == id;
            assert(t[i].0 == id);
        }
        if done[args[k - 1] as int] is None {
            assert(t[t.len() - 1].0 == args[k - 1]);
        }
    }
}

proof fn lemma_with_nodes<Op>(
    stack: Seq<(usize, Seq<Seq<char>>)>,
    nodes: Seq<AstNode<Op>>,
    n: nat,
    bbs: Seq<Seq<char>>,
    done: Seq<Option<Seq<Seq<char>>>>,
)
    requires
        n <= nodes.len(),
    ensures
        ({
            let t = with_nodes(stack, nodes, n, bbs, done);
            &&& forall|id: usize| #[trigger] on_stack(stack, id) ==> on_stack(t, id)
            &&& forall|m: int, j: int|
                0 <= m < n && 0 <= j < nodes[m].args@.len() ==> done[(
                #[trigger] nodes[m].args@[j]) as int] is Some || on_stack(t, nodes[m].args@[j])
            &&& bbs.len() > 0 && tagged(stack, done) ==> tagged(t, done)
        }),
    decreases n,
{
    if n > 0 {
        lemma_with_nodes(stack, nodes, (n - 1) as nat, bbs, done);
        let s = with_nodes(stack, nodes, (n - 1) as nat, bbs, done);
        let args = nodes[n - 1].args@;
        lemma_with_args(s, args, args.len(), bbs, done);
        let t = with_nodes(stack, nodes, n, bbs, done);
        assert forall|m: int, j: int|
            0 <= m < n && 0 <= j < nodes[m].args@.len() implies done[(
        #[trigger] nodes[m].args@[j]) as int] is Some || on_stack(t, nodes[m].args@[j]) by {
            if m == n - 1 {
                assert(done[args[j] as int] is Some || on_stack(t, args[j]));
            } else {
                assert(done[nodes[m].args@[j] as int] is Some || on_stack(s, nodes[m].args@[j]));
            }
        }
    }
}

proof fn lemma_spread<Op: BBInfo, D>(
    g: EGraph<Op, D>,
    stack: Seq<(usize, Seq<Seq<char>>)>,
    done: Seq<Option<Seq<Seq<char>>>>,
)
    requires
        closed(g, stack, done),
        forall|i: int| 0 <= i < stack.len() ==> (#[trigger] stack[i]).0 < done.len(),
        forall|id: usize, arg: usize| #[trigger] has_arg(g, id, arg) && id < done.len() ==> arg
            < done.len(),
    ensures
        ({
            let r = spread(g, stack, done);
            &&& r.len() == done.len()
            &&& forall|i: int|
                0 <= i < done.len() && (#[trigger] done[i]) is Some ==> r[i] == done[i]
            &&& forall|i: int|
                0 <= i < stack.len() ==> r[(#[trigger] stack[i]).0 as int] is Some
            &&& closed(g, Seq::empty(), r)
            &&& tagged(stack, done) ==> tagged(Seq::empty(), r)
        }),
    decreases unsettled(done), stack.len(),
{
    let r = spread(g, stack, done);
    if stack.len() == 0 {
        assert(stack =~= Seq::<(usize, Seq<Seq<char>>)>::empty());
    } else {
        let (id, inherited) = stack.last();
        let rest = stack.drop_last();
        assert(stack[stack.len() - 1].0 < done.len());
        if done[id as int] is None {
            let bbs = settled(g, id, inherited);
            let more = done.update(id as int, Some(bbs));
            let nodes = g.class(id).nodes@;
            let next = with_nodes(rest, nodes, nodes.len(), bbs, more);
            lemma_settle(done, id as int, bbs);
            lemma_with_nodes(rest, nodes, nodes.len(), bbs, more);
            lemma_stack_in_range(g, id, rest, nodes.len(), bbs, more);
            assert(closed(g, next, more)) by {
                assert forall|a: usize, b: usize|
                    a < more.len() && more[a as int] is Some && #[trigger] has_arg(g, a, b) implies more[b as int] is Some
                    || on_stack(next, b) by {
                    if a == id {
                        let (m, j) = choose|m: int, j: int|
                            0 <= m < nodes.len() && 0 <= j < nodes[m].args@.len()
                                && #[trigger] nodes[m].args@[j] == b;
                        assert(more[nodes[m].args@[j] as int] is Some || on_stack(
                            next,
                            nodes[m].args@[j],
                        ));
                    } else {
                        assert(done[a as int] is Some);
                        if done[b as int] is None && b != id {
                            assert(on_stack(stack, b));
                            let i = choose|i: int| 0 <= i < stack.len() && (#[trigger] stack[i]).0
                                == b;
                            assert(i < rest.len());
                            assert(rest[i].0 == b);
                            assert(on_stack(rest, b));
                        }
                    }
                }
            }
            lemma_spread(g, next, more);
            assert forall|i: int| 0 <= i < stack.len() implies r[(
            #[trigger] stack[i]).0 as int] is Some by {
                if i == stack.len() - 1 {
                    assert(more[id as int] is Some);
                } else {
                    assert(rest[i].0 == stack[i].0);
                    assert(on_stack(rest, stack[i].0));
                    assert(on_stack(next, stack[i].0));
                    let k = choose|k: int| 0 <= k < next.len() && (#[trigger] next[k]).0
                        == stack[i].0;
                    assert(r[next[k].0 as int] is Some);
                }
            }
            assert forall|i: int| 0 <= i < done.len() && (#[trigger] done[i]) is Some implies r[i]
                == done[i] by {
                assert(more[i] == done[i]);
            }
            if tagged(stack, done) {
                assert(stack[stack.len() - 1].1.len() > 0);
                assert(bbs.len() > 0);
                assert(tagged(rest, more)) by {
                    assert forall|i: int| 0 <= i < rest.len() implies (#[trigger] rest[i]).1.len()
                        > 0 by {
                        assert(stack[i].1.len() > 0);
                    }
                }
            }
        } else {
            assert(closed(g, rest, done)) by {
                assert forall|a: usize, b: usize|
                    a < done.len() && done[a as int] is Some && #[trigger] has_arg(g, a, b) implies done[b as int] is Some
                    || on_stack(rest, b) by {
                    if done[b as int] is None {
                        assert(on_stack(stack, b));
                        let i = choose|i: int| 0 <= i < stack.len() && (#[trigger] stack[i]).0 == b;
                        assert(i < rest.len());
                        assert(rest[i].0 == b);
                    }
                }
            }
            assert forall|i: int| 0 <= i < rest.len() implies (#[trigger] rest[i]).0
                < done.len() by {
                assert(stack[i].0 < done.len());
            }
            lemma_spread(g, rest, done);
            assert forall|i: int| 0 <= i < stack.len() implies r[(
            #[trigger] stack[i]).0 as int] is Some by {
                if i < stack.len() - 1 {
                    assert(r[rest[i].0 as int] is Some);
                }
            }
            if tagged(stack, done) {
                assert(tagged(rest, done)) by {
                    assert forall|i: int| 0 <= i < rest.len() implies (#[trigger] rest[i]).1.len()
                        > 0 by {
                        assert(stack[i].1.len() > 0);
                    }
                }
            }
        }
    }
}

proof fn lemma_stack_in_range<Op: BBInfo, D>(
    g: EGraph<Op, D>,
    id: usize,
    stack: Seq<(usize, Seq<Seq<char>>)>,
    n: nat,
    bbs: Seq<Seq<char>>,
    done: Seq<Option<Seq<Seq<char>>>>,
)
    requires
        id < done.len(),
        n <= g.class(id).nodes@.len(),
        forall|i: int| 0 <= i < stack.len() ==> (#[trigger] stack[i]).0 < done.len(),
        forall|a: usize, b: usize| #[trigger] has_arg(g, a, b) && a < done.len() ==> b < done.len(),
    ensures
        ({
            let t = with_nodes(stack, g.class(id).nodes@, n, bbs, done);
            forall|i: int| 0 <= i < t.len() ==> (#[trigger] t[i]).0 < done.len()
        }),
    decreases n,
{
    if n > 0 {
        lemma_stack_in_range(g, id, stack, (n - 1) as nat, bbs, done);
        let nodes = g.class(id).nodes@;
        let s = with_nodes(stack, nodes, (n - 1) as nat, bbs, done);
        let args = nodes[n - 1].args@;
        assert forall|j: int| 0 <= j < args.len() implies (#[trigger] args[j]) < done.len() by {
            assert(nodes[n - 1].args@[j] == args[j]);
            assert(has_arg(g, id, args[j]));
        }
        lemma_args_in_range(s, args, args.len(), bbs, done);
    }
}

proof fn lemma_args_in_range(
    stack: Seq<(usize, Seq<Seq<char>>)>,
    args: Seq<usize>,
    k: nat,
    bbs: Seq<Seq<char>>,
    done: Seq<Option<Seq<Seq<char>>>>,
)
    requires
        k <= args.len(),
        forall|i: int| 0 <= i < stack.len() ==> (#[trigger] stack[i]).0 < done.len(),
        forall|j: int| 0 <= j < args.len() ==> (#[trigger] args[j]) < done.len(),
    ensures
        ({
            let t = with_args(stack, args, k, bbs, done);
            forall|i: int| 0 <= i < t.len() ==> (#[trigger] t[i]).0 < done.len()
        }),
    decreases k,
{
    if k > 0 {
        lemma_args_in_range(stack, args, (k - 1) as nat, bbs, done);
        let s = with_args(stack, args, (k - 1) as nat, bbs, done);
        let t = with_args(stack, args, k, bbs, done);
        assert(args[k - 1] < done.len());
        assert forall|i: int| 0 <= i < t.len() implies (#[trigger] t[i]).0 < done.len() by {
            if i < s.len() {
                assert(t[i] == s[i]);
            }
        }
    }
}

/// No node that can be reached from the roots is left without a basic block,
/// where every root has one and every identifier is that of its class.
pub proof fn law_every_reached_node_has_a_block<Op: BBInfo, N: Number, T>(
    g: EGraph<Op, ISAXCost<N, T>>,
    h: EGraph<Op, ISAXCost<N, T>>,
    roots: Seq<usize>,
    path: Seq<usize>,
)
    requires
        g.wf(),
        canonical(g),
        forall|i: int|
            0 <= i < roots.len() ==> {
                &&& (#[trigger] roots[i]) < g.slots@.len()
                &&& g.class(roots[i]).id == roots[i]
                &&& g.class(roots[i]).data@.bb.len() > 0
            },
        h.slots == g.slots,
        h.classes@.len() == g.classes@.len(),
        forall|k: int|
            0 <= k < g.classes@.len() ==> ({
                let before = g.classes@[k];
                match inferred(g, roots)[before.id as int] {
                    Some(bbs) => class_tagged(before, #[trigger] h.classes@[k], bbs),
                    None => h.classes@[k] == before,
                }
            }),
        descends(g, roots, path),
    ensures
        path.last() < g.slots@.len(),
        h.class(path.last()).data@.bb.len() > 0,
        forall|n: int|
            0 <= n < h.class(path.last()).nodes@.len() ==> (#[trigger] h.class(
                path.last(),
            ).nodes@[n]).operation.s_bbs().len() > 0,
{
    let start = root_stack(g, roots);
    let none = Seq::new(g.slots@.len(), |i: int| None::<Seq<Seq<char>>>);
    let r = inferred(g, roots);
    assert forall|a: usize, b: usize| #[trigger] has_arg(g, a, b) && a < none.len() implies b
        < none.len() by {
        lemma_arg_in_range(g, a, b);
    }
    assert forall|i: int| 0 <= i < start.len() implies (#[trigger] start[i]).0 < none.len() by {
        assert(roots[i] < g.slots@.len());
    }
    assert(tagged(start, none)) by {
        assert forall|i: int| 0 <= i < start.len() implies (#[trigger] start[i]).1.len() > 0 by {
            assert(g.class(roots[i]).data@.bb.len() > 0);
        }
    }
    lemma_spread(g, start, none);
    lemma_path_settled(g, roots, path, r);
    let id = path.last();
    let k = g.slots@[id as int] as int;
    assert(g.classes@[k].id == id);
    assert(r[id as int] is Some);
    let bbs = r[id as int]->Some_0;
    assert(bbs.len() > 0);
    assert(class_tagged(g.classes@[k], h.classes@[k], bbs));
    assert forall|n: int| 0 <= n < h.class(id).nodes@.len() implies (#[trigger] h.class(
        id,
    ).nodes@[n]).operation.s_bbs().len() > 0 by {
        assert(node_tagged(g.classes@[k].nodes@[n], h.classes@[k].nodes@[n], bbs));
    }
}

proof fn lemma_arg_in_range<Op, D>(g: EGraph<Op, D>, a: usize, b: usize)
    requires
        g.wf(),
        a < g.slots@.len(),
        has_arg(g, a, b),
    ensures
        b < g.slots@.len(),
{
    let (n, j) = choose|n: int, j: int|
        0 <= n < g.class(a).nodes@.len() && 0 <= j < g.class(a).nodes@[n].args@.len()
            && #[trigger] g.class(a).nodes@[n].args@[j] == b;
    let k = g.slots@[a as int] as int;
    assert(g.args_valid(g.classes@[k].nodes@[n]@));
    assert(g.classes@[k].nodes@[n]@.args[j] < g.slots@.len());
}

proof fn lemma_path_settled<Op: BBInfo, N: Number, T>(
    g: EGraph<Op, ISAXCost<N, T>>,
    roots: Seq<usize>,
    path: Seq<usize>,
    r: Seq<Option<Seq<Seq<char>>>>,
)
    requires
        g.wf(),
        canonical(g),
        r.len() == g.slots@.len(),
        closed(g, Seq::empty(), r),
        forall|i: int|
            0 <= i < roots.len() ==> {
                &&& (#[trigger] roots[i]) < g.slots@.len()
                &&& g.class(roots[i]).id == roots[i]
            },
        forall|i: int|
            0 <= i < root_stack(g, roots).len() ==> r[(#[trigger] root_stack(
                g,
                roots,
            )[i]).0 as int] is Some,
        descends(g, roots, path),
    ensures
        path.last() < g.slots@.len(),
        g.class(path.last()).id == path.last(),
        r[path.last() as int] is Some,
    decreases path.len(),
{
    if path.len() == 1 {
        let i = choose|i: int| 0 <= i < roots.len() && roots[i] == path[0];
        assert(r[root_stack(g, roots)[i].0 as int] is Some);
    } else {
        let up = path.drop_last();
        assert(descends(g, roots, up)) by {
            assert forall|i: int| 0 < i < up.len() implies has_arg(
                g,
                up[i - 1],
                #[trigger] up[i],
            ) by {
                assert(has_arg(g, path[i - 1], path[i]));
            }
        }
        lemma_path_settled(g, roots, up, r);
        let a = path[path.len() - 2];
        let b = path[path.len() - 1];
        assert(has_arg(g, a, b));
        lemma_arg_in_range(g, a, b);
        assert(r[b as int] is Some || on_stack(Seq::empty(), b));
    }
}

// ---------------------------------------------------------------------------
// Expressions
// ---------------------------------------------------------------------------

/// The first node behind the `i`-th that has basic blocks, or the number of
/// nodes.
pub open spec fn next_tagged<Op: BBInfo>(nodes: Seq<AstNode<Op>>, i: int) -> int
    decreases nodes.len() - i,
{
    if i + 1 >= nodes.len() {
        nodes.len() as int
    } else if nodes[i + 1].operation.s_bbs().len() > 0 {
        i + 1
    } else {
        next_tagged(nodes, i + 1)
    }
}

/// Whether `after` is the `i`-th node, with the basic blocks of the next node
/// that has any where it has none itself.
pub open spec fn tagged_from_next<Op: BBInfo>(
    nodes: Seq<AstNode<Op>>,
    i: int,
    after: AstNode<Op>,
) -> bool {
    let j = next_tagged(nodes, i);
    if nodes[i].operation.s_bbs().len() == 0 && j < nodes.len() {
        node_tagged(nodes[i], after, nodes[j].operation.s_bbs())
    } else {
        after == nodes[i]
    }
}

proof fn lemma_next_tagged<Op: BBInfo>(nodes: Seq<AstNode<Op>>, i: int, j: int)
    requires
        0 <= i < j <= nodes.len(),
        forall|k: int| i < k < j ==> (#[trigger] nodes[k]).operation.s_bbs().len() == 0,
        j < nodes.len() ==> nodes[j].operation.s_bbs().len() > 0,
    ensures
        next_tagged(nodes, i) == j,
    decreases j - i,
{
    if i + 1 < j {
        assert(nodes[i + 1].operation.s_bbs().len() == 0);
        lemma_next_tagged(nodes, i + 1, j);
    }
}

/// Gives each node without basic blocks those of the next node that has any.
pub fn expr_perf_infer<Op: BBInfo>(expr: &mut RecExpr<Op>)
    ensures
        final(expr).nodes@.len() == old(expr).nodes@.len(),
        forall|i: int|
            0 <= i < old(expr).nodes@.len() ==> tagged_from_next(
                old(expr).nodes@,
                i,
                #[trigger] final(expr).nodes@[i],
            ),
{
    let ghost s = expr.nodes@;
    let n: usize = expr.nodes.len();
    let mut start: usize = 0;
    for i in 0..n
        invariant
            n == s.len() == expr.nodes@.len(),
            start <= i,
            forall|k: int| start <= k < i ==> (#[trigger] s[k]).operation.s_bbs().len() == 0,
            forall|k: int| 0 <= k < start ==> tagged_from_next(s, k, #[trigger] expr.nodes@[k]),
            forall|k: int| start <= k < n ==> (#[trigger] expr.nodes@[k]) == s[k],
    {
        assert(expr.nodes@[i as int] == s[i as int]);
        let bbs: Vec<String> = copy_texts(expr.nodes[i].operation.bbs_info());
        assert(texts(bbs@).len() == bbs@.len());
        if bbs.len() > 0 {
            let mut k: usize = start;
            while k < i
                invariant
                    n == s.len() == expr.nodes@.len(),
                    start <= k <= i < n,
                    texts(bbs@) == s[i as int].operation.s_bbs(),
                    texts(bbs@).len() > 0,
                    forall|k: int|
                        start <= k < i ==> (#[trigger] s[k]).operation.s_bbs().len() == 0,
                    forall|j: int|
                        0 <= j < k ==> tagged_from_next(s, j, #[trigger] expr.nodes@[j]),
                    forall|j: int| k <= j < n ==> (#[trigger] expr.nodes@[j]) == s[j],
                decreases i - k,
            {
                let ghost mid = expr.nodes@;
                assert(mid[k as int] == s[k as int]);
                assert(s[k as int].operation.s_bbs().len() == 0);
                let node = &mut expr.nodes[k];
                tag_node(node, &bbs);
                proof {
                    lemma_next_tagged(s, k as int, i as int);
                    assert(tagged_from_next(s, k as int, expr.nodes@[k as int]));
                    assert(forall|j: int| 0 <= j < n && j != k ==> expr.nodes@[j] == mid[j]);
                }
                k = k + 1;
            }
            start = i + 1;
            assert(tagged_from_next(s, i as int, expr.nodes@[i as int]));
        }
    }
    proof {
        assert forall|k: int| 0 <= k < n implies tagged_from_next(
            s,
            k,
            #[trigger] expr.nodes@[k],
        ) by {
            if k >= start {
                lemma_next_tagged(s, k, n as int);
            }
        }
    }
}

/// Where the last node has basic blocks, every node has some afterwards.
pub proof fn law_tagged_root_tags_all<Op: BBInfo>(
    before: Seq<AstNode<Op>>,
    after: Seq<AstNode<Op>>,
    i: int,
)
    requires
        0 <= i < before.len() == after.len(),
        before.last().operation.s_bbs().len() > 0,
        forall|k: int|
            0 <= k < before.len() ==> tagged_from_next(before, k, #[trigger] after[k]),
    ensures
        after[i].operation.s_bbs().len() > 0,
{
    assert(tagged_from_next(before, i, after[i]));
    if before[i].operation.s_bbs().len() == 0 {
        lemma_next_exists(before, i);
    }
}

proof fn lemma_next_exists<Op: BBInfo>(nodes: Seq<AstNode<Op>>, i: int)
    requires
        0 <= i < nodes.len() - 1,
        nodes.last().operation.s_bbs().len() > 0,
    ensures
        next_tagged(nodes, i) < nodes.len(),
        nodes[next_tagged(nodes, i)].operation.s_bbs().len() > 0,
    decreases nodes.len() - i,
{
    if nodes[i + 1].operation.s_bbs().len() == 0 {
        lemma_next_exists(nodes, i + 1);
    }
}

} // verus!
