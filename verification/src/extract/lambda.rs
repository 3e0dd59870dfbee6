//! Replacing the bodies of lambdas by pattern variables.
use crate::ast_node::{AstNode, NodeView};
use crate::egraph::{EClass, EGraph};
use crate::marks::{lemma_unmarked, no_marks, unmarked};
use crate::number::Number;
use crate::runner::operation::OperationInfo;
use crate::teachable::{binding_of, BindingExpr, Teachable};
use crate::text::{decimal, decimal_text};
use vstd::prelude::*;

verus! {

/// Whether a node is a lambda.
pub open spec fn is_lambda<Op: Teachable<N>, N: Number>(node: NodeView<Op>) -> bool {
    binding_of::<Op, usize, N>(node) matches Some(BindingExpr::Lambda(_))
}

/// Whether the class at `k` has a lambda.
pub open spec fn has_lambda<Op: Teachable<N>, N: Number, D>(g: EGraph<Op, D>, k: int) -> bool {
    exists|n: int|
        0 <= n < g.classes@[k].nodes@.len() && is_lambda::<Op, N>(
            (#[trigger] g.classes@[k].nodes@[n])@,
        )
}

/// Whether a node of the class at `p` has the class at `k` as an argument.
pub open spec fn uses<Op, D>(g: EGraph<Op, D>, p: int, k: int) -> bool {
    exists|n: int, j: int|
        0 <= n < g.classes@[p].nodes@.len() && 0 <= j < g.classes@[p].nodes@[n]@.args.len()
            && g.slots@[(#[trigger] g.classes@[p].nodes@[n]@.args[j]) as int] == k
}

/// Whether the class at `k` is reached from a lambda in at most `steps` steps.
pub open spec fn reached_within<Op: Teachable<N>, N: Number, D>(
    g: EGraph<Op, D>,
    k: int,
    steps: nat,
) -> bool
    decreases steps,
{
    ||| has_lambda::<Op, N, D>(g, k)
    ||| steps > 0 && exists|p: int|
        0 <= p < g.classes@.len() && reached_within::<Op, N, D>(g, p, (steps - 1) as nat)
            && #[trigger] uses(g, p, k)
}

/// Whether the class at `k` has a lambda or stands below one.
pub open spec fn under_lambda<Op: Teachable<N>, N: Number, D>(g: EGraph<Op, D>, k: int) -> bool {
    exists|steps: nat| reached_within::<Op, N, D>(g, k, steps)
}

/// The name of the variable that stands for a class.
pub open spec fn lambda_name(id: usize) -> Seq<char> {
    "Lambda"@ + decimal(id as nat)
}

/// Whether `after` is a node with the variable of a class in place of its
/// operation.
pub open spec fn eliminated<Op: OperationInfo<N>, N: Number>(
    before: NodeView<Op>,
    after: NodeView<Op>,
    id: usize,
) -> bool {
    after.args == before.args && Op::s_makes_rule_var(after.operation, lambda_name(id))
}

proof fn lemma_child_reached<Op: Teachable<N>, N: Number, D>(g: EGraph<Op, D>, p: int, k: int)
    requires
        0 <= p < g.classes@.len(),
        under_lambda::<Op, N, D>(g, p),
        uses(g, p, k),
    ensures
        under_lambda::<Op, N, D>(g, k),
{
    let steps = choose|steps: nat| reached_within::<Op, N, D>(g, p, steps);
    assert(reached_within::<Op, N, D>(g, k, steps + 1));
}

/// A set of classes that holds those with lambdas and what they use holds all
/// that stand below lambdas.
proof fn lemma_closed<Op: Teachable<N>, N: Number, D>(
    g: EGraph<Op, D>,
    marks: Seq<bool>,
    k: int,
    steps: nat,
)
    requires
        g.wf(),
        marks.len() == g.classes@.len(),
        0 <= k < marks.len(),
        forall|i: int| 0 <= i < marks.len() && #[trigger] has_lambda::<Op, N, D>(g, i) ==> marks[i],
        forall|p: int, c: int|
            0 <= p < marks.len() && 0 <= c < marks.len() && marks[p] && #[trigger] uses(g, p, c)
                ==> marks[c],
        reached_within::<Op, N, D>(g, k, steps),
    ensures
        marks[k],
    decreases steps,
{
    if !has_lambda::<Op, N, D>(g, k) {
        let p = choose|p: int|
            0 <= p < g.classes@.len() && reached_within::<Op, N, D>(g, p, (steps - 1) as nat)
                && #[trigger] uses(g, p, k);
        lemma_closed::<Op, N, D>(g, marks, p, (steps - 1) as nat);
    }
}

/// Whether what a marked class uses is marked or waits.
spec fn pending<Op, D>(g: EGraph<Op, D>, marks: Seq<bool>, stack: Seq<usize>) -> bool {
    forall|p: int, c: int|
        0 <= p < marks.len() && 0 <= c < marks.len() && marks[p] && #[trigger] uses(g, p, c)
            ==> marks[c] || stack.contains(c as usize)
}

fn class_has_lambda<Op: Teachable<N>, N: Number, D>(class: &EClass<Op, D>) -> (r: bool)
    ensures
        r == exists|n: int|
            0 <= n < class.nodes@.len() && is_lambda::<Op, N>((#[trigger] class.nodes@[n])@),
{
    let n: usize = class.nodes.len();
    for i in 0..n
        invariant
            n == class.nodes@.len(),
            forall|k: int| 0 <= k < i ==> !is_lambda::<Op, N>((#[trigger] class.nodes@[k])@),
    {
        if let Some(BindingExpr::Lambda(_)) = Op::as_binding_expr(&class.nodes[i]) {
            assert(is_lambda::<Op, N>(class.nodes@[i as int]@));
            return true;
        }
    }
    false
}

/// Marks a class and everything below it.
fn mark_below<Op: Teachable<N>, N: Number, D>(
    egraph: &EGraph<Op, D>,
    start: usize,
    marks: &mut Vec<bool>,
)
    requires
        egraph.wf(),
        old(marks)@.len() == egraph.classes@.len(),
        start < egraph.classes@.len(),
        under_lambda::<Op, N, D>(*egraph, start as int),
        forall|k: int|
            0 <= k < old(marks)@.len() && old(marks)@[k] ==> #[trigger] under_lambda::<Op, N, D>(
                *egraph,
                k,
            ),
        pending(*egraph, old(marks)@, Seq::empty()),
    ensures
        final(marks)@.len() == old(marks)@.len(),
        final(marks)@[start as int],
        forall|k: int| 0 <= k < old(marks)@.len() && old(marks)@[k] ==> final(marks)@[k],
        forall|k: int|
            0 <= k < final(marks)@.len() && final(marks)@[k] ==> #[trigger] under_lambda::<
                Op,
                N,
                D,
            >(*egraph, k),
        pending(*egraph, final(marks)@, Seq::empty()),
{
    let ghost g = *egraph;
    let ghost before = marks@;
    let mut stack: Vec<usize> = Vec::new();
    stack.push(start);
    assert(stack@[0] == start);
    while stack.len() > 0
        invariant
            egraph.wf(),
            g == *egraph,
            marks@.len() == g.classes@.len() == before.len(),
            start < before.len(),
            marks@[start as int] || stack@.contains(start),
            forall|k: int| 0 <= k < before.len() && before[k] ==> marks@[k],
            forall|k: int|
                0 <= k < marks@.len() && marks@[k] ==> #[trigger] under_lambda::<Op, N, D>(g, k),
            forall|i: int|
                0 <= i < stack@.len() ==> (#[trigger] stack@[i]) < g.classes@.len()
                    && under_lambda::<Op, N, D>(g, stack@[i] as int),
            pending(g, marks@, stack@),
        decreases unmarked(marks@), stack@.len(),
    {
        let ghost held = stack@;
        let ghost was = marks@;
        let k: usize = stack.pop().unwrap();
        assert(held[held.len() - 1] == k);
        assert forall|c: usize| held.contains(c) && c != k implies #[trigger] stack@.contains(c) by {
            let i = choose|i: int| 0 <= i < held.len() && held[i] == c;
            assert(stack@[i] == c);
        }
        if marks[k] {
            assert(pending(g, marks@, stack@));
            continue;
        }
        proof {
            lemma_unmarked(marks@, k as int);
        }
        marks.set(k, true);
        let class: &EClass<Op, D> = &egraph.classes[k];
        let n: usize = class.nodes.len();
        for i in 0..n
            invariant
                egraph.wf(),
                g == *egraph,
                k < g.classes@.len(),
                *class == g.classes@[k as int],
                n == class.nodes@.len(),
                under_lambda::<Op, N, D>(g, k as int),
                forall|q: int|
                    0 <= q < stack@.len() ==> (#[trigger] stack@[q]) < g.classes@.len()
                        && under_lambda::<Op, N, D>(g, stack@[q] as int),
                forall|c: usize| held.contains(c) && c != k ==> #[trigger] stack@.contains(c),
                forall|x: int, y: int|
                    0 <= x < i && 0 <= y < class.nodes@[x]@.args.len() ==> stack@.contains(
                        g.slots@[(#[trigger] class.nodes@[x]@.args[y]) as int],
                    ),
        {
            let node: &AstNode<Op> = &class.nodes[i];
            assert(g.args_valid(g.classes@[k as int].nodes@[i as int]@));
            let m: usize = node.args.len();
            for j in 0..m
                invariant
                    egraph.wf(),
                    g == *egraph,
                    k < g.classes@.len(),
                    i < n,
                    *class == g.classes@[k as int],
                    n == class.nodes@.len(),
                    *node == class.nodes@[i as int],
                    m == node@.args.len(),
                    g.args_valid(node@),
                    under_lambda::<Op, N, D>(g, k as int),
                    forall|q: int|
                        0 <= q < stack@.len() ==> (#[trigger] stack@[q]) < g.classes@.len()
                            && under_lambda::<Op, N, D>(g, stack@[q] as int),
                    forall|c: usize| held.contains(c) && c != k ==> #[trigger] stack@.contains(c),
                    forall|x: int, y: int|
                        0 <= x < i && 0 <= y < class.nodes@[x]@.args.len() ==> stack@.contains(
                            g.slots@[(#[trigger] class.nodes@[x]@.args[y]) as int],
                        ),
                    forall|y: int|
                        0 <= y < j ==> stack@.contains(
                            g.slots@[(#[trigger] node@.args[y]) as int],
                        ),
            {
                let ghost s = stack@;
                assert(node@.args[j as int] < g.slots@.len());
                let c: usize = egraph.place(node.args[j]);
                proof {
                    assert(g.slots@[g.classes@[k as int].nodes@[i as int]@.args[j as int] as int]
                        == c);
                    assert(uses(g, k as int, c as int));
                    lemma_child_reached::<Op, N, D>(g, k as int, c as int);
                }
                stack.push(c);
                assert forall|x: usize| s.contains(x) implies #[trigger] stack@.contains(x) by {
                    let q = choose|q: int| 0 <= q < s.len() && s[q] == x;
                    assert(stack@[q] == x);
                }
                assert forall|x: usize| held.contains(x) && x != k implies #[trigger] stack@.contains(
                    x,
                ) by {
                    assert(s.contains(x));
                }
                assert forall|x: int, y: int|
                    0 <= x < i && 0 <= y < class.nodes@[x]@.args.len() implies stack@.contains(
                    g.slots@[(#[trigger] class.nodes@[x]@.args[y]) as int],
                ) by {
                    assert(s.contains(g.slots@[class.nodes@[x]@.args[y] as int]));
                }
                assert forall|y: int| 0 <= y < j implies stack@.contains(
                    g.slots@[(#[trigger] node@.args[y]) as int],
                ) by {
                    assert(s.contains(g.slots@[node@.args[y] as int]));
                }
                assert(stack@[s.len() as int] == c);
            }
        }
        proof {
            assert forall|p: int, c: int|
                0 <= p < marks@.len() && 0 <= c < marks@.len() && marks@[p] && #[trigger] uses(
                    g,
                    p,
                    c,
                ) implies marks@[c] || stack@.contains(c as usize) by {
                if p == k {
                    let (x, y) = choose|x: int, y: int|
                        0 <= x < g.classes@[p].nodes@.len() && 0 <= y
                            < g.classes@[p].nodes@[x]@.args.len()
                            && g.slots@[(#[trigger] g.classes@[p].nodes@[x]@.args[y]) as int] == c;
                    assert(stack@.contains(g.slots@[class.nodes@[x]@.args[y] as int]));
                } else {
                    assert(was[p]);
                    if !marks@[c] {
                        assert(held.contains(c as usize));
                    }
                }
            }
            if !marks@[start as int] {
                assert(held.contains(start));
            }
        }
    }
    assert(pending(g, marks@, Seq::empty())) by {
        assert(stack@ =~= Seq::empty());
    }
}

/// The e-graph with a variable in place of every operation that has a lambda
/// in its class or stands below one. The variable is named after the class.
pub fn eliminate_lambda<Op, N, D>(egraph: EGraph<Op, D>) -> (r: EGraph<Op, D>) where
    Op: OperationInfo<N> + Teachable<N>,
    N: Number,

    requires
        egraph.wf(),
    ensures
        r.wf(),
        r.slots@ == egraph.slots@,
        r.classes@.len() == egraph.classes@.len(),
        forall|k: int|
            0 <= k < r.classes@.len() ==> {
                let (before, after) = (egraph.classes@[k], #[trigger] r.classes@[k]);
                &&& after.id == before.id
                &&& after.data == before.data
                &&& after.nodes@.len() == before.nodes@.len()
                &&& forall|n: int|
                    0 <= n < after.nodes@.len() ==> if under_lambda::<Op, N, D>(egraph, k) {
                        eliminated::<Op, N>(
                            before.nodes@[n]@,
                            (#[trigger] after.nodes@[n])@,
                            before.id,
                        )
                    } else {
                        after.nodes@[n]@ == before.nodes@[n]@
                    }
            },
{
    let ghost g = egraph;
    let count: usize = egraph.classes.len();
    let mut marks: Vec<bool> = no_marks(count);
    for i in 0..count
        invariant
            egraph.wf(),
            g == egraph,
            count == g.classes@.len() == marks@.len(),
            forall|k: int|
                0 <= k < marks@.len() && marks@[k] ==> #[trigger] under_lambda::<Op, N, D>(g, k),
            forall|k: int| 0 <= k < i && #[trigger] has_lambda::<Op, N, D>(g, k) ==> marks@[k],
            pending(g, marks@, Seq::empty()),
    {
        if class_has_lambda::<Op, N, D>(&egraph.classes[i]) {
            assert(has_lambda::<Op, N, D>(g, i as int));
            assert(reached_within::<Op, N, D>(g, i as int, 0));
            mark_below::<Op, N, D>(&egraph, i, &mut marks);
        }
    }
    assert forall|k: int| 0 <= k < marks@.len() implies marks@[k] == #[trigger] under_lambda::<
        Op,
        N,
        D,
    >(g, k) by {
        if under_lambda::<Op, N, D>(g, k) {
            let steps = choose|steps: nat| reached_within::<Op, N, D>(g, k, steps);
            lemma_closed::<Op, N, D>(g, marks@, k, steps);
        }
    }
    let mut egraph = egraph;
    for i in 0..count
        invariant
            g.wf(),
            egraph.slots@ == g.slots@,
            count == g.classes@.len() == marks@.len() == egraph.classes@.len(),
            forall|k: int|
                0 <= k < marks@.len() ==> marks@[k] == #[trigger] under_lambda::<Op, N, D>(g, k),
            forall|k: int|
                0 <= k < i ==> {
                    let (before, after) = (g.classes@[k], #[trigger] egraph.classes@[k]);
                    &&& after.id == before.id
                    &&& after.data == before.data
                    &&& after.nodes@.len() == before.nodes@.len()
                    &&& forall|n: int|
                        0 <= n < after.nodes@.len() ==> if under_lambda::<Op, N, D>(g, k) {
                            eliminated::<Op, N>(
                                before.nodes@[n]@,
                                (#[trigger] after.nodes@[n])@,
                                before.id,
                            )
                        } else {
                            after.nodes@[n]@ == before.nodes@[n]@
                        }
                },
            forall|k: int| i <= k < count ==> (#[trigger] egraph.classes@[k]) == g.classes@[k],
    {
        assert(egraph.classes@[i as int] == g.classes@[i as int]);
        assert(marks@[i as int] == under_lambda::<Op, N, D>(g, i as int));
        if marks[i] {
            let class: &mut EClass<Op, D> = &mut egraph.classes[i];
            eliminate_class::<Op, N, D>(class);
        }
    }
    assert(egraph.wf()) by {
        assert forall|k: int| 0 <= k < egraph.classes@.len() implies (
        #[trigger] egraph.classes@[k]).id < egraph.slots@.len()
            && egraph.slots@[egraph.classes@[k].id as int] == k by {
            assert(g.classes@[k].id < g.slots@.len());
        }
        assert forall|k: int, n: int|
            0 <= k < egraph.classes@.len() && 0 <= n < egraph.classes@[k].nodes@.len()
                implies #[trigger] egraph.args_valid(egraph.classes@[k].nodes@[n]@) by {
            assert(g.args_valid(g.classes@[k].nodes@[n]@));
            let (before, after) = (g.classes@[k], egraph.classes@[k]);
            assert(after.nodes@[n]@.args == before.nodes@[n]@.args);
        }
    }
    egraph
}

/// Puts the variable of a class in place of the operations of its nodes.
fn eliminate_class<Op: OperationInfo<N>, N: Number, D>(class: &mut EClass<Op, D>)
    ensures
        final(class).id == old(class).id,
        final(class).data == old(class).data,
        final(class).nodes@.len() == old(class).nodes@.len(),
        forall|n: int|
            0 <= n < old(class).nodes@.len() ==> eliminated::<Op, N>(
                old(class).nodes@[n]@,
                (#[trigger] final(class).nodes@[n])@,
                old(class).id,
            ),
{
    let ghost start = *class;
    let n: usize = class.nodes.len();
    for i in 0..n
        invariant
            n == start.nodes@.len() == class.nodes@.len(),
            class.id == start.id,
            class.data == start.data,
            forall|k: int|
                0 <= k < i ==> eliminated::<Op, N>(
                    start.nodes@[k]@,
                    (#[trigger] class.nodes@[k])@,
                    start.id,
                ),
            forall|k: int| i <= k < n ==> (#[trigger] class.nodes@[k]) == start.nodes@[k],
    {
        assert(class.nodes@[i as int] == start.nodes@[i as int]);
        let mut name: String = "Lambda".to_owned();
        name.append(decimal_text(class.id).as_str());
        let op: Op = Op::make_rule_var(name);
        class.nodes[i].operation = op;
    }
}

} // verus!
