//! What an estimate of the scheduler is: the longest chain of operations, the
//! sum of their cycles on the processor, and the sum of their areas.
use crate::ast_node::{Duplicate, NodeView};
use crate::bb_query::QueryView;
use crate::number::{clamped, Fixed, Number};
use crate::rec_expr::{points_back, well_ordered, RecExpr};
use crate::runner::operation::OperationInfo;
use crate::schedule::{
    area_of, arg_nodes, can_schedule, cpu_latency, critical, finish, has_loop, latest,
    law_critical_path_covers_every_node, most_runs, node_delay, root_runs, scheduled, Estimates,
    Schedulable, ScheduleResult, Scheduler,
};
use vstd::prelude::*;

verus! {

/// Whether node `a` is an argument of node `b`.
pub open spec fn feeds<Op>(nodes: Seq<NodeView<Op>>, a: int, b: int) -> bool {
    exists|j: int| 0 <= j < nodes[b].args.len() && #[trigger] nodes[b].args[j] == a
}

/// Whether each of these nodes is an argument of the next.
pub open spec fn is_chain<Op>(nodes: Seq<NodeView<Op>>, c: Seq<int>) -> bool {
    &&& c.len() > 0
    &&& forall|k: int| 0 <= k < c.len() ==> 0 <= #[trigger] c[k] < nodes.len()
    &&& forall|k: int| 0 < k < c.len() ==> feeds(nodes, c[k - 1], #[trigger] c[k])
}

/// The nodes that the arguments of node `i` name.
pub open spec fn operands<Op>(nodes: Seq<NodeView<Op>>, i: int) -> Seq<NodeView<Op>> {
    Seq::new(nodes[i].args.len(), |j: int| nodes[nodes[i].args[j] as int])
}

/// The delay of node `i`: a memory access takes its cycles on the processor,
/// each of them a clock period.
pub open spec fn own_delay<Op, N, LA, LD>(
    e: Estimates<N, LA, LD>,
    nodes: Seq<NodeView<Op>>,
    i: int,
) -> int where Op: Schedulable<N, LA, LD> + OperationInfo<N>, N: Number {
    if nodes[i].operation.s_is_mem() {
        Op::s_latency_cpu(nodes[i], e.bb_query).s_times(N::s_count(e.clock_period)).s_whole() as int
    } else {
        Op::s_delay(nodes[i], e.delay, operands(nodes, i)) as int
    }
}

/// The delays of a chain of nodes together.
pub open spec fn chain_delay<Op, N, LA, LD>(
    e: Estimates<N, LA, LD>,
    nodes: Seq<NodeView<Op>>,
    c: Seq<int>,
) -> int where Op: Schedulable<N, LA, LD> + OperationInfo<N>, N: Number {
    c.fold_left(0int, |sum: int, i: int| sum + own_delay(e, nodes, i))
}

/// The sum of what is there, in order.
pub open spec fn sum_of<N: Number>(terms: Seq<Option<N>>) -> N {
    terms.fold_left(
        N::s_zero(),
        |sum: N, term: Option<N>|
            match term {
                Some(x) => sum.s_plus(x),
                None => sum,
            },
    )
}

/// The largest of `start` and what is there.
pub open spec fn largest_of<N: Number>(start: N, terms: Seq<Option<N>>) -> N {
    terms.fold_left(
        start,
        |most: N, term: Option<N>|
            match term {
                Some(x) => most.s_larger(x),
                None => most,
            },
    )
}

/// Whether a loop is among the nodes.
pub open spec fn loops<Op: OperationInfo<N>, N: Number>(nodes: Seq<NodeView<Op>>) -> bool {
    exists|i: int| 0 <= i < nodes.len() && (#[trigger] nodes[i]).operation.s_is_dowhile()
}

/// How often the last node is executed.
pub open spec fn runs_of_root<Op: OperationInfo<N>, N: Number>(
    nodes: Seq<NodeView<Op>>,
    q: QueryView<N>,
) -> N {
    nodes[nodes.len() - 1].operation.s_execution_count(q)
}

/// The normalized execution count of the first basic block of a node, where
/// it was measured.
pub open spec fn measured_runs<Op: OperationInfo<N>, N: Number>(
    node: NodeView<Op>,
    q: QueryView<N>,
) -> Option<N> {
    let bbs = node.operation.s_bbs_info();
    if bbs.len() > 0 && q.map.dom().contains(bbs[0]) {
        Some(q.map[bbs[0]].execution_count_normalized)
    } else {
        None
    }
}

/// How many times the most frequent block runs for each execution of the last
/// node.
pub open spec fn turns<Op: OperationInfo<N>, N: Number>(
    nodes: Seq<NodeView<Op>>,
    q: QueryView<N>,
) -> usize {
    largest_of(
        runs_of_root::<Op, N>(nodes, q),
        Seq::new(nodes.len(), |i: int| measured_runs::<Op, N>(nodes[i], q)),
    ).s_over(runs_of_root::<Op, N>(nodes, q)).s_round_up()
}

/// The cycles that node `i` takes on the processor for each execution of the
/// last node, where it takes time.
pub open spec fn processor_cycles<Op, N, LA, LD>(
    e: Estimates<N, LA, LD>,
    nodes: Seq<NodeView<Op>>,
    i: int,
) -> Option<N> where Op: Schedulable<N, LA, LD> + OperationInfo<N>, N: Number {
    let cycles = Op::s_latency_cpu(nodes[i], e.bb_query);
    if !nodes[i].operation.s_is_op() {
        None
    } else if loops::<Op, N>(nodes) {
        Some(
            cycles.s_times(nodes[i].operation.s_execution_count(e.bb_query)).s_over(
                runs_of_root::<Op, N>(nodes, e.bb_query),
            ),
        )
    } else {
        Some(cycles)
    }
}

// ---------------------------------------------------------------------------
// The longest chain
// ---------------------------------------------------------------------------

proof fn lemma_own_delay<Op, N, LA, LD>(e: Estimates<N, LA, LD>, nodes: Seq<NodeView<Op>>, i: int) where
    Op: Schedulable<N, LA, LD> + OperationInfo<N>,
    N: Number,

    ensures
        node_delay(e, nodes, i) == own_delay(e, nodes, i),
        own_delay(e, nodes, i) >= 0,
{
    assert(arg_nodes(nodes, nodes[i]) =~= operands(nodes, i));
}

proof fn lemma_chains_are_covered<Op, N, LA, LD>(
    e: Estimates<N, LA, LD>,
    nodes: Seq<NodeView<Op>>,
    c: Seq<int>,
) where Op: Schedulable<N, LA, LD> + OperationInfo<N>, N: Number
    requires
        well_ordered(nodes),
        is_chain(nodes, c),
    ensures
        chain_delay(e, nodes, c) <= finish(e, nodes, c.last()),
    decreases c.len(),
{
    let i = c.last();
    lemma_own_delay(e, nodes, i);
    law_critical_path_covers_every_node(e, nodes, nodes.len(), i);
    let before = c.drop_last();
    if c.len() > 1 {
        assert(is_chain(nodes, before)) by {
            assert forall|k: int| 0 <= k < before.len() implies 0 <= #[trigger] before[k]
                < nodes.len() by {
                assert(c[k] == before[k]);
            }
            assert forall|k: int| 0 < k < before.len() implies feeds(
                nodes,
                before[k - 1],
                #[trigger] before[k],
            ) by {
                assert(feeds(nodes, c[k - 1], c[k]));
            }
        }
        lemma_chains_are_covered(e, nodes, before);
        assert(feeds(nodes, before.last(), c[c.len() - 1]));
        let j = choose|j: int|
            0 <= j < nodes[i].args.len() && #[trigger] nodes[i].args[j] == before.last();
        assert(finish(e, nodes, nodes[i].args[j] as int) + node_delay(e, nodes, i) <= finish(
            e,
            nodes,
            i,
        ));
    } else {
        assert(before.fold_left(0int, |sum: int, i: int| sum + own_delay(e, nodes, i)) == 0);
    }
}

/// Which of the first `k` arguments is there last; none where all are there
/// from the start.
proof fn lemma_last_argument<Op, N, LA, LD>(
    e: Estimates<N, LA, LD>,
    nodes: Seq<NodeView<Op>>,
    i: int,
    k: nat,
) -> (j: int) where Op: Schedulable<N, LA, LD> + OperationInfo<N>, N: Number
    requires
        points_back(nodes, i),
        k <= nodes[i].args.len(),
    ensures
        latest(e, nodes, i, k) >= 0,
        latest(e, nodes, i, k) > 0 ==> 0 <= j < k && finish(e, nodes, nodes[i].args[j] as int)
            == latest(e, nodes, i, k),
    decreases k,
{
    if k == 0 {
        0
    } else {
        let before = lemma_last_argument(e, nodes, i, (k - 1) as nat);
        assert(nodes[i].args[k - 1] < i);
        if finish(e, nodes, nodes[i].args[k - 1] as int) > latest(e, nodes, i, (k - 1) as nat) {
            k - 1
        } else {
            before
        }
    }
}

/// The chain that ends at node `i` and takes as long as the node does.
proof fn lemma_chain_to<Op, N, LA, LD>(
    e: Estimates<N, LA, LD>,
    nodes: Seq<NodeView<Op>>,
    i: int,
) -> (c: Seq<int>) where Op: Schedulable<N, LA, LD> + OperationInfo<N>, N: Number
    requires
        well_ordered(nodes),
        0 <= i < nodes.len(),
    ensures
        is_chain(nodes, c),
        c.last() == i,
        chain_delay(e, nodes, c) == finish(e, nodes, i),
    decreases i,
{
    assert(points_back(nodes, i));
    lemma_own_delay(e, nodes, i);
    let n = nodes[i].args.len();
    let j = lemma_last_argument(e, nodes, i, n);
    if latest(e, nodes, i, n) > 0 {
        let arg = nodes[i].args[j] as int;
        let before = lemma_chain_to(e, nodes, arg);
        let c = before.push(i);
        assert(c.drop_last() =~= before);
        assert(c.last() == i);
        assert(chain_delay(e, nodes, c) == chain_delay(e, nodes, before) + own_delay(e, nodes, i));
        assert forall|k: int| 0 <= k < c.len() implies 0 <= #[trigger] c[k] < nodes.len() by {
            if k < before.len() {
                assert(before[k] == c[k]);
            }
        }
        assert forall|k: int| 0 < k < c.len() implies feeds(nodes, c[k - 1], #[trigger] c[k]) by {
            if k == c.len() - 1 {
                assert(nodes[i].args[j] == arg);
                assert(c[k - 1] == arg);
            } else {
                assert(feeds(nodes, before[k - 1], before[k]));
            }
        }
        c
    } else {
        let c = seq![i];
        let none = Seq::<int>::empty();
        assert(c.drop_last() =~= none);
        assert(chain_delay(e, nodes, none) == 0);
        assert(chain_delay(e, nodes, c) == chain_delay(e, nodes, none) + own_delay(e, nodes, i));
        c
    }
}

/// Which of the first `n` nodes is there last.
proof fn lemma_last_node<Op, N, LA, LD>(
    e: Estimates<N, LA, LD>,
    nodes: Seq<NodeView<Op>>,
    n: nat,
) -> (i: int) where Op: Schedulable<N, LA, LD> + OperationInfo<N>, N: Number
    requires
        well_ordered(nodes),
        0 < n <= nodes.len(),
    ensures
        0 <= i < n,
        finish(e, nodes, i) == critical(e, nodes, n),
        critical(e, nodes, n) >= 0,
    decreases n,
{
    law_critical_path_covers_every_node(e, nodes, n, n - 1);
    if n == 1 {
        assert(critical(e, nodes, 0) == 0);
        0
    } else {
        let before = lemma_last_node(e, nodes, (n - 1) as nat);
        if finish(e, nodes, n - 1) > critical(e, nodes, (n - 1) as nat) {
            n - 1
        } else {
            before
        }
    }
}

/// The chain that takes as long as the whole expression: none takes longer.
proof fn lemma_longest_chain<Op, N, LA, LD>(
    e: Estimates<N, LA, LD>,
    nodes: Seq<NodeView<Op>>,
) -> (c: Seq<int>) where Op: Schedulable<N, LA, LD> + OperationInfo<N>, N: Number
    requires
        well_ordered(nodes),
        nodes.len() > 0,
    ensures
        is_longest_chain(e, nodes, c),
        chain_delay(e, nodes, c) == critical(e, nodes, nodes.len()),
        critical(e, nodes, nodes.len()) >= 0,
{
    let last = lemma_last_node(e, nodes, nodes.len());
    let c = lemma_chain_to(e, nodes, last);
    assert forall|d: Seq<int>| #[trigger] is_chain(nodes, d) implies chain_delay(e, nodes, d)
        <= chain_delay(e, nodes, c) by {
        lemma_chains_are_covered(e, nodes, d);
        assert(0 <= d[d.len() - 1] < nodes.len());
        law_critical_path_covers_every_node(e, nodes, nodes.len(), d.last());
    }
    c
}

/// Whether this is a chain of nodes, and none takes longer.
pub open spec fn is_longest_chain<Op, N, LA, LD>(
    e: Estimates<N, LA, LD>,
    nodes: Seq<NodeView<Op>>,
    c: Seq<int>,
) -> bool where Op: Schedulable<N, LA, LD> + OperationInfo<N>, N: Number {
    &&& is_chain(nodes, c)
    &&& forall|d: Seq<int>| #[trigger]
        is_chain(nodes, d) ==> chain_delay(e, nodes, d) <= chain_delay(e, nodes, c)
}

// ---------------------------------------------------------------------------
// Sums
// ---------------------------------------------------------------------------

proof fn lemma_cpu_latency_is_a_sum<Op, N, LA, LD>(
    e: Estimates<N, LA, LD>,
    nodes: Seq<NodeView<Op>>,
    n: nat,
) where Op: Schedulable<N, LA, LD> + OperationInfo<N>, N: Number
    requires
        n <= nodes.len(),
    ensures
        cpu_latency(e, nodes, n) == sum_of(
            Seq::new(n, |i: int| processor_cycles(e, nodes, i)),
        ),
    decreases n,
{
    let terms = Seq::new(n, |i: int| processor_cycles(e, nodes, i));
    if n > 0 {
        lemma_cpu_latency_is_a_sum(e, nodes, (n - 1) as nat);
        assert(terms.drop_last() =~= Seq::new(
            (n - 1) as nat,
            |i: int| processor_cycles(e, nodes, i),
        ));
        assert(has_loop::<Op, N>(nodes, nodes.len()) == loops::<Op, N>(nodes));
        assert(nodes.last() == nodes[nodes.len() - 1]);
    }
}

proof fn lemma_most_runs<Op: OperationInfo<N>, N: Number>(
    nodes: Seq<NodeView<Op>>,
    n: nat,
    start: N,
    q: QueryView<N>,
)
    ensures
        most_runs::<Op, N>(nodes, n, start, q) == largest_of(
            start,
            Seq::new(n, |i: int| measured_runs::<Op, N>(nodes[i], q)),
        ),
    decreases n,
{
    let terms = Seq::new(n, |i: int| measured_runs::<Op, N>(nodes[i], q));
    if n > 0 {
        lemma_most_runs::<Op, N>(nodes, (n - 1) as nat, start, q);
        assert(terms.drop_last() =~= Seq::new(
            (n - 1) as nat,
            |i: int| measured_runs::<Op, N>(nodes[i], q),
        ));
    }
}

proof fn lemma_area_is_a_sum<Op, N, LA, LD>(
    e: Estimates<N, LA, LD>,
    nodes: Seq<NodeView<Op>>,
    n: nat,
) where Op: Schedulable<N, LA, LD> + OperationInfo<N>, N: Number
    ensures
        area_of(e, nodes, n) == Seq::new(
            n,
            |i: int| Op::s_area(nodes[i], e.area, operands(nodes, i)) as int,
        ).fold_left(0int, |a: int, b: int| a + b),
        area_of(e, nodes, n) >= 0,
    decreases n,
{
    let areas = Seq::new(n, |i: int| Op::s_area(nodes[i], e.area, operands(nodes, i)) as int);
    if n > 0 {
        lemma_area_is_a_sum(e, nodes, (n - 1) as nat);
        assert(areas.drop_last() =~= Seq::new(
            (n - 1) as nat,
            |i: int| Op::s_area(nodes[i], e.area, operands(nodes, i)) as int,
        ));
        assert(arg_nodes(nodes, nodes[n - 1]) =~= operands(nodes, n - 1));
    }
}

/// The latency on the accelerator is that of the longest chain, in clock
/// periods, and a cycle for each further turn of a loop. The latency on the
/// processor is the sum of the cycles of all operations, and the area the sum
/// of their areas. Where the accelerator is slower, or takes no area, there is
/// no estimate.
pub proof fn law_estimate<Op, N, LA, LD>(
    scheduler: &Scheduler<N, LA, LD>,
    expr: &RecExpr<Op>,
    r: ScheduleResult<N>,
) where Op: Schedulable<N, LA, LD> + OperationInfo<N> + Duplicate, N: Number
    requires
        expr.wf(),
        can_schedule(scheduler@, expr@),
        call_ensures(Scheduler::<N, LA, LD>::asap_schedule::<Op>, (scheduler, expr), r),
    ensures
        exists|c: Seq<int>| #[trigger] is_longest_chain(scheduler@, expr@, c) && ({
            let nodes = expr@;
            let e = scheduler@;
            let path = N::s_count(chain_delay(e, nodes, c) as usize).s_over(
                N::s_count(scheduler.clock_period),
            );
            let acc = if loops::<Op, N>(nodes) {
                path.s_plus(N::s_count((turns::<Op, N>(nodes, e.bb_query) - 1) as usize))
            } else {
                path
            };
            let cpu = sum_of(Seq::new(nodes.len(), |i: int| processor_cycles(e, nodes, i)));
            let area = Seq::new(
                nodes.len(),
                |i: int| Op::s_area(nodes[i], scheduler.area_estimator, operands(nodes, i)) as int,
            ).fold_left(0int, |a: int, b: int| a + b);
            if cpu.s_below(acc) || area == 0 {
                r == (N::s_zero(), N::s_zero(), 0usize)
            } else {
                r.0 == cpu && r.1 == acc && r.2 == area
            }
        }),
{
    let nodes = expr@;
    let e = scheduler@;
    let n = nodes.len();
    let c = lemma_longest_chain(e, nodes);
    lemma_cpu_latency_is_a_sum(e, nodes, n);
    lemma_area_is_a_sum(e, nodes, n);
    lemma_most_runs::<Op, N>(nodes, n, root_runs::<Op, N>(nodes, e.bb_query), e.bb_query);
    assert(has_loop::<Op, N>(nodes, n) == loops::<Op, N>(nodes));
    assert(nodes.last() == nodes[nodes.len() - 1]);
    assert(is_longest_chain(e, nodes, c));
}

/// An expression can be scheduled where it has a node, no chain and no sum of
/// areas leaves the machine integers, and its loops run at least once.
pub proof fn law_what_fits<Op, N, LA, LD>(
    scheduler: &Scheduler<N, LA, LD>,
    expr: &RecExpr<Op>,
    r: bool,
) where Op: Schedulable<N, LA, LD> + OperationInfo<N> + Duplicate, N: Number
    requires
        scheduler.bb_query.wf(),
        expr.wf(),
        call_ensures(Scheduler::<N, LA, LD>::fits::<Op>, (scheduler, expr), r),
    ensures
        r <==> {
            let nodes = expr@;
            let e = scheduler@;
            &&& nodes.len() > 0
            &&& forall|c: Seq<int>| #[trigger]
                is_chain(nodes, c) ==> chain_delay(e, nodes, c) <= usize::MAX
            &&& Seq::new(
                nodes.len(),
                |i: int| Op::s_area(nodes[i], scheduler.area_estimator, operands(nodes, i)) as int,
            ).fold_left(0int, |a: int, b: int| a + b) <= usize::MAX
            &&& loops::<Op, N>(nodes) ==> turns::<Op, N>(nodes, e.bb_query) >= 1
        },
{
    let nodes = expr@;
    let e = scheduler@;
    let n = nodes.len();
    if n > 0 {
        let c = lemma_longest_chain(e, nodes);
        lemma_area_is_a_sum(e, nodes, n);
        lemma_most_runs::<Op, N>(nodes, n, root_runs::<Op, N>(nodes, e.bb_query), e.bb_query);
        assert(has_loop::<Op, N>(nodes, n) == loops::<Op, N>(nodes));
        assert(nodes.last() == nodes[nodes.len() - 1]);
        assert(is_chain(nodes, c));
    }
}

// ---------------------------------------------------------------------------
// Memory accesses
// ---------------------------------------------------------------------------

/// A number of delay units in clock periods, in thousandths.
proof fn lemma_in_periods(delay: usize, clock: usize)
    requires
        clock > 0,
        clock * 1000 <= i64::MAX,
    ensures
        Fixed::s_count(delay).s_over(Fixed::s_count(clock)).raw == clamped(delay * 1000) as int / (
        clock as int),
{
    let x = clamped(delay * 1000) as int;
    let c = clock as int;
    assert(Fixed::s_count(clock).raw == c * 1000);
    assert((x * 1000) / (c * 1000) == x / c) by (nonlinear_arith)
        requires
            x >= 0,
            c > 0,
    ;
    assert(0 <= x / c <= x) by (nonlinear_arith)
        requires
            x >= 0,
            c > 0,
    ;
}

/// The delay of a memory access: its cycles, in thousandths, times the clock
/// period.
proof fn lemma_access_delay(cycles: Fixed, clock: usize)
    requires
        cycles.raw >= 0,
        clock * 1000 <= i64::MAX,
        cycles.raw * clock <= i64::MAX,
        cycles.raw * clock / 1000 <= usize::MAX,
    ensures
        cycles.s_times(Fixed::s_count(clock)).s_whole() == cycles.raw * clock / 1000,
        cycles.raw * clock >= 0,
{
    let a = cycles.raw as int;
    let c = clock as int;
    assert(a * c >= 0) by (nonlinear_arith)
        requires
            a >= 0,
            c >= 0,
    ;
    assert(a * (c * 1000) == (a * c) * 1000) by (nonlinear_arith);
    assert(((a * c) * 1000) / 1000 == a * c);
}

/// The latency of an expression on the accelerator is at least that of any
/// memory access in it on the processor, up to the rounding of one delay unit
/// and of a thousandth of a cycle.
pub proof fn law_memory_is_no_faster<Op, LA, LD>(
    scheduler: &Scheduler<Fixed, LA, LD>,
    expr: &RecExpr<Op>,
    i: int,
    r: ScheduleResult<Fixed>,
) where Op: Schedulable<Fixed, LA, LD> + OperationInfo<Fixed> + Duplicate
    requires
        expr.wf(),
        can_schedule(scheduler@, expr@),
        call_ensures(Scheduler::<Fixed, LA, LD>::asap_schedule::<Op>, (scheduler, expr), r),
        r.2 > 0,
        0 <= i < expr@.len(),
        expr@[i].operation.s_is_mem(),
        scheduler.clock_period > 0,
        scheduler.clock_period * 1000 <= i64::MAX,
        Op::s_latency_cpu(expr@[i], scheduler.bb_query@).raw >= 0,
        Op::s_latency_cpu(expr@[i], scheduler.bb_query@).raw * scheduler.clock_period <= i64::MAX,
        Op::s_latency_cpu(expr@[i], scheduler.bb_query@).raw * scheduler.clock_period / 1000
            <= usize::MAX,
    ensures
        (r.1.raw + 1) * scheduler.clock_period + 1000 > Op::s_latency_cpu(
            expr@[i],
            scheduler.bb_query@,
        ).raw * scheduler.clock_period,
{
    let nodes = expr@;
    let e = scheduler@;
    let clock = scheduler.clock_period;
    let lat = Op::s_latency_cpu(nodes[i], e.bb_query);
    law_critical_path_covers_every_node(e, nodes, nodes.len(), i);
    lemma_access_delay(lat, clock);
    let d = critical(e, nodes, nodes.len());
    assert(d >= lat.raw * clock / 1000);
    lemma_in_periods(d as usize, clock);
    let x = clamped(d * 1000) as int;
    let c = clock as int;
    assert(x + 1000 > lat.raw * clock);
    assert((x / c + 1) * c > x) by (nonlinear_arith)
        requires
            c > 0,
    ;
    assert(x / c >= 0) by (nonlinear_arith)
        requires
            x >= 0,
            c > 0,
    ;
    assert(r.1.raw >= x / c);
    assert((r.1.raw + 1) * c >= (x / c + 1) * c) by (nonlinear_arith)
        requires
            r.1.raw >= x / c,
            c > 0,
    ;
}

/// A memory access alone is as fast on the accelerator as on the processor,
/// up to the rounding of one delay unit and of a thousandth of a cycle.
pub proof fn law_memory_access_alone<Op, LA, LD>(
    scheduler: &Scheduler<Fixed, LA, LD>,
    expr: &RecExpr<Op>,
    r: ScheduleResult<Fixed>,
) where Op: Schedulable<Fixed, LA, LD> + OperationInfo<Fixed> + Duplicate
    requires
        expr.wf(),
        can_schedule(scheduler@, expr@),
        call_ensures(Scheduler::<Fixed, LA, LD>::asap_schedule::<Op>, (scheduler, expr), r),
        r.2 > 0,
        expr@.len() == 1,
        expr@[0].operation.s_is_mem(),
        expr@[0].operation.s_is_op(),
        !expr@[0].operation.s_is_dowhile(),
        scheduler.clock_period > 0,
        scheduler.clock_period * 1000 <= i64::MAX,
        Op::s_latency_cpu(expr@[0], scheduler.bb_query@).raw >= 0,
        Op::s_latency_cpu(expr@[0], scheduler.bb_query@).raw * scheduler.clock_period <= i64::MAX,
        Op::s_latency_cpu(expr@[0], scheduler.bb_query@).raw * scheduler.clock_period / 1000
            <= usize::MAX,
    ensures
        r.0 == Op::s_latency_cpu(expr@[0], scheduler.bb_query@),
        r.1.raw <= r.0.raw,
        (r.1.raw + 1) * scheduler.clock_period + 1000 > r.0.raw * scheduler.clock_period,
{
    law_memory_is_no_faster(scheduler, expr, 0, r);
    let nodes = expr@;
    let e = scheduler@;
    let clock = scheduler.clock_period;
    let lat = Op::s_latency_cpu(nodes[0], e.bb_query);
    reveal_with_fuel(cpu_latency, 2);
    reveal_with_fuel(critical, 2);
    reveal_with_fuel(area_of, 2);
    assert(points_back(nodes, 0));
    assert(nodes[0].args.len() == 0) by {
        if nodes[0].args.len() > 0 {
            assert(nodes[0].args[0] < 0);
        }
    }
    lemma_access_delay(lat, clock);
    let d = critical(e, nodes, 1);
    assert(latest(e, nodes, 0, 0) == 0);
    assert(d == lat.raw * clock / 1000);
    lemma_in_periods(d as usize, clock);
    let c = clock as int;
    let x = clamped(d * 1000) as int;
    assert(x <= lat.raw * c);
    assert(x / c <= lat.raw) by (nonlinear_arith)
        requires
            x <= lat.raw * c,
            c > 0,
    ;
}

} // verus!
