//! A simple scheduler that estimates the area and the latency of library
//! functions, and the cost of expressions that use them.
use crate::assoc::{SiteMap, TextMap};
use crate::ast_node::{node_views, AstNode, Duplicate, NodeView};
use crate::bb_query::{BBQuery, QueryView};
use crate::id_map::id_among;
use crate::number::Number;
use crate::rec_expr::{points_back, well_ordered, RecExpr};
use crate::runner::operation::OperationInfo;
use crate::teachable::{binding_of, BindingExpr, Teachable};
use crate::text::{decimal, decimal_text, texts};
use vstd::prelude::*;

verus! {

/// Operations that can be scheduled. `LA` estimates areas and `LD` delays.
pub trait Schedulable<N: Number, LA, LD>: Sized {
    open spec fn s_delay(node: NodeView<Self>, ld: LD, args: Seq<NodeView<Self>>) -> usize {
        arbitrary()
    }

    open spec fn s_area(node: NodeView<Self>, la: LA, args: Seq<NodeView<Self>>) -> usize {
        arbitrary()
    }

    open spec fn s_latency(node: NodeView<Self>) -> usize {
        arbitrary()
    }

    open spec fn s_latency_cpu(node: NodeView<Self>, bb_query: QueryView<N>) -> N {
        arbitrary()
    }

    /// The delay of an operation with its argument nodes.
    fn op_delay(node: &AstNode<Self>, ld: &LD, args: &Vec<AstNode<Self>>) -> (r: usize)
        ensures
            r == Self::s_delay(node@, *ld, node_views(args@)),
    ;

    /// The area of an operation with its argument nodes.
    fn op_area(node: &AstNode<Self>, la: &LA, args: &Vec<AstNode<Self>>) -> (r: usize)
        ensures
            r == Self::s_area(node@, *la, node_views(args@)),
    ;

    /// The cycles of an operation on the accelerator.
    fn op_latency(node: &AstNode<Self>) -> (r: usize)
        ensures
            r == Self::s_latency(node@),
    ;

    /// The cycles of an operation on the processor.
    fn op_latency_cpu(node: &AstNode<Self>, bb_query: &BBQuery<N>) -> (r: N)
        requires
            bb_query.wf(),
        ensures
            r == Self::s_latency_cpu(node@, bb_query@),
    ;
}

/// The nodes that the arguments of `node` name.
pub open spec fn arg_nodes<Op>(nodes: Seq<NodeView<Op>>, node: NodeView<Op>) -> Seq<
    NodeView<Op>,
> {
    Seq::new(node.args.len(), |j: int| nodes[node.args[j] as int])
}

impl<Op: Duplicate> AstNode<Op> {
    /// Copies of the nodes that the arguments of this node name.
    pub fn get_op_args(&self, expr: &RecExpr<Op>) -> (r: Vec<AstNode<Op>>)
        requires
            forall|j: int| 0 <= j < self@.args.len() ==> (#[trigger] self@.args[j]) < expr@.len(),
        ensures
            node_views(r@) == arg_nodes(expr@, self@),
    {
        let mut r: Vec<AstNode<Op>> = Vec::new();
        let n: usize = self.args.len();
        for j in 0..n
            invariant
                n == self.args@.len(),
                forall|j: int|
                    0 <= j < self@.args.len() ==> (#[trigger] self@.args[j]) < expr@.len(),
                r@.len() == j,
                forall|k: int|
                    0 <= k < j ==> (#[trigger] r@[k])@ == arg_nodes(expr@, self@)[k],
        {
            let id: usize = self.args[j];
            assert(self@.args[j as int] < expr@.len());
            r.push(expr.nodes[id].duplicate());
        }
        assert(node_views(r@) =~= arg_nodes(expr@, self@));
        r
    }
}

/// Estimates the area and the latency of library functions.
#[derive(Debug)]
pub struct Scheduler<N: Number, LA, LD> {
    /// The clock period.
    pub clock_period: usize,
    pub area_estimator: LA,
    pub delay_estimator: LD,
    /// The measurements that latencies on the processor come from.
    pub bb_query: BBQuery<N>,
}

/// The contents of a [`Scheduler`].
pub struct Estimates<N, LA, LD> {
    pub clock_period: usize,
    pub area: LA,
    pub delay: LD,
    pub bb_query: QueryView<N>,
}

impl<N: Number, LA, LD> View for Scheduler<N, LA, LD> {
    type V = Estimates<N, LA, LD>;

    open spec fn view(&self) -> Estimates<N, LA, LD> {
        Estimates {
            clock_period: self.clock_period,
            area: self.area_estimator,
            delay: self.delay_estimator,
            bb_query: self.bb_query@,
        }
    }
}

/// The latency on the processor, the latency on the accelerator, and the area.
pub type ScheduleResult<N> = (N, N, usize);

// ---------------------------------------------------------------------------
// Delays
// ---------------------------------------------------------------------------

/// The delay of one node. A memory access takes the time that was measured on
/// the processor.
pub open spec fn node_delay<Op, N, LA, LD>(
    e: Estimates<N, LA, LD>,
    nodes: Seq<NodeView<Op>>,
    i: int,
) -> usize where Op: Schedulable<N, LA, LD> + OperationInfo<N>, N: Number {
    let node = nodes[i];
    if node.operation.s_is_mem() {
        Op::s_latency_cpu(node, e.bb_query).s_times(N::s_count(e.clock_period)).s_whole()
    } else {
        Op::s_delay(node, e.delay, arg_nodes(nodes, node))
    }
}

/// When the result of the node at `i` is there: its delay after the last of
/// its arguments.
pub open spec fn finish<Op, N, LA, LD>(
    e: Estimates<N, LA, LD>,
    nodes: Seq<NodeView<Op>>,
    i: int,
) -> int where Op: Schedulable<N, LA, LD> + OperationInfo<N>, N: Number
    decreases i, nodes[i].args.len() + 1,
{
    node_delay(e, nodes, i) + latest(e, nodes, i, nodes[i].args.len())
}

/// When the last of the first `k` arguments of the node at `i` is there.
pub open spec fn latest<Op, N, LA, LD>(
    e: Estimates<N, LA, LD>,
    nodes: Seq<NodeView<Op>>,
    i: int,
    k: nat,
) -> int where Op: Schedulable<N, LA, LD> + OperationInfo<N>, N: Number
    decreases i, k,
{
    if k == 0 {
        0
    } else {
        let before = latest(e, nodes, i, (k - 1) as nat);
        let arg = nodes[i].args[k - 1] as int;
        if 0 <= arg < i {
            let f = finish(e, nodes, arg);
            if f > before {
                f
            } else {
                before
            }
        } else {
            before
        }
    }
}

/// When the last of the first `n` nodes is there.
pub open spec fn critical<Op, N, LA, LD>(
    e: Estimates<N, LA, LD>,
    nodes: Seq<NodeView<Op>>,
    n: nat,
) -> int where Op: Schedulable<N, LA, LD> + OperationInfo<N>, N: Number
    decreases n,
{
    if n == 0 {
        0
    } else {
        let before = critical(e, nodes, (n - 1) as nat);
        let f = finish(e, nodes, n - 1);
        if f > before {
            f
        } else {
            before
        }
    }
}

proof fn lemma_finish_nonnegative<Op, N, LA, LD>(
    e: Estimates<N, LA, LD>,
    nodes: Seq<NodeView<Op>>,
    i: int,
    k: nat,
) where Op: Schedulable<N, LA, LD> + OperationInfo<N>, N: Number
    ensures
        latest(e, nodes, i, k) >= 0,
    decreases k,
{
    if k > 0 {
        lemma_finish_nonnegative(e, nodes, i, (k - 1) as nat);
    }
}

proof fn lemma_latest<Op, N, LA, LD>(
    e: Estimates<N, LA, LD>,
    nodes: Seq<NodeView<Op>>,
    i: int,
    k: nat,
) where Op: Schedulable<N, LA, LD> + OperationInfo<N>, N: Number
    requires
        points_back(nodes, i),
        k <= nodes[i].args.len(),
    ensures
        forall|j: int|
            0 <= j < k ==> finish(e, nodes, (#[trigger] nodes[i].args[j]) as int) <= latest(
                e,
                nodes,
                i,
                k,
            ),
    decreases k,
{
    if k > 0 {
        lemma_latest(e, nodes, i, (k - 1) as nat);
        assert(nodes[i].args[k - 1] < i);
    }
}

/// A node is never there before its arguments and its own delay, and the
/// critical path covers every node.
pub proof fn law_critical_path_covers_every_node<Op, N, LA, LD>(
    e: Estimates<N, LA, LD>,
    nodes: Seq<NodeView<Op>>,
    n: nat,
    i: int,
) where Op: Schedulable<N, LA, LD> + OperationInfo<N>, N: Number
    requires
        well_ordered(nodes),
        0 <= i < n <= nodes.len(),
    ensures
        forall|j: int|
            0 <= j < nodes[i].args.len() ==> finish(
                e,
                nodes,
                (#[trigger] nodes[i].args[j]) as int,
            ) + node_delay(e, nodes, i) <= finish(e, nodes, i),
        node_delay(e, nodes, i) <= finish(e, nodes, i),
        finish(e, nodes, i) <= critical(e, nodes, n),
    decreases n,
{
    assert(points_back(nodes, i));
    lemma_latest(e, nodes, i, nodes[i].args.len());
    lemma_finish_nonnegative(e, nodes, i, nodes[i].args.len());
    if i < n - 1 {
        law_critical_path_covers_every_node(e, nodes, (n - 1) as nat, i);
    }
}

// ---------------------------------------------------------------------------
// Executions, latencies and areas
// ---------------------------------------------------------------------------

/// Whether one of the first `n` nodes is a loop.
pub open spec fn has_loop<Op: OperationInfo<N>, N: Number>(
    nodes: Seq<NodeView<Op>>,
    n: nat,
) -> bool {
    exists|i: int| 0 <= i < n && (#[trigger] nodes[i]).operation.s_is_dowhile()
}

/// The largest of `start` and the measured execution counts of the blocks of
/// the first `n` nodes.
pub open spec fn most_runs<Op: OperationInfo<N>, N: Number>(
    nodes: Seq<NodeView<Op>>,
    n: nat,
    start: N,
    q: QueryView<N>,
) -> N
    decreases n,
{
    if n == 0 {
        start
    } else {
        let before = most_runs(nodes, (n - 1) as nat, start, q);
        let bbs = nodes[n - 1].operation.s_bbs_info();
        if bbs.len() >= 1 && q.map.dom().contains(bbs[0]) {
            before.s_larger(q.map[bbs[0]].execution_count_normalized)
        } else {
            before
        }
    }
}

/// How often the root is executed.
pub open spec fn root_runs<Op: OperationInfo<N>, N: Number>(
    nodes: Seq<NodeView<Op>>,
    q: QueryView<N>,
) -> N {
    nodes.last().operation.s_execution_count(q)
}

/// How many times a loop of the expression runs each time that the root is
/// executed.
pub open spec fn loop_length<Op: OperationInfo<N>, N: Number>(
    nodes: Seq<NodeView<Op>>,
    q: QueryView<N>,
) -> usize {
    let min = root_runs(nodes, q);
    most_runs(nodes, nodes.len(), min, q).s_over(min).s_round_up()
}

/// The latency of the first `n` nodes on the processor.
pub open spec fn cpu_latency<Op, N, LA, LD>(
    e: Estimates<N, LA, LD>,
    nodes: Seq<NodeView<Op>>,
    n: nat,
) -> N where Op: Schedulable<N, LA, LD> + OperationInfo<N>, N: Number
    decreases n,
{
    if n == 0 {
        N::s_zero()
    } else {
        let before = cpu_latency(e, nodes, (n - 1) as nat);
        let node = nodes[n - 1];
        if node.operation.s_is_op() {
            let latency = Op::s_latency_cpu(node, e.bb_query);
            if has_loop::<Op, N>(nodes, nodes.len()) {
                before.s_plus(
                    latency.s_times(node.operation.s_execution_count(e.bb_query)).s_over(
                        root_runs(nodes, e.bb_query),
                    ),
                )
            } else {
                before.s_plus(latency)
            }
        } else {
            before
        }
    }
}

/// The latency of the expression on the accelerator: the critical path in
/// cycles, and one cycle more for each further run of a loop.
pub open spec fn acc_latency<Op, N, LA, LD>(
    e: Estimates<N, LA, LD>,
    nodes: Seq<NodeView<Op>>,
) -> N where Op: Schedulable<N, LA, LD> + OperationInfo<N>, N: Number {
    let path = N::s_count(critical(e, nodes, nodes.len()) as usize).s_over(
        N::s_count(e.clock_period),
    );
    if has_loop::<Op, N>(nodes, nodes.len()) {
        path.s_plus(N::s_count((loop_length::<Op, N>(nodes, e.bb_query) - 1) as usize))
    } else {
        path
    }
}

/// The area of the first `n` nodes.
pub open spec fn area_of<Op, N, LA, LD>(
    e: Estimates<N, LA, LD>,
    nodes: Seq<NodeView<Op>>,
    n: nat,
) -> int where Op: Schedulable<N, LA, LD> + OperationInfo<N>, N: Number
    decreases n,
{
    if n == 0 {
        0
    } else {
        area_of(e, nodes, (n - 1) as nat) + Op::s_area(
            nodes[n - 1],
            e.area,
            arg_nodes(nodes, nodes[n - 1]),
        )
    }
}

/// Whether an expression can be scheduled: it has a node, its loops run at
/// least once, and neither its critical path nor its area leaves the machine
/// integers.
pub open spec fn can_schedule<Op, N, LA, LD>(
    est: Estimates<N, LA, LD>,
    e: Seq<NodeView<Op>>,
) -> bool where Op: Schedulable<N, LA, LD> + OperationInfo<N>, N: Number {
    &&& e.len() > 0
    &&& critical(est, e, e.len()) <= usize::MAX
    &&& area_of(est, e, e.len()) <= usize::MAX
    &&& has_loop::<Op, N>(e, e.len()) ==> loop_length::<Op, N>(e, est.bb_query) >= 1
}

/// The estimate for an expression: nothing where the accelerator would be
/// slower or would take no area.
pub open spec fn scheduled<Op, N, LA, LD>(
    e: Estimates<N, LA, LD>,
    nodes: Seq<NodeView<Op>>,
) -> ScheduleResult<N> where Op: Schedulable<N, LA, LD> + OperationInfo<N>, N: Number {
    let cpu = cpu_latency(e, nodes, nodes.len());
    let acc = acc_latency(e, nodes);
    let area = area_of(e, nodes, nodes.len());
    if cpu.s_below(acc) || area == 0 {
        (N::s_zero(), N::s_zero(), 0)
    } else {
        (cpu, acc, area as usize)
    }
}

/// A library function that is scheduled with an area is not slower on the
/// accelerator than on the processor.
pub proof fn law_scheduled_is_no_slower<Op, N, LA, LD>(
    e: Estimates<N, LA, LD>,
    nodes: Seq<NodeView<Op>>,
) where Op: Schedulable<N, LA, LD> + OperationInfo<N>, N: Number
    ensures
        scheduled(e, nodes).2 > 0 ==> !scheduled(e, nodes).0.s_below(scheduled(e, nodes).1),
        scheduled(e, nodes).2 == 0 && area_of(e, nodes, nodes.len()) <= usize::MAX
            ==> scheduled(e, nodes) == (N::s_zero(), N::s_zero(), 0usize),
{
    lemma_area_prefix(e, nodes, 0);
}

proof fn lemma_area_prefix<Op, N, LA, LD>(
    e: Estimates<N, LA, LD>,
    nodes: Seq<NodeView<Op>>,
    n: nat,
) where Op: Schedulable<N, LA, LD> + OperationInfo<N>, N: Number
    requires
        n <= nodes.len(),
    ensures
        area_of(e, nodes, n) <= area_of(e, nodes, nodes.len()),
    decreases nodes.len() - n,
{
    if n < nodes.len() {
        lemma_area_prefix(e, nodes, n + 1);
    }
}

impl<N: Number, LA, LD> Scheduler<N, LA, LD> {
    pub fn new(
        clock_period: usize,
        area_estimator: LA,
        delay_estimator: LD,
        bb_query: BBQuery<N>,
    ) -> (r: Self)
        ensures
            r == (Scheduler { clock_period, area_estimator, delay_estimator, bb_query }),
    {
        Scheduler { clock_period, area_estimator, delay_estimator, bb_query }
    }

    /// Schedules every operation as soon as its arguments are there, and
    /// estimates latencies and area.
    pub fn asap_schedule<Op>(&self, expr: &RecExpr<Op>) -> (r: ScheduleResult<N>) where
        Op: Schedulable<N, LA, LD> + OperationInfo<N> + Duplicate,

        requires
            self.bb_query.wf(),
            expr.wf(),
            can_schedule(self@, expr@),
        ensures
            r == scheduled(self@, expr@),
    {
        let ghost e = self@;
        let ghost nodes = expr@;
        let n: usize = expr.nodes.len();
        let (have_loop, min_exe_count, loop_length) = self.loop_of(expr);
        let delay_accelerator: usize = self.critical_delay(expr).unwrap();
        let area: usize = self.area(expr).unwrap();
        let mut latency_accelerator: N = N::count(delay_accelerator).over(
            N::count(self.clock_period),
        );
        if have_loop {
            latency_accelerator = latency_accelerator.plus(N::count(loop_length - 1));
        }
        let mut latency_cpu: N = N::zero();
        for i in 0..n
            invariant
                self.bb_query.wf(),
                n == expr.nodes@.len(),
                nodes == expr@,
                e == self@,
                have_loop == has_loop::<Op, N>(nodes, nodes.len()),
                min_exe_count == root_runs::<Op, N>(nodes, e.bb_query),
                latency_cpu == cpu_latency(e, nodes, i as nat),
        {
            let node: &AstNode<Op> = &expr.nodes[i];
            assert(nodes[i as int] == node@);
            if node.operation.is_op() {
                let node_latency: N = Op::op_latency_cpu(node, &self.bb_query);
                if have_loop {
                    let runs: N = node.operation.op_execution_count(&self.bb_query);
                    latency_cpu = latency_cpu.plus(node_latency.times(runs).over(min_exe_count));
                } else {
                    latency_cpu = latency_cpu.plus(node_latency);
                }
            }
        }
        if latency_cpu.below(latency_accelerator) {
            (N::zero(), N::zero(), 0)
        } else if area == 0 {
            (N::zero(), N::zero(), 0)
        } else {
            (latency_cpu, latency_accelerator, area)
        }
    }

    /// Whether an expression can be scheduled.
    pub fn fits<Op>(&self, expr: &RecExpr<Op>) -> (r: bool) where
        Op: Schedulable<N, LA, LD> + OperationInfo<N> + Duplicate,

        requires
            self.bb_query.wf(),
            expr.wf(),
        ensures
            r == can_schedule(self@, expr@),
    {
        if expr.nodes.len() == 0 {
            return false;
        }
        let (have_loop, _, loop_length) = self.loop_of(expr);
        (!have_loop || loop_length >= 1) && self.critical_delay(expr).is_some() && self.area(
            expr,
        ).is_some()
    }

    /// Whether an expression has a loop, how often its root is executed, and
    /// how many times a loop runs for that.
    fn loop_of<Op>(&self, expr: &RecExpr<Op>) -> (r: (bool, N, usize)) where
        Op: Schedulable<N, LA, LD> + OperationInfo<N> + Duplicate,

        requires
            self.bb_query.wf(),
            expr@.len() > 0,
        ensures
            r.0 == has_loop::<Op, N>(expr@, expr@.len()),
            r.1 == root_runs::<Op, N>(expr@, self@.bb_query),
            r.2 == loop_length::<Op, N>(expr@, self@.bb_query),
    {
        let ghost e = self@;
        let ghost nodes = expr@;
        let n: usize = expr.nodes.len();
        let root: &AstNode<Op> = &expr.nodes[n - 1];
        let min_exe_count: N = root.operation.op_execution_count(&self.bb_query);
        assert(nodes.last() == root@);
        let mut max_exe_count: N = min_exe_count;
        let mut have_loop: bool = false;
        for i in 0..n
            invariant
                self.bb_query.wf(),
                n == expr.nodes@.len(),
                nodes == expr@,
                e == self@,
                have_loop == has_loop::<Op, N>(nodes, i as nat),
                max_exe_count == most_runs::<Op, N>(nodes, i as nat, min_exe_count, e.bb_query),
        {
            let node: &AstNode<Op> = &expr.nodes[i];
            assert(nodes[i as int] == node@);
            if node.operation.is_dowhile() {
                have_loop = true;
            }
            let bb_info: Vec<String> = node.operation.get_bbs_info();
            assert(texts(bb_info@).len() == bb_info@.len());
            if bb_info.len() >= 1 {
                assert(texts(bb_info@)[0] == bb_info@[0]@);
                if let Some(entry) = self.bb_query.get(&bb_info[0]) {
                    max_exe_count = max_exe_count.larger(entry.execution_count_normalized);
                }
            }
        }
        let loop_length: usize = max_exe_count.over(min_exe_count).round_up();
        (have_loop, min_exe_count, loop_length)
    }

    /// The area of an expression, if it is a machine integer.
    fn area<Op>(&self, expr: &RecExpr<Op>) -> (r: Option<usize>) where
        Op: Schedulable<N, LA, LD> + OperationInfo<N> + Duplicate,

        requires
            expr.wf(),
        ensures
            match r {
                Some(area) => area == area_of(self@, expr@, expr@.len()),
                None => area_of(self@, expr@, expr@.len()) > usize::MAX,
            },
    {
        let ghost e = self@;
        let ghost nodes = expr@;
        let n: usize = expr.nodes.len();
        let mut area: usize = 0;
        for i in 0..n
            invariant
                expr.wf(),
                n == expr.nodes@.len(),
                nodes == expr@,
                e == self@,
                area == area_of(e, nodes, i as nat),
        {
            let node: &AstNode<Op> = &expr.nodes[i];
            assert(nodes[i as int] == node@);
            assert(points_back(nodes, i as int));
            proof {
                lemma_area_prefix(e, nodes, (i + 1) as nat);
            }
            let args: Vec<AstNode<Op>> = node.get_op_args(expr);
            match area.checked_add(Op::op_area(node, &self.area_estimator, &args)) {
                Some(sum) => {
                    area = sum;
                },
                None => {
                    return None;
                },
            }
        }
        Some(area)
    }

    /// The length of the critical path, if it is a machine integer.
    fn critical_delay<Op>(&self, expr: &RecExpr<Op>) -> (r: Option<usize>) where
        Op: Schedulable<N, LA, LD> + OperationInfo<N> + Duplicate,

        requires
            self.bb_query.wf(),
            expr.wf(),
        ensures
            match r {
                Some(delay) => delay == critical(self@, expr@, expr@.len()),
                None => critical(self@, expr@, expr@.len()) > usize::MAX,
            },
    {
        let ghost e = self@;
        let ghost nodes = expr@;
        let n: usize = expr.nodes.len();
        let mut delays: Vec<usize> = Vec::new();
        let mut last: usize = 0;
        for i in 0..n
            invariant
                self.bb_query.wf(),
                expr.wf(),
                n == expr.nodes@.len(),
                nodes == expr@,
                e == self@,
                delays@.len() == i,
                forall|j: int| 0 <= j < i ==> (#[trigger] delays@[j]) == finish(e, nodes, j),
                last == critical(e, nodes, i as nat),
        {
            let node: &AstNode<Op> = &expr.nodes[i];
            assert(nodes[i as int] == node@);
            assert(points_back(nodes, i as int));
            let delay: usize = if node.operation.is_mem() {
                Op::op_latency_cpu(node, &self.bb_query).times(
                    N::count(self.clock_period),
                ).whole()
            } else {
                let args: Vec<AstNode<Op>> = node.get_op_args(expr);
                Op::op_delay(node, &self.delay_estimator, &args)
            };
            let m: usize = node.args.len();
            let mut ready: usize = 0;
            for k in 0..m
                invariant
                    i < n,
                    n == expr.nodes@.len(),
                    nodes == expr@,
                    *node == expr.nodes@[i as int],
                    m == nodes[i as int].args.len(),
                    points_back(nodes, i as int),
                    delays@.len() == i,
                    forall|j: int| 0 <= j < i ==> (#[trigger] delays@[j]) == finish(e, nodes, j),
                    ready == latest(e, nodes, i as int, k as nat),
            {
                let id: usize = node.args[k];
                assert(nodes[i as int].args[k as int] == id);
                if delays[id] > ready {
                    ready = delays[id];
                }
            }
            proof {
                law_critical_path_covers_every_node(e, nodes, nodes.len(), i as int);
            }
            let done: usize = match ready.checked_add(delay) {
                Some(done) => done,
                None => {
                    return None;
                },
            };
            delays.push(done);
            if done > last {
                last = done;
            }
        }
        Some(last)
    }
}

// ---------------------------------------------------------------------------
// The cost of an expression
// ---------------------------------------------------------------------------

/// The latency of library function `id` at the basic blocks `bbs`: the one
/// that was measured there, or else the estimate.
pub open spec fn latency_at<N>(
    lats: Map<(usize, Seq<Seq<char>>), N>,
    id: usize,
    bbs: Seq<Seq<char>>,
    estimate: N,
) -> N {
    if lats.dom().contains((id, bbs)) {
        lats[(id, bbs)]
    } else {
        estimate
    }
}

/// What one node adds to the cost of an expression.
pub enum Share<N> {
    /// Nothing: it has no basic block, or takes no time.
    Free,
    /// A call of a library function: its identifier, its latency, its cycles
    /// and its area.
    Lib(usize, N, N, usize),
    /// An operation: its latency and its cycles.
    Op(N, N),
}

/// What a node adds to the cost of an expression: its latency, times its
/// executions.
pub open spec fn share<Op, N, LA, LD>(
    node: NodeView<Op>,
    q: QueryView<N>,
    lats: Map<(usize, Seq<Seq<char>>), N>,
) -> Share<N> where Op: Schedulable<N, LA, LD> + OperationInfo<N> + Teachable<N>, N: Number {
    let bbs = node.operation.s_bbs_info();
    let runs = node.operation.s_execution_count(q);
    if bbs.len() == 0 {
        Share::Free
    } else {
        match binding_of::<Op, usize, N>(node) {
            Some(BindingExpr::Lib(id, _, _, _, lat_acc, area)) => {
                let latency = latency_at(lats, id.0, bbs, lat_acc);
                Share::Lib(id.0, latency, latency.s_times(runs), area)
            },
            _ => if node.operation.s_is_op() {
                let latency = <Op as Schedulable<N, LA, LD>>::s_latency_cpu(node, q);
                Share::Op(latency, latency.s_times(runs))
            } else {
                Share::Free
            },
        }
    }
}

/// What each of the nodes adds.
pub open spec fn shares<Op, N, LA, LD>(
    nodes: Seq<NodeView<Op>>,
    q: QueryView<N>,
    lats: Map<(usize, Seq<Seq<char>>), N>,
) -> Seq<Share<N>> where
    Op: Schedulable<N, LA, LD> + OperationInfo<N> + Teachable<N>,
    N: Number,
 {
    Seq::new(nodes.len(), |i: int| share::<Op, N, LA, LD>(nodes[i], q, lats))
}

/// The cycles that the first `n` nodes add.
pub open spec fn total_cycles<N: Number>(s: Seq<Share<N>>, n: nat) -> N
    decreases n,
{
    if n == 0 {
        N::s_zero()
    } else {
        let before = total_cycles(s, (n - 1) as nat);
        match s[n - 1] {
            Share::Free => before,
            Share::Lib(_, _, cycles, _) => before.s_plus(cycles),
            Share::Op(_, cycles) => before.s_plus(cycles),
        }
    }
}

/// Whether one of the first `n` nodes calls library function `id`.
pub open spec fn calls<N>(s: Seq<Share<N>>, n: nat, id: usize) -> bool {
    exists|i: int| 0 <= i < n && (#[trigger] s[i]) is Lib && s[i]->Lib_0 == id
}

/// The area that the `i`-th node adds: that of a library function, the first
/// time that it is called.
pub open spec fn counted_area<N>(s: Seq<Share<N>>, i: int) -> usize {
    match s[i] {
        Share::Lib(id, _, _, area) => if calls(s, i as nat, id) {
            0
        } else {
            area
        },
        _ => 0,
    }
}

/// The area that the first `n` nodes add.
pub open spec fn lib_area<N>(s: Seq<Share<N>>, n: nat) -> int
    decreases n,
{
    if n == 0 {
        0
    } else {
        lib_area(s, (n - 1) as nat) + counted_area(s, n - 1)
    }
}

proof fn lemma_lib_area_prefix<N>(s: Seq<Share<N>>, n: nat)
    requires
        n <= s.len(),
    ensures
        lib_area(s, n) <= lib_area(s, s.len()),
    decreases s.len() - n,
{
    if n < s.len() {
        lemma_lib_area_prefix(s, n + 1);
    }
}

/// A library function that was called before adds no area.
pub proof fn law_area_is_counted_once<N>(s: Seq<Share<N>>, i: int, j: int)
    requires
        0 <= i < j < s.len(),
        s[i] is Lib,
        s[j] is Lib,
        s[i]->Lib_0 == s[j]->Lib_0,
    ensures
        lib_area(s, (j + 1) as nat) == lib_area(s, j as nat),
{
    assert(calls(s, j as nat, s[j]->Lib_0));
}

/// What a node adds to the cost of an expression.
fn share_of<Op, N, LA, LD>(node: &AstNode<Op>, bb_query: &BBQuery<N>, lats: &SiteMap<N>) -> (r:
    Share<N>) where Op: Schedulable<N, LA, LD> + OperationInfo<N> + Teachable<N>, N: Number
    requires
        bb_query.wf(),
        lats.wf(),
    ensures
        r == share::<Op, N, LA, LD>(node@, bb_query@, lats@),
{
    let bbs: Vec<String> = node.operation.get_bbs_info();
    assert(texts(bbs@).len() == bbs@.len());
    if bbs.len() == 0 {
        return Share::Free;
    }
    let runs: N = node.operation.op_execution_count(bb_query);
    match Op::as_binding_expr(node) {
        Some(BindingExpr::Lib(id, _, _, _, lat_acc, area)) => {
            let latency: N = match lats.get(id.0, &bbs) {
                Some(l) => *l,
                None => lat_acc,
            };
            Share::Lib(id.0, latency, latency.times(runs), area)
        },
        _ => {
            if node.operation.is_op() {
                let latency: N = <Op as Schedulable<N, LA, LD>>::op_latency_cpu(node, bb_query);
                Share::Op(latency, latency.times(runs))
            } else {
                Share::Free
            }
        },
    }
}

/// Notes a call of a library function; whether it is the first.
fn note_call<N>(used: &mut Vec<usize>, id: usize, Ghost(s): Ghost<Seq<Share<N>>>, i: usize) -> (r:
    bool)
    requires
        i < s.len(),
        s[i as int] is Lib,
        s[i as int]->Lib_0 == id,
        forall|k: usize| #[trigger] old(used)@.contains(k) <==> calls(s, i as nat, k),
    ensures
        r == !calls(s, i as nat, id),
        forall|k: usize| #[trigger] final(used)@.contains(k) <==> calls(s, (i + 1) as nat, k),
{
    let ghost before = used@;
    let first: bool = !id_among(used, id);
    if first {
        used.push(id);
    }
    proof {
        assert forall|k: usize| #[trigger] used@.contains(k) <==> calls(s, (i + 1) as nat, k) by {
            if used@.contains(k) {
                let j = choose|j: int| 0 <= j < used@.len() && used@[j] == k;
                if j < before.len() {
                    assert(before[j] == k);
                    assert(before.contains(k));
                    let m = choose|m: int|
                        0 <= m < i && (#[trigger] s[m]) is Lib && s[m]->Lib_0 == k;
                    assert(s[m] is Lib);
                } else {
                    assert(s[i as int] is Lib);
                }
            }
            if calls(s, (i + 1) as nat, k) {
                let m = choose|m: int|
                    0 <= m < i + 1 && (#[trigger] s[m]) is Lib && s[m]->Lib_0 == k;
                if m < i {
                    assert(calls(s, i as nat, k));
                    assert(before.contains(k));
                    let j = choose|j: int| 0 <= j < before.len() && before[j] == k;
                    assert(used@[j] == k);
                } else if first {
                    assert(used@[used@.len() - 1] == k);
                } else {
                    assert(before.contains(k));
                }
            }
        }
    }
    first
}

/// The cycles and the area of an expression. The area of a library function
/// counts once.
pub fn rec_cost<Op, N, LA, LD>(
    expr: &RecExpr<Op>,
    bb_query: &BBQuery<N>,
    lat_acc_map: &SiteMap<N>,
) -> (r: (N, usize)) where Op: Schedulable<N, LA, LD> + OperationInfo<N> + Teachable<N>, N: Number
    requires
        bb_query.wf(),
        lat_acc_map.wf(),
        lib_area(
            shares::<Op, N, LA, LD>(expr@, bb_query@, lat_acc_map@),
            expr@.len(),
        ) <= usize::MAX,
    ensures
        ({
            let s = shares::<Op, N, LA, LD>(expr@, bb_query@, lat_acc_map@);
            r.0 == total_cycles(s, s.len()) && r.1 == lib_area(s, s.len())
        }),
{
    let ghost s = shares::<Op, N, LA, LD>(expr@, bb_query@, lat_acc_map@);
    let mut used: Vec<usize> = Vec::new();
    let mut cycles: N = N::zero();
    let mut area: usize = 0;
    let n: usize = expr.nodes.len();
    for i in 0..n
        invariant
            bb_query.wf(),
            lat_acc_map.wf(),
            n == expr.nodes@.len() == s.len(),
            s == shares::<Op, N, LA, LD>(expr@, bb_query@, lat_acc_map@),
            lib_area(s, s.len()) <= usize::MAX,
            forall|k: usize| #[trigger] used@.contains(k) <==> calls(s, i as nat, k),
            cycles == total_cycles(s, i as nat),
            area == lib_area(s, i as nat),
    {
        assert(expr@[i as int] == expr.nodes@[i as int]@);
        proof {
            lemma_lib_area_prefix(s, (i + 1) as nat);
            lemma_no_call(s, i as int);
        }
        match share_of::<Op, N, LA, LD>(&expr.nodes[i], bb_query, lat_acc_map) {
            Share::Free => {},
            Share::Lib(id, _, c, a) => {
                cycles = cycles.plus(c);
                if note_call::<N>(&mut used, id, Ghost(s), i) {
                    area = area + a;
                }
            },
            Share::Op(_, c) => {
                cycles = cycles.plus(c);
            },
        }
    }
    (cycles, area)
}

/// The cycles of an expression.
pub fn rec_cycles<Op, N, LA, LD>(
    expr: &RecExpr<Op>,
    bb_query: &BBQuery<N>,
    lat_acc_map: &SiteMap<N>,
) -> (r: N) where Op: Schedulable<N, LA, LD> + OperationInfo<N> + Teachable<N>, N: Number
    requires
        bb_query.wf(),
        lat_acc_map.wf(),
    ensures
        r == total_cycles(
            shares::<Op, N, LA, LD>(expr@, bb_query@, lat_acc_map@),
            expr@.len(),
        ),
{
    let ghost s = shares::<Op, N, LA, LD>(expr@, bb_query@, lat_acc_map@);
    let mut cycles: N = N::zero();
    let n: usize = expr.nodes.len();
    for i in 0..n
        invariant
            bb_query.wf(),
            lat_acc_map.wf(),
            n == expr.nodes@.len() == s.len(),
            s == shares::<Op, N, LA, LD>(expr@, bb_query@, lat_acc_map@),
            cycles == total_cycles(s, i as nat),
    {
        assert(expr@[i as int] == expr.nodes@[i as int]@);
        match share_of::<Op, N, LA, LD>(&expr.nodes[i], bb_query, lat_acc_map) {
            Share::Free => {},
            Share::Lib(_, _, c, _) => {
                cycles = cycles.plus(c);
            },
            Share::Op(_, c) => {
                cycles = cycles.plus(c);
            },
        }
    }
    cycles
}

proof fn lemma_no_call<N>(s: Seq<Share<N>>, i: int)
    requires
        0 <= i < s.len(),
    ensures
        !(s[i] is Lib) ==> forall|k: usize| #[trigger]
            calls(s, (i + 1) as nat, k) <==> calls(s, i as nat, k),
{
    if !(s[i] is Lib) {
        assert forall|k: usize| #[trigger]
            calls(s, (i + 1) as nat, k) <==> calls(s, i as nat, k) by {
            if calls(s, (i + 1) as nat, k) {
                let m = choose|m: int|
                    0 <= m < i + 1 && (#[trigger] s[m]) is Lib && s[m]->Lib_0 == k;
                assert(s[m] is Lib && m < i);
            }
            if calls(s, i as nat, k) {
                let m = choose|m: int| 0 <= m < i && (#[trigger] s[m]) is Lib && s[m]->Lib_0 == k;
                assert(s[m] is Lib);
            }
        }
    }
}

// ---------------------------------------------------------------------------
// The cost of each function
// ---------------------------------------------------------------------------

/// What stands in `s` before the first `mark`, or all of it.
pub open spec fn before_mark(s: Seq<char>, mark: char) -> Seq<char>
    decreases s.len(),
{
    if s.len() == 0 || s[0] == mark {
        Seq::empty()
    } else {
        seq![s[0]] + before_mark(s.drop_first(), mark)
    }
}

proof fn lemma_before_mark(s: Seq<char>, mark: char, p: int)
    requires
        0 <= p <= s.len(),
        forall|i: int| 0 <= i < p ==> s[i] != mark,
        p < s.len() ==> s[p] == mark,
    ensures
        before_mark(s, mark) == s.take(p),
    decreases s.len(),
{
    if p == 0 {
        assert(s.take(0) =~= Seq::<char>::empty());
    } else {
        let t = s.drop_first();
        lemma_before_mark(t, mark, p - 1);
        assert(seq![s[0]] + t.take(p - 1) =~= s.take(p));
    }
}

/// The name of the function that a basic block belongs to.
fn function_of(bb: &String) -> (r: String)
    ensures
        r@ == before_mark(bb@, '#'),
{
    let cs: Vec<char> = crate::text::to_chars(bb.as_str());
    let mut p: usize = 0;
    while p < cs.len() && cs[p] != '#'
        invariant
            p <= cs@.len(),
            forall|i: int| 0 <= i < p ==> cs@[i] != '#',
        decreases cs@.len() - p,
    {
        p = p + 1;
    }
    proof {
        lemma_before_mark(cs@, '#', p as int);
        assert(cs@.subrange(0, p as int) =~= cs@.take(p as int));
    }
    crate::text::text_of(&cs, 0, p)
}

/// The cycles of each function, summed over the first `n` nodes.
pub open spec fn function_cycles<Op: OperationInfo<N>, N: Number>(
    nodes: Seq<NodeView<Op>>,
    s: Seq<Share<N>>,
    n: nat,
) -> Map<Seq<char>, N>
    decreases n,
{
    if n == 0 {
        Map::empty()
    } else {
        let before = function_cycles(nodes, s, (n - 1) as nat);
        let name = before_mark(nodes[n - 1].operation.s_bbs_info()[0], '#');
        match s[n - 1] {
            Share::Free => before,
            Share::Lib(_, _, cycles, _) => with_cycles(before, name, cycles),
            Share::Op(_, cycles) => with_cycles(before, name, cycles),
        }
    }
}

/// The cycles of each function with more cycles for one of them.
pub open spec fn with_cycles<N: Number>(
    m: Map<Seq<char>, N>,
    name: Seq<char>,
    cycles: N,
) -> Map<Seq<char>, N> {
    if m.dom().contains(name) {
        m.insert(name, m[name].s_plus(cycles))
    } else {
        m.insert(name, cycles)
    }
}

fn add_cycles<N: Number>(m: &mut TextMap<N>, name: String, cycles: N)
    requires
        old(m).wf(),
    ensures
        final(m).wf(),
        final(m)@ == with_cycles(old(m)@, name@, cycles),
{
    let sum: N = match m.get(&name) {
        Some(c) => c.plus(cycles),
        None => cycles,
    };
    m.insert(name, sum);
}

/// The cycles of each function: those of the nodes whose first basic block
/// belongs to it.
pub fn cycles_for_every_function<Op, N, LA, LD>(
    expr: &RecExpr<Op>,
    bb_query: &BBQuery<N>,
    lat_acc_map: &SiteMap<N>,
) -> (r: TextMap<N>) where
    Op: Schedulable<N, LA, LD> + OperationInfo<N> + Teachable<N>,
    N: Number,

    requires
        bb_query.wf(),
        lat_acc_map.wf(),
    ensures
        r.wf(),
        r@ == function_cycles(
            expr@,
            shares::<Op, N, LA, LD>(expr@, bb_query@, lat_acc_map@),
            expr@.len(),
        ),
{
    let ghost s = shares::<Op, N, LA, LD>(expr@, bb_query@, lat_acc_map@);
    let mut r: TextMap<N> = TextMap::new();
    let n: usize = expr.nodes.len();
    for i in 0..n
        invariant
            bb_query.wf(),
            lat_acc_map.wf(),
            n == expr.nodes@.len() == s.len(),
            s == shares::<Op, N, LA, LD>(expr@, bb_query@, lat_acc_map@),
            r.wf(),
            r@ == function_cycles(expr@, s, i as nat),
    {
        let node: &AstNode<Op> = &expr.nodes[i];
        assert(expr@[i as int] == node@);
        let bbs: Vec<String> = node.operation.get_bbs_info();
        assert(texts(bbs@).len() == bbs@.len());
        if bbs.len() > 0 {
            assert(texts(bbs@)[0] == bbs@[0]@);
            let name: String = function_of(&bbs[0]);
            match share_of::<Op, N, LA, LD>(node, bb_query, lat_acc_map) {
                Share::Free => {},
                Share::Lib(_, _, c, _) => {
                    add_cycles(&mut r, name, c);
                },
                Share::Op(_, c) => {
                    add_cycles(&mut r, name, c);
                },
            }
        }
    }
    r
}

/// The functions that have cycles are those of the nodes that cost time.
pub proof fn law_functions_with_cycles<Op: OperationInfo<N>, N: Number>(
    nodes: Seq<NodeView<Op>>,
    s: Seq<Share<N>>,
    n: nat,
    name: Seq<char>,
)
    requires
        n <= nodes.len() == s.len(),
    ensures
        function_cycles(nodes, s, n).dom().contains(name) <==> exists|i: int|
            0 <= i < n && !((#[trigger] s[i]) is Free) && before_mark(
                nodes[i].operation.s_bbs_info()[0],
                '#',
            ) == name,
    decreases n,
{
    if n > 0 {
        law_functions_with_cycles(nodes, s, (n - 1) as nat, name);
        let f = before_mark(nodes[n - 1].operation.s_bbs_info()[0], '#');
        if function_cycles(nodes, s, n).dom().contains(name) {
            if name == f && !(s[n - 1] is Free) {
            } else {
                let i = choose|i: int|
                    0 <= i < n - 1 && !((#[trigger] s[i]) is Free) && before_mark(
                        nodes[i].operation.s_bbs_info()[0],
                        '#',
                    ) == name;
                assert(!(s[i] is Free));
            }
        }
        if exists|i: int|
            0 <= i < n && !((#[trigger] s[i]) is Free) && before_mark(
                nodes[i].operation.s_bbs_info()[0],
                '#',
            ) == name {
            let i = choose|i: int|
                0 <= i < n && !((#[trigger] s[i]) is Free) && before_mark(
                    nodes[i].operation.s_bbs_info()[0],
                    '#',
                ) == name;
            if i < n - 1 {
                assert(!(s[i] is Free));
            }
        }
    }
}

// ---------------------------------------------------------------------------
// The cost of an expression, line by line
// ---------------------------------------------------------------------------

/// What the `Debug` form of a list of strings reads.
pub uninterp spec fn texts_debug(s: Seq<Seq<char>>) -> Seq<char>;

/// `format!("{:?}")` of a list of strings: the same strings always give the
/// same text.
#[verifier::external_body]
fn debug_of_texts(v: &Vec<String>) -> (r: String)
    ensures
        r@ == texts_debug(texts(v@)),
{
    format!("{:?}", v)
}

/// The line of a call of a library function.
pub open spec fn lib_line<N: Number>(
    idx: int,
    id: usize,
    bbs: Seq<char>,
    runs: N,
    latency: N,
    cycles: N,
    area: usize,
) -> Seq<char> {
    "node="@ + decimal(idx as nat) + " kind=lib lib="@ + decimal(id as nat) + " bbs="@ + bbs
        + " exe_count="@ + runs.s_text() + " lat_acc="@ + latency.s_text() + " cycles="@
        + cycles.s_text() + " area_counted="@ + decimal(area as nat)
}

/// The line of an operation.
pub open spec fn op_line<N: Number>(
    idx: int,
    op: Seq<char>,
    bbs: Seq<char>,
    runs: N,
    latency: N,
    cycles: N,
) -> Seq<char> {
    "node="@ + decimal(idx as nat) + " kind=op op="@ + op + " bbs="@ + bbs + " exe_count="@
        + runs.s_text() + " cpu_lat="@ + latency.s_text() + " cycles="@ + cycles.s_text()
}

/// The last line.
pub open spec fn total_line<N: Number>(cycles: N, area: usize) -> Seq<char> {
    "total cycles="@ + cycles.s_text() + " area="@ + decimal(area as nat)
}

/// The lines of the first `n` nodes, each ended by a line break.
pub open spec fn node_lines<Op: OperationInfo<N>, N: Number>(
    nodes: Seq<NodeView<Op>>,
    s: Seq<Share<N>>,
    q: QueryView<N>,
    n: nat,
) -> Seq<char>
    decreases n,
{
    if n == 0 {
        Seq::empty()
    } else {
        let before = node_lines(nodes, s, q, (n - 1) as nat);
        let op = nodes[n - 1].operation;
        let bbs = texts_debug(op.s_bbs_info());
        let runs = op.s_execution_count(q);
        match s[n - 1] {
            Share::Free => before,
            Share::Lib(id, latency, cycles, _) => before + lib_line(
                n - 1,
                id,
                bbs,
                runs,
                latency,
                cycles,
                counted_area(s, n - 1),
            ) + seq!['\n'],
            Share::Op(latency, cycles) => before + op_line(
                n - 1,
                op.s_debug(),
                bbs,
                runs,
                latency,
                cycles,
            ) + seq!['\n'],
        }
    }
}

/// Writes the line of a call of a library function.
pub fn write_lib_line<N: Number>(
    idx: usize,
    id: usize,
    bbs: &str,
    runs: N,
    latency: N,
    cycles: N,
    area: usize,
) -> (r: String)
    ensures
        r@ == lib_line(idx as int, id, bbs@, runs, latency, cycles, area),
{
    let mut s: String = "node=".to_owned();
    s.append(decimal_text(idx).as_str());
    s.append(" kind=lib lib=");
    s.append(decimal_text(id).as_str());
    s.append(" bbs=");
    s.append(bbs);
    s.append(" exe_count=");
    s.append(runs.text().as_str());
    s.append(" lat_acc=");
    s.append(latency.text().as_str());
    s.append(" cycles=");
    s.append(cycles.text().as_str());
    s.append(" area_counted=");
    s.append(decimal_text(area).as_str());
    s
}

/// Writes the line of an operation.
pub fn write_op_line<N: Number>(
    idx: usize,
    op: &str,
    bbs: &str,
    runs: N,
    latency: N,
    cycles: N,
) -> (r: String)
    ensures
        r@ == op_line(idx as int, op@, bbs@, runs, latency, cycles),
{
    let mut s: String = "node=".to_owned();
    s.append(decimal_text(idx).as_str());
    s.append(" kind=op op=");
    s.append(op);
    s.append(" bbs=");
    s.append(bbs);
    s.append(" exe_count=");
    s.append(runs.text().as_str());
    s.append(" cpu_lat=");
    s.append(latency.text().as_str());
    s.append(" cycles=");
    s.append(cycles.text().as_str());
    s
}

/// The cost of an expression, one line for each node that costs time, and a
/// line with the totals.
pub fn dump_rec_cost<Op, N, LA, LD>(
    expr: &RecExpr<Op>,
    bb_query: &BBQuery<N>,
    lat_acc_map: &SiteMap<N>,
) -> (r: String) where Op: Schedulable<N, LA, LD> + OperationInfo<N> + Teachable<N>, N: Number
    requires
        bb_query.wf(),
        lat_acc_map.wf(),
        lib_area(
            shares::<Op, N, LA, LD>(expr@, bb_query@, lat_acc_map@),
            expr@.len(),
        ) <= usize::MAX,
    ensures
        r@ == ({
            let s = shares::<Op, N, LA, LD>(expr@, bb_query@, lat_acc_map@);
            node_lines(expr@, s, bb_query@, s.len()) + total_line(
                total_cycles(s, s.len()),
                lib_area(s, s.len()) as usize,
            )
        }),
{
    let ghost s = shares::<Op, N, LA, LD>(expr@, bb_query@, lat_acc_map@);
    let mut used: Vec<usize> = Vec::new();
    let mut cycles: N = N::zero();
    let mut area: usize = 0;
    let mut out: String = String::new();
    let n: usize = expr.nodes.len();
    for i in 0..n
        invariant
            bb_query.wf(),
            lat_acc_map.wf(),
            n == expr.nodes@.len() == s.len(),
            s == shares::<Op, N, LA, LD>(expr@, bb_query@, lat_acc_map@),
            lib_area(s, s.len()) <= usize::MAX,
            forall|k: usize| #[trigger] used@.contains(k) <==> calls(s, i as nat, k),
            cycles == total_cycles(s, i as nat),
            area == lib_area(s, i as nat),
            out@ == node_lines(expr@, s, bb_query@, i as nat),
    {
        let node: &AstNode<Op> = &expr.nodes[i];
        assert(expr@[i as int] == node@);
        proof {
            lemma_lib_area_prefix(s, (i + 1) as nat);
            lemma_no_call(s, i as int);
        }
        match share_of::<Op, N, LA, LD>(node, bb_query, lat_acc_map) {
            Share::Free => {},
            Share::Lib(id, latency, c, a) => {
                cycles = cycles.plus(c);
                let counted: usize = if note_call::<N>(&mut used, id, Ghost(s), i) {
                    area = area + a;
                    a
                } else {
                    0
                };
                let bbs: String = debug_of_texts(&node.operation.get_bbs_info());
                let runs: N = node.operation.op_execution_count(bb_query);
                let line: String = write_lib_line(i, id, bbs.as_str(), runs, latency, c, counted);
                out.append(line.as_str());
                out.push('\n');
                assert(out@ =~= node_lines(expr@, s, bb_query@, (i + 1) as nat));
            },
            Share::Op(latency, c) => {
                cycles = cycles.plus(c);
                let bbs: String = debug_of_texts(&node.operation.get_bbs_info());
                let runs: N = node.operation.op_execution_count(bb_query);
                let op: String = node.operation.debug_text();
                let line: String = write_op_line(i, op.as_str(), bbs.as_str(), runs, latency, c);
                out.append(line.as_str());
                out.push('\n');
                assert(out@ =~= node_lines(expr@, s, bb_query@, (i + 1) as nat));
            },
        }
    }
    out.append("total cycles=");
    out.append(cycles.text().as_str());
    out.append(" area=");
    out.append(decimal_text(area).as_str());
    assert(out@ =~= node_lines(expr@, s, bb_query@, s.len()) + total_line(cycles, area));
    out
}

} // verus!
