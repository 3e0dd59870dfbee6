//! What the cost of an expression is made of: how it grows with each node.
use crate::assoc::{SiteMap, TextMap};
use crate::ast_node::NodeView;
use crate::bb_query::{BBQuery, QueryView};
use crate::number::Number;
use crate::rec_expr::RecExpr;
use crate::runner::operation::OperationInfo;
use crate::schedule::{
    before_mark, calls, counted_area, cycles_for_every_function, dump_rec_cost, function_cycles,
    lib_area, node_lines, rec_cost, rec_cycles, shares, texts_debug, total_cycles, Schedulable,
};
use crate::teachable::{binding_of, BindingExpr, Teachable};
use crate::text::decimal;
use vstd::prelude::*;

verus! {

/// Whether a node with a basic block calls library function `id`.
pub open spec fn calls_lib<Op, N>(node: NodeView<Op>, id: usize) -> bool where
    Op: OperationInfo<N> + Teachable<N>,
    N: Number,
 {
    &&& node.operation.s_bbs_info().len() > 0
    &&& match binding_of::<Op, usize, N>(node) {
        Some(BindingExpr::Lib(called, _, _, _, _, _)) => called.0 == id,
        _ => false,
    }
}

/// The cycles that a node adds, where it adds any: those of a library function
/// at its basic blocks, or those of an operation on the processor, as often as
/// the node is executed.
pub open spec fn added_cycles<Op, N, LA, LD>(
    node: NodeView<Op>,
    q: QueryView<N>,
    lats: Map<(usize, Seq<Seq<char>>), N>,
) -> Option<N> where Op: Schedulable<N, LA, LD> + OperationInfo<N> + Teachable<N>, N: Number {
    let bbs = node.operation.s_bbs_info();
    let runs = node.operation.s_execution_count(q);
    if bbs.len() == 0 {
        None
    } else {
        match binding_of::<Op, usize, N>(node) {
            Some(BindingExpr::Lib(id, _, _, _, lat_acc, _)) => Some(
                if lats.dom().contains((id.0, bbs)) {
                    lats[(id.0, bbs)].s_times(runs)
                } else {
                    lat_acc.s_times(runs)
                },
            ),
            _ => if node.operation.s_is_op() {
                Some(<Op as Schedulable<N, LA, LD>>::s_latency_cpu(node, q).s_times(runs))
            } else {
                None
            },
        }
    }
}

proof fn lemma_more_shares<Op, N, LA, LD>(
    before: Seq<NodeView<Op>>,
    node: NodeView<Op>,
    q: QueryView<N>,
    lats: Map<(usize, Seq<Seq<char>>), N>,
    n: nat,
) where Op: Schedulable<N, LA, LD> + OperationInfo<N> + Teachable<N>, N: Number
    requires
        n <= before.len(),
    ensures
        ({
            let s = shares::<Op, N, LA, LD>(before, q, lats);
            let t = shares::<Op, N, LA, LD>(before.push(node), q, lats);
            &&& total_cycles(t, n) == total_cycles(s, n)
            &&& lib_area(t, n) == lib_area(s, n)
            &&& function_cycles(before.push(node), t, n) == function_cycles(before, s, n)
            &&& node_lines(before.push(node), t, q, n) == node_lines(before, s, q, n)
            &&& forall|k: usize| #[trigger] calls(t, n, k) == calls(s, n, k)
        }),
    decreases n,
{
    let s = shares::<Op, N, LA, LD>(before, q, lats);
    let t = shares::<Op, N, LA, LD>(before.push(node), q, lats);
    assert forall|i: int| 0 <= i < n implies #[trigger] s[i] == t[i] by {
        assert(before.push(node)[i] == before[i]);
    }
    assert forall|k: usize| #[trigger] calls(t, n, k) == calls(s, n, k) by {
        if calls(t, n, k) {
            let i = choose|i: int| 0 <= i < n && (#[trigger] t[i]) is Lib && t[i]->Lib_0 == k;
            assert(s[i] == t[i]);
        }
        if calls(s, n, k) {
            let i = choose|i: int| 0 <= i < n && (#[trigger] s[i]) is Lib && s[i]->Lib_0 == k;
            assert(s[i] == t[i]);
        }
    }
    if n > 0 {
        lemma_more_shares::<Op, N, LA, LD>(before, node, q, lats, (n - 1) as nat);
        assert(s[n - 1] == t[n - 1]);
        assert(before.push(node)[n - 1] == before[n - 1]);
        if s[n - 1] is Lib {
            let id = s[n - 1]->Lib_0;
            assert(calls(t, (n - 1) as nat, id) == calls(s, (n - 1) as nat, id));
        }
    }
}

proof fn lemma_called<Op, N, LA, LD>(
    nodes: Seq<NodeView<Op>>,
    q: QueryView<N>,
    lats: Map<(usize, Seq<Seq<char>>), N>,
    n: nat,
    id: usize,
) where Op: Schedulable<N, LA, LD> + OperationInfo<N> + Teachable<N>, N: Number
    requires
        n <= nodes.len(),
    ensures
        calls(shares::<Op, N, LA, LD>(nodes, q, lats), n, id) <==> exists|i: int|
            0 <= i < n && calls_lib::<Op, N>(#[trigger] nodes[i], id),
{
    let s = shares::<Op, N, LA, LD>(nodes, q, lats);
    if calls(s, n, id) {
        let i = choose|i: int| 0 <= i < n && (#[trigger] s[i]) is Lib && s[i]->Lib_0 == id;
        assert(calls_lib::<Op, N>(nodes[i], id));
    }
    if exists|i: int| 0 <= i < n && calls_lib::<Op, N>(#[trigger] nodes[i], id) {
        let i = choose|i: int| 0 <= i < n && calls_lib::<Op, N>(#[trigger] nodes[i], id);
        assert(s[i] is Lib && s[i]->Lib_0 == id);
    }
}

/// An expression without nodes costs nothing.
pub proof fn law_nothing_costs_nothing<Op, N, LA, LD>(
    expr: &RecExpr<Op>,
    bb_query: &BBQuery<N>,
    lats: &SiteMap<N>,
    r: (N, usize),
) where Op: Schedulable<N, LA, LD> + OperationInfo<N> + Teachable<N>, N: Number
    requires
        expr@.len() == 0,
        call_ensures(rec_cost::<Op, N, LA, LD>, (expr, bb_query, lats), r),
    ensures
        r == (N::s_zero(), 0usize),
{
}

/// One node more adds its cycles. Where it calls a library function that no
/// node before it calls, it adds the area of that library function, and no
/// area otherwise.
pub proof fn law_one_more_node_costs<Op, N, LA, LD>(
    before: &RecExpr<Op>,
    after: &RecExpr<Op>,
    node: NodeView<Op>,
    bb_query: &BBQuery<N>,
    lats: &SiteMap<N>,
    r: (N, usize),
    s: (N, usize),
) where Op: Schedulable<N, LA, LD> + OperationInfo<N> + Teachable<N>, N: Number
    requires
        after@ == before@.push(node),
        call_ensures(rec_cost::<Op, N, LA, LD>, (before, bb_query, lats), r),
        call_ensures(rec_cost::<Op, N, LA, LD>, (after, bb_query, lats), s),
    ensures
        s.0 == match added_cycles::<Op, N, LA, LD>(node, bb_query@, lats@) {
            Some(cycles) => r.0.s_plus(cycles),
            None => r.0,
        },
        match binding_of::<Op, usize, N>(node) {
            Some(BindingExpr::Lib(id, _, _, _, _, area)) => if node.operation.s_bbs_info().len() > 0
                && !(exists|i: int|
                0 <= i < before@.len() && calls_lib::<Op, N>(#[trigger] before@[i], id.0)) {
                s.1 == r.1 + area
            } else {
                s.1 == r.1
            },
            _ => s.1 == r.1,
        },
{
    let n = before@.len();
    lemma_more_shares::<Op, N, LA, LD>(before@, node, bb_query@, lats@, n);
    let t = shares::<Op, N, LA, LD>(after@, bb_query@, lats@);
    assert(t.len() == n + 1);
    assert(after@[n as int] == node);
    if let Some(BindingExpr::Lib(id, _, _, _, _, _)) = binding_of::<Op, usize, N>(node) {
        lemma_called::<Op, N, LA, LD>(before@, bb_query@, lats@, n, id.0);
        assert(calls(t, n, id.0) == calls(
            shares::<Op, N, LA, LD>(before@, bb_query@, lats@),
            n,
            id.0,
        ));
    }
}

/// The area of the library function that node `i` calls, where no node before
/// it calls the same one.
pub open spec fn first_call_area<Op, N>(nodes: Seq<NodeView<Op>>, i: int) -> int where
    Op: OperationInfo<N> + Teachable<N>,
    N: Number,
 {
    match binding_of::<Op, usize, N>(nodes[i]) {
        Some(BindingExpr::Lib(id, _, _, _, _, area)) => if nodes[i].operation.s_bbs_info().len() > 0
            && !(exists|j: int| 0 <= j < i && calls_lib::<Op, N>(#[trigger] nodes[j], id.0)) {
            area as int
        } else {
            0
        },
        _ => 0,
    }
}

proof fn lemma_area_is_a_sum<Op, N, LA, LD>(
    nodes: Seq<NodeView<Op>>,
    q: QueryView<N>,
    lats: Map<(usize, Seq<Seq<char>>), N>,
    n: nat,
) where Op: Schedulable<N, LA, LD> + OperationInfo<N> + Teachable<N>, N: Number
    requires
        n <= nodes.len(),
    ensures
        lib_area(shares::<Op, N, LA, LD>(nodes, q, lats), n) == Seq::new(
            n,
            |i: int| first_call_area::<Op, N>(nodes, i),
        ).fold_left(0int, |a: int, b: int| a + b),
    decreases n,
{
    let s = shares::<Op, N, LA, LD>(nodes, q, lats);
    let areas = Seq::new(n, |i: int| first_call_area::<Op, N>(nodes, i));
    if n > 0 {
        lemma_area_is_a_sum::<Op, N, LA, LD>(nodes, q, lats, (n - 1) as nat);
        assert(areas.drop_last() =~= Seq::new(
            (n - 1) as nat,
            |i: int| first_call_area::<Op, N>(nodes, i),
        ));
        if let Some(BindingExpr::Lib(id, _, _, _, _, _)) = binding_of::<Op, usize, N>(
            nodes[n - 1],
        ) {
            lemma_called::<Op, N, LA, LD>(nodes, q, lats, (n - 1) as nat, id.0);
        }
        assert(counted_area(s, n - 1) == areas.last());
    }
}

/// The area of an expression is the sum of the areas of the library functions
/// that it calls, each at its first call.
pub proof fn law_areas_add_up<Op, N, LA, LD>(
    expr: &RecExpr<Op>,
    bb_query: &BBQuery<N>,
    lats: &SiteMap<N>,
    r: (N, usize),
) where Op: Schedulable<N, LA, LD> + OperationInfo<N> + Teachable<N>, N: Number
    requires
        call_ensures(rec_cost::<Op, N, LA, LD>, (expr, bb_query, lats), r),
    ensures
        r.1 == Seq::new(
            expr@.len(),
            |i: int| first_call_area::<Op, N>(expr@, i),
        ).fold_left(0int, |a: int, b: int| a + b),
{
    lemma_area_is_a_sum::<Op, N, LA, LD>(expr@, bb_query@, lats@, expr@.len());
}

/// The cycles alone are those of the cost.
pub proof fn law_cycles_alone<Op, N, LA, LD>(
    expr: &RecExpr<Op>,
    bb_query: &BBQuery<N>,
    lats: &SiteMap<N>,
    r: (N, usize),
    cycles: N,
) where Op: Schedulable<N, LA, LD> + OperationInfo<N> + Teachable<N>, N: Number
    requires
        call_ensures(rec_cost::<Op, N, LA, LD>, (expr, bb_query, lats), r),
        call_ensures(rec_cycles::<Op, N, LA, LD>, (expr, bb_query, lats), cycles),
    ensures
        cycles == r.0,
{
}

/// Whether `name` is what stands before the first number sign of `block`.
pub open spec fn is_function_of(name: Seq<char>, block: Seq<char>) -> bool {
    &&& name.len() <= block.len()
    &&& name == block.take(name.len() as int)
    &&& !name.contains('#')
    &&& name.len() < block.len() ==> block[name.len() as int] == '#'
}

proof fn lemma_function_of(block: Seq<char>)
    ensures
        is_function_of(before_mark(block, '#'), block),
    decreases block.len(),
{
    let name = before_mark(block, '#');
    if block.len() == 0 || block[0] == '#' {
        assert(name =~= block.take(0));
    } else {
        let rest = block.drop_first();
        lemma_function_of(rest);
        let short = before_mark(rest, '#');
        assert(name =~= seq![block[0]] + short);
        assert forall|i: int| 0 <= i < name.len() implies name[i] == block[i] && name[i] != '#' by {
            if i > 0 {
                assert(name[i] == short[i - 1]);
                assert(short.contains(short[i - 1]));
                assert(short[i - 1] == rest.take(short.len() as int)[i - 1]);
            }
        }
        assert(name =~= block.take(name.len() as int));
    }
}

/// One node more adds its cycles to those of the function of its first basic
/// block, and to no others.
pub proof fn law_one_more_node_in_its_function<Op, N, LA, LD>(
    before: &RecExpr<Op>,
    after: &RecExpr<Op>,
    node: NodeView<Op>,
    bb_query: &BBQuery<N>,
    lats: &SiteMap<N>,
    r: TextMap<N>,
    s: TextMap<N>,
) where Op: Schedulable<N, LA, LD> + OperationInfo<N> + Teachable<N>, N: Number
    requires
        after@ == before@.push(node),
        call_ensures(cycles_for_every_function::<Op, N, LA, LD>, (before, bb_query, lats), r),
        call_ensures(cycles_for_every_function::<Op, N, LA, LD>, (after, bb_query, lats), s),
    ensures
        match added_cycles::<Op, N, LA, LD>(node, bb_query@, lats@) {
            None => s@ == r@,
            Some(cycles) => exists|name: Seq<char>| #[trigger]
                is_function_of(name, node.operation.s_bbs_info()[0]) && s@ == r@.insert(
                    name,
                    if r@.dom().contains(name) {
                        r@[name].s_plus(cycles)
                    } else {
                        cycles
                    },
                ),
        },
{
    let n = before@.len();
    lemma_more_shares::<Op, N, LA, LD>(before@, node, bb_query@, lats@, n);
    assert(after@[n as int] == node);
    let t = shares::<Op, N, LA, LD>(after@, bb_query@, lats@);
    assert(t.len() == n + 1);
    assert(s@ == function_cycles(after@, t, n + 1));
    if node.operation.s_bbs_info().len() > 0 {
        let block = node.operation.s_bbs_info()[0];
        lemma_function_of(block);
        let name = before_mark(block, '#');
        assert(is_function_of(name, block));
    }
}

/// An expression without nodes has no function with cycles.
pub proof fn law_nothing_has_no_functions<Op, N, LA, LD>(
    expr: &RecExpr<Op>,
    bb_query: &BBQuery<N>,
    lats: &SiteMap<N>,
    r: TextMap<N>,
) where Op: Schedulable<N, LA, LD> + OperationInfo<N> + Teachable<N>, N: Number
    requires
        expr@.len() == 0,
        call_ensures(cycles_for_every_function::<Op, N, LA, LD>, (expr, bb_query, lats), r),
    ensures
        r@ == Map::<Seq<char>, N>::empty(),
{
}

/// The line of a node with its line break, where `area` is what it added; no
/// line where it adds no cycles.
pub open spec fn line_of<Op, N, LA, LD>(
    node: NodeView<Op>,
    at: nat,
    area: nat,
    q: QueryView<N>,
    lats: Map<(usize, Seq<Seq<char>>), N>,
) -> Seq<char> where Op: Schedulable<N, LA, LD> + OperationInfo<N> + Teachable<N>, N: Number {
    let bbs = node.operation.s_bbs_info();
    let runs = node.operation.s_execution_count(q);
    match added_cycles::<Op, N, LA, LD>(node, q, lats) {
        None => Seq::empty(),
        Some(cycles) => match binding_of::<Op, usize, N>(node) {
            Some(BindingExpr::Lib(id, _, _, _, lat_acc, _)) => "node="@ + decimal(at)
                + " kind=lib lib="@ + decimal(id.0 as nat) + " bbs="@ + texts_debug(bbs)
                + " exe_count="@ + runs.s_text() + " lat_acc="@ + (if lats.dom().contains(
                (id.0, bbs),
            ) {
                lats[(id.0, bbs)]
            } else {
                lat_acc
            }).s_text() + " cycles="@ + cycles.s_text() + " area_counted="@ + decimal(area)
                + seq!['\n'],
            _ => "node="@ + decimal(at) + " kind=op op="@ + node.operation.s_debug() + " bbs="@
                + texts_debug(bbs) + " exe_count="@ + runs.s_text() + " cpu_lat="@
                + <Op as Schedulable<N, LA, LD>>::s_latency_cpu(node, q).s_text() + " cycles="@
                + cycles.s_text() + seq!['\n'],
        },
    }
}

/// The cost line by line ends with the cost. One node more puts its line
/// before that end, with the cycles and the area that it adds.
pub proof fn law_one_more_node_has_its_line<Op, N, LA, LD>(
    before: &RecExpr<Op>,
    after: &RecExpr<Op>,
    node: NodeView<Op>,
    bb_query: &BBQuery<N>,
    lats: &SiteMap<N>,
    r: (N, usize),
    s: (N, usize),
    shorter: String,
    longer: String,
) where Op: Schedulable<N, LA, LD> + OperationInfo<N> + Teachable<N>, N: Number
    requires
        after@ == before@.push(node),
        lib_area(
            shares::<Op, N, LA, LD>(after@, bb_query@, lats@),
            after@.len(),
        ) <= usize::MAX,
        call_ensures(rec_cost::<Op, N, LA, LD>, (before, bb_query, lats), r),
        call_ensures(rec_cost::<Op, N, LA, LD>, (after, bb_query, lats), s),
        call_ensures(dump_rec_cost::<Op, N, LA, LD>, (before, bb_query, lats), shorter),
        call_ensures(dump_rec_cost::<Op, N, LA, LD>, (after, bb_query, lats), longer),
    ensures
        s.1 >= r.1,
        exists|lines: Seq<char>| #[trigger]
            ends_with_totals(lines, r, shorter@) && ends_with_totals(
                lines + line_of::<Op, N, LA, LD>(
                    node,
                    before@.len(),
                    (s.1 - r.1) as nat,
                    bb_query@,
                    lats@,
                ),
                s,
                longer@,
            ),
{
    law_one_more_node_costs::<Op, N, LA, LD>(before, after, node, bb_query, lats, r, s);
    let n = before@.len();
    lemma_more_shares::<Op, N, LA, LD>(before@, node, bb_query@, lats@, n);
    let sb = shares::<Op, N, LA, LD>(before@, bb_query@, lats@);
    let sa = shares::<Op, N, LA, LD>(after@, bb_query@, lats@);
    assert(sa.len() == n + 1 && sb.len() == n);
    assert(after@[n as int] == node);
    let lines = node_lines(before@, sb, bb_query@, n);
    let line = line_of::<Op, N, LA, LD>(node, n, (s.1 - r.1) as nat, bb_query@, lats@);
    assert(counted_area(sa, n as int) == s.1 - r.1);
    assert(node_lines(after@, sa, bb_query@, n + 1) =~= lines + line);
    assert(ends_with_totals(lines, r, shorter@)) by {
        assert(shorter@ =~= lines + ("total cycles="@ + r.0.s_text() + " area="@ + decimal(
            r.1 as nat,
        )));
    }
    assert(ends_with_totals(lines + line, s, longer@)) by {
        assert(longer@ =~= lines + line + ("total cycles="@ + s.0.s_text() + " area="@ + decimal(
            s.1 as nat,
        )));
    }
}

/// Whether a text is made of these lines and the totals.
pub open spec fn ends_with_totals<N: Number>(
    lines: Seq<char>,
    totals: (N, usize),
    text: Seq<char>,
) -> bool {
    text == lines + ("total cycles="@ + totals.0.s_text() + " area="@ + decimal(totals.1 as nat))
}

} // verus!
