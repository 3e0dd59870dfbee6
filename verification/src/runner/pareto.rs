//! The decisions of a run.
use crate::assoc::{SiteMap, TextMap};
use crate::ast_node::{AstNode, Identical, NodeView};
use crate::bb_query::BBQuery;
use crate::egraph::{EClass, EGraph};
use crate::expand::{distinct, distinct_rules, rule_views, ExpandMessage, Pattern, Rule};
use crate::extract::beam_pareto::{ClassMatch, ISAXCost};
use crate::id_map::{holds, law_retained, lemma_keys, lemma_put, lookup, IdMap};
use crate::number::Number;
use crate::rec_expr::RecExpr;
use crate::runner::config::ParetoConfig;
use crate::runner::operation::OperationInfo;
use crate::schedule::{
    cycles_for_every_function, function_cycles, lib_area, rec_cost, shares, total_cycles,
    Schedulable,
};
use crate::teachable::Teachable;
use crate::text::texts;
use crate::text_sort::{text_union, unite_texts};
use std::sync::Arc;
use vstd::prelude::*;

verus! {

// ---------------------------------------------------------------------------
// The runner
// ---------------------------------------------------------------------------

/// A run of library learning: the rules of the language, what was learned
/// earlier, and the settings.
#[derive(Debug)]
pub struct ParetoRunner<Op, T, N: Number, LA, LD, V, M> {
    /// The rules of the language.
    pub dsrs: Vec<Rule>,
    /// How often they are applied.
    pub dsr_rewrite_iters: usize,
    pub bb_query: BBQuery<N>,
    /// What was learned earlier.
    pub past_lib_message: ExpandMessage<Op, T>,
    pub config: ParetoConfig<N, LA, LD, V, M>,
    /// The rules that turn operations into operations on vectors.
    pub lift_dsrs: Vec<Rule>,
    /// The rules that turn them back.
    pub lower_dsrs: Vec<Rule>,
    /// The rules between operations on vectors.
    pub transform_dsrs: Vec<Rule>,
}

impl<Op, T, N: Number, LA, LD, V, M> ParetoRunner<Op, T, N, LA, LD, V, M> {
    /// A run without rules for vectors.
    pub fn new(
        dsrs: Vec<Rule>,
        dsr_rewrite_iters: usize,
        bb_query: BBQuery<N>,
        past_lib_message: ExpandMessage<Op, T>,
        config: ParetoConfig<N, LA, LD, V, M>,
    ) -> (r: Self)
        ensures
            r.dsrs == dsrs,
            r.dsr_rewrite_iters == dsr_rewrite_iters,
            r.bb_query == bb_query,
            r.past_lib_message == past_lib_message,
            r.config == config,
            r.lift_dsrs@.len() == 0,
            r.lower_dsrs@.len() == 0,
            r.transform_dsrs@.len() == 0,
    {
        ParetoRunner {
            dsrs,
            dsr_rewrite_iters,
            bb_query,
            past_lib_message,
            config,
            lift_dsrs: Vec::new(),
            lower_dsrs: Vec::new(),
            transform_dsrs: Vec::new(),
        }
    }

    /// Uses these rules for vectors.
    pub fn with_vectorize_dsrs(
        &mut self,
        lift_dsrs: Vec<Rule>,
        lower_dsrs: Vec<Rule>,
        transform_dsrs: Vec<Rule>,
    )
        ensures
            *final(self) == (ParetoRunner {
                lift_dsrs,
                lower_dsrs,
                transform_dsrs,
                ..*old(self)
            }),
    {
        self.lift_dsrs = lift_dsrs;
        self.lower_dsrs = lower_dsrs;
        self.transform_dsrs = transform_dsrs;
    }
}

/// Where the library functions of a run come from.
#[derive(Clone, Copy, Debug, PartialEq, Eq, Structural)]
pub enum LearnFrom {
    /// From a search for packs of operations.
    Packs,
    /// From the vectors that were found.
    Vectors,
    /// From what expressions have in common.
    Expressions,
}

/// Where the library functions of a run come from: a search for packs, where
/// it is asked for; otherwise from the vectors, where they are looked for.
pub fn learn_from(vectorize: bool, enable_meta_au: bool) -> (r: LearnFrom)
    ensures
        r == if enable_meta_au {
            LearnFrom::Packs
        } else if vectorize {
            LearnFrom::Vectors
        } else {
            LearnFrom::Expressions
        },
{
    if enable_meta_au {
        LearnFrom::Packs
    } else if vectorize {
        LearnFrom::Vectors
    } else {
        LearnFrom::Expressions
    }
}

// ---------------------------------------------------------------------------
// Before learning
// ---------------------------------------------------------------------------

/// The basic blocks of the first `k` roots, each once.
pub open spec fn root_blocks<Op, N: Number, T>(
    g: EGraph<Op, ISAXCost<N, T>>,
    roots: Seq<usize>,
    k: nat,
) -> Seq<Seq<char>>
    decreases k,
{
    if k == 0 {
        Seq::empty()
    } else {
        text_union(root_blocks(g, roots, (k - 1) as nat), g.class(roots[k - 1]).data@.bb)
    }
}

/// The node that joins several roots: a list of them in all their basic
/// blocks. A single root needs none.
pub fn join_roots<Op, N, T>(egraph: &EGraph<Op, ISAXCost<N, T>>, roots: &Vec<usize>) -> (r: Option<
    AstNode<Op>,
>) where Op: OperationInfo<N> + Teachable<N>, N: Number
    requires
        egraph.wf(),
        roots@.len() > 0,
        forall|i: int| 0 <= i < roots@.len() ==> (#[trigger] roots@[i]) < egraph.slots@.len(),
    ensures
        match r {
            None => roots@.len() == 1,
            Some(node) => {
                &&& roots@.len() > 1
                &&& node@.args == roots@
                &&& <Op as Teachable<N>>::s_list().s_moved(
                    node@.operation,
                    root_blocks(*egraph, roots@, roots@.len()),
                )
            },
        },
{
    let n: usize = roots.len();
    if n == 1 {
        return None;
    }
    let mut bbs: Vec<String> = Vec::new();
    let mut args: Vec<usize> = Vec::new();
    assert(texts(bbs@) =~= root_blocks(*egraph, roots@, 0));
    for i in 0..n
        invariant
            egraph.wf(),
            n == roots@.len(),
            forall|i: int| 0 <= i < roots@.len() ==> (#[trigger] roots@[i]) < egraph.slots@.len(),
            texts(bbs@) == root_blocks(*egraph, roots@, i as nat),
            args@ == roots@.take(i as int),
    {
        assert(roots@[i as int] < egraph.slots@.len());
        bbs = unite_texts(&bbs, &egraph.get(roots[i]).data.bb);
        args.push(roots[i]);
        assert(args@ =~= roots@.take(i + 1));
    }
    assert(args@ =~= roots@);
    let mut op: Op = <Op as Teachable<N>>::list();
    op.set_bbs_info(bbs);
    Some(AstNode::new(op, args))
}

/// Whether a node has got the types of its class, unless it has types of its
/// own.
pub open spec fn typed<Op: OperationInfo<N>, N: Number>(
    before: NodeView<Op>,
    after: NodeView<Op>,
    types: Seq<Seq<char>>,
) -> bool {
    &&& after.args == before.args
    &&& exists|own: Vec<String>| #[trigger]
        call_ensures(Op::get_result_type, (&before.operation,), own) && if own@.len() == 0 {
            before.operation.s_retyped(after.operation, types)
        } else {
            after.operation == before.operation
        }
}

/// Gives each node without result types those of its class.
pub fn fill_result_types<Op, N, D>(egraph: &mut EGraph<Op, D>) where
    Op: OperationInfo<N>,
    N: Number,
    D: ClassMatch,

    requires
        old(egraph).wf(),
    ensures
        final(egraph).wf(),
        final(egraph).slots@ == old(egraph).slots@,
        final(egraph).classes@.len() == old(egraph).classes@.len(),
        forall|k: int|
            0 <= k < old(egraph).classes@.len() ==> class_typed::<Op, N, D>(
                old(egraph).classes@[k],
                #[trigger] final(egraph).classes@[k],
            ),
{
    let ghost g = *egraph;
    let count: usize = egraph.classes.len();
    for c in 0..count
        invariant
            g.wf(),
            egraph.slots@ == g.slots@,
            count == g.classes@.len() == egraph.classes@.len(),
            forall|k: int|
                0 <= k < c ==> class_typed::<Op, N, D>(g.classes@[k], #[trigger] egraph.classes@[k]),
            forall|k: int| c <= k < count ==> (#[trigger] egraph.classes@[k]) == g.classes@[k],
    {
        assert(egraph.classes@[c as int] == g.classes@[c as int]);
        let class: &mut EClass<Op, D> = &mut egraph.classes[c];
        fill_class::<Op, N, D>(class);
    }
    proof {
        assert forall|k: int| 0 <= k < egraph.classes@.len() implies (
        #[trigger] egraph.classes@[k]).id < egraph.slots@.len()
            && egraph.slots@[egraph.classes@[k].id as int] == k by {
            assert(class_typed::<Op, N, D>(g.classes@[k], egraph.classes@[k]));
            assert(g.classes@[k].id < g.slots@.len());
        }
        assert forall|k: int, n: int|
            0 <= k < egraph.classes@.len() && 0 <= n < egraph.classes@[k].nodes@.len()
                implies #[trigger] egraph.args_valid(egraph.classes@[k].nodes@[n]@) by {
            assert(class_typed::<Op, N, D>(g.classes@[k], egraph.classes@[k]));
            assert(g.args_valid(g.classes@[k].nodes@[n]@));
            let after = egraph.classes@[k];
            assert(typed::<Op, N>(
                g.classes@[k].nodes@[n]@,
                after.nodes@[n]@,
                g.classes@[k].data.s_types(),
            ));
        }
    }
}

/// Whether the nodes of a class have got its types.
pub open spec fn class_typed<Op: OperationInfo<N>, N: Number, D: ClassMatch>(
    before: EClass<Op, D>,
    after: EClass<Op, D>,
) -> bool {
    &&& after.id == before.id
    &&& after.data == before.data
    &&& after.nodes@.len() == before.nodes@.len()
    &&& forall|n: int|
        0 <= n < before.nodes@.len() ==> typed::<Op, N>(
            before.nodes@[n]@,
            (#[trigger] after.nodes@[n])@,
            before.data.s_types(),
        )
}

fn fill_class<Op, N, D>(class: &mut EClass<Op, D>) where
    Op: OperationInfo<N>,
    N: Number,
    D: ClassMatch,

    ensures
        class_typed::<Op, N, D>(*old(class), *final(class)),
{
    let ghost start = *class;
    let n: usize = class.nodes.len();
    for i in 0..n
        invariant
            n == start.nodes@.len() == class.nodes@.len(),
            class.id == start.id,
            class.data == start.data,
            forall|k: int|
                0 <= k < i ==> typed::<Op, N>(
                    start.nodes@[k]@,
                    (#[trigger] class.nodes@[k])@,
                    start.data.s_types(),
                ),
            forall|k: int| i <= k < n ==> (#[trigger] class.nodes@[k]) == start.nodes@[k],
    {
        assert(class.nodes@[i as int] == start.nodes@[i as int]);
        let own: Vec<String> = class.nodes[i].operation.get_result_type();
        assert(call_ensures(
            Op::get_result_type,
            (&start.nodes@[i as int]@.operation,),
            own,
        ));
        if own.len() == 0 {
            let types: Vec<String> = class.data.get_type();
            let op: &mut Op = &mut class.nodes[i].operation;
            op.set_result_type(types);
        }
    }
}

// ---------------------------------------------------------------------------
// After extraction
// ---------------------------------------------------------------------------

/// What was extracted for a selection: the expression, the library functions
/// that it uses, its cycles and its area, the cycles of each function, and how
/// often each library function is used.
#[derive(Debug)]
pub struct ExtractResult<Op, N: Number> {
    pub expr: RecExpr<Op>,
    pub libs: IdMap<Arc<Pattern<Op>>>,
    pub cycles: N,
    pub area: usize,
    pub func_cycles: TextMap<N>,
    pub lib_reuses: IdMap<usize>,
}

impl<Op, N: Number> ExtractResult<Op, N> {
    pub fn new(
        expr: RecExpr<Op>,
        libs: IdMap<Arc<Pattern<Op>>>,
        cycles: N,
        area: usize,
        func_cycles: TextMap<N>,
        lib_reuses: IdMap<usize>,
    ) -> (r: Self)
        ensures
            r == (ExtractResult { expr, libs, cycles, area, func_cycles, lib_reuses }),
    {
        ExtractResult { expr, libs, cycles, area, func_cycles, lib_reuses }
    }
}

/// Whether two expressions have the same nodes.
pub open spec fn same_exprs<Op: Identical>(a: Seq<NodeView<Op>>, b: Seq<NodeView<Op>>) -> bool {
    &&& a.len() == b.len()
    &&& forall|i: int|
        0 <= i < a.len() ==> (#[trigger] a[i]).operation.s_identical(&b[i].operation) && a[i].args
            == b[i].args
}

fn same_ids(a: &Vec<usize>, b: &Vec<usize>) -> (r: bool)
    ensures
        r == (a@ == b@),
{
    if a.len() != b.len() {
        return false;
    }
    let n: usize = a.len();
    for i in 0..n
        invariant
            n == a@.len() == b@.len(),
            forall|k: int| 0 <= k < i ==> a@[k] == b@[k],
    {
        if a[i] != b[i] {
            assert(a@[i as int] != b@[i as int]);
            return false;
        }
    }
    assert(a@ =~= b@);
    true
}

impl<Op: Identical, N: Number> ExtractResult<Op, N> {
    /// Whether two results have the same expression, cycles and area.
    pub fn same(&self, other: &Self) -> (r: bool)
        ensures
            r == (same_exprs(self.expr@, other.expr@) && self.cycles.s_equals(other.cycles)
                && self.area == other.area),
    {
        let n: usize = self.expr.nodes.len();
        if n != other.expr.nodes.len() {
            return false;
        }
        for i in 0..n
            invariant
                n == self.expr@.len() == other.expr@.len(),
                forall|k: int|
                    0 <= k < i ==> (#[trigger] self.expr@[k]).operation.s_identical(
                        &other.expr@[k].operation,
                    ) && self.expr@[k].args == other.expr@[k].args,
        {
            let a: &AstNode<Op> = &self.expr.nodes[i];
            let b: &AstNode<Op> = &other.expr.nodes[i];
            assert(self.expr@[i as int] == a@ && other.expr@[i as int] == b@);
            if !a.operation.identical(&b.operation) || !same_ids(&a.args, &b.args) {
                return false;
            }
        }
        self.cycles.equals(other.cycles) && self.area == other.area
    }
}

/// How many of the first `n` nodes use a library function.
pub open spec fn lib_uses<Op: OperationInfo<N>, N: Number>(
    e: Seq<NodeView<Op>>,
    id: usize,
    n: nat,
) -> nat
    decreases n,
{
    if n == 0 {
        0
    } else {
        lib_uses::<Op, N>(e, id, (n - 1) as nat) + if e[n - 1].operation.s_is_lib()
            && e[n - 1].operation.s_libid() == id {
            1nat
        } else {
            0
        }
    }
}

/// The number, where it is not zero.
pub open spec fn if_used(n: nat) -> Option<usize> {
    if n > 0 {
        Some(n as usize)
    } else {
        None
    }
}

proof fn lemma_lib_uses<Op: OperationInfo<N>, N: Number>(
    e: Seq<NodeView<Op>>,
    id: usize,
    n: nat,
)
    ensures
        lib_uses::<Op, N>(e, id, n) <= n,
    decreases n,
{
    if n > 0 {
        lemma_lib_uses::<Op, N>(e, id, (n - 1) as nat);
    }
}

/// Counts how often an expression uses each library function.
pub fn count_reuses<Op: OperationInfo<N>, N: Number>(expr: &RecExpr<Op>) -> (r: IdMap<usize>)
    ensures
        r.wf(),
        forall|id: usize|
            #![trigger lookup(r.entries@, id)]
            lookup(r.entries@, id) == if_used(lib_uses::<Op, N>(expr@, id, expr@.len())),
{
    let mut r: IdMap<usize> = IdMap::new();
    let n: usize = expr.nodes.len();
    for i in 0..n
        invariant
            n == expr@.len(),
            r.wf(),
            forall|id: usize|
                #![trigger lookup(r.entries@, id)]
                lookup(r.entries@, id) == if_used(lib_uses::<Op, N>(expr@, id, i as nat)),
    {
        let node: &AstNode<Op> = &expr.nodes[i];
        assert(expr@[i as int] == node@);
        let ghost before = r.entries@;
        if node.operation.is_lib() {
            let id: usize = node.operation.get_libid();
            proof {
                lemma_lib_uses::<Op, N>(expr@, id, i as nat);
                assert(lookup(before, id) == if_used(lib_uses::<Op, N>(expr@, id, i as nat)));
            }
            let uses: usize = match r.get(id) {
                Some(k) => *k,
                None => 0,
            };
            r.insert(id, uses + 1);
            proof {
                lemma_put(before, id, (uses + 1) as usize);
                assert forall|k: usize|
                    #![trigger lookup(r.entries@, k)]
                    lookup(r.entries@, k) == if_used(
                        lib_uses::<Op, N>(expr@, k, (i + 1) as nat),
                    ) by {
                    assert(lookup(before, k) == if_used(lib_uses::<Op, N>(expr@, k, i as nat)));
                }
            }
        } else {
            assert forall|k: usize|
                #![trigger lookup(r.entries@, k)]
                lookup(r.entries@, k) == if_used(lib_uses::<Op, N>(expr@, k, (i + 1) as nat)) by {
                assert(lookup(before, k) == if_used(lib_uses::<Op, N>(expr@, k, i as nat)));
            }
        }
    }
    r
}

/// Draws up what was extracted for a selection. Only the library functions
/// that the expression uses are kept.
pub fn conclude<Op, N, LA, LD>(
    best: RecExpr<Op>,
    libs: IdMap<Arc<Pattern<Op>>>,
    exact: &SiteMap<N>,
    bb_query: &BBQuery<N>,
) -> (r: ExtractResult<Op, N>) where
    Op: Schedulable<N, LA, LD> + OperationInfo<N> + Teachable<N>,
    N: Number,

    requires
        libs.wf(),
        exact.wf(),
        bb_query.wf(),
        lib_area(
            shares::<Op, N, LA, LD>(best@, bb_query@, exact@),
            best@.len(),
        ) <= usize::MAX,
    ensures
        r.expr == best,
        r.libs.wf(),
        r.lib_reuses.wf(),
        forall|id: usize|
            #![trigger lookup(r.lib_reuses.entries@, id)]
            lookup(r.lib_reuses.entries@, id) == if_used(
                lib_uses::<Op, N>(best@, id, best@.len()),
            ),
        forall|id: usize|
            #![trigger lookup(r.libs.entries@, id)]
            lookup(r.libs.entries@, id) == if lib_uses::<Op, N>(best@, id, best@.len()) > 0 {
                lookup(libs.entries@, id)
            } else {
                None
            },
        ({
            let s = shares::<Op, N, LA, LD>(best@, bb_query@, exact@);
            &&& r.cycles == total_cycles(s, best@.len())
            &&& r.area == lib_area(s, best@.len())
            &&& r.func_cycles.wf()
            &&& r.func_cycles@ == function_cycles(best@, s, best@.len())
        }),
{
    let lib_reuses: IdMap<usize> = count_reuses::<Op, N>(&best);
    let used: Vec<usize> = lib_reuses.ids();
    let mut libs = libs;
    let ghost before = libs.entries@;
    libs.retain(&used);
    proof {
        assert forall|id: usize|
            #![trigger lookup(libs.entries@, id)]
            lookup(libs.entries@, id) == if lib_uses::<Op, N>(best@, id, best@.len()) > 0 {
                lookup(before, id)
            } else {
                None
            } by {
            law_retained(before, used@, id);
            lemma_keys(lib_reuses.entries@, id);
            assert(lookup(lib_reuses.entries@, id) == if_used(
                lib_uses::<Op, N>(best@, id, best@.len()),
            ));
        }
    }
    let (cycles, area) = rec_cost::<Op, N, LA, LD>(&best, bb_query, exact);
    let func_cycles: TextMap<N> = cycles_for_every_function::<Op, N, LA, LD>(
        &best,
        bb_query,
        exact,
    );
    ExtractResult::new(best, libs, cycles, area, func_cycles, lib_reuses)
}

/// The result of a run.
#[derive(Debug)]
pub struct ParetoResult<Op, T, N: Number, D> {
    /// The number of rules that were chosen.
    pub num_libs: usize,
    pub extract_results: Vec<ExtractResult<Op, N>>,
    /// The e-graph with vectors and its root, where vectors were looked for.
    pub vectorized_egraph_with_root: Option<(EGraph<Op, D>, usize)>,
    /// What is known of the library functions that were chosen.
    pub lib_message: ExpandMessage<Op, T>,
    /// How long the run took, in milliseconds.
    pub run_time: u64,
    /// The classes and the nodes of the e-graph that was learned from.
    pub egraph_size: (usize, usize),
}

/// Whether a result uses a library function.
pub open spec fn is_chosen<Op, N: Number>(results: Seq<ExtractResult<Op, N>>, id: usize) -> bool {
    exists|i: int| 0 <= i < results.len() && holds((#[trigger] results[i]).libs.entries@, id)
}

/// What is known of a library function, where it was chosen.
pub open spec fn if_chosen<V>(chosen: bool, known: Option<V>) -> Option<V> {
    if chosen {
        known
    } else {
        None
    }
}

/// Whether a message knows of a library function what another one knew,
/// where it was chosen, and nothing otherwise.
pub open spec fn narrowed<Op, T>(
    before: ExpandMessage<Op, T>,
    after: ExpandMessage<Op, T>,
    chosen: bool,
    id: usize,
) -> bool {
    &&& lookup(after.rewrites_conditions.entries@, id) == if_chosen(
        chosen,
        lookup(before.rewrites_conditions.entries@, id),
    )
    &&& lookup(after.searchers.entries@, id) == if_chosen(
        chosen,
        lookup(before.searchers.entries@, id),
    )
    &&& lookup(after.appliers.entries@, id) == if_chosen(
        chosen,
        lookup(before.appliers.entries@, id),
    )
    &&& lookup(after.lib_search_results.entries@, id) == if_chosen(
        chosen,
        lookup(before.lib_search_results.entries@, id),
    )
    &&& after.meta_libs@.contains(id) <==> chosen && before.meta_libs@.contains(id)
}

fn chosen_ids<Op, N: Number>(results: &Vec<ExtractResult<Op, N>>) -> (r: Vec<usize>)
    ensures
        forall|id: usize| #[trigger] r@.contains(id) <==> is_chosen(results@, id),
{
    let mut r: Vec<usize> = Vec::new();
    let n: usize = results.len();
    for i in 0..n
        invariant
            n == results@.len(),
            forall|id: usize| #[trigger]
                r@.contains(id) <==> is_chosen(results@.take(i as int), id),
    {
        let mut more: Vec<usize> = results[i].libs.ids();
        let ghost before = r@;
        let ghost new = more@;
        let ghost a = results@.take(i as int);
        let ghost b = results@.take(i + 1);
        r.append(&mut more);
        proof {
            assert(b =~= a.push(results@[i as int]));
            assert(r@ =~= before + new);
            assert forall|id: usize| #[trigger] r@.contains(id) <==> is_chosen(b, id) by {
                lemma_keys(results@[i as int].libs.entries@, id);
                assert(before.contains(id) <==> is_chosen(a, id));
                if before.contains(id) {
                    let k = choose|k: int| 0 <= k < before.len() && before[k] == id;
                    assert(r@[k] == id);
                }
                if new.contains(id) {
                    let k = choose|k: int| 0 <= k < new.len() && new[k] == id;
                    assert(r@[before.len() + k] == id);
                    assert(b[i as int] == results@[i as int]);
                }
                if r@.contains(id) {
                    let k = choose|k: int| 0 <= k < r@.len() && r@[k] == id;
                    if k < before.len() {
                        assert(before[k] == id);
                    } else {
                        assert(new[k - before.len()] == id);
                    }
                }
                if is_chosen(a, id) {
                    let k = choose|k: int|
                        0 <= k < a.len() && holds((#[trigger] a[k]).libs.entries@, id);
                    assert(b[k] == a[k]);
                }
                if is_chosen(b, id) {
                    let k = choose|k: int|
                        0 <= k < b.len() && holds((#[trigger] b[k]).libs.entries@, id);
                    if k < i {
                        assert(a[k] == b[k]);
                    }
                }
            }
        }
    }
    assert(results@.take(n as int) =~= results@);
    r
}

proof fn lemma_numbers_in(s: Seq<usize>, ids: Seq<usize>, n: nat, id: usize)
    requires
        n <= s.len(),
    ensures
        crate::expand::numbers_in(s, ids, n).contains(id) <==> ids.contains(id) && s.take(
            n as int,
        ).contains(id),
    decreases n,
{
    if n > 0 {
        lemma_numbers_in(s, ids, (n - 1) as nat, id);
        let t = crate::expand::numbers_in(s, ids, n);
        let u = crate::expand::numbers_in(s, ids, (n - 1) as nat);
        let a = s.take(n - 1);
        let b = s.take(n as int);
        assert(b =~= a.push(s[n - 1]));
        if u.contains(id) {
            let k = choose|k: int| 0 <= k < u.len() && u[k] == id;
            assert(t[k] == id);
        }
        if ids.contains(s[n - 1]) {
            assert(t[u.len() as int] == s[n - 1]);
        }
        if t.contains(id) && id != s[n - 1] {
            let k = choose|k: int| 0 <= k < t.len() && t[k] == id;
            assert(u[k] == id);
        }
        if a.contains(id) {
            let k = choose|k: int| 0 <= k < a.len() && a[k] == id;
            assert(b[k] == id);
        }
        assert(b[n - 1] == s[n - 1]);
        if b.contains(id) && id != s[n - 1] {
            let k = choose|k: int| 0 <= k < b.len() && b[k] == id;
            assert(a[k] == id);
        }
    }
}

/// Draws up the result of a run. What is known of library functions is
/// narrowed down to those that a result uses, and each rule that was chosen
/// counts once.
pub fn summarize<Op, T, N: Number, D>(
    extract_results: Vec<ExtractResult<Op, N>>,
    lib_message: ExpandMessage<Op, T>,
    chosen_rules: Vec<Rule>,
    vectorized_egraph_with_root: Option<(EGraph<Op, D>, usize)>,
    run_time: u64,
    egraph_size: (usize, usize),
) -> (r: ParetoResult<Op, T, N, D>)
    requires
        lib_message.wf(),
    ensures
        r.num_libs == distinct_rules(rule_views(chosen_rules@)).len(),
        r.extract_results == extract_results,
        r.vectorized_egraph_with_root == vectorized_egraph_with_root,
        r.run_time == run_time,
        r.egraph_size == egraph_size,
        r.lib_message.wf(),
        forall|id: usize|
            #![trigger is_chosen(extract_results@, id)]
            narrowed(lib_message, r.lib_message, is_chosen(extract_results@, id), id),
{
    let ids: Vec<usize> = chosen_ids(&extract_results);
    let mut lib_message = lib_message;
    let ghost before = lib_message;
    lib_message.retain_with_ids(&ids);
    proof {
        assert forall|id: usize|
            #![trigger is_chosen(extract_results@, id)]
            narrowed(before, lib_message, is_chosen(extract_results@, id), id) by {
            assert(ids@.contains(id) <==> is_chosen(extract_results@, id));
            law_retained(before.rewrites_conditions.entries@, ids@, id);
            law_retained(before.searchers.entries@, ids@, id);
            law_retained(before.appliers.entries@, ids@, id);
            law_retained(before.lib_search_results.entries@, ids@, id);
            lemma_numbers_in(before.meta_libs@, ids@, before.meta_libs@.len(), id);
            assert(before.meta_libs@.take(before.meta_libs@.len() as int) =~= before.meta_libs@);
        }
    }
    let rules: Vec<Rule> = distinct(chosen_rules);
    assert(rule_views(rules@).len() == rules@.len());
    ParetoResult {
        num_libs: rules.len(),
        extract_results,
        vectorized_egraph_with_root,
        lib_message,
        run_time,
        egraph_size,
    }
}

} // verus!
