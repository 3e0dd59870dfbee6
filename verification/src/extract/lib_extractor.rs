//! Extracting the cheapest expression of a class, where the definitions of
//! library functions may not use the functions themselves.
use crate::assoc::SiteMap;
use crate::ast_node::expr::{
    append_shifted, lemma_unfold_args, lemma_unfold_prefix, lemma_unfold_shifted, root_tree, unfold,
    Tree,
};
use crate::ast_node::{AstNode, Duplicate, Identical, NodeView};
use crate::bb_query::{BBQuery, QueryView};
use crate::egraph::{EClass, EGraph};
use crate::extract::beam_pareto::ParetoCost;
use crate::extract::extraction_laws::{
    complete, complete_below, has_expr, lemma_extraction_is_complete,
};
use crate::extract::lib_context::{with_id, LibContext};
use crate::extract::memo::Memo;
use crate::extract::sharing::{share, shared};
use crate::id_map::{increasing, lemma_slot, slot};
use crate::number::{ranks_before, Number};
use crate::rec_expr::{points_back, well_ordered, RecExpr};
use crate::runner::operation::OperationInfo;
use crate::schedule::{
    lib_area, rec_cost, rec_cycles, shares, total_cycles, Schedulable,
};
use crate::teachable::{binding_of, BindingExpr, Teachable};
use vstd::prelude::*;
use vstd::set_lib::set_int_range;

verus! {

/// What an extraction has found so far.
#[verifier::ext_equal]
pub struct Found<Op, N> {
    /// For each class and context that was visited, where its result stands.
    pub memo: Map<(usize, Seq<usize>), usize>,
    /// The results, `None` where there is none yet.
    pub exprs: Seq<Option<Seq<NodeView<Op>>>>,
    /// Their costs, where they are known.
    pub costs: Seq<Option<N>>,
    /// The library functions inside whose definitions the extraction is.
    pub context: Seq<usize>,
}

/// The cycles of an expression.
pub open spec fn cycles_of<Op, N, LA, LD>(e: Seq<NodeView<Op>>, q: QueryView<N>) -> N where
    Op: Schedulable<N, LA, LD> + OperationInfo<N> + Teachable<N>,
    N: Number,
 {
    total_cycles(shares::<Op, N, LA, LD>(e, q, Map::empty()), e.len())
}

impl<Op, N> Found<Op, N> {
    /// The key of a class in the current context.
    pub open spec fn key(self, id: usize) -> (usize, Seq<usize>) {
        (id, self.context)
    }

    /// Whether the class was visited in the current context.
    pub open spec fn visited(self, id: usize) -> bool {
        self.memo.dom().contains(self.key(id))
    }

    /// The expression that was found for the class in the current context.
    pub open spec fn result(self, id: usize) -> Option<Seq<NodeView<Op>>> {
        if self.visited(id) {
            self.exprs[self.memo[self.key(id)] as int]
        } else {
            None
        }
    }

    /// The state with another context.
    pub open spec fn within(self, context: Seq<usize>) -> Self {
        Found { context, ..self }
    }
}

/// The state with a result for a class in the current context. Equal parts of
/// an expression are made one node.
pub open spec fn noted<Op: Identical, N>(
    st: Found<Op, N>,
    id: usize,
    val: Option<Seq<NodeView<Op>>>,
    cost: Option<N>,
) -> Found<Op, N> {
    Found {
        memo: st.memo.insert(st.key(id), st.exprs.len() as usize),
        exprs: st.exprs.push(
            match val {
                Some(e) => Some(shared(e)),
                None => None,
            },
        ),
        costs: st.costs.push(cost),
        context: st.context,
    }
}

/// The state after a candidate is held against the result so far: it takes
/// its place unless it costs more.
pub open spec fn considered<Op, N, LA, LD>(
    st: Found<Op, N>,
    q: QueryView<N>,
    id: usize,
    cand: Seq<NodeView<Op>>,
) -> Found<Op, N> where
    Op: Schedulable<N, LA, LD> + OperationInfo<N> + Teachable<N> + Identical,
    N: Number,
 {
    let cost = cycles_of::<Op, N, LA, LD>(cand, q);
    match st.result(id) {
        None => noted(st, id, Some(cand), Some(cost)),
        Some(prev) => {
            let at = st.memo[st.key(id)] as int;
            let prev_cost = match st.costs[at] {
                Some(c) => c,
                None => cycles_of::<Op, N, LA, LD>(prev, q),
            };
            let s = Found { costs: st.costs.update(at, Some(prev_cost)), ..st };
            if ranks_before(prev_cost, cost) {
                s
            } else {
                noted(s, id, Some(cand), Some(cost))
            }
        },
    }
}

/// The nodes with their arguments counted from `off`.
pub open spec fn shifted<Op>(e: Seq<NodeView<Op>>, off: nat) -> Seq<NodeView<Op>> {
    Seq::new(
        e.len(),
        |i: int|
            NodeView {
                operation: e[i].operation,
                args: Seq::new(e[i].args.len(), |j: int| (e[i].args[j] + off) as usize),
            },
    )
}

/// The state after the class `id` is extracted in the current context, where
/// `fuel` bounds the depth.
pub open spec fn extracted<Op, N, LA, LD, D>(
    g: EGraph<Op, D>,
    q: QueryView<N>,
    id: usize,
    st: Found<Op, N>,
    fuel: nat,
) -> Found<Op, N> where
    Op: Schedulable<N, LA, LD> + OperationInfo<N> + Teachable<N> + Identical,
    N: Number,

    decreases fuel, 0nat, 0nat,
{
    if st.visited(id) || fuel == 0 {
        st
    } else {
        nodes_tried::<Op, N, LA, LD, D>(
            g,
            q,
            id,
            g.class(id).nodes@.len(),
            noted(st, id, None, None),
            (fuel - 1) as nat,
        )
    }
}

/// The state after the first `k` nodes of the class are tried.
pub open spec fn nodes_tried<Op, N, LA, LD, D>(
    g: EGraph<Op, D>,
    q: QueryView<N>,
    id: usize,
    k: nat,
    st: Found<Op, N>,
    fuel: nat,
) -> Found<Op, N> where
    Op: Schedulable<N, LA, LD> + OperationInfo<N> + Teachable<N> + Identical,
    N: Number,

    decreases fuel, 3nat, k,
{
    if k == 0 {
        st
    } else {
        let before = nodes_tried::<Op, N, LA, LD, D>(g, q, id, (k - 1) as nat, st, fuel);
        let node = g.class(id).nodes@[k - 1]@;
        let (after, cand) = node_extracted::<Op, N, LA, LD, D>(g, q, node, before, fuel);
        match cand {
            None => after,
            Some(e) => considered::<Op, N, LA, LD>(after, q, id, e),
        }
    }
}

/// The library function that a node defines.
pub open spec fn defined_lib<Op: Teachable<N>, N: Number>(node: NodeView<Op>) -> Option<usize> {
    match binding_of::<Op, usize, N>(node) {
        Some(BindingExpr::Lib(id, _, _, _, _, _)) => Some(id.0),
        _ => None,
    }
}

/// The context in which the argument `j` of a node stands: the first argument
/// of a definition of a library function stands inside that definition.
pub open spec fn arg_context<Op: Teachable<N>, N: Number>(
    node: NodeView<Op>,
    context: Seq<usize>,
    j: int,
) -> Seq<usize> {
    match defined_lib::<Op, N>(node) {
        Some(lib) => if j == 0 {
            with_id(context, lib)
        } else {
            context
        },
        None => context,
    }
}

/// The state after a node is extracted, and the expression. A definition of a
/// library function inside its own definition gives none.
pub open spec fn node_extracted<Op, N, LA, LD, D>(
    g: EGraph<Op, D>,
    q: QueryView<N>,
    node: NodeView<Op>,
    st: Found<Op, N>,
    fuel: nat,
) -> (Found<Op, N>, Option<Seq<NodeView<Op>>>) where
    Op: Schedulable<N, LA, LD> + OperationInfo<N> + Teachable<N> + Identical,
    N: Number,

    decreases fuel, 2nat, node.args.len() + 1,
{
    match defined_lib::<Op, N>(node) {
        Some(lib) => if st.context.contains(lib) {
            (st, None)
        } else {
            args_extracted::<Op, N, LA, LD, D>(g, q, node, 0, Seq::empty(), Seq::empty(), st, fuel)
        },
        None => args_extracted::<Op, N, LA, LD, D>(
            g,
            q,
            node,
            0,
            Seq::empty(),
            Seq::empty(),
            st,
            fuel,
        ),
    }
}

/// The state after the arguments from `cur` on are extracted behind
/// `partial`, and the expression.
pub open spec fn args_extracted<Op, N, LA, LD, D>(
    g: EGraph<Op, D>,
    q: QueryView<N>,
    node: NodeView<Op>,
    cur: nat,
    partial: Seq<NodeView<Op>>,
    ids: Seq<usize>,
    st: Found<Op, N>,
    fuel: nat,
) -> (Found<Op, N>, Option<Seq<NodeView<Op>>>) where
    Op: Schedulable<N, LA, LD> + OperationInfo<N> + Teachable<N> + Identical,
    N: Number,

    decreases fuel, 2nat, node.args.len() - cur,
{
    if cur >= node.args.len() {
        (st, Some(partial.push(NodeView { operation: node.operation, args: ids })))
    } else {
        let inner = arg_context::<Op, N>(node, st.context, cur as int);
        let arg = node.args[cur as int];
        let s = extracted::<Op, N, LA, LD, D>(g, q, arg, st.within(inner), fuel);
        match s.result(arg) {
            None => (s.within(st.context), None),
            Some(e) => {
                let more = partial + shifted(e, partial.len());
                args_extracted::<Op, N, LA, LD, D>(
                    g,
                    q,
                    node,
                    cur + 1,
                    more,
                    ids.push((more.len() - 1) as usize),
                    s.within(st.context),
                    fuel,
                )
            },
        }
    }
}

/// Whether a class has a node that stands for the tree.
pub open spec fn represents<Op, D>(g: EGraph<Op, D>, id: usize, t: Tree<Op>) -> bool
    decreases t, 1nat,
{
    exists|n: int|
        0 <= n < g.class(id).nodes@.len() && stands_for(g, (#[trigger] g.class(id).nodes@[n])@, t)
}

/// Whether a node stands for the tree: it has its operation, and its
/// arguments are classes that represent the parts.
pub open spec fn stands_for<Op, D>(g: EGraph<Op, D>, node: NodeView<Op>, t: Tree<Op>) -> bool
    decreases t, 0nat,
{
    &&& node.operation == t.operation
    &&& node.args.len() == t.args.len()
    &&& forall|j: int|
        0 <= j < t.args.len() ==> represents(g, node.args[j], #[trigger] t.args[j])
}

/// Whether no library function of the context is defined in the tree, nor any
/// library function inside its own definition.
pub open spec fn allowed<Op: Teachable<N>, N: Number>(t: Tree<Op>, context: Seq<usize>) -> bool
    decreases t,
{
    let node = NodeView { operation: t.operation, args: Seq::new(t.args.len(), |j: int| 0usize) };
    &&& match defined_lib::<Op, N>(node) {
        Some(lib) => !context.contains(lib),
        None => true,
    }
    &&& forall|j: int|
        0 <= j < t.args.len() ==> allowed::<Op, N>(
            #[trigger] t.args[j],
            arg_context::<Op, N>(node, context, j),
        )
}

/// Whether an e-graph holds a definition of the library function.
pub open spec fn defines<Op: Teachable<N>, N: Number, D>(g: EGraph<Op, D>, lib: usize) -> bool {
    exists|k: int, n: int|
        0 <= k < g.classes@.len() && 0 <= n < g.classes@[k].nodes@.len() && defined_lib::<Op, N>(
            (#[trigger] g.classes@[k].nodes@[n])@,
        ) == Some(lib)
}

/// Whether a context is made of library functions that the e-graph defines.
pub open spec fn context_of<Op: Teachable<N>, N: Number, D>(
    g: EGraph<Op, D>,
    context: Seq<usize>,
) -> bool {
    increasing(context) && forall|i: int|
        0 <= i < context.len() ==> defines::<Op, N, D>(g, #[trigger] context[i])
}

/// Whether a tree is what may be extracted of a class in a context: it is one
/// that the class represents, and it holds no library function of the context
/// nor any inside its own definition.
pub open spec fn proper<Op: Teachable<N>, N: Number, D>(
    g: EGraph<Op, D>,
    id: usize,
    context: Seq<usize>,
    t: Tree<Op>,
) -> bool {
    &&& represents(g, id, t)
    &&& allowed::<Op, N>(t, context)
}

/// The same of a node.
pub open spec fn proper_node<Op: Teachable<N>, N: Number, D>(
    g: EGraph<Op, D>,
    node: NodeView<Op>,
    context: Seq<usize>,
    t: Tree<Op>,
) -> bool {
    &&& stands_for(g, node, t)
    &&& allowed::<Op, N>(t, context)
}

/// The library functions that an e-graph defines outside of a context.
pub open spec fn libs_left<Op: Teachable<N>, N: Number, D>(
    g: EGraph<Op, D>,
    context: Seq<usize>,
) -> nat {
    set_int_range(0, usize::MAX + 1).filter(
        |i: int| defines::<Op, N, D>(g, i as usize) && !context.contains(i as usize),
    ).len()
}

/// The classes that were not visited in the current context.
pub open spec fn ids_left<Op, N, D>(g: EGraph<Op, D>, st: Found<Op, N>) -> nat {
    set_int_range(0, g.slots@.len() as int).filter(|i: int| !st.visited(i as usize)).len()
}

/// How deep an extraction in the current context may go: it visits no class
/// twice in one context, and a context never becomes smaller on the way down.
pub open spec fn depth_left<Op: Teachable<N>, N: Number, D>(
    g: EGraph<Op, D>,
    st: Found<Op, N>,
) -> nat {
    libs_left::<Op, N, D>(g, st.context) * (g.slots@.len() + 1) + ids_left(g, st)
}

/// The state after the class `id` is extracted, as deep as it goes.
pub open spec fn extraction<Op, N, LA, LD, D>(
    g: EGraph<Op, D>,
    q: QueryView<N>,
    id: usize,
    st: Found<Op, N>,
) -> Found<Op, N> where
    Op: Schedulable<N, LA, LD> + OperationInfo<N> + Teachable<N> + Identical,
    N: Number,
 {
    extracted::<Op, N, LA, LD, D>(g, q, id, st, depth_left::<Op, N, D>(g, st) + 1)
}

proof fn lemma_stands_for<Op, D>(g: EGraph<Op, D>, node: NodeView<Op>, t: Tree<Op>)
    requires
        node.operation == t.operation,
        node.args.len() == t.args.len(),
        forall|j: int|
            0 <= j < t.args.len() ==> represents(g, node.args[j], #[trigger] t.args[j]),
    ensures
        stands_for(g, node, t),
{
}

proof fn lemma_represents<Op, D>(g: EGraph<Op, D>, id: usize, t: Tree<Op>, n: int)
    requires
        0 <= n < g.class(id).nodes@.len(),
        stands_for(g, g.class(id).nodes@[n]@, t),
    ensures
        represents(g, id, t),
{
}

proof fn lemma_allowed<Op: Teachable<N>, N: Number>(
    node: NodeView<Op>,
    t: Tree<Op>,
    context: Seq<usize>,
)
    requires
        node.operation == t.operation,
        node.args.len() == t.args.len(),
        match defined_lib::<Op, N>(node) {
            Some(lib) => !context.contains(lib),
            None => true,
        },
        forall|j: int|
            0 <= j < t.args.len() ==> allowed::<Op, N>(
                #[trigger] t.args[j],
                arg_context::<Op, N>(node, context, j),
            ),
    ensures
        allowed::<Op, N>(t, context),
{
    let bare = NodeView { operation: t.operation, args: Seq::new(t.args.len(), |j: int| 0usize) };
    assert(defined_lib::<Op, N>(bare) == defined_lib::<Op, N>(node));
    assert forall|j: int| 0 <= j < t.args.len() implies allowed::<Op, N>(
        #[trigger] t.args[j],
        arg_context::<Op, N>(bare, context, j),
    ) by {
        assert(arg_context::<Op, N>(bare, context, j) == arg_context::<Op, N>(node, context, j));
    }
}

pub(crate) proof fn lemma_context_grows<Op: Teachable<N>, N: Number, D>(
    g: EGraph<Op, D>,
    context: Seq<usize>,
    lib: usize,
)
    requires
        context_of::<Op, N, D>(g, context),
        defines::<Op, N, D>(g, lib),
        increasing(with_id(context, lib)),
    ensures
        context_of::<Op, N, D>(g, with_id(context, lib)),
{
    let more = with_id(context, lib);
    lemma_slot(context, lib);
    assert forall|i: int| 0 <= i < more.len() implies defines::<Op, N, D>(
        g,
        #[trigger] more[i],
    ) by {
        let p = slot(context, lib);
        if !context.contains(lib) {
            if i < p {
                assert(more[i] == context[i]);
            } else if i > p {
                assert(more[i] == context[i - 1]);
            }
        }
    }
}

pub(crate) proof fn lemma_depth_left<Op: Teachable<N>, N: Number, D>(
    g: EGraph<Op, D>,
    a: Found<Op, N>,
    b: Found<Op, N>,
)
    requires
        a.context == b.context,
        forall|k: (usize, Seq<usize>)| #[trigger]
            a.memo.dom().contains(k) ==> b.memo.dom().contains(k),
    ensures
        ids_left(g, b) <= ids_left(g, a),
        depth_left::<Op, N, D>(g, b) <= depth_left::<Op, N, D>(g, a),
        forall|id: usize|
            id < g.slots@.len() && #[trigger] b.visited(id) && !a.visited(id) ==> depth_left::<
                Op,
                N,
                D,
            >(g, b) < depth_left::<Op, N, D>(g, a),
{
    let all = set_int_range(0, g.slots@.len() as int);
    vstd::set_lib::lemma_int_range(0, g.slots@.len() as int);
    let x = all.filter(|i: int| !a.visited(i as usize));
    let y = all.filter(|i: int| !b.visited(i as usize));
    assert(y.subset_of(x)) by {
        assert forall|i: int| y.contains(i) implies x.contains(i) by {
            if a.visited(i as usize) {
                assert(b.memo.dom().contains(a.key(i as usize)));
            }
        }
    }
    vstd::set_lib::lemma_len_subset(y, x);
    assert forall|id: usize|
        id < g.slots@.len() && #[trigger] b.visited(id) && !a.visited(id) implies ids_left(g, b)
        < ids_left(g, a) by {
        let z = x.remove(id as int);
        assert(x.contains(id as int));
        assert(y.subset_of(z));
        vstd::set_lib::lemma_len_subset(y, z);
    }
}

/// Going into the definition of a library function leaves less depth than
/// there was in a context where a class was not visited yet.
pub(crate) proof fn lemma_inner_depth<Op: Teachable<N>, N: Number, D>(
    g: EGraph<Op, D>,
    st: Found<Op, N>,
    lib: usize,
)
    requires
        increasing(st.context),
        defines::<Op, N, D>(g, lib),
        !st.context.contains(lib),
    ensures
        depth_left::<Op, N, D>(g, st.within(with_id(st.context, lib))) <= depth_left::<Op, N, D>(
            g,
            st,
        ),
{
    let inner = with_id(st.context, lib);
    lemma_slot(st.context, lib);
    let p = slot(st.context, lib);
    let all = set_int_range(0, usize::MAX + 1);
    vstd::set_lib::lemma_int_range(0, usize::MAX + 1);
    let x = all.filter(
        |i: int| defines::<Op, N, D>(g, i as usize) && !st.context.contains(i as usize),
    );
    let y = all.filter(|i: int| defines::<Op, N, D>(g, i as usize) && !inner.contains(i as usize));
    assert(inner[p] == lib);
    assert(y.subset_of(x.remove(lib as int))) by {
        assert forall|i: int| y.contains(i) implies x.remove(lib as int).contains(i) by {
            if st.context.contains(i as usize) {
                let j = choose|j: int| 0 <= j < st.context.len() && st.context[j] == i as usize;
                assert(inner[if j < p {
                    j
                } else {
                    j + 1
                }] == i as usize);
            }
        }
    }
    assert(x.contains(lib as int));
    vstd::set_lib::lemma_len_subset(y, x.remove(lib as int));
    let ids = set_int_range(0, g.slots@.len() as int);
    vstd::set_lib::lemma_int_range(0, g.slots@.len() as int);
    let free = ids.filter(|i: int| !st.within(inner).visited(i as usize));
    vstd::set_lib::lemma_len_subset(free, ids);
    let n = g.slots@.len() as int;
    let a = libs_left::<Op, N, D>(g, inner) as int;
    let b = libs_left::<Op, N, D>(g, st.context) as int;
    assert(a * (n + 1) + n <= b * (n + 1)) by (nonlinear_arith)
        requires
            a + 1 <= b,
            n >= 0,
    ;
}

/// An extractor that minimizes the cycles of an expression. Inside the
/// definition of a library function the function itself may not be defined,
/// so the best expression is sought for each class and each set of functions
/// inside whose definitions it stands.
#[derive(Debug)]
pub struct LibExtractor<'a, Op, N: Number, D> {
    memo: Memo,
    all_exprs: Vec<Option<RecExpr<Op>>>,
    all_costs: Vec<Option<N>>,
    lib_context: LibContext,
    egraph: &'a EGraph<Op, D>,
    bb_query: BBQuery<N>,
}

/// The nodes of an expression, if there is one.
pub open spec fn nodes_of<Op>(e: Option<RecExpr<Op>>) -> Option<Seq<NodeView<Op>>> {
    match e {
        Some(e) => Some(e@),
        None => None,
    }
}

impl<'a, Op, N, D> LibExtractor<'a, Op, N, D> where
    Op: Duplicate + Identical + OperationInfo<N> + Teachable<N>,
    N: Number,
 {
    /// The e-graph to extract from.
    pub closed spec fn graph(&self) -> EGraph<Op, D> {
        *self.egraph
    }

    /// The blocks that the costs are taken from.
    pub closed spec fn query(&self) -> QueryView<N> {
        self.bb_query@
    }

    /// What was found so far.
    pub closed spec fn found(&self) -> Found<Op, N> {
        Found {
            memo: self.memo@,
            exprs: Seq::new(self.all_exprs@.len(), |i: int| nodes_of(self.all_exprs@[i])),
            costs: self.all_costs@,
            context: self.lib_context.set@,
        }
    }

    /// Whether the results stand where the memo says, and are expressions.
    pub closed spec fn wf(&self) -> bool {
        &&& self.egraph.wf()
        &&& self.bb_query.wf()
        &&& self.lib_context.wf()
        &&& self.all_exprs@.len() == self.all_costs@.len()
        &&& self.memo.wf()
        &&& forall|k: (usize, Seq<usize>)| #[trigger]
            self.memo@.dom().contains(k) ==> self.memo@[k] < self.all_exprs@.len()
        &&& forall|i: int|
            0 <= i < self.all_exprs@.len() ==> match #[trigger] self.all_exprs@[i] {
                Some(e) => e.wf() && e@.len() > 0,
                None => true,
            }
        &&& context_of::<Op, N, D>(*self.egraph, self.lib_context.set@)
        &&& forall|k: (usize, Seq<usize>)| #[trigger]
            self.memo@.dom().contains(k) ==> match self.all_exprs@[self.memo@[k] as int] {
                Some(e) => proper::<Op, N, D>(*self.egraph, k.0, k.1, root_tree(e@)),
                None => true,
            }
    }

    /// An extractor for an e-graph.
    pub fn new(egraph: &'a EGraph<Op, D>, bb_query: BBQuery<N>) -> (r: Self)
        requires
            egraph.wf(),
            bb_query.wf(),
        ensures
            r.wf(),
            r.graph() == *egraph,
            r.query() == bb_query@,
            r.found() == (Found::<Op, N> {
                memo: Map::empty(),
                exprs: Seq::empty(),
                costs: Seq::empty(),
                context: Seq::empty(),
            }),
    {
        let r = LibExtractor {
            memo: Memo::new(),
            all_exprs: Vec::new(),
            all_costs: Vec::new(),
            lib_context: LibContext::new(),
            egraph,
            bb_query,
        };
        assert(r.found().exprs =~= Seq::empty());
        assert(r.found().context =~= Seq::empty());
        r
    }

    /// Where the result for a class in the current context stands.
    fn get_from_memo(&self, id: usize) -> (r: Option<usize>)
        requires
            self.wf(),
        ensures
            match r {
                Some(at) => self.found().visited(id) && at == self.found().memo[self.found().key(
                    id,
                )] && at < self.all_exprs@.len(),
                None => !self.found().visited(id),
            },
    {
        self.memo.get(id, &self.lib_context)
    }

    /// Notes a result for a class in the current context.
    fn insert_into_memo(&mut self, id: usize, val: Option<RecExpr<Op>>, cost: Option<N>)
        requires
            old(self).wf(),
            id < old(self).graph().slots@.len(),
            match val {
                Some(e) => e.wf() && e@.len() > 0 && proper::<Op, N, D>(
                    old(self).graph(),
                    id,
                    old(self).found().context,
                    root_tree(e@),
                ),
                None => true,
            },
        ensures
            final(self).wf(),
            final(self).graph() == old(self).graph(),
            final(self).query() == old(self).query(),
            final(self).found() == noted(old(self).found(), id, nodes_of(val), cost),
    {
        let ghost before = self.found();
        let new_val: Option<RecExpr<Op>> = match &val {
            Some(e) => Some(share(e)),
            None => None,
        };
        let at: usize = self.all_exprs.len();
        self.all_exprs.push(new_val);
        self.all_costs.push(cost);
        self.memo.insert(id, &self.lib_context, at);
        assert(self.found() =~= noted(before, id, nodes_of(val), cost));
    }

    /// The cycles of an expression.
    fn cycles<LA, LD>(&self, expr: &RecExpr<Op>) -> (r: N) where Op: Schedulable<N, LA, LD>
        requires
            self.wf(),
        ensures
            r == cycles_of::<Op, N, LA, LD>(expr@, self.query()),
    {
        let lats: SiteMap<N> = SiteMap::new();
        assert(lats@ =~= Map::empty());
        rec_cycles::<Op, N, LA, LD>(expr, &self.bb_query, &lats)
    }

    /// Holds a candidate against the result so far.
    fn consider<LA, LD>(&mut self, id: usize, cand: RecExpr<Op>) where Op: Schedulable<N, LA, LD>
        requires
            old(self).wf(),
            id < old(self).graph().slots@.len(),
            cand.wf(),
            cand@.len() > 0,
            proper::<Op, N, D>(
                old(self).graph(),
                id,
                old(self).found().context,
                root_tree(cand@),
            ),
        ensures
            final(self).wf(),
            final(self).graph() == old(self).graph(),
            final(self).query() == old(self).query(),
            final(self).found() == considered::<Op, N, LA, LD>(
                old(self).found(),
                old(self).query(),
                id,
                cand@,
            ),
    {
        let ghost st = self.found();
        let cost: N = self.cycles::<LA, LD>(&cand);
        let mut better: bool = true;
        if let Some(at) = self.get_from_memo(id) {
            assert(st.exprs[at as int] == nodes_of(self.all_exprs@[at as int]));
            if let Some(prev) = &self.all_exprs[at] {
                let prev_cost: N = match self.all_costs[at] {
                    Some(c) => c,
                    None => self.cycles::<LA, LD>(prev),
                };
                self.all_costs.set(at, Some(prev_cost));
                assert(self.found() =~= Found {
                    costs: st.costs.update(at as int, Some(prev_cost)),
                    ..st
                });
                if prev_cost.le(cost) && !cost.le(prev_cost) {
                    better = false;
                }
            }
        }
        if better {
            self.insert_into_memo(id, Some(cand), Some(cost));
        }
    }

    /// The cheapest expression of a class, or `None` where no expression
    /// without a cycle was found. Where no way down from the class leads
    /// back, one is found if there is one.
    pub fn try_best<LA, LD>(&mut self, id: usize) -> (r: Option<RecExpr<Op>>) where
        Op: Schedulable<N, LA, LD>,

        requires
            old(self).wf(),
            id < old(self).graph().slots@.len(),
        ensures
            final(self).wf(),
            final(self).graph() == old(self).graph(),
            final(self).query() == old(self).query(),
            final(self).found() == extraction::<Op, N, LA, LD, D>(
                old(self).graph(),
                old(self).query(),
                id,
                old(self).found(),
            ),
            nodes_of(r) == final(self).found().result(id),
            match r {
                Some(e) => {
                    &&& e.wf()
                    &&& e@.len() > 0
                    &&& proper::<Op, N, D>(
                        old(self).graph(),
                        id,
                        old(self).found().context,
                        root_tree(e@),
                    )
                },
                None => true,
            },
            complete_below::<Op, N, D>(old(self).graph(), id, old(self).found()) ==> {
                &&& complete::<Op, N, D>(old(self).graph(), final(self).found())
                &&& r is Some <==> has_expr::<Op, N, D>(
                    old(self).graph(),
                    id,
                    old(self).found().context,
                )
            },
    {
        let ghost st = self.found();
        let ghost fuel = depth_left::<Op, N, D>(self.graph(), st) + 1;
        self.extract_within::<LA, LD>(id, Ghost(fuel));
        let r: Option<RecExpr<Op>> = self.result_for(id);
        proof {
            if complete_below::<Op, N, D>(self.graph(), id, st) {
                assert(self.found().exprs.len() == self.all_exprs.len());
                lemma_extraction_is_complete::<Op, N, LA, LD, D>(
                    self.graph(),
                    self.query(),
                    id,
                    st,
                );
            }
        }
        r
    }

    /// The cheapest expression of a class that has one without a cycle.
    pub fn best<LA, LD>(&mut self, id: usize) -> (r: RecExpr<Op>) where Op: Schedulable<N, LA, LD>
        requires
            old(self).wf(),
            id < old(self).graph().slots@.len(),
            extraction::<Op, N, LA, LD, D>(
                old(self).graph(),
                old(self).query(),
                id,
                old(self).found(),
            ).result(id) is Some || complete_below::<Op, N, D>(
                old(self).graph(),
                id,
                old(self).found(),
            ) && has_expr::<Op, N, D>(old(self).graph(), id, old(self).found().context),
        ensures
            final(self).wf(),
            final(self).graph() == old(self).graph(),
            final(self).query() == old(self).query(),
            final(self).found() == extraction::<Op, N, LA, LD, D>(
                old(self).graph(),
                old(self).query(),
                id,
                old(self).found(),
            ),
            Some(r@) == final(self).found().result(id),
            r.wf(),
            r@.len() > 0,
            proper::<Op, N, D>(
                old(self).graph(),
                id,
                old(self).found().context,
                root_tree(r@),
            ),
            complete_below::<Op, N, D>(old(self).graph(), id, old(self).found()) ==> complete::<
                Op,
                N,
                D,
            >(old(self).graph(), final(self).found()),
    {
        let r: Option<RecExpr<Op>> = self.try_best::<LA, LD>(id);
        r.unwrap()
    }

    /// The cycles and the area of an expression.
    pub fn cost<LA, LD>(&self, expr: &RecExpr<Op>) -> (r: ParetoCost<N>) where
        Op: Schedulable<N, LA, LD>,

        requires
            self.wf(),
            lib_area(
                shares::<Op, N, LA, LD>(expr@, self.query(), Map::empty()),
                expr@.len(),
            ) <= usize::MAX,
        ensures
            r.cycles == cycles_of::<Op, N, LA, LD>(expr@, self.query()),
            r.area == lib_area(
                shares::<Op, N, LA, LD>(expr@, self.query(), Map::empty()),
                expr@.len(),
            ),
    {
        let lats: SiteMap<N> = SiteMap::new();
        assert(lats@ =~= Map::empty());
        let (cycles, area) = rec_cost::<Op, N, LA, LD>(expr, &self.bb_query, &lats);
        ParetoCost { cycles, area }
    }

    /// The expression that was found for a class in the current context.
    fn result_for(&self, id: usize) -> (r: Option<RecExpr<Op>>)
        requires
            self.wf(),
            id < self.graph().slots@.len(),
        ensures
            nodes_of(r) == self.found().result(id),
            match r {
                Some(e) => {
                    &&& e.wf()
                    &&& e@.len() > 0
                    &&& proper::<Op, N, D>(
                        self.graph(),
                        id,
                        self.found().context,
                        root_tree(e@),
                    )
                },
                None => true,
            },
    {
        let ghost s = self.found();
        match self.get_from_memo(id) {
            Some(at) => match &self.all_exprs[at] {
                Some(e) => {
                    assert(s.exprs[at as int] == Some(e@));
                    Some(e.duplicate())
                },
                None => {
                    assert(s.exprs[at as int] is None);
                    None
                },
            },
            None => None,
        }
    }

    /// Extracts a class in the current context.
    fn extract_within<LA, LD>(&mut self, id: usize, Ghost(fuel): Ghost<nat>) where
        Op: Schedulable<N, LA, LD>,

        requires
            old(self).wf(),
            id < old(self).graph().slots@.len(),
            depth_left::<Op, N, D>(old(self).graph(), old(self).found()) < fuel,
        ensures
            final(self).wf(),
            final(self).graph() == old(self).graph(),
            final(self).query() == old(self).query(),
            final(self).found() == extracted::<Op, N, LA, LD, D>(
                old(self).graph(),
                old(self).query(),
                id,
                old(self).found(),
                fuel,
            ),
            final(self).found().context == old(self).found().context,
            old(self).found().memo.dom().subset_of(final(self).found().memo.dom()),
        decreases fuel, 0nat, 0nat,
    {
        if self.get_from_memo(id).is_some() {
            return;
        }
        let ghost start = self.found();
        let ghost g = self.graph();
        let ghost q = self.query();
        self.insert_into_memo(id, None, None);
        let ghost st = self.found();
        proof {
            lemma_depth_left::<Op, N, D>(g, start, st);
            assert(st.visited(id));
        }
        let egraph: &'a EGraph<Op, D> = self.egraph;
        let class: &EClass<Op, D> = egraph.get(id);
        let n: usize = class.nodes.len();
        for k in 0..n
            invariant
                self.wf(),
                self.graph() == g,
                self.query() == q,
                *egraph == g,
                g.wf(),
                id < g.slots@.len(),
                *class == g.class(id),
                n == class.nodes@.len(),
                fuel > 0,
                depth_left::<Op, N, D>(g, self.found()) < fuel - 1,
                forall|k: (usize, Seq<usize>)| #[trigger]
                    start.memo.dom().contains(k) ==> self.found().memo.dom().contains(k),
                self.found().context == st.context,
                self.found() == nodes_tried::<Op, N, LA, LD, D>(
                    g,
                    q,
                    id,
                    k as nat,
                    st,
                    (fuel - 1) as nat,
                ),
        {
            let ghost before = self.found();
            assert(g.args_valid(class.nodes@[k as int]@));
            let cand: Option<RecExpr<Op>> = self.extract_node::<LA, LD>(
                &class.nodes[k],
                Ghost((fuel - 1) as nat),
            );
            let ghost after = self.found();
            if let Some(e) = cand {
                proof {
                    lemma_considered::<Op, N, LA, LD>(after, q, id, e@);
                    lemma_represents(g, id, root_tree(e@), k as int);
                }
                self.consider::<LA, LD>(id, e);
            }
            proof {
                lemma_depth_left::<Op, N, D>(g, before, self.found());
            }
        }
    }

    /// Extracts a node in the current context.
    fn extract_node<LA, LD>(&mut self, node: &AstNode<Op>, Ghost(fuel): Ghost<nat>) -> (r: Option<
        RecExpr<Op>,
    >) where Op: Schedulable<N, LA, LD>
        requires
            old(self).wf(),
            old(self).graph().args_valid(node@),
            match defined_lib::<Op, N>(node@) {
                Some(lib) => defines::<Op, N, D>(old(self).graph(), lib),
                None => true,
            },
            depth_left::<Op, N, D>(old(self).graph(), old(self).found()) < fuel,
        ensures
            final(self).wf(),
            final(self).graph() == old(self).graph(),
            final(self).query() == old(self).query(),
            (final(self).found(), nodes_of(r)) == node_extracted::<Op, N, LA, LD, D>(
                old(self).graph(),
                old(self).query(),
                node@,
                old(self).found(),
                fuel,
            ),
            match r {
                Some(e) => e.wf() && e@.len() > 0 && proper_node::<Op, N, D>(
                    old(self).graph(),
                    node@,
                    old(self).found().context,
                    root_tree(e@),
                ),
                None => true,
            },
            final(self).found().context == old(self).found().context,
            old(self).found().memo.dom().subset_of(final(self).found().memo.dom()),
        decreases fuel, 2nat, node@.args.len() + 1,
    {
        let lib: Option<usize> = lib_defined_by(node);
        if let Some(lib) = lib {
            if self.lib_context.contains(lib) {
                return None;
            }
        }
        let ids: Vec<usize> = Vec::new();
        let partial: RecExpr<Op> = RecExpr::new();
        assert(ids@ =~= Seq::empty());
        self.extract_children::<LA, LD>(node, 0, partial, ids, Ghost(fuel))
    }

    /// Extracts the arguments of a node from `current` on.
    fn extract_children<LA, LD>(
        &mut self,
        node: &AstNode<Op>,
        current: usize,
        partial: RecExpr<Op>,
        child_indexes: Vec<usize>,
        Ghost(fuel): Ghost<nat>,
    ) -> (r: Option<RecExpr<Op>>) where Op: Schedulable<N, LA, LD>
        requires
            old(self).wf(),
            old(self).graph().args_valid(node@),
            match defined_lib::<Op, N>(node@) {
                Some(lib) => defines::<Op, N, D>(old(self).graph(), lib),
                None => true,
            },
            current <= node@.args.len(),
            match defined_lib::<Op, N>(node@) {
                Some(lib) => !old(self).found().context.contains(lib),
                None => true,
            },
            partial.wf(),
            forall|j: int|
                0 <= j < current ==> (#[trigger] child_indexes@[j]) < partial@.len() && proper::<
                    Op,
                    N,
                    D,
                >(
                    old(self).graph(),
                    node@.args[j],
                    arg_context::<Op, N>(node@, old(self).found().context, j),
                    unfold(partial@, child_indexes@[j] as int),
                ),
            child_indexes@.len() == current,
            depth_left::<Op, N, D>(old(self).graph(), old(self).found()) < fuel,
        ensures
            final(self).wf(),
            final(self).graph() == old(self).graph(),
            final(self).query() == old(self).query(),
            (final(self).found(), nodes_of(r)) == args_extracted::<Op, N, LA, LD, D>(
                old(self).graph(),
                old(self).query(),
                node@,
                current as nat,
                partial@,
                child_indexes@,
                old(self).found(),
                fuel,
            ),
            match r {
                Some(e) => e.wf() && e@.len() > 0 && proper_node::<Op, N, D>(
                    old(self).graph(),
                    node@,
                    old(self).found().context,
                    root_tree(e@),
                ),
                None => true,
            },
            final(self).found().context == old(self).found().context,
            old(self).found().memo.dom().subset_of(final(self).found().memo.dom()),
        decreases fuel, 2nat, node@.args.len() - current,
    {
        let ghost st = self.found();
        let mut partial = partial;
        let mut child_indexes = child_indexes;
        if current == node.args.len() {
            let ghost before = partial@;
            let ghost g = self.graph();
            let ghost ids = child_indexes@;
            let _root: usize = partial.add(AstNode::new(node.operation.duplicate(), child_indexes));
            proof {
                let top = before.len() as int;
                assert(points_back(partial@, top));
                lemma_unfold_args(partial@, top, ids.len());
                assert(before =~= partial@.subrange(0, top));
                let t = root_tree(partial@);
                assert forall|j: int| 0 <= j < t.args.len() implies proper::<Op, N, D>(
                    g,
                    node@.args[j],
                    arg_context::<Op, N>(node@, st.context, j),
                    #[trigger] t.args[j],
                ) by {
                    assert(ids[j] < before.len());
                    lemma_unfold_prefix(before, partial@, ids[j] as int);
                }
                lemma_stands_for(g, node@, t);
                lemma_allowed::<Op, N>(node@, t, st.context);
            }
            return Some(partial);
        }
        let old_lib_context: LibContext = self.lib_context.duplicate();
        if current == 0 {
            if let Some(lib) = lib_defined_by(node) {
                self.lib_context.add_id(lib);
                proof {
                    lemma_context_grows::<Op, N, D>(*self.egraph, st.context, lib);
                    lemma_inner_depth::<Op, N, D>(*self.egraph, st, lib);
                }
            }
        }
        let child: usize = node.args[current];
        let ghost inner = self.lib_context.set@;
        assert(self.found() =~= st.within(inner));
        assert(child < self.graph().slots@.len());
        self.extract_within::<LA, LD>(child, Ghost(fuel));
        let ghost s = self.found();
        let child_res: Option<RecExpr<Op>> = self.result_for(child);
        self.lib_context = old_lib_context;
        assert(self.found() =~= s.within(st.context));
        proof {
            lemma_depth_left::<Op, N, D>(self.graph(), st, self.found());
        }
        match child_res {
            None => None,
            Some(expr) => {
                let ghost before = partial@;
                append_shifted(&mut partial, &expr);
                let size: usize = partial.len();
                assert(partial@ =~= before + shifted(expr@, before.len())) by {
                    lemma_shifted(before, expr@, partial@);
                }
                proof {
                    assert forall|j: int| 0 <= j < current implies unfold(
                        partial@,
                        (#[trigger] child_indexes@[j]) as int,
                    ) == unfold(before, child_indexes@[j] as int) by {
                        lemma_unfold_prefix(before, partial@, child_indexes@[j] as int);
                    }
                    lemma_unfold_shifted(
                        expr@,
                        partial@,
                        before.len() as int,
                        expr@.len() - 1,
                    );
                }
                child_indexes.push(size - 1);
                self.extract_children::<LA, LD>(
                    node,
                    current + 1,
                    partial,
                    child_indexes,
                    Ghost(fuel),
                )
            },
        }
    }
}

pub(crate) proof fn lemma_considered<Op, N, LA, LD>(
    st: Found<Op, N>,
    q: QueryView<N>,
    id: usize,
    cand: Seq<NodeView<Op>>,
) where Op: Schedulable<N, LA, LD> + OperationInfo<N> + Teachable<N> + Identical, N: Number
    ensures
        forall|k: (usize, Seq<usize>)| #[trigger]
            st.memo.dom().contains(k) ==> considered::<Op, N, LA, LD>(
                st,
                q,
                id,
                cand,
            ).memo.dom().contains(k),
        considered::<Op, N, LA, LD>(st, q, id, cand).context == st.context,
{
}

proof fn lemma_shifted<Op>(
    start: Seq<NodeView<Op>>,
    more: Seq<NodeView<Op>>,
    all: Seq<NodeView<Op>>,
)
    requires
        start.is_prefix_of(all),
        all.len() == start.len() + more.len(),
        start.len() + more.len() <= usize::MAX,
        well_ordered(more),
        forall|j: int|
            0 <= j < more.len() ==> {
                &&& (#[trigger] all[start.len() + j]).operation == more[j].operation
                &&& all[start.len() + j].args.len() == more[j].args.len()
                &&& forall|m: int|
                    0 <= m < more[j].args.len() ==> (#[trigger] all[start.len() + j].args[m])
                        == start.len() + more[j].args[m]
            },
    ensures
        all == start + shifted(more, start.len()),
{
    let t = start + shifted(more, start.len());
    assert forall|i: int| 0 <= i < all.len() implies all[i] == t[i] by {
        if i < start.len() {
            assert(start[i] == all.subrange(0, start.len() as int)[i]);
        } else {
            let j = i - start.len();
            assert(all[start.len() + j].operation == more[j].operation);
            assert(points_back(more, j));
            assert(all[i].args =~= t[i].args) by {
                assert forall|m: int| 0 <= m < all[i].args.len() implies all[i].args[m]
                    == t[i].args[m] by {
                    assert(more[j].args[m] < j);
                    assert(all[start.len() + j].args[m] == start.len() + more[j].args[m]);
                }
            }
        }
    }
    assert(all =~= t);
}

/// The library function that a node defines.
fn lib_defined_by<Op: Teachable<N>, N: Number>(node: &AstNode<Op>) -> (r: Option<usize>)
    ensures
        r == defined_lib::<Op, N>(node@),
{
    match Op::as_binding_expr(node) {
        Some(BindingExpr::Lib(id, _, _, _, _, _)) => Some(id.0),
        _ => None,
    }
}

} // verus!
