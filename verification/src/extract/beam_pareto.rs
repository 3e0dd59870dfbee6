//! The analysis that finds, for each class of an e-graph, the best selections
//! of library functions.
use crate::assoc::SiteMap;
use crate::ast_node::{AstNode, Duplicate, NodeView};
use crate::bb_query::{BBQuery, QueryView};
use crate::egraph::EGraph;
use crate::extract::cost_set::{
    all_wf, all_with_lib, crossed, pruned, set_order, set_views, sort_sets, unified, united,
    CostSet,
};
use crate::extract::lib_sel::SelView;
use crate::id_map::{holds, value_of, IdMap};
use crate::number::Number;
use crate::runner::operation::OperationInfo;
use crate::sorting::{lemma_sorted, sorted};
use crate::teachable::{binding_of, BindingExpr, Teachable};
use crate::text::{same_texts, texts};
use crate::text_sort::{text_union, unite_texts};
use vstd::prelude::*;
use vstd::std_specs::cmp::PartialEqSpec;

verus! {

/// The types of the values of a language.
pub trait TypeInfo<T>: Sized {
    open spec fn s_rtype(node: NodeView<Self>, child_types: Seq<T>) -> T {
        arbitrary()
    }

    open spec fn s_merge_types(a: T, b: T) -> T {
        arbitrary()
    }

    open spec fn s_merge_types_neglecting_width(a: T, b: T) -> T {
        arbitrary()
    }

    open spec fn s_can_merge_types(a: T, b: T) -> bool {
        arbitrary()
    }

    /// The type of a node whose arguments have these types.
    fn get_rtype(node: &AstNode<Self>, child_types: &Vec<T>) -> (r: T)
        ensures
            r == Self::s_rtype(node@, child_types@),
    ;

    /// The type of a class that unites classes of these types.
    fn merge_types(a: &T, b: &T) -> (r: T)
        ensures
            r == Self::s_merge_types(*a, *b),
    ;

    /// As [`TypeInfo::merge_types`], whatever the widths.
    fn merge_types_neglecting_width(a: &T, b: &T) -> (r: T)
        ensures
            r == Self::s_merge_types_neglecting_width(*a, *b),
    ;

    /// Whether the same hardware can work on both types.
    fn can_merge_types(a: &T, b: &T) -> (r: bool)
        ensures
            r == Self::s_can_merge_types(*a, *b),
    ;
}

/// Types that can be written as a text.
pub trait Shown {
    open spec fn s_shown(&self) -> Seq<char> {
        arbitrary()
    }

    fn shown(&self) -> (r: String)
        ensures
            r@ == self.s_shown(),
    ;
}

/// Data of a class that tells the types of its values.
pub trait ClassMatch {
    open spec fn s_types(&self) -> Seq<Seq<char>> {
        arbitrary()
    }

    fn get_type(&self) -> (r: Vec<String>)
        ensures
            texts(r@) == self.s_types(),
    ;
}

/// Cycles and area.
#[derive(Clone, Copy, Debug)]
pub struct ParetoCost<N: Number> {
    pub cycles: N,
    pub area: usize,
}

impl<N: Number> Default for ParetoCost<N> {
    fn default() -> (r: Self)
        ensures
            r.cycles == N::s_zero(),
            r.area == 0,
    {
        ParetoCost { cycles: N::zero(), area: 0 }
    }
}

/// What the analysis knows of a class: its selections, its type, its basic
/// blocks and its number of lanes.
#[derive(Debug)]
pub struct ISAXCost<N: Number, T> {
    pub cs: CostSet<N>,
    pub ty: T,
    pub bb: Vec<String>,
    pub vec_len: usize,
}

/// The contents of an [`ISAXCost`].
#[verifier::ext_equal]
pub struct CostView<N, T> {
    pub cs: Seq<SelView<N>>,
    pub ty: T,
    pub bb: Seq<Seq<char>>,
    pub vec_len: usize,
}

impl<N: Number, T> View for ISAXCost<N, T> {
    type V = CostView<N, T>;

    open spec fn view(&self) -> CostView<N, T> {
        CostView { cs: self.cs@, ty: self.ty, bb: texts(self.bb@), vec_len: self.vec_len }
    }
}

/// Whether two classes have the same type, the same basic blocks and the same
/// number of lanes. Their selections are not compared.
pub open spec fn same_cost<N, T: PartialEq>(a: CostView<N, T>, b: CostView<N, T>) -> bool {
    a.ty.eq_spec(&b.ty) && a.bb == b.bb && a.vec_len == b.vec_len
}

impl<N: Number, T> ISAXCost<N, T> {
    pub fn new(cs: CostSet<N>, ty: T, bb: Vec<String>, vec_len: usize) -> (r: Self)
        ensures
            r@ == (CostView { cs: cs@, ty, bb: texts(bb@), vec_len }),
    {
        ISAXCost { cs, ty, bb, vec_len }
    }
}

impl<N: Number, T: Default> ISAXCost<N, T> {
    /// One empty selection, the default type, no basic block and no lanes.
    pub fn empty() -> (r: Self)
        ensures
            r@.cs == seq![SelView::<N> { cycles: N::s_zero(), area: 0, libs: Seq::empty() }],
            call_ensures(T::default, (), r@.ty),
            r@.bb.len() == 0,
            r@.vec_len == 0,
    {
        ISAXCost { cs: CostSet::new(), ty: T::default(), bb: Vec::new(), vec_len: 0 }
    }
}

impl<N: Number, T: PartialEq> ISAXCost<N, T> {
    /// Whether two classes have the same type, basic blocks and lanes.
    pub fn same(&self, other: &Self) -> (r: bool)
        requires
            T::obeys_eq_spec(),
        ensures
            r == same_cost(self@, other@),
    {
        self.ty == other.ty && same_texts(&self.bb, &other.bb) && self.vec_len == other.vec_len
    }

    /// Whether the class has a type.
    pub fn has_type(&self, ty: &T) -> (r: bool)
        requires
            T::obeys_eq_spec(),
        ensures
            r == self@.ty.eq_spec(ty),
    {
        self.ty == *ty
    }
}

impl<N: Number, T: Shown> ClassMatch for ISAXCost<N, T> {
    open spec fn s_types(&self) -> Seq<Seq<char>> {
        seq![self.ty.s_shown()]
    }

    fn get_type(&self) -> (r: Vec<String>) {
        let mut r: Vec<String> = Vec::new();
        r.push(self.ty.shown());
        assert(texts(r@) =~= self.s_types());
        r
    }
}

// ---------------------------------------------------------------------------
// The analysis
// ---------------------------------------------------------------------------

/// The settings and the measurements of the analysis.
#[derive(Debug)]
pub struct ISAXAnalysis<N: Number> {
    /// The number of selections that a class keeps.
    pub beam_size: usize,
    /// The number of selections that are kept while a node is analyzed.
    pub inter_beam: usize,
    /// The number of library functions in a selection.
    pub lps: usize,
    pub bb_query: BBQuery<N>,
    /// The latency of a library function at its basic blocks.
    pub lat_acc_map: SiteMap<N>,
    /// How often each library function matches.
    pub search_len_map: IdMap<usize>,
}

impl<N: Number> ISAXAnalysis<N> {
    /// Whether the measurements are well formed.
    pub open spec fn wf(&self) -> bool {
        self.bb_query.wf() && self.lat_acc_map.wf() && self.search_len_map.wf()
    }

    pub fn new(beam_size: usize, inter_beam: usize, lps: usize, bb_query: BBQuery<N>) -> (r: Self)
        ensures
            r.beam_size == beam_size,
            r.inter_beam == inter_beam,
            r.lps == lps,
            r.bb_query == bb_query,
            r.lat_acc_map@ == Map::<(usize, Seq<Seq<char>>), N>::empty(),
            r.search_len_map.entries@.len() == 0,
            bb_query.wf() ==> r.wf(),
    {
        ISAXAnalysis {
            beam_size,
            inter_beam,
            lps,
            bb_query,
            lat_acc_map: SiteMap::new(),
            search_len_map: IdMap::new(),
        }
    }

    /// An analysis that keeps nothing.
    pub fn empty() -> (r: Self)
        ensures
            r.wf(),
            r.beam_size == 0,
            r.inter_beam == 0,
            r.lps == 1,
            r.bb_query@ == (QueryView::<N> { map: Map::empty(), factor: N::s_count(1) }),
            r.lat_acc_map@ == Map::<(usize, Seq<Seq<char>>), N>::empty(),
            r.search_len_map.entries@.len() == 0,
    {
        ISAXAnalysis::new(0, 0, 1, BBQuery::default())
    }

    /// Uses these latencies.
    pub fn with_lat_map(&mut self, lat_map: SiteMap<N>)
        ensures
            *final(self) == (ISAXAnalysis { lat_acc_map: lat_map, ..*old(self) }),
    {
        self.lat_acc_map = lat_map;
    }

    /// The latency of a library function at these basic blocks, if it is
    /// known.
    pub fn get_lat_acc(&self, lib_id: usize, bbs: &Vec<String>) -> (r: Option<N>)
        requires
            self.wf(),
        ensures
            r == if self.lat_acc_map@.dom().contains((lib_id, texts(bbs@))) {
                Some(self.lat_acc_map@[(lib_id, texts(bbs@))])
            } else {
                None
            },
    {
        match self.lat_acc_map.get(lib_id, bbs) {
            Some(l) => Some(*l),
            None => None,
        }
    }

    /// Uses these numbers of matches.
    pub fn with_search_len_map(&mut self, search_len_map: IdMap<usize>)
        ensures
            *final(self) == (ISAXAnalysis { search_len_map, ..*old(self) }),
    {
        self.search_len_map = search_len_map;
    }

    /// How often a library function matches; once where nothing is known.
    pub fn get_search_len(&self, lib_id: usize) -> (r: usize)
        requires
            self.wf(),
        ensures
            r == if holds(self.search_len_map.entries@, lib_id) {
                value_of(self.search_len_map.entries@, lib_id)
            } else {
                1
            },
    {
        match self.search_len_map.get(lib_id) {
            Some(n) => *n,
            None => 1,
        }
    }
}

impl<N: Number> Default for ISAXAnalysis<N> {
    fn default() -> (r: Self)
        ensures
            call_ensures(ISAXAnalysis::<N>::empty, (), r),
    {
        ISAXAnalysis::empty()
    }
}

// ---------------------------------------------------------------------------
// Merging classes
// ---------------------------------------------------------------------------

/// What is known of the class that unites two classes.
pub open spec fn merged<Op: TypeInfo<T>, N: Number, T>(
    to: CostView<N, T>,
    from: CostView<N, T>,
    beam_size: usize,
) -> CostView<N, T> {
    CostView {
        cs: pruned(unified(united(to.cs, from.cs)), beam_size),
        ty: Op::s_merge_types(to.ty, from.ty),
        bb: text_union(to.bb, from.bb),
        vec_len: if from.vec_len > to.vec_len {
            from.vec_len
        } else {
            to.vec_len
        },
    }
}

impl<N: Number> ISAXAnalysis<N> {
    /// Merges what is known of two classes into `to`. The result tells
    /// whether `to` has changed, and whether it differs from `from`.
    pub fn merge<Op, T>(&self, to: &mut ISAXCost<N, T>, from: ISAXCost<N, T>) -> (r: (
        bool,
        bool,
    )) where Op: TypeInfo<T>, T: PartialEq
        requires
            T::obeys_eq_spec(),
        ensures
            final(to)@ == merged::<Op, N, T>(old(to)@, from@, self.beam_size),
            r.0 == !same_cost(old(to)@, final(to)@),
            r.1 == !same_cost(final(to)@, from@),
            all_wf(old(to)@.cs) && all_wf(from@.cs) ==> all_wf(final(to)@.cs),
    {
        let ghost before = to@;
        let ghost other = from@;
        let bb: Vec<String> = unite_texts(&to.bb, &from.bb);
        let ty: T = Op::merge_types(&to.ty, &from.ty);
        let vec_len: usize = if from.vec_len > to.vec_len {
            from.vec_len
        } else {
            to.vec_len
        };
        let ISAXCost { cs: from_cs, ty: from_ty, bb: from_bb, vec_len: from_len } = from;
        to.cs.combine(from_cs);
        to.cs.unify();
        to.cs.prune(self.beam_size);
        let changed: bool = !(to.ty == ty && same_texts(&to.bb, &bb) && to.vec_len == vec_len);
        to.ty = ty;
        to.bb = bb;
        to.vec_len = vec_len;
        let differs: bool = !(to.ty == from_ty && same_texts(&to.bb, &from_bb) && to.vec_len
            == from_len);
        (changed, differs)
    }
}

// ---------------------------------------------------------------------------
// Analyzing a node
// ---------------------------------------------------------------------------

/// What is known of the classes of an e-graph.
#[verifier::ext_equal]
pub struct Known<N, T> {
    /// For each identifier, where its class stands.
    pub slots: Seq<usize>,
    /// What is known of each class.
    pub costs: Seq<CostView<N, T>>,
}

impl<N, T> Known<N, T> {
    /// What is known of the class that an identifier names.
    pub open spec fn of(self, id: usize) -> CostView<N, T> {
        self.costs[self.slots[id as int] as int]
    }

    /// Whether every argument of a node is an identifier.
    pub open spec fn args_valid<Op>(self, node: NodeView<Op>) -> bool {
        forall|j: int| 0 <= j < node.args.len() ==> (#[trigger] node.args[j]) < self.slots.len()
    }
}

/// What an e-graph knows of its classes.
pub open spec fn known<Op, N: Number, T>(g: EGraph<Op, ISAXCost<N, T>>) -> Known<N, T> {
    Known {
        slots: g.slots@,
        costs: Seq::new(g.classes@.len(), |k: int| g.classes@[k].data@),
    }
}

/// What is known of the class of argument `j`.
pub open spec fn child<Op, N: Number, T>(
    g: Known<N, T>,
    node: NodeView<Op>,
    j: int,
) -> CostView<N, T> {
    g.of(node.args[j])
}

/// The types of the arguments.
pub open spec fn child_types<Op, N: Number, T>(
    g: Known<N, T>,
    node: NodeView<Op>,
) -> Seq<T> {
    Seq::new(node.args.len(), |j: int| child(g, node, j).ty)
}

/// The selections of the arguments.
pub open spec fn child_sets<Op, N: Number, T>(
    g: Known<N, T>,
    node: NodeView<Op>,
) -> Seq<Seq<SelView<N>>> {
    Seq::new(node.args.len(), |j: int| child(g, node, j).cs)
}

/// The most lanes of the first `n` arguments, but one where there is none.
pub open spec fn child_lanes<Op, N: Number, T>(
    g: Known<N, T>,
    node: NodeView<Op>,
    n: nat,
) -> usize
    decreases n,
{
    if n == 0 {
        1
    } else if n == 1 {
        child(g, node, 0).vec_len
    } else {
        let before = child_lanes(g, node, (n - 1) as nat);
        let lanes = child(g, node, n - 1).vec_len;
        if lanes > before {
            lanes
        } else {
            before
        }
    }
}

/// The lanes of a node: one, unless its operation works on vectors.
pub open spec fn lanes<Op: OperationInfo<N>, N: Number, T>(
    g: Known<N, T>,
    node: NodeView<Op>,
) -> usize {
    if node.operation.s_is_vector_op() {
        let own = node.operation.s_vec_len();
        let theirs = child_lanes(g, node, node.args.len());
        if theirs > own {
            theirs
        } else {
            own
        }
    } else {
        1
    }
}

/// The cycles of one execution of an operation on so many lanes, times its
/// executions.
pub open spec fn own_cycles<Op: OperationInfo<N>, N: Number>(
    op: Op,
    q: QueryView<N>,
    lanes: usize,
) -> N {
    let bbs = op.s_bbs_info();
    let measured = bbs.len() > 0 && q.map.dom().contains(bbs[0]);
    let latency = if measured {
        q.map[bbs[0]].cpo
    } else {
        N::s_count(1)
    };
    let runs = if measured {
        q.map[bbs[0]].execution_count
    } else {
        1
    };
    if op.s_is_op() {
        latency.s_times(N::s_count(lanes)).s_times(N::s_count(runs))
    } else {
        N::s_zero().s_times(N::s_count(runs))
    }
}

/// How often the first of these basic blocks is executed, normalized.
pub open spec fn normalized_runs<N>(q: QueryView<N>, bbs: Seq<Seq<char>>) -> N {
    if bbs.len() > 0 && q.map.dom().contains(bbs[0]) {
        q.map[bbs[0]].execution_count_normalized
    } else {
        q.factor
    }
}

/// The first `k` sets crossed one after the other, each product unified and
/// pruned.
pub open spec fn crossed_all<N: Number>(
    sets: Seq<Seq<SelView<N>>>,
    k: nat,
    lps: usize,
    beam: usize,
) -> Seq<SelView<N>>
    decreases k,
{
    if k <= 1 {
        sets[0]
    } else {
        let before = crossed_all(sets, (k - 1) as nat, lps, beam);
        pruned(unified(crossed(before, before.len(), sets[k - 1], lps)), beam)
    }
}

/// Whether the areas that are added while the first `k` sets are crossed fit
/// into a machine integer.
pub open spec fn areas_fit<N: Number>(
    sets: Seq<Seq<SelView<N>>>,
    k: nat,
    lps: usize,
    beam: usize,
) -> bool
    decreases k,
{
    k <= 1 || {
        let before = crossed_all(sets, (k - 1) as nat, lps, beam);
        &&& areas_fit(sets, (k - 1) as nat, lps, beam)
        &&& forall|i: int, j: int|
            0 <= i < before.len() && 0 <= j < sets[k - 1].len() ==> (#[trigger] before[i]).area + (
            #[trigger] sets[k - 1][j]).area <= usize::MAX
    }
}

/// The selections of a node.
pub open spec fn node_set<Op, N: Number, T>(
    a: ISAXAnalysis<N>,
    g: Known<N, T>,
    node: NodeView<Op>,
) -> Seq<SelView<N>> where Op: OperationInfo<N> + Teachable<N> {
    let cycles = own_cycles::<Op, N>(node.operation, a.bb_query@, lanes::<Op, N, T>(g, node));
    match binding_of::<Op, usize, N>(node) {
        Some(BindingExpr::Lib(id, _, body, lat_cpu, lat_acc, area)) => {
            let data = g.of(body);
            if lat_cpu.s_le(lat_acc) || area == 0 {
                data.cs
            } else {
                pruned(
                    unified(
                        all_with_lib(
                            data.cs,
                            data.cs.len(),
                            id.0,
                            lat_acc,
                            lat_cpu,
                            area,
                            normalized_runs(a.bb_query@, data.bb),
                            body,
                            a.lps,
                        ),
                    ),
                    a.inter_beam,
                )
            }
        },
        _ => if node.args.len() == 0 {
            crate::extract::cost_set::more_cycles(
                seq![SelView::<N> { cycles: N::s_zero(), area: 0, libs: Seq::empty() }],
                cycles,
            )
        } else if node.args.len() == 1 {
            let only = child(g, node, 0);
            let s = crate::extract::cost_set::more_cycles(only.cs, cycles);
            if node.operation.s_is_get_from_vec() {
                crate::extract::cost_set::split_cycles(s, only.vec_len)
            } else {
                s
            }
        } else {
            let sets = sorted(child_sets(g, node), set_order());
            crate::extract::cost_set::more_cycles(
                crossed_all(sets, sets.len(), a.lps, a.inter_beam),
                cycles,
            )
        },
    }
}

/// What is known of a node from what is known of its arguments.
pub open spec fn analyzed<Op, N: Number, T>(
    a: ISAXAnalysis<N>,
    g: Known<N, T>,
    node: NodeView<Op>,
) -> CostView<N, T> where Op: OperationInfo<N> + Teachable<N> + TypeInfo<T> {
    CostView {
        cs: node_set(a, g, node),
        ty: Op::s_rtype(node, child_types(g, node)),
        bb: node.operation.s_bbs_info(),
        vec_len: lanes::<Op, N, T>(g, node),
    }
}

/// Whether a node can be analyzed: its arguments and, where it defines a
/// library function, the body of the definition name classes with well formed
/// selections, and no sum of areas leaves the machine integers.
pub open spec fn analyzable<Op, N: Number, T>(
    a: ISAXAnalysis<N>,
    g: Known<N, T>,
    node: NodeView<Op>,
) -> bool where Op: OperationInfo<N> + Teachable<N> {
    &&& g.args_valid(node)
    &&& forall|j: int| 0 <= j < node.args.len() ==> all_wf((#[trigger] child(g, node, j)).cs)
    &&& match binding_of::<Op, usize, N>(node) {
        Some(BindingExpr::Lib(_, _, body, lat_cpu, lat_acc, area)) => {
            &&& body < g.slots.len()
            &&& all_wf(g.of(body).cs)
            &&& !lat_cpu.s_le(lat_acc) && area != 0 ==> forall|i: int|
                0 <= i < g.of(body).cs.len() ==> (#[trigger] g.of(
                    body,
                ).cs[i]).area + area <= usize::MAX
        },
        _ => node.args.len() >= 2 ==> areas_fit(
            sorted(child_sets(g, node), set_order()),
            node.args.len(),
            a.lps,
            a.inter_beam,
        ),
    }
}

impl<N: Number> ISAXAnalysis<N> {
    /// Finds what is known of a node from what is known of its arguments.
    pub fn make<Op, T>(&self, egraph: &EGraph<Op, ISAXCost<N, T>>, enode: &AstNode<Op>) -> (r:
        ISAXCost<N, T>) where
        Op: OperationInfo<N> + Teachable<N> + TypeInfo<T>,
        T: Duplicate,

        requires
            self.wf(),
            egraph.wf(),
            analyzable(*self, known(*egraph), enode@),
        ensures
            r@ == analyzed(*self, known(*egraph), enode@),
            all_wf(r@.cs),
    {
        let ghost g = *egraph;
        let ghost node = enode@;
        let n: usize = enode.args.len();
        let mut tys: Vec<T> = Vec::new();
        for j in 0..n
            invariant
                egraph.wf(),
                g == *egraph,
                node == enode@,
                n == node.args.len(),
                g.args_valid(node),
                tys@.len() == j,
                forall|k: int| 0 <= k < j ==> (#[trigger] tys@[k]) == child(known(g), node, k).ty,
        {
            assert(node.args[j as int] < g.slots@.len());
            tys.push(egraph.get(enode.args[j]).data.ty.duplicate());
        }
        assert(tys@ =~= child_types(known(g), node));
        let ty: T = Op::get_rtype(enode, &tys);
        let vec_len: usize = self.lanes_of(egraph, enode);
        let bbs: Vec<String> = enode.operation.get_bbs_info();
        assert(texts(bbs@).len() == bbs@.len());
        let mut runs: usize = 1;
        let mut latency: N = N::count(1);
        if bbs.len() > 0 {
            assert(texts(bbs@)[0] == bbs@[0]@);
            if let Some(entry) = self.bb_query.get(&bbs[0]) {
                runs = entry.execution_count;
                latency = entry.cpo;
            }
        }
        latency = latency.times(N::count(vec_len));
        if !enode.operation.is_op() {
            latency = N::zero();
        }
        let cycles: N = latency.times(N::count(runs));
        assert(cycles == own_cycles::<Op, N>(node.operation, self.bb_query@, vec_len));
        match Op::as_binding_expr(enode) {
            Some(BindingExpr::Lib(id, _, body, lat_cpu, lat_acc, area)) => {
                let data: &ISAXCost<N, T> = &egraph.get(*body).data;
                if lat_cpu.le(lat_acc) || area == 0 {
                    return ISAXCost::new(data.cs.duplicate(), ty, bbs, vec_len);
                }
                let search_result: usize = self.get_search_len(id.0);
                let mut b_runs: N = self.bb_query.get_factor();
                assert(texts(data.bb@).len() == data.bb@.len());
                if data.bb.len() > 0 {
                    assert(texts(data.bb@)[0] == data.bb@[0]@);
                    if let Some(entry) = self.bb_query.get(&data.bb[0]) {
                        b_runs = entry.execution_count_normalized;
                    }
                }
                let mut e: CostSet<N> = data.cs.add_lib(
                    id,
                    lat_acc,
                    lat_cpu,
                    area,
                    search_result,
                    b_runs,
                    *body,
                    self.lps,
                );
                e.unify();
                e.prune(self.inter_beam);
                ISAXCost::new(e, ty, bbs, vec_len)
            },
            _ => {
                if n == 0 {
                    let mut e: CostSet<N> = CostSet::new();
                    e.inc_cycles(cycles);
                    ISAXCost::new(e, ty, bbs, vec_len)
                } else if n == 1 {
                    assert(node.args[0] < g.slots@.len());
                    assert(all_wf(child(known(g), node, 0).cs));
                    let data: &ISAXCost<N, T> = &egraph.get(enode.args[0]).data;
                    let mut e: CostSet<N> = data.cs.duplicate();
                    e.inc_cycles(cycles);
                    if enode.operation.is_get_from_vec() {
                        e.split_cycles(data.vec_len);
                    }
                    ISAXCost::new(e, ty, bbs, vec_len)
                } else {
                    let mut e: CostSet<N> = self.cross_args(egraph, enode);
                    e.inc_cycles(cycles);
                    ISAXCost::new(e, ty, bbs, vec_len)
                }
            },
        }
    }

    /// The lanes of a node.
    fn lanes_of<Op, T>(&self, egraph: &EGraph<Op, ISAXCost<N, T>>, enode: &AstNode<Op>) -> (r:
        usize) where Op: OperationInfo<N>
        requires
            egraph.wf(),
            egraph.args_valid(enode@),
        ensures
            r == lanes::<Op, N, T>(known(*egraph), enode@),
    {
        let n: usize = enode.args.len();
        let mut most: usize = 1;
        for j in 0..n
            invariant
                egraph.wf(),
                egraph.args_valid(enode@),
                n == enode@.args.len(),
                most == child_lanes(known(*egraph), enode@, j as nat),
        {
            assert(enode@.args[j as int] < egraph.slots@.len());
            let lanes: usize = egraph.get(enode.args[j]).data.vec_len;
            if j == 0 || lanes > most {
                most = lanes;
            }
        }
        if enode.operation.is_vector_op() {
            let own: usize = enode.operation.get_vec_len();
            if most > own {
                most
            } else {
                own
            }
        } else {
            1
        }
    }

    /// The selections of the arguments, crossed in a fixed order.
    fn cross_args<Op, T>(&self, egraph: &EGraph<Op, ISAXCost<N, T>>, enode: &AstNode<Op>) -> (r:
        CostSet<N>)
        requires
            egraph.wf(),
            egraph.args_valid(enode@),
            enode@.args.len() >= 2,
            forall|j: int|
                0 <= j < enode@.args.len() ==> all_wf((#[trigger] child(known(*egraph), enode@, j)).cs),
            areas_fit(
                sorted(child_sets(known(*egraph), enode@), set_order()),
                enode@.args.len(),
                self.lps,
                self.inter_beam,
            ),
        ensures
            r@ == ({
                let sets = sorted(child_sets(known(*egraph), enode@), set_order());
                crossed_all(sets, sets.len(), self.lps, self.inter_beam)
            }),
            r.wf(),
    {
        let ghost node = enode@;
        let ghost g = *egraph;
        let ghost unordered = child_sets(known(g), node);
        let ghost sets = sorted(unordered, set_order());
        let n: usize = enode.args.len();
        let mut args: Vec<CostSet<N>> = Vec::new();
        for j in 0..n
            invariant
                egraph.wf(),
                g == *egraph,
                node == enode@,
                n == node.args.len(),
                g.args_valid(node),
                args@.len() == j,
                forall|k: int| 0 <= k < j ==> (#[trigger] args@[k])@ == child(known(g), node, k).cs,
        {
            assert(node.args[j as int] < g.slots@.len());
            args.push(egraph.get(enode.args[j]).data.cs.duplicate());
        }
        assert(set_views(args@) =~= unordered);
        let order: Vec<CostSet<N>> = sort_sets(args);
        proof {
            lemma_sorted(unordered, set_order());
            lemma_sorted_sets_wf(unordered);
            assert(set_views(order@).len() == order@.len());
            assert(set_views(order@)[0] == order@[0]@);
            assert(all_wf(sets[0]));
        }
        let mut e: CostSet<N> = order[0].duplicate();
        for k in 1..n
            invariant
                n == order@.len() == sets.len(),
                sets == set_views(order@),
                forall|i: int| 0 <= i < sets.len() ==> all_wf(#[trigger] sets[i]),
                areas_fit(sets, n as nat, self.lps, self.inter_beam),
                1 <= k,
                e.wf(),
                e@ == crossed_all(sets, k as nat, self.lps, self.inter_beam),
        {
            proof {
                lemma_areas_fit(sets, (k + 1) as nat, n as nat, self.lps, self.inter_beam);
                assert(sets[k as int] == order@[k as int]@);
                assert(all_wf(sets[k as int]));
            }
            e = e.cross(&order[k], self.lps);
            e.unify();
            e.prune(self.inter_beam);
        }
        e
    }
}

proof fn lemma_areas_fit<N: Number>(
    sets: Seq<Seq<SelView<N>>>,
    k: nat,
    n: nat,
    lps: usize,
    beam: usize,
)
    requires
        areas_fit(sets, n, lps, beam),
        k <= n,
    ensures
        areas_fit(sets, k, lps, beam),
    decreases n - k,
{
    if k < n {
        lemma_areas_fit(sets, (k + 1) as nat, n, lps, beam);
    }
}

proof fn lemma_sorted_sets_wf<N: Number>(unordered: Seq<Seq<SelView<N>>>)
    requires
        forall|j: int| 0 <= j < unordered.len() ==> all_wf(#[trigger] unordered[j]),
    ensures
        ({
            let sets = sorted(unordered, set_order());
            forall|i: int| 0 <= i < sets.len() ==> all_wf(#[trigger] sets[i])
        }),
{
    let sets = sorted(unordered, set_order());
    lemma_sorted(unordered, set_order());
    broadcast use vstd::seq_lib::group_to_multiset_ensures;

    assert forall|i: int| 0 <= i < sets.len() implies all_wf(#[trigger] sets[i]) by {
        assert(sets.contains(sets[i]));
        assert(sets.to_multiset().count(sets[i]) > 0);
        assert(unordered.to_multiset().count(sets[i]) > 0);
        assert(unordered.contains(sets[i]));
        let j = choose|j: int| 0 <= j < unordered.len() && unordered[j] == sets[i];
        assert(all_wf(unordered[j]));
    }
}

/// A node that defines a library function which is not faster on the
/// accelerator, or takes no area, costs what its body costs.
pub proof fn law_useless_lib_is_free<Op, N: Number, T>(
    a: ISAXAnalysis<N>,
    g: Known<N, T>,
    node: NodeView<Op>,
) where Op: OperationInfo<N> + Teachable<N> + TypeInfo<T>
    requires
        binding_of::<Op, usize, N>(node) is Some,
        binding_of::<Op, usize, N>(node)->Some_0 is Lib,
        ({
            let b = binding_of::<Op, usize, N>(node)->Some_0;
            b->Lib_3.s_le(b->Lib_4) || b->Lib_5 == 0
        }),
    ensures
        analyzed(a, g, node).cs == g.of(binding_of::<Op, usize, N>(node)->Some_0->Lib_2).cs,
{
}

/// A class never keeps more selections than its beam, and a node none that
/// its beam does not hold.
pub proof fn law_beams_bound_the_selections<Op, N: Number, T>(
    a: ISAXAnalysis<N>,
    to: CostView<N, T>,
    from: CostView<N, T>,
    sets: Seq<Seq<SelView<N>>>,
    k: nat,
) where Op: TypeInfo<T>
    ensures
        merged::<Op, N, T>(to, from, a.beam_size).cs.len() <= a.beam_size,
        k >= 2 ==> crossed_all(sets, k, a.lps, a.inter_beam).len() <= a.inter_beam,
{
    crate::extract::cost_set::law_pruning_keeps_the_best(
        unified(united(to.cs, from.cs)),
        a.beam_size,
    );
    if k >= 2 {
        let before = crossed_all(sets, (k - 1) as nat, a.lps, a.inter_beam);
        crate::extract::cost_set::law_pruning_keeps_the_best(
            unified(crossed(before, before.len(), sets[k - 1], a.lps)),
            a.inter_beam,
        );
    }
}

} // verus!
