use babble::assoc::SiteMap;
use babble::ast_node::partial_expr::PatternOp;
use babble::ast_node::pretty::{ExprMemoizer, Printer};
use babble::ast_node::print_expr::{Layout, Piece, Printable};
use babble::expand::{
    collect_messages, distinct, ExpandMessage, LearnMessage, LibRule, Pattern, Rule,
};
use babble::extract::lib_sel::LibSel;
use babble::extract::memo::Memo;
use babble::id_map::IdMap;
use babble::perf_infer::{expr_perf_infer, perf_infer};
use babble::rewrites::type_match::TypeMatch;
use babble::runner::exact_latency::{exact_latencies, move_to};
use babble::runner::pareto::{count_reuses, join_roots, learn_from, LearnFrom};
use babble::runner::selection::{choose_selection, competing_rules, note_selection};
use babble::runner::session::{Session, Stage};
use babble::runner::widths::{find_consts, width_groups};
use babble::schedule::{
    cycles_for_every_function, dump_rec_cost, rec_cost, rec_cycles, Schedulable, Scheduler,
};
use std::sync::Arc;
use babble::ast_node::{Arity, AstNode, Duplicate, Identical};
use babble::bb_query::{BBEntry, BBInfo, BBQuery};
use babble::egraph::{EClass, EGraph};
use babble::extract::beam_pareto::{ISAXAnalysis, ISAXCost, TypeInfo};
use babble::extract::cost_fn::{ISAXLpCF, ISAXCF};
use babble::extract::cost_set::CostSet;
use babble::extract::isax_extractor::ISAXExtractor;
use babble::extract::lambda::eliminate_lambda;
use babble::extract::lib_context::LibContext;
use babble::extract::lib_extractor::LibExtractor;
use babble::extract::sharing::share;
use babble::extract::structural_hash::{compute_full_hash, compute_hash_level};
use babble::learn::LibId;
use babble::number::{Fixed, Number};
use babble::rec_expr::RecExpr;
use babble::runner::operation::OperationInfo;
use babble::runner::recalculate::recalculate_all_data;
use babble::simple_lang::SimpleType;
use babble::teachable::{
    BindingExpr, CastOp, DeBruijnIndex, ShieldingBop, ShieldingConst, ShieldingOp, ShieldingTop,
    ShieldingUop, Teachable, VectorOp,
};
use std::hash::{DefaultHasher, Hash, Hasher};

/// An operation with its basic blocks.
#[derive(Debug, Clone, PartialEq)]
struct Op {
    kind: Kind,
    bbs: Vec<String>,
}

#[derive(Debug, Clone, PartialEq)]
enum Kind {
    /// An operation that takes so many cycles.
    Work(&'static str, usize),
    /// An operation on vectors that takes so many cycles.
    VecWork(usize),
    /// A memory access that takes so many cycles.
    Mem(usize),
    /// A loop.
    Loop,
    Leaf(i64),
    List,
    Lambda,
    Apply,
    Var(usize),
    LibVar(usize),
    Lib(usize, Fixed, Fixed, usize),
    Rule(String),
    /// An operation that is hashed as another.
    Hashed(ShieldingOp),
}

fn fixed(n: usize) -> Fixed {
    Fixed::count(n)
}

fn op(kind: Kind) -> Op {
    Op { kind, bbs: vec!["b".to_owned()] }
}

fn work(name: &'static str, cycles: usize) -> Op {
    op(Kind::Work(name, cycles))
}

impl Duplicate for Op {
    fn duplicate(&self) -> Op {
        self.clone()
    }
}

impl Identical for Op {
    fn identical(&self, other: &Op) -> bool {
        self == other
    }

    fn identical_are_equal(_a: Op, _b: Op) {}
}

impl Arity for Op {
    fn min_arity(&self) -> usize {
        0
    }

    fn max_arity(&self) -> Option<usize> {
        None
    }
}

impl BBInfo for Op {
    fn bbs_info(&self) -> &Vec<String> {
        &self.bbs
    }

    fn get_mut_bbs_info(&mut self) -> &mut Vec<String> {
        &mut self.bbs
    }
}

impl TypeInfo<SimpleType> for Op {
    fn get_rtype(_node: &AstNode<Op>, _child_types: &Vec<SimpleType>) -> SimpleType {
        SimpleType::IntT(8)
    }

    fn merge_types(a: &SimpleType, _b: &SimpleType) -> SimpleType {
        *a
    }

    fn merge_types_neglecting_width(a: &SimpleType, _b: &SimpleType) -> SimpleType {
        *a
    }

    fn can_merge_types(a: &SimpleType, b: &SimpleType) -> bool {
        a == b
    }
}

impl Schedulable<Fixed, (), ()> for Op {
    fn op_delay(node: &AstNode<Op>, _ld: &(), _args: &Vec<AstNode<Op>>) -> usize {
        match &node.operation.kind {
            Kind::Work(_, cycles) => 100 * *cycles,
            _ => 0,
        }
    }

    fn op_area(node: &AstNode<Op>, _la: &(), args: &Vec<AstNode<Op>>) -> usize {
        match &node.operation.kind {
            Kind::Work(..) => 10 + args.len(),
            _ => 0,
        }
    }

    fn op_latency(_node: &AstNode<Op>) -> usize {
        1
    }

    fn op_latency_cpu(node: &AstNode<Op>, _bb_query: &BBQuery<Fixed>) -> Fixed {
        match &node.operation.kind {
            Kind::Work(_, cycles) | Kind::VecWork(cycles) | Kind::Mem(cycles) => fixed(*cycles),
            _ => fixed(0),
        }
    }
}

impl Teachable<Fixed> for Op {
    fn construct_reads_back(_b: BindingExpr<(), Fixed>) {}

    fn construct_parts(_op: Op) {}

    fn from_binding_expr<T>(b: BindingExpr<T, Fixed>) -> AstNode<Op, T> {
        match b {
            BindingExpr::Var(i) => AstNode::leaf(op(Kind::Var(i.0))),
            BindingExpr::LibVar(id) => AstNode::leaf(op(Kind::LibVar(id.0))),
            BindingExpr::Lambda(body) => AstNode::new(op(Kind::Lambda), vec![body]),
            BindingExpr::Apply(f, x) => AstNode::new(op(Kind::Apply), vec![f, x]),
            BindingExpr::Lib(id, v, b, cpu, acc, area) => {
                AstNode::new(op(Kind::Lib(id.0, cpu, acc, area)), vec![v, b])
            }
        }
    }

    fn as_binding_expr<T>(node: &AstNode<Op, T>) -> Option<BindingExpr<&T, Fixed>> {
        let args: Vec<&T> = node.args.iter().collect();
        match (&node.operation.kind, args.as_slice()) {
            (Kind::Var(i), []) => Some(BindingExpr::Var(DeBruijnIndex(*i))),
            (Kind::LibVar(i), []) => Some(BindingExpr::LibVar(LibId(*i))),
            (Kind::Lambda, [b]) => Some(BindingExpr::Lambda(b)),
            (Kind::Apply, [f, x]) => Some(BindingExpr::Apply(f, x)),
            (Kind::Lib(id, cpu, acc, area), [v, b]) => {
                Some(BindingExpr::Lib(LibId(*id), v, b, *cpu, *acc, *area))
            }
            _ => None,
        }
    }

    fn list() -> Op {
        op(Kind::List)
    }

    fn to_shielding_op(&self) -> ShieldingOp {
        match &self.kind {
            Kind::Work(name, _) => ShieldingOp::Function((*name).to_owned()),
            Kind::VecWork(_) => ShieldingOp::VectorOp(VectorOp::VecAdd),
            Kind::Hashed(op) => op.clone(),
            _ => ShieldingOp::Get,
        }
    }
}

impl Printable for Op {
    fn precedence(&self) -> u8 {
        match self.kind {
            Kind::Work("+", _) => 50,
            _ => 100,
        }
    }

    fn layout(&self, args: usize) -> Layout {
        let word = match &self.kind {
            Kind::Work(name, _) => (*name).to_owned(),
            Kind::Leaf(value) => value.to_string(),
            _ => "?".to_owned(),
        };
        match (word.as_str(), args) {
            // The second argument of a sum is never put in parentheses.
            ("+", 2) => with_pieces(vec![
                Piece::Arg(0, None),
                Piece::Text(" + ".to_owned()),
                Piece::Arg(1, Some(0)),
            ]),
            ("block", 1) => with_pieces(vec![
                Piece::Text("{".to_owned()),
                Piece::Indent,
                Piece::Line,
                Piece::Arg(0, Some(0)),
                Piece::Dedent,
                Piece::Line,
                Piece::Text("}".to_owned()),
            ]),
            _ => Layout::word(word),
        }
    }
}

fn with_pieces(pieces: Vec<Piece>) -> Layout {
    Layout { pieces, ..Layout::word(String::new()) }
}

impl OperationInfo<Fixed> for Op {
    fn get_full_info(&self) -> String {
        self.debug_text()
    }

    fn is_commutative(&self) -> bool {
        false
    }

    fn is_dowhile(&self) -> bool {
        self.kind == Kind::Loop
    }

    fn is_liblearn_banned_op(&self) -> bool {
        false
    }

    fn is_lib(&self) -> bool {
        matches!(self.kind, Kind::Lib(..))
    }

    fn is_list_op(&self) -> bool {
        self.kind == Kind::List
    }

    fn is_lib_op(&self) -> bool {
        self.is_lib()
    }

    fn get_libid(&self) -> usize {
        match self.kind {
            Kind::Lib(id, ..) => id,
            _ => 0,
        }
    }

    fn make_lib(id: LibId, lat_cpu: Fixed, lat_acc: Fixed, cost: usize) -> Op {
        op(Kind::Lib(id.0, lat_cpu, lat_acc, cost))
    }

    fn make_vec(_result_tys: Vec<String>, bbs: Vec<String>) -> Op {
        Op { kind: Kind::List, bbs }
    }

    fn make_get_from_vec(id: usize, _result_tys: Vec<String>, bbs: Vec<String>) -> Op {
        Op { kind: Kind::Var(id), bbs }
    }

    fn get_const(&self) -> Option<(i64, u32)> {
        match self.kind {
            Kind::Leaf(v) => Some((v, 32)),
            _ => None,
        }
    }

    fn make_const(value: (i64, u32)) -> Op {
        op(Kind::Leaf(value.0))
    }

    fn is_dummy(&self) -> bool {
        false
    }

    fn is_vector_op(&self) -> bool {
        matches!(self.kind, Kind::VecWork(_))
    }

    fn get_simple_cost(&self) -> Fixed {
        fixed(0)
    }

    fn make_gather(_indices: &Vec<usize>, bbs: Vec<String>) -> Op {
        Op { kind: Kind::List, bbs }
    }

    fn make_shuffle(_indices: &Vec<usize>, bbs: Vec<String>) -> Op {
        Op { kind: Kind::List, bbs }
    }

    fn get_bbs_info(&self) -> Vec<String> {
        self.bbs.clone()
    }

    fn set_result_type(&mut self, _result_ty: Vec<String>) {}

    fn get_vec_len(&self) -> usize {
        1
    }

    fn make_op_pack(_ops: Vec<String>, bbs: Vec<String>) -> Op {
        Op { kind: Kind::List, bbs }
    }

    fn make_op_select(idx: usize) -> Op {
        op(Kind::Var(idx))
    }

    fn make_rule_var(name: String) -> Op {
        op(Kind::Rule(name))
    }

    fn make_opmask() -> Op {
        op(Kind::List)
    }

    fn get_bitwidth(&self) -> usize {
        0
    }

    fn make_bitwidth(&mut self, _width: usize) {}

    fn set_bbs_info(&mut self, bbs: Vec<String>) {
        self.bbs = bbs;
    }

    fn is_arithmetic(&self) -> bool {
        false
    }

    fn is_op(&self) -> bool {
        matches!(self.kind, Kind::Work(..) | Kind::VecWork(_) | Kind::Mem(_))
    }

    fn is_get_from_vec(&self) -> bool {
        false
    }

    fn is_mem(&self) -> bool {
        matches!(self.kind, Kind::Mem(_))
    }

    fn op_execution_count(&self, bb_query: &BBQuery<Fixed>) -> Fixed {
        match self.bbs.first().and_then(|bb| bb_query.get(bb)) {
            Some(entry) => entry.execution_count_normalized,
            None => fixed(1),
        }
    }

    fn genericize(&mut self) {}

    fn debug_text(&self) -> String {
        format!("{:?}", self.kind)
    }
}

/// An e-graph whose classes have these nodes.
fn graph(classes: Vec<Vec<(Op, Vec<usize>)>>) -> EGraph<Op, ()> {
    graph_with(classes, || ())
}

fn graph_with<D>(classes: Vec<Vec<(Op, Vec<usize>)>>, data: impl Fn() -> D) -> EGraph<Op, D> {
    let slots = (0..classes.len()).collect();
    let classes = classes
        .into_iter()
        .enumerate()
        .map(|(id, nodes)| EClass {
            id,
            nodes: nodes.into_iter().map(|(o, args)| AstNode::new(o, args)).collect(),
            data: data(),
        })
        .collect();
    EGraph { slots, classes }
}

fn expr(nodes: Vec<(Op, Vec<usize>)>) -> RecExpr<Op> {
    RecExpr { nodes: nodes.into_iter().map(|(o, args)| AstNode::new(o, args)).collect() }
}

fn shown(e: &RecExpr<Op>) -> Vec<(Kind, Vec<usize>)> {
    e.nodes.iter().map(|n| (n.operation.kind.clone(), n.args.clone())).collect()
}

fn leaf(v: i64) -> (Op, Vec<usize>) {
    (op(Kind::Leaf(v)), vec![])
}

#[test]
fn equal_parts_become_one_node() {
    // (f (g 1) (g 1)), written out.
    let e = expr(vec![
        leaf(1),
        (work("g", 1), vec![0]),
        leaf(1),
        (work("g", 1), vec![2]),
        (work("f", 1), vec![1, 3]),
    ]);
    let r = share(&e);
    assert_eq!(
        shown(&r),
        vec![
            (Kind::Leaf(1), vec![]),
            (Kind::Work("g", 1), vec![0]),
            (Kind::Work("f", 1), vec![1, 1]),
        ]
    );
}

#[test]
fn sharing_keeps_different_parts_apart() {
    let e = expr(vec![leaf(1), leaf(2), (work("f", 1), vec![0, 1])]);
    let r = share(&e);
    assert_eq!(r.len(), 3);
    assert_eq!(r.nodes[2].operation, work("f", 1));
    assert_eq!(r.nodes[r.nodes[2].args[0]].operation, op(Kind::Leaf(1)));
    assert_eq!(r.nodes[r.nodes[2].args[1]].operation, op(Kind::Leaf(2)));
    assert_eq!(share(&RecExpr::<Op>::new()).len(), 0);
}

#[test]
fn contexts_are_sets_of_library_functions() {
    let mut a = LibContext::new();
    let empty = a.hash;
    a.add_id(3);
    a.add_id(1);
    a.add_id(3);
    assert_eq!(a.set, vec![1, 3]);
    assert!(a.contains(1) && !a.contains(2));
    assert_ne!(a.hash, empty);
    let mut b = LibContext::new();
    b.add_id(1);
    b.add_id(3);
    assert_eq!(a.hash, b.hash);
    assert_eq!(a.duplicate().set, a.set);
}

#[test]
fn library_extractor_takes_the_cheaper_node() {
    // The class 1 is a costly or a cheap operation on the class 0.
    let g = graph(vec![
        vec![leaf(7)],
        vec![(work("slow", 9), vec![0]), (work("fast", 2), vec![0])],
        vec![(work("top", 1), vec![1, 1])],
    ]);
    let mut x = LibExtractor::new(&g, BBQuery::<Fixed>::default());
    let best = x.try_best::<(), ()>(2).unwrap();
    assert_eq!(
        shown(&best),
        vec![
            (Kind::Leaf(7), vec![]),
            (Kind::Work("fast", 2), vec![0]),
            (Kind::Work("top", 1), vec![1, 1]),
        ]
    );
    let cost = x.cost::<(), ()>(&best);
    assert_eq!(cost.cycles, fixed(3));
    assert_eq!(cost.area, 0);
}

#[test]
fn library_extractor_goes_round_cycles() {
    // The class 1 is an operation on itself, or on the class 0.
    let g = graph(vec![
        vec![leaf(7)],
        vec![(work("again", 1), vec![1]), (work("once", 5), vec![0])],
        vec![(work("never", 1), vec![2])],
    ]);
    let mut x = LibExtractor::new(&g, BBQuery::<Fixed>::default());
    let best = x.try_best::<(), ()>(1).unwrap();
    assert_eq!(
        shown(&best),
        vec![(Kind::Leaf(7), vec![]), (Kind::Work("once", 5), vec![0])]
    );
    assert!(x.try_best::<(), ()>(2).is_none());
    assert_eq!(shown(&x.best::<(), ()>(0)), vec![(Kind::Leaf(7), vec![])]);
}

#[test]
fn library_extractor_finds_what_there_is_without_cycles() {
    // The class 1 is nothing but the definition of a library function, so
    // nothing of it may stand inside that definition.
    let lib = Op { kind: Kind::Lib(4, fixed(9), fixed(1), 1), bbs: vec!["b".to_owned()] };
    let g = graph(vec![
        vec![leaf(7)],
        vec![(lib.clone(), vec![0, 0])],
        vec![(lib.clone(), vec![1, 0])],
        vec![(work("both", 1), vec![1, 0]), (work("none", 1), vec![2])],
    ]);
    let mut x = LibExtractor::new(&g, BBQuery::<Fixed>::default());
    assert!(x.try_best::<(), ()>(2).is_none());
    let best = x.best::<(), ()>(3);
    assert_eq!(best.nodes.last().unwrap().operation, work("both", 1));
    assert_eq!(x.best::<(), ()>(1).nodes.last().unwrap().operation, lib);
}

#[test]
fn library_extractor_does_not_come_back_to_a_class() {
    // The class 2 is an operation on the class 1, which is still under way when
    // the class 2 is visited, and the class 2 is not visited again.
    let g = graph(vec![
        vec![leaf(7)],
        vec![(work("down", 1), vec![2]), leaf(8)],
        vec![(work("up", 1), vec![1])],
        vec![(work("top", 1), vec![1, 2])],
    ]);
    let mut x = LibExtractor::new(&g, BBQuery::<Fixed>::default());
    assert!(x.try_best::<(), ()>(3).is_none());
    assert_eq!(shown(&x.best::<(), ()>(1)), vec![(Kind::Leaf(8), vec![])]);
    let mut y = LibExtractor::new(&g, BBQuery::<Fixed>::default());
    assert_eq!(
        shown(&y.best::<(), ()>(2)),
        vec![(Kind::Leaf(8), vec![]), (Kind::Work("up", 1), vec![0])]
    );
}

#[test]
fn library_extractor_takes_the_last_of_equals() {
    let g = graph(vec![
        vec![leaf(7)],
        vec![(work("one", 2), vec![0]), (work("two", 2), vec![0]), (work("six", 6), vec![0])],
    ]);
    let mut x = LibExtractor::new(&g, BBQuery::<Fixed>::default());
    assert_eq!(
        shown(&x.best::<(), ()>(1)),
        vec![(Kind::Leaf(7), vec![]), (Kind::Work("two", 2), vec![0])]
    );
}

#[test]
fn definitions_do_not_use_themselves() {
    // The class 1 is a definition of a library function, or an operation that
    // takes longer; the class 2 defines that function to be the class 1.
    let lib = Op { kind: Kind::Lib(4, fixed(9), fixed(1), 1), bbs: vec!["b".to_owned()] };
    let g = graph(vec![
        vec![leaf(7)],
        vec![(work("body", 50), vec![0]), (lib.clone(), vec![0, 0])],
        vec![(lib.clone(), vec![1, 0])],
    ]);
    let mut x = LibExtractor::new(&g, BBQuery::<Fixed>::default());
    let best = x.try_best::<(), ()>(2).unwrap();
    let libs = best.nodes.iter().filter(|n| n.operation.is_lib()).count();
    assert_eq!(libs, 1);
    let root = best.nodes.last().unwrap();
    assert_eq!(root.operation, lib);
    assert_eq!(best.nodes[root.args[0]].operation, work("body", 50));
    assert_eq!(x.cost::<(), ()>(&best).area, 1);
    let alone = x.try_best::<(), ()>(1).unwrap();
    assert_eq!(alone.nodes.last().unwrap().operation, lib);
}

#[test]
fn plain_extractor_takes_the_first_cheapest_node() {
    let g = graph(vec![
        vec![leaf(7)],
        vec![
            (work("slow", 9), vec![0]),
            (work("fast", 2), vec![0]),
            (work("quick", 2), vec![0]),
        ],
        vec![(work("top", 1), vec![1, 0])],
    ]);
    let mut x = ISAXExtractor::new::<(), ()>(&g, BBQuery::<Fixed>::default());
    let best = x.best::<(), ()>(2);
    assert_eq!(
        shown(&best),
        vec![
            (Kind::Leaf(7), vec![]),
            (Kind::Work("fast", 2), vec![0]),
            (Kind::Work("top", 1), vec![1, 0]),
        ]
    );
    x.extract::<(), ()>(1);
    assert_eq!(
        shown(&x.best::<(), ()>(1)),
        vec![(Kind::Leaf(7), vec![]), (Kind::Work("fast", 2), vec![0])]
    );
}

#[test]
fn bonus_for_vectors_only() {
    let cf = ISAXCF::new(BBQuery::<Fixed>::default());
    // All operations are on vectors: the cycles over one and a hundredth.
    let all = expr(vec![(op(Kind::VecWork(101)), vec![])]);
    assert_eq!(cf.cost_rec::<Op, (), ()>(&all), fixed(100));
    let some = expr(vec![(op(Kind::VecWork(101)), vec![]), (work("f", 0), vec![0])]);
    assert_eq!(cf.cost_rec::<Op, (), ()>(&some), fixed(101));
    assert_eq!(cf.cost(&all.nodes[0]), fixed(0));
}

#[test]
fn node_costs_use_known_latencies() {
    let cf = ISAXLpCF::new(BBQuery::<Fixed>::default());
    let mut analysis = ISAXAnalysis::<Fixed>::empty();
    let lib = Op {
        kind: Kind::Lib(4, fixed(9), fixed(3), 1),
        bbs: vec!["z".to_owned(), "a".to_owned()],
    };
    let node = AstNode::new(lib, vec![0, 0]);
    assert_eq!(cf.node_cost::<Op, (), ()>(&analysis, &node), fixed(3));
    let mut lats = SiteMap::new();
    lats.insert(4, vec!["a".to_owned(), "z".to_owned()], fixed(2));
    analysis.with_lat_map(lats);
    assert_eq!(cf.node_cost::<Op, (), ()>(&analysis, &node), fixed(2));
    let plain = AstNode::new(work("f", 6), vec![]);
    assert_eq!(cf.node_cost::<Op, (), ()>(&analysis, &plain), fixed(6));
    let nowhere = AstNode::new(Op { kind: Kind::Work("f", 6), bbs: vec![] }, vec![]);
    assert_eq!(cf.node_cost::<Op, (), ()>(&analysis, &nowhere), fixed(0));
    let no_op = AstNode::leaf(op(Kind::Leaf(1)));
    assert_eq!(cf.node_cost::<Op, (), ()>(&analysis, &no_op), fixed(0));
}

#[test]
fn lambdas_and_what_is_below_become_variables() {
    let g = graph(vec![
        vec![leaf(1)],
        vec![(work("f", 1), vec![0])],
        vec![(op(Kind::Lambda), vec![1])],
        vec![(work("g", 1), vec![2]), leaf(5)],
    ]);
    let r = eliminate_lambda::<Op, Fixed, ()>(g);
    let rule = |id: usize| Kind::Rule(format!("Lambda{id}"));
    assert_eq!(r.classes[0].nodes[0].operation.kind, rule(0));
    assert_eq!(r.classes[1].nodes[0].operation.kind, rule(1));
    assert_eq!(r.classes[1].nodes[0].args, vec![0]);
    assert_eq!(r.classes[2].nodes[0].operation.kind, rule(2));
    assert_eq!(r.classes[3].nodes[0].operation, work("g", 1));
    assert_eq!(r.classes[3].nodes[1].operation, op(Kind::Leaf(5)));
}

fn query() -> BBQuery<Fixed> {
    BBQuery {
        entries: vec![BBEntry::new(
            "b".to_owned(),
            2,
            fixed(10),
            fixed(0),
            fixed(0),
            1,
            1,
            fixed(1),
            fixed(3),
        )],
        factor: fixed(1),
    }
}

fn unknown() -> ISAXCost<Fixed, SimpleType> {
    ISAXCost::empty()
}

#[test]
fn analysis_adds_up_cycles() {
    // An operation takes three cycles, and its block runs twice.
    let analysis = ISAXAnalysis::new(10, 10, 2, query());
    let mut g = graph_with(
        vec![vec![leaf(1)], vec![(work("f", 1), vec![0])], vec![(work("g", 1), vec![1, 1])]],
        unknown,
    );
    recalculate_all_data(&analysis, &mut g, 2);
    let cycles = |i: usize| g.classes[i].data.cs.set[0].cycles;
    assert_eq!(cycles(0), fixed(0));
    assert_eq!(cycles(1), fixed(6));
    assert_eq!(cycles(2), fixed(18));
    assert_eq!(g.classes[2].data.ty, SimpleType::IntT(8));
    assert_eq!(g.classes[2].data.bb, vec!["b".to_owned()]);
    assert_eq!(g.classes[2].data.vec_len, 1);
}

#[test]
fn library_functions_save_cycles() {
    // Ten executions save eight cycles each, at an area of five.
    let lib = op(Kind::Lib(4, fixed(9), fixed(1), 5));
    let analysis = ISAXAnalysis::new(10, 10, 2, query());
    let mut g = graph_with(
        vec![
            vec![leaf(1)],
            vec![(work("f", 1), vec![0]), (lib, vec![0, 0])],
        ],
        unknown,
    );
    recalculate_all_data(&analysis, &mut g, 1);
    let set = &g.classes[1].data.cs.set;
    assert!(set.iter().any(|s| s.area == 0 && s.libs.len() == 0));
    assert!(set.iter().any(|s| s.area == 5 && s.libs.has(4)));
}

#[test]
fn useless_library_functions_cost_nothing() {
    let analysis = ISAXAnalysis::new(10, 10, 2, query());
    let slow = op(Kind::Lib(4, fixed(1), fixed(9), 5));
    let g = graph_with(vec![vec![leaf(1)]], unknown);
    let r = analysis.make(&g, &AstNode::new(slow, vec![0, 0]));
    assert_eq!(r.cs.set.len(), 1);
    assert_eq!(r.cs.set[0].area, 0);
    assert_eq!(r.cs.set[0].cycles, fixed(0));
}

#[test]
fn beams_bound_the_selections() {
    let analysis = ISAXAnalysis::new(1, 1, 1, query());
    let mut a: CostSet<Fixed> = CostSet::new();
    a.inc_cycles(fixed(4));
    let mut b: CostSet<Fixed> = CostSet::new();
    b.inc_cycles(fixed(3));
    let mut to = ISAXCost::new(a, SimpleType::IntT(8), vec!["x".to_owned()], 1);
    let from = ISAXCost::new(b, SimpleType::IntT(8), vec!["a".to_owned()], 4);
    let (changed, differs) = analysis.merge::<Op, SimpleType>(&mut to, from);
    assert!(changed && differs);
    assert_eq!(to.cs.set.len(), 1);
    assert_eq!(to.cs.set[0].cycles, fixed(3));
    assert_eq!(to.bb, vec!["a".to_owned(), "x".to_owned()]);
    assert_eq!(to.vec_len, 4);
}

#[test]
fn hashes_tell_operations_apart() {
    let h = |o: Op| compute_full_hash::<Op, Fixed>(&AstNode::leaf(o), &vec![1]);
    assert_eq!(h(work("f", 1)), h(work("f", 2)));
    assert_ne!(h(work("f", 1)), h(work("g", 1)));
    assert_ne!(h(work("f", 1)), h(op(Kind::VecWork(1))));
    assert_ne!(h(op(Kind::List)), h(op(Kind::VecWork(1))));
}

#[test]
fn operations_are_hashed_with_what_they_hold() {
    let ops = vec![
        ShieldingOp::List,
        ShieldingOp::Lib(LibId(7)),
        ShieldingOp::LibVar(LibId(9)),
        ShieldingOp::Const(ShieldingConst::Int(None)),
        ShieldingOp::Const(ShieldingConst::Int(Some(32))),
        ShieldingOp::Const(ShieldingConst::Float(Some(64))),
        ShieldingOp::Const(ShieldingConst::VecInt(4, 16)),
        ShieldingOp::Const(ShieldingConst::VecFloat(8, 32)),
        ShieldingOp::Top(ShieldingTop::Select),
        ShieldingOp::Bop(ShieldingBop::StateMerge),
        ShieldingOp::Uop(ShieldingUop::Neg),
        ShieldingOp::Uop(ShieldingUop::Cast(CastOp::FPExt)),
        ShieldingOp::Function("λx".to_owned()),
        ShieldingOp::Dummy(String::new()),
        ShieldingOp::IOBarrier,
        ShieldingOp::VectorOp(VectorOp::Shuffle),
        ShieldingOp::OpMask,
    ];
    for shown in ops {
        let mut hasher = DefaultHasher::new();
        shown.hash(&mut hasher);
        3u64.hash(&mut hasher);
        5u64.hash(&mut hasher);
        let hash = hasher.finish();
        let node = AstNode::leaf(op(Kind::Hashed(shown)));
        assert_eq!(compute_full_hash::<Op, Fixed>(&node, &vec![3, 5]), hash);
        assert_eq!(compute_hash_level::<Op, Fixed>(&node, &vec![3, 5]) as u64, hash % 64);
    }
}

/// Measurements of blocks with these normalized counts.
fn counts(blocks: &[(&str, usize)]) -> BBQuery<Fixed> {
    let entry = |(name, count): &(&str, usize)| {
        let zero = fixed(0);
        BBEntry::new((*name).to_owned(), *count, fixed(*count), zero, zero, 1, 1, fixed(1), fixed(1))
    };
    BBQuery { entries: blocks.iter().map(entry).collect(), factor: fixed(1) }
}

fn at(bb: &str, o: Op) -> Op {
    Op { bbs: vec![bb.to_owned()], ..o }
}

#[test]
fn critical_paths_are_scheduled() {
    // g after f: a delay of 300 in a clock period of 100 is three cycles.
    let e = expr(vec![
        leaf(1),
        (work("f", 1), vec![0]),
        (work("h", 1), vec![0]),
        (work("g", 2), vec![1, 2]),
    ]);
    let scheduler = Scheduler::new(100, (), (), BBQuery::<Fixed>::default());
    assert_eq!(scheduler.asap_schedule(&e), (fixed(4), fixed(3), 34));
}

#[test]
fn slow_accelerators_are_not_used() {
    // A delay of 200 in a clock period of 50 is four cycles, not two.
    let e = expr(vec![leaf(1), (work("f", 2), vec![0])]);
    let scheduler = Scheduler::new(50, (), (), BBQuery::<Fixed>::default());
    assert_eq!(scheduler.asap_schedule(&e), (fixed(0), fixed(0), 0));
    // Nothing takes up area.
    let e = expr(vec![leaf(1), (op(Kind::Mem(2)), vec![0])]);
    let scheduler = Scheduler::new(100, (), (), BBQuery::<Fixed>::default());
    assert_eq!(scheduler.asap_schedule(&e), (fixed(0), fixed(0), 0));
}

#[test]
fn loops_are_pipelined() {
    // The body runs five times as often as the loop.
    let e = expr(vec![
        (at("body", op(Kind::Leaf(1))), vec![]),
        (at("body", work("f", 2)), vec![0]),
        (at("loop", op(Kind::Loop)), vec![1]),
    ]);
    let scheduler = Scheduler::new(100, (), (), counts(&[("body", 50), ("loop", 10)]));
    // Two cycles on the processor, five times; two cycles and four more.
    assert_eq!(scheduler.asap_schedule(&e), (fixed(10), fixed(6), 11));
}

#[test]
fn costs_of_expressions() {
    let lib = Kind::Lib(4, fixed(9), fixed(3), 7);
    let e = expr(vec![
        (at("m#a", op(Kind::Leaf(1))), vec![]),
        (at("m#a", work("f", 2)), vec![0]),
        (at("m#b", op(lib.clone())), vec![1, 1]),
        (at("n", op(lib)), vec![2, 2]),
        (Op { bbs: vec![], ..work("g", 100) }, vec![3]),
    ]);
    let query = counts(&[("m#a", 10), ("m#b", 2), ("n", 1)]);
    let mut lats = SiteMap::new();
    lats.insert(4, vec!["n".to_owned()], fixed(1));
    // 2 * 10 + 3 * 2 + 1 * 1, and the area of one library function.
    assert_eq!(rec_cost::<Op, Fixed, (), ()>(&e, &query, &lats), (fixed(27), 7));
    assert_eq!(rec_cycles::<Op, Fixed, (), ()>(&e, &query, &lats), fixed(27));
    let by_function = cycles_for_every_function::<Op, Fixed, (), ()>(&e, &query, &lats);
    assert_eq!(by_function.get(&"m".to_owned()), Some(&fixed(26)));
    assert_eq!(by_function.get(&"n".to_owned()), Some(&fixed(1)));
    assert_eq!(by_function.entries.len(), 2);
    let dump = dump_rec_cost::<Op, Fixed, (), ()>(&e, &query, &lats);
    assert_eq!(
        dump,
        "node=1 kind=op op=Work(\"f\", 2) bbs=[\"m#a\"] exe_count=10.000 cpu_lat=2.000 cycles=20.000\n\
         node=2 kind=lib lib=4 bbs=[\"m#b\"] exe_count=2.000 lat_acc=3.000 cycles=6.000 area_counted=7\n\
         node=3 kind=lib lib=4 bbs=[\"n\"] exe_count=1.000 lat_acc=1.000 cycles=1.000 area_counted=0\n\
         total cycles=27.000 area=7"
    );
}

fn no_blocks(o: Op) -> Op {
    Op { bbs: vec![], ..o }
}

#[test]
fn blocks_are_handed_down_in_graphs() {
    let mut g = graph_with(
        vec![
            vec![(no_blocks(op(Kind::Leaf(1))), vec![])],
            vec![(no_blocks(work("f", 1)), vec![0]), (at("own", work("g", 1)), vec![0])],
            vec![(no_blocks(work("top", 1)), vec![1])],
            vec![(no_blocks(work("away", 1)), vec![0])],
        ],
        unknown,
    );
    g.classes[2].data.bb = vec!["root".to_owned(), "more".to_owned()];
    perf_infer(&mut g, &vec![2]);
    let blocks = |k: usize, n: usize| g.classes[k].nodes[n].operation.bbs.clone();
    assert_eq!(blocks(2, 0), vec!["root".to_owned()]);
    assert_eq!(blocks(1, 0), vec!["own".to_owned()]);
    assert_eq!(blocks(1, 1), vec!["own".to_owned()]);
    assert_eq!(blocks(0, 0), vec!["own".to_owned()]);
    assert_eq!(blocks(3, 0), Vec::<String>::new());
    assert_eq!(g.classes[2].data.bb, vec!["root".to_owned()]);
}

#[test]
fn blocks_are_handed_down_in_expressions() {
    let mut e = expr(vec![
        (no_blocks(op(Kind::Leaf(1))), vec![]),
        (no_blocks(work("f", 1)), vec![0]),
        (at("a", work("g", 1)), vec![1]),
        (no_blocks(op(Kind::Leaf(2))), vec![]),
        (at("b", work("h", 1)), vec![2, 3]),
    ]);
    expr_perf_infer(&mut e);
    let blocks: Vec<String> = e.nodes.iter().map(|n| n.operation.bbs.join(",")).collect();
    assert_eq!(blocks, ["a", "a", "a", "b", "b"].map(String::from).to_vec());
}

#[test]
fn expressions_end_with_tagged_roots_only() {
    let mut e = expr(vec![(at("a", op(Kind::Leaf(1))), vec![]), (no_blocks(work("f", 1)), vec![0])]);
    expr_perf_infer(&mut e);
    assert_eq!(e.nodes[1].operation.bbs, Vec::<String>::new());
}

/// A selection of library functions with these areas and gains per execution.
fn selection(libs: &[(usize, usize, usize)]) -> LibSel<Fixed> {
    let mut sel = LibSel::<Fixed>::new();
    sel.inc_cycles(fixed(1000));
    for (id, area, gain) in libs {
        sel = sel
            .add_lib(LibId(*id), fixed(1), fixed(1 + *gain), *area, 1, fixed(1), *id, 9)
            .unwrap();
    }
    sel
}

fn ids(sel: &LibSel<Fixed>) -> Vec<usize> {
    sel.libs.ids()
}

#[test]
fn library_functions_are_added_to_selections() {
    let sel = selection(&[(3, 5, 10)]);
    assert_eq!(sel.cycles, fixed(1001));
    assert_eq!(sel.area, 5);
    // The area of a library function counts once, its latency for every place.
    let again = sel.add_lib(LibId(3), fixed(1), fixed(11), 5, 1, fixed(1), 8, 9).unwrap();
    assert_eq!(again.cycles, fixed(1002));
    assert_eq!(again.area, 5);
    assert!(sel.is_subset(&again));
}

#[test]
fn the_least_saving_is_evicted() {
    let sel = selection(&[(1, 5, 10), (2, 5, 30)]);
    let more = sel.add_lib(LibId(3), fixed(1), fixed(21), 5, 1, fixed(1), 7, 2);
    assert_eq!(ids(&more.unwrap()), vec![2, 3]);
}

#[test]
fn selections_are_combined() {
    let mut a = selection(&[(1, 5, 10)]);
    a.cycles = fixed(90);
    let mut b = selection(&[(2, 6, 20)]);
    b.cycles = fixed(80);
    let c = a.combine(&b, 9).unwrap();
    assert_eq!(c.cycles, fixed(170));
    assert_eq!(c.area, 11);
    assert_eq!(ids(&c), vec![1, 2]);
}

#[test]
fn selections_within_earlier_ones_are_dropped() {
    let mut set = CostSet::<Fixed>::new();
    let mut first = selection(&[(1, 5, 10), (2, 6, 20)]);
    first.cycles = fixed(10);
    let mut part = selection(&[(1, 5, 10)]);
    part.cycles = fixed(20);
    let mut other = selection(&[(3, 5, 10)]);
    other.cycles = fixed(30);
    set.set = vec![first, part, other];
    set.unify2();
    assert_eq!(set.set.iter().map(|s| s.cycles).collect::<Vec<_>>(), vec![fixed(10), fixed(30)]);
}

#[test]
fn unifying_keeps_the_frontier() {
    let sel = |cycles: usize, area: usize, lib: usize| {
        let mut s = selection(&[(lib, area, 1)]);
        s.cycles = fixed(cycles);
        s
    };
    let left = |sels: Vec<_>| -> Vec<(Fixed, usize)> {
        let mut set = CostSet::<Fixed>::new();
        set.set = sels;
        set.unify();
        set.set.iter().map(|s| (s.cycles, s.area)).collect()
    };
    // The first beats the second in both.
    assert_eq!(left(vec![sel(1, 1, 0), sel(2, 2, 1)]), vec![(fixed(1), 1)]);
    // Neither beats the other.
    assert_eq!(left(vec![sel(2, 1, 1), sel(1, 2, 0)]), vec![(fixed(1), 2), (fixed(2), 1)]);
    // Of the same libraries the first and the third are on the frontier, and
    // the smaller area stays.
    assert_eq!(left(vec![sel(7, 3, 1), sel(9, 9, 1), sel(5, 8, 1)]), vec![(fixed(7), 3)]);
    // What was not on the frontier does not push out what was.
    assert_eq!(
        left(vec![sel(7, 3, 1), sel(5, 8, 1), sel(6, 2, 4)]),
        vec![(fixed(5), 8), (fixed(6), 2)]
    );
    assert!(left(Vec::new()).is_empty());
}

#[test]
fn selections_stay_within_the_limit() {
    // Three library functions, of which a selection may use two.
    let lib = |id: usize| op(Kind::Lib(id, fixed(9), fixed(1), 1));
    let analysis = ISAXAnalysis::new(10, 10, 2, query());
    let mut g = graph_with(
        vec![
            vec![leaf(1)],
            vec![(lib(1), vec![0, 0])],
            vec![(lib(2), vec![0, 0])],
            vec![(lib(3), vec![0, 0])],
            vec![(work("f", 1), vec![1, 2, 3])],
        ],
        unknown,
    );
    recalculate_all_data(&analysis, &mut g, 4);
    let set = &g.classes[4].data.cs.set;
    assert!(!set.is_empty());
    assert!(set.iter().all(|s| s.libs.len() <= 2));
}

#[test]
fn recalculation_merges_all_nodes() {
    // The class 1 is an operation that runs often or one that runs never.
    let rarely = at("never", work("g", 1));
    let analysis = ISAXAnalysis::new(10, 10, 2, query());
    let mut g = graph_with(
        vec![
            vec![leaf(1)],
            vec![(work("f", 1), vec![0]), (rarely, vec![0])],
            vec![(op(Kind::Loop), vec![1])],
        ],
        unknown,
    );
    recalculate_all_data(&analysis, &mut g, 2);
    let both = &g.classes[1].data;
    assert_eq!(both.bb, vec!["b".to_owned(), "never".to_owned()]);
    // One set of library functions, none: the cheaper node stays.
    assert_eq!(both.cs.set.len(), 1);
    assert_eq!(both.cs.set[0].cycles, fixed(1));
    assert_eq!(g.classes[2].data.cs.set[0].cycles, fixed(1));
}

#[test]
fn pruning_keeps_the_fastest() {
    let mut set = CostSet::<Fixed>::new();
    let sel = |cycles: usize| {
        let mut s = selection(&[(cycles, 1, 1)]);
        s.cycles = fixed(cycles);
        s
    };
    set.set = vec![sel(3), sel(5), sel(7)];
    set.prune(2);
    assert_eq!(set.set.iter().map(|s| s.cycles).collect::<Vec<_>>(), vec![fixed(3), fixed(5)]);
}

#[test]
fn sets_are_crossed_and_united() {
    let mut a = CostSet::<Fixed>::new();
    a.inc_cycles(fixed(3));
    let mut b = CostSet::<Fixed>::new();
    b.inc_cycles(fixed(4));
    let c = a.cross(&b, 9);
    assert_eq!(c.set.len(), 1);
    assert_eq!(c.set[0].cycles, fixed(7));
    a.combine(b);
    assert_eq!(a.set.len(), 2);
    a.split_cycles(2);
    assert_eq!(a.set[0].cycles, Fixed { raw: 1500 });
    let with = a.add_lib(LibId(1), fixed(1), fixed(2), 5, 1, fixed(1), 0, 9);
    assert_eq!(with.set.len(), 2);
    assert!(with.set.iter().all(|s| s.libs.has(1)));
}

fn rule(name: &str, handle: usize) -> Rule {
    Rule { name: name.to_owned(), handle }
}

fn pattern(o: Op) -> Pattern<Op> {
    let mut p = RecExpr::new();
    p.add(AstNode::leaf(PatternOp::Op(o)));
    p
}

fn learned(id: usize, name: &str) -> LearnMessage<Op, SimpleType> {
    LearnMessage {
        lib_id: id,
        rewrite: LibRule { rule: rule(name, id), condition: TypeMatch::default() },
        searcher: pattern(work("f", 1)),
        applier: pattern(op(Kind::LibVar(id))),
        search_len: 10 * id,
    }
}

#[test]
fn rules_are_distinct_by_name() {
    let r = distinct(vec![rule("b", 1), rule("a", 2), rule("b", 3)]);
    assert_eq!(r, vec![rule("a", 2), rule("b", 1)]);
}

#[test]
fn messages_are_collected() {
    let m = collect_messages(vec![learned(2, "x"), learned(5, "y")]);
    assert_eq!(m.appliers.ids(), vec![2, 5]);
    assert_eq!(m.lib_search_results.get(5), Some(&50));
    assert_eq!(m.next_lib_id(), 6);
    assert_eq!(m.rules().len(), 2);
}

#[test]
fn messages_are_retained() {
    let mut m = collect_messages(vec![learned(2, "x"), learned(5, "y")]);
    m.retain_with_ids(&vec![5, 7]);
    assert_eq!(m.appliers.ids(), vec![5]);
    let mut n: ExpandMessage<Op, SimpleType> = ExpandMessage::default();
    assert_eq!(n.next_lib_id(), 0);
    n.insert_from_messages(5, &m);
    assert_eq!(n.searchers.ids(), vec![5]);
}

#[test]
fn selections_bring_their_rules() {
    let past = collect_messages(vec![learned(2, "x")]);
    let new = collect_messages(vec![learned(5, "y"), learned(6, "z")]);
    let sel = selection(&[(2, 1, 1), (5, 1, 1)]);
    let chosen = choose_selection(&sel, &past, &new, 3);
    assert_eq!(chosen.libs.ids(), vec![2, 5]);
    let mut names: Vec<&str> = chosen.rules.iter().map(|r| r.name.as_str()).collect();
    names.sort();
    assert_eq!(names, vec!["x", "y"]);
    let mut message = ExpandMessage::default();
    note_selection(&mut message, &sel, &past, &new, 3);
    assert_eq!(message.appliers.ids(), vec![2, 5]);
    assert_eq!(competing_rules(&new, &past).len(), 3);
}

#[test]
fn constants_are_grouped_by_value() {
    let mut g = graph(vec![vec![leaf(7)], vec![leaf(8), leaf(7)], vec![(work("f", 1), vec![0])]]);
    assert_eq!(find_consts::<Op, Fixed, ()>(&g).len(), 3);
    let groups = width_groups::<Op, Fixed, ()>(&g);
    let seven = groups.iter().find(|c| c.value == 7).unwrap();
    assert_eq!(seven.classes, vec![0, 1]);
    assert_eq!(seven.missing, vec![8, 16, 64]);
    g.classes.truncate(0);
    g.slots.truncate(0);
    assert_eq!(width_groups::<Op, Fixed, ()>(&g).len(), 0);
}

#[test]
fn reuses_are_counted() {
    let lib = |id: usize| op(Kind::Lib(id, fixed(1), fixed(1), 1));
    let e = expr(vec![
        leaf(1),
        (lib(3), vec![0, 0]),
        (lib(3), vec![1, 0]),
        (lib(9), vec![2, 0]),
    ]);
    let r = count_reuses::<Op, Fixed>(&e);
    assert_eq!(r.get(3), Some(&2));
    assert_eq!(r.get(9), Some(&1));
    assert_eq!(r.len(), 2);
}

#[test]
fn exact_latencies_at_every_site() {
    // The pattern has a delay of 100 in a clock period of 100.
    let mut searchers = IdMap::new();
    searchers.insert(4, Arc::new(vec![pattern(work("f", 1))]));
    let lib = op(Kind::Lib(4, fixed(9), fixed(5), 1));
    let g = graph(vec![vec![leaf(1)], vec![(lib, vec![0, 0])]]);
    let scheduler = Scheduler::new(100, (), (), counts(&[("b", 1)]));
    let r = exact_latencies::<Op, Fixed, (), (), ()>(&g, &searchers, &scheduler);
    assert_eq!(r.get(4, &vec!["b".to_owned()]), Some(&fixed(1)));
    assert_eq!(r.entries.len(), 1);
}

#[test]
fn what_is_learned_from() {
    assert_eq!(learn_from(true, true), LearnFrom::Packs);
    assert_eq!(learn_from(true, false), LearnFrom::Vectors);
    assert_eq!(learn_from(false, false), LearnFrom::Expressions);
}

#[test]
fn roots_are_joined() {
    let g = graph_with(vec![vec![leaf(1)], vec![leaf(2)]], unknown);
    let joined = join_roots(&g, &vec![0, 1]).unwrap();
    assert_eq!(joined.args, vec![0, 1]);
    assert_eq!(joined.operation.kind, Kind::List);
    assert!(join_roots(&g, &vec![1]).is_none());
}

#[test]
fn a_session_has_a_result_for_every_selection() {
    let past: ExpandMessage<Op, SimpleType> = ExpandMessage::default();
    let analysis = ISAXAnalysis::new(10, 10, 2, query());
    let scheduler = Scheduler::new(100, (), (), query());
    let mut g = graph_with(vec![vec![leaf(1)], vec![(work("f", 3), vec![0])]], unknown);
    let mut session = Session::begin(&past, false, false);
    assert_eq!(session.stage, Stage::ApplyRules);
    session.rules_applied(&mut g, 1);
    assert_eq!(session.stage, Stage::AddPast);
    session.past_added(&mut g, &vec![1]);
    assert_eq!(session.stage, Stage::Learn(LearnFrom::Expressions));
    session.found(vec![learned(0, "x")]);
    assert_eq!(session.stage, Stage::Compete);
    assert_eq!(session.competing(&past).len(), 1);
    let lib = op(Kind::Lib(0, fixed(4), fixed(1), 1));
    g.classes[1].nodes.push(AstNode::new(lib, vec![0, 0]));
    session.competed(&analysis, &mut g, 1);
    let selections = session.selections.len();
    assert!(selections > 0);
    for i in 0..selections {
        assert_eq!(session.stage, Stage::Try(i));
        session.try_rules(&past);
        assert_eq!(session.stage, Stage::Solve(i));
        let fresh = graph_with(vec![vec![leaf(1)], vec![(work("f", 3), vec![0])]], unknown);
        let (exact, _) = session.tried(fresh, 1, &scheduler);
        session.solved::<(), ()>(expr(vec![leaf(1)]), &exact, &query());
    }
    assert_eq!(session.stage, Stage::Done);
    let result = session.finish(None, 12, (3, 2));
    assert_eq!(result.extract_results.len(), selections);
    assert_eq!(result.run_time, 12);
    assert_eq!(result.egraph_size, (3, 2));
}

#[test]
fn operations_are_printed_in_pieces() {
    let e = expr(vec![
        leaf(1),
        leaf(2),
        (work("+", 1), vec![0, 1]),
        (work("+", 1), vec![2, 2]),
        (work("block", 1), vec![3]),
    ]);
    let mut printer = Printer::new(String::new());
    let mut memo = ExprMemoizer::new();
    printer.print_in_context::<Op, Fixed>(&e, 4, 0, &mut memo).unwrap();
    assert_eq!(printer.writer, "[0]:{\n  [1]:([2]:[3]:1 + [4]:2) + [2]\n}");
    assert_eq!(printer.indentation, 0);
}

#[test]
fn what_was_noted_depends_on_the_context() {
    let mut memo = Memo::new();
    let empty = LibContext::new();
    let mut inner = LibContext::new();
    inner.add_id(4);
    memo.insert(7, &empty, 1);
    memo.insert(7, &inner, 2);
    memo.insert(8, &inner, 3);
    memo.insert(8, &inner, 4);
    assert_eq!(memo.get(7, &empty), Some(1));
    assert_eq!(memo.get(7, &inner), Some(2));
    assert_eq!(memo.get(8, &empty), None);
    assert_eq!(memo.get(8, &inner), Some(4));
    inner.add_id(5);
    assert_eq!(memo.get(8, &inner), None);
}

#[test]
fn what_can_be_scheduled() {
    let blocks = |e: RecExpr<Op>, b: &str| {
        let nodes = e.nodes.into_iter().map(|n| {
            let operation = Op { bbs: vec![b.to_owned()], ..n.operation };
            AstNode::new(operation, n.args)
        });
        RecExpr { nodes: nodes.collect() }
    };
    let scheduler = Scheduler::new(100, (), (), counts(&[("known", 2)]));
    let plain = expr(vec![leaf(1), (work("f", 3), vec![0])]);
    assert!(scheduler.fits(&plain));
    assert!(!scheduler.fits(&expr(vec![])));
    let looped = expr(vec![leaf(1), (op(Kind::Loop), vec![0])]);
    assert!(scheduler.fits(&blocks(looped, "known")));
    let mut pattern: Pattern<Op> = RecExpr::new();
    pattern.add(AstNode::leaf(PatternOp::Var("?x".to_owned())));
    pattern.add(AstNode::new(PatternOp::Op(work("f", 3)), vec![0]));
    let moved = move_to::<Op, Fixed>(&pattern, &vec!["b".to_owned()]);
    assert_eq!(moved.nodes[0].operation.kind, Kind::Var(0));
    assert_eq!(moved.nodes[1].operation.bbs, vec!["b".to_owned()]);
}
