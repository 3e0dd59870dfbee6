use babble::analysis::{SimpleAnalysis, TypeSet};
use babble::ast_node::expr::{combine_exprs, Expr};
use babble::ast_node::partial_expr::PartialExpr;
use babble::ast_node::print_expr::Pretty;
use babble::ast_node::{Arity, AstNode, Identical};
use babble::egraph::{EClass, EGraph};
use babble::extract::beam_pareto::{ClassMatch, Shown, TypeInfo};
use babble::extract::structural_hash::{
    compute_full_hash, compute_hash_level, LevelConflictState, StructuralHash, LEVELS,
};
use babble::learn::{DiscriminantEq, LibId, Match, ParseLibIdError};
use babble::number::{Fixed, Number};
use babble::rec_expr::RecExpr;
use babble::sexp::{ParseNodeError, Sexp};
use babble::simple_lang::{SimpleOp, SimpleType};
use babble::teachable::{BindingExpr, DeBruijnIndex, ParseDeBruijnIndexError, Teachable};
use std::sync::Arc;

type Op = SimpleOp<Fixed>;

fn op(s: &str) -> Op {
    Op::parse(s)
}

fn leaf(o: Op) -> Arc<Expr<Op>> {
    Arc::new(Expr::from_node(AstNode::leaf(o)))
}

fn node(o: Op, args: Vec<Arc<Expr<Op>>>) -> Arc<Expr<Op>> {
    Arc::new(Expr::from_node(AstNode::new(o, args)))
}

fn texts(e: &RecExpr<Op>) -> Vec<(String, Vec<usize>)> {
    e.nodes.iter().map(|n| (n.operation.to_text(), n.args.clone())).collect()
}

#[test]
fn operations_are_read() {
    assert!(matches!(op("apply"), SimpleOp::Apply));
    assert!(matches!(op("@"), SimpleOp::Apply));
    assert!(matches!(op("lambda"), SimpleOp::Lambda));
    assert!(matches!(op("λ"), SimpleOp::Lambda));
    assert!(matches!(op("list"), SimpleOp::List));
    assert!(matches!(op("$12"), SimpleOp::Var(DeBruijnIndex(12))));
    assert!(matches!(op("l3"), SimpleOp::LibVar(LibId(3))));
    assert_eq!(op("foo").to_text(), "foo");
    assert_eq!(op("$x").to_text(), "$x");
}

#[test]
fn operations_are_written() {
    assert_eq!(Op::Apply.to_text(), "@");
    assert_eq!(Op::Lib(LibId(2), Fixed::zero(), Fixed::zero(), 0).to_text(), "lib l2");
    assert_eq!(Op::LibVar(LibId(2)).to_text(), "ll2");
    assert_eq!(Op::Var(DeBruijnIndex(1)).to_text(), "$$1");
    assert_eq!(Op::Const(-4).to_text(), "-4");
}

#[test]
fn symbols_are_told_apart_by_their_names() {
    assert!(op("foo").identical(&op("foo")));
    assert!(!op("foo").identical(&op("bar")));
    assert!(!op("foo").identical(&Op::Add));
    assert!(op("foo").discriminant_eq(&op("foo")));
}

#[test]
fn arities() {
    assert_eq!((op("@").min_arity(), op("@").max_arity()), (2, None));
    assert_eq!((op("λ").min_arity(), op("λ").max_arity()), (1, Some(1)));
    let e = AstNode::<Op, u8>::try_new(Op::Add, vec![1]).unwrap_err();
    assert_eq!(e.actual, 1);
    assert!(matches!(e.operation, SimpleOp::Add));
    assert!(AstNode::<Op, u8>::try_new(Op::Add, vec![1, 2]).is_ok());
}

#[test]
fn library_names_read_back() {
    assert_eq!(LibId(17).to_text(), "l17");
    assert_eq!(LibId::parse("l17").unwrap().0, 17);
    assert!(matches!(LibId::parse("17"), Err(ParseLibIdError::NoLeadingL)));
    assert!(matches!(LibId::parse(""), Err(ParseLibIdError::NoLeadingL)));
    assert!(matches!(LibId::parse("lx"), Err(ParseLibIdError::InvalidIndex(_))));
}

#[test]
fn variables_read_back() {
    assert_eq!(DeBruijnIndex(3).to_text(), "$3");
    assert_eq!(DeBruijnIndex::parse("$3").unwrap(), DeBruijnIndex::from(3));
    assert!(matches!(
        DeBruijnIndex::parse("3"),
        Err(ParseDeBruijnIndexError::NoLeadingDollar)
    ));
    assert!(matches!(
        DeBruijnIndex::parse("$-3"),
        Err(ParseDeBruijnIndexError::InvalidIndex(_))
    ));
}

#[test]
fn constructs_read_back() {
    let n: AstNode<Op, u8> = Op::lib(LibId(1), 5, 6, Fixed::count(7), Fixed::count(8), 9);
    assert!(matches!(
        Op::as_binding_expr(&n),
        Some(BindingExpr::Lib(LibId(1), 5, 6, _, _, 9))
    ));
    assert!(matches!(Op::as_binding_expr(&Op::lambda(4)), Some(BindingExpr::Lambda(4))));
    assert!(matches!(Op::as_binding_expr(&Op::apply(1, 2)), Some(BindingExpr::Apply(1, 2))));
    let none: AstNode<Op, u8> = AstNode::leaf(op("foo"));
    assert!(Op::as_binding_expr(&none).is_none());
}

#[test]
fn shared_parts_are_one_node() {
    let x = leaf(op("x"));
    let e = node(op("@"), vec![x.clone(), x]);
    let r = RecExpr::from(&e);
    assert_eq!(texts(&r), vec![("x".to_owned(), vec![]), ("@".to_owned(), vec![0, 0])]);
    assert_eq!(e.len(), 3);
}

#[test]
fn parts_at_other_places_are_other_nodes() {
    let e = node(op("@"), vec![leaf(op("x")), leaf(op("x"))]);
    assert_eq!(RecExpr::from(&e).len(), 3);
}

#[test]
fn expressions_come_back() {
    let e = node(op("@"), vec![leaf(op("f")), node(op("λ"), vec![leaf(op("$0"))])]);
    let r = RecExpr::from(&e);
    let back = Expr::from(&r);
    assert_eq!(texts(&RecExpr::from(&back)), texts(&r));
}

#[test]
fn expressions_are_listed() {
    let one = Expr::from_node(AstNode::leaf(op("x")));
    let two = Expr::from_node(AstNode::new(op("λ"), vec![leaf(op("$0"))]));
    let r = combine_exprs::<Op, Fixed>(&vec![one, two]);
    assert_eq!(
        texts(&r),
        vec![
            ("x".to_owned(), vec![]),
            ("$$0".to_owned(), vec![]),
            ("λ".to_owned(), vec![1]),
            ("list".to_owned(), vec![0, 2]),
        ]
    );
}

#[test]
fn expressions_are_read() {
    let s = Sexp::List(
        "@".to_owned(),
        vec![Sexp::Atom("f".to_owned()), Sexp::Atom("$0".to_owned())],
    );
    let e = Expr::<Op>::try_from_sexp(&s).unwrap();
    assert_eq!(
        texts(&RecExpr::from(&e)),
        vec![
            ("f".to_owned(), vec![]),
            ("$$0".to_owned(), vec![]),
            ("@".to_owned(), vec![0, 1]),
        ]
    );
}

#[test]
fn expressions_that_cannot_be_read() {
    let s = Sexp::List("λ".to_owned(), vec![]);
    match Expr::<Op>::try_from_sexp(&s) {
        Err(ParseNodeError::ArityError(e)) => assert_eq!(e.actual, 0),
        _ => panic!(),
    }
}

#[test]
fn abstractions_are_printed() {
    // λ. ($0 f)
    let e = node(op("λ"), vec![node(op("@"), vec![leaf(op("$0")), leaf(op("f"))])]);
    let text = Pretty::new(e).to_text::<Fixed>();
    assert!(text.contains("f"));
    assert!(text.contains("x0"));
}

#[test]
fn types_are_shown_and_read() {
    assert_eq!(SimpleType::parse("int"), SimpleType::IntT(0));
    assert_eq!(SimpleType::parse("float"), SimpleType::Unknown);
    assert_eq!(SimpleType::IntT(8).shown(), "int<8>");
    assert_eq!(SimpleType::Unknown.shown(), "Unknown");
}

#[test]
fn wider_types() {
    let i = SimpleType::IntT;
    let wider = |a: &SimpleType, b: &SimpleType| <Op as TypeInfo<SimpleType>>::merge_types(a, b);
    assert_eq!(wider(&i(8), &i(16)), i(16));
    assert_eq!(wider(&i(16), &i(8)), i(16));
    assert_eq!(wider(&i(8), &SimpleType::Unknown), i(8));
    assert_eq!(wider(&i(0), &SimpleType::Unknown), SimpleType::Unknown);
}

#[test]
fn type_sets_are_merged() {
    let set = |v: Vec<SimpleType>| TypeSet { set: v };
    let mut to = set(vec![SimpleType::IntT(8)]);
    let from = set(vec![SimpleType::IntT(16), SimpleType::IntT(8)]);
    let (grew, differs) = SimpleAnalysis::default().merge(&mut to, &from);
    assert!(grew && !differs);
    assert!(to.same(&from));
    let (grew, differs) = SimpleAnalysis::default().merge(&mut to, &set(vec![]));
    assert!(!grew && differs);
    assert_eq!(to.get_type().len(), 2);
}

#[test]
fn type_sets_of_nodes() {
    let g: EGraph<Op, TypeSet<SimpleType>> = EGraph { slots: vec![], classes: vec![] };
    let r = SimpleAnalysis::default().make(&g, &AstNode::leaf(Op::Const(3)));
    assert_eq!(r.set.len(), 1);
}

fn class(id: usize, nodes: Vec<(Op, Vec<usize>)>) -> EClass<Op, ()> {
    let nodes = nodes.into_iter().map(|(o, args)| AstNode::new(o, args)).collect();
    EClass { id, nodes, data: () }
}

/// The classes 0 and 1 are symbols, 2 and 3 applications; 4 is another name
/// for the class 1.
fn applications() -> EGraph<Op, ()> {
    EGraph {
        slots: vec![0, 1, 2, 3, 1],
        classes: vec![
            class(0, vec![(op("f"), vec![])]),
            class(1, vec![(op("x"), vec![]), (op("y"), vec![])]),
            class(2, vec![(op("@"), vec![0, 4]), (op("@"), vec![0, 0])]),
            class(3, vec![(op("@"), vec![2, 2])]),
        ],
    }
}

fn found(p: &PartialExpr<Op, usize>) -> Vec<(usize, Vec<usize>)> {
    p.get_match(&applications()).into_iter().map(|m: Match| (m.class, m.actuals)).collect()
}

fn partial(o: Op, args: Vec<PartialExpr<Op, usize>>) -> PartialExpr<Op, usize> {
    PartialExpr::Node(AstNode::new(o, args))
}

#[test]
fn holes_match_every_class() {
    assert_eq!(
        found(&PartialExpr::Hole(7)),
        vec![(0, vec![0]), (1, vec![1]), (2, vec![2]), (3, vec![3])]
    );
}

#[test]
fn matches_are_in_order() {
    let p = partial(op("@"), vec![PartialExpr::Hole(1), PartialExpr::Hole(0)]);
    assert_eq!(found(&p), vec![(2, vec![0, 0]), (2, vec![0, 1]), (3, vec![2, 2])]);
}

#[test]
fn equal_holes_match_one_class() {
    let p = partial(op("@"), vec![PartialExpr::Hole(1), PartialExpr::Hole(1)]);
    assert_eq!(found(&p), vec![(2, vec![0]), (3, vec![2])]);
}

#[test]
fn matches_come_once_for_each_way() {
    let mut g = applications();
    g.classes[2].nodes.push(AstNode::new(op("@"), vec![0, 1]));
    let p = partial(op("@"), vec![PartialExpr::Hole(1), PartialExpr::Hole(0)]);
    let r: Vec<(usize, Vec<usize>)> =
        p.get_match(&g).into_iter().map(|m: Match| (m.class, m.actuals)).collect();
    assert_eq!(r, vec![(2, vec![0, 0]), (2, vec![0, 1]), (2, vec![0, 1]), (3, vec![2, 2])]);
    let outer = partial(op("@"), vec![p, PartialExpr::Hole(2)]);
    let r: Vec<(usize, Vec<usize>)> =
        outer.get_match(&g).into_iter().map(|m: Match| (m.class, m.actuals)).collect();
    assert_eq!(r, vec![(3, vec![0, 0, 2]), (3, vec![0, 1, 2]), (3, vec![0, 1, 2])]);
}

#[test]
fn nested_patterns_match() {
    let inner = || partial(op("@"), vec![partial(op("f"), vec![]), PartialExpr::Hole(1)]);
    let p = partial(op("@"), vec![inner(), inner()]);
    assert_eq!(found(&p), vec![(3, vec![0]), (3, vec![1])]);
    assert_eq!(found(&partial(op("y"), vec![])), vec![(1, vec![])]);
    assert_eq!(found(&partial(op("z"), vec![])), vec![]);
}

#[test]
fn hashes_depend_on_operation_and_arguments() {
    let h = |o: Op, c: Vec<u64>| compute_full_hash::<Op, Fixed>(&AstNode::leaf(o), &c);
    assert_eq!(h(op("@"), vec![1, 2]), h(op("@"), vec![1, 2]));
    assert_ne!(h(op("@"), vec![1, 2]), h(op("@"), vec![2, 1]));
    let level = compute_hash_level::<Op, Fixed>(&AstNode::leaf(op("@")), &vec![1, 2]);
    assert_eq!(level as u64, h(op("@"), vec![1, 2]) % 64);
    assert!(level < LEVELS);
}

#[test]
fn conflicts_move_the_state_of_a_level() {
    let mut s = LevelConflictState::<Fixed>::new();
    assert_eq!(s.get(3), Fixed { raw: 500 });
    s.update(3, false);
    assert_eq!(s.get(3), Fixed { raw: 450 });
    s.update(3, true);
    assert_eq!(s.get(3), Fixed { raw: 455 });
    assert_eq!(s.get(4), Fixed { raw: 500 });
}

#[test]
fn levels_are_merged() {
    let mut a = StructuralHash::<Fixed>::default();
    let mut b = StructuralHash::<Fixed>::default();
    a.set_level(0, true);
    b.set_level(0, true);
    a.set_level(1, true);
    b.set_level(63, true);
    a.merge(&b, Fixed { raw: 449 });
    // Both have the level 0; the draw is not above the states of the others.
    assert!(a.has_level(0));
    assert!(!a.has_level(1) && !a.has_level(2) && !a.has_level(63));
    assert_eq!(a.level_conflict.get(0), Fixed { raw: 500 });
    assert_eq!(a.level_conflict.get(1), Fixed { raw: 450 });
    a.merge(&b, Fixed { raw: 900 });
    assert!(a.has_level(0) && a.has_level(63));
    assert_ne!(a.cls_hash, 0);
}
