use babble::ast_node::partial_expr::{PartialExpr, PatternOp};
use babble::ast_node::pretty::{ExprMemoizer, Memoize, Printer};
use babble::ast_node::AstNode;
use babble::extract::beam_pareto::Shown;
use babble::number::Fixed;
use babble::rec_expr::RecExpr;
use babble::simple_lang::SimpleOp;

type Op = SimpleOp<Fixed>;
type Partial = PartialExpr<Op, String>;

fn op(s: &str) -> Op {
    Op::parse(s)
}

fn node(o: &str, args: Vec<Partial>) -> Partial {
    PartialExpr::Node(AstNode::new(op(o), args))
}

fn hole(s: &str) -> Partial {
    PartialExpr::Hole(s.to_owned())
}

/// (@ (λ ?a) (list ?b x ?a))
fn example() -> Partial {
    node(
        "@",
        vec![
            node("λ", vec![hole("a")]),
            node("list", vec![hole("b"), node("x", vec![]), hole("a")]),
        ],
    )
}

#[derive(Debug)]
struct Name(&'static str);

impl Shown for Name {
    fn shown(&self) -> String {
        self.0.to_owned()
    }
}

#[test]
fn sizes() {
    let p = example();
    assert_eq!(p.size(), 7);
    assert_eq!(p.num_nodes(), 4);
    assert_eq!(p.num_holes(), 3);
    assert!(!p.has_holes() && node("x", vec![]).has_holes());
    assert!(p.is_node() && !p.is_hole());
}

#[test]
fn holes_are_listed_once() {
    let p = example();
    let holes: Vec<&str> = p.unique_holes().into_iter().map(String::as_str).collect();
    assert_eq!(holes, vec!["a", "b"]);
}

#[test]
fn leaves_that_are_holes() {
    assert!(node("@", vec![hole("a"), hole("b")]).leaves_are_all_holes());
    // A node without arguments has no leaves.
    assert!(example().leaves_are_all_holes());
}

#[test]
fn holes_are_filled() {
    let full = example().fill(|h: String| -> Partial { node(h.as_str(), vec![]) });
    assert_eq!(full.num_holes(), 0);
    assert_eq!(full.size(), 7);
}

#[test]
fn fills_compose() {
    let shown = |p: &Partial| -> Vec<String> {
        p.to_pattern()
            .nodes
            .iter()
            .map(|n| match &n.operation {
                PatternOp::Op(o) => format!("{:?}{:?}", o, n.args),
                PatternOp::Var(v) => v.clone(),
            })
            .collect()
    };
    let f = |h: String| -> Partial { node("@", vec![hole(h.as_str()), hole("c")]) };
    let g = |h: String| -> Partial {
        if h == "c" {
            node("x", vec![])
        } else {
            hole(h.as_str())
        }
    };
    assert_eq!(shown(&example().fill(|h: String| -> Partial { hole(h.as_str()) })), shown(&example()));
    let twice = example().fill(f).fill(g);
    assert_eq!(shown(&twice), shown(&example().fill(|h: String| -> Partial { f(h).fill(g) })));
    // Four nodes, and two for each of the three holes.
    assert_eq!(twice.num_nodes(), 10);
    assert_eq!(twice.num_holes(), 3);
    assert_eq!(twice.to_pattern().len(), 13);
}

#[test]
fn binders_are_counted() {
    let depths = example().fill_with_binders::<Fixed, String, _>(|h: String, depth: usize| {
        hole(format!("{h}{depth}").as_str())
    });
    let holes: Vec<&str> = depths.unique_holes().into_iter().map(String::as_str).collect();
    assert_eq!(holes, vec!["a1", "b0", "a0"]);
}

#[test]
fn leaves_are_mapped() {
    let p = example().map_leaves_with_binders::<Fixed, _>(|_leaf, depth: usize| {
        hole(format!("leaf{depth}").as_str())
    });
    assert_eq!(p.num_holes(), 4);
    assert_eq!(p.num_nodes(), 3);
}

#[test]
fn patterns_read_back() {
    let p = example();
    let pattern = p.to_pattern();
    assert!(matches!(&pattern.nodes[0].operation, PatternOp::Var(v) if v == "a"));
    let back = PartialExpr::from(&pattern);
    assert_eq!(back.size(), 7);
    let holes = |p: &Partial| -> Vec<String> {
        p.unique_holes().into_iter().map(|h| h.to_owned()).collect()
    };
    assert_eq!(holes(&back), holes(&p));
}

#[test]
fn whole_expressions_are_complete() {
    let p = node("@", vec![node("f", vec![]), node("x", vec![])]);
    let e = p.to_expr();
    assert_eq!(RecExpr::from(&e).len(), 3);
    let back: Partial = PartialExpr::from_expr(&e);
    assert_eq!(back.num_nodes(), 3);
    assert!(back.has_holes());
    assert!(back.into_node().is_ok());
}

#[test]
fn holes_are_no_nodes() {
    let p: PartialExpr<Op, Name> = PartialExpr::Hole(Name("?x"));
    let e = p.into_node().unwrap_err();
    assert_eq!(e.to_text(), "expected expression but found hole ?x");
    assert_eq!(hole("a").hole(), Some("a".to_owned()));
    assert!(hole("a").node().is_none());
}

#[test]
fn delays_add_up() {
    assert_eq!(hole("a").get_delay(), 1);
    assert_eq!(example().get_delay(), 7);
}

#[test]
fn checkpoints_are_restored() {
    let mut m = ExprMemoizer::new();
    let first = m.register(7);
    let at = m.checkpoint();
    let second = m.register(8);
    assert_ne!(first, second);
    assert_eq!(m.lookup(8), Some(second));
    m.restore(at);
    assert_eq!(m.lookup(7), Some(first));
    assert_eq!(m.lookup(8), None);
}

#[test]
fn texts_are_printed_in_brackets() {
    let mut p = Printer::new(String::new());
    p.in_parens(|p: &mut Printer| {
        p.write_str("a");
        Ok(())
    })
    .unwrap();
    p.in_brackets(|p: &mut Printer| {
        p.write_char('b');
        Ok(())
    })
    .unwrap();
    assert_eq!(p.writer, "(a)[b]");
}
