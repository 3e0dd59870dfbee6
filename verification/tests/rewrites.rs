use babble::assoc::TextMap;
use babble::ast_node::partial_expr::PatternOp;
use babble::ast_node::{Arity, AstNode, Duplicate};
use babble::egraph::{EClass, EGraph};
use babble::rec_expr::RecExpr;
use babble::rewrites::pattern::{pattern_of, pattern_vars, read_pattern, ReadOp};
use babble::rewrites::type_match::{ConditionError, HasType, ReadType, TypeMatch};
use babble::rewrites::{
    parse, parse_condition, parse_lhs_condition, parse_line, parse_rewrite_line, read_lines,
    RewriteError, RewriteRule,
};

/// An operation that is any word but `!`. The word `one` takes one argument.
#[derive(Debug, Clone, PartialEq)]
struct Word(String);

impl Duplicate for Word {
    fn duplicate(&self) -> Word {
        self.clone()
    }
}

impl ReadOp for Word {
    fn reads_one_way() {}

    fn read_op(s: &str) -> Option<Word> {
        if s == "!" {
            None
        } else {
            Some(Word(s.to_owned()))
        }
    }
}

impl Arity for Word {
    fn min_arity(&self) -> usize {
        usize::from(self.0 == "one")
    }

    fn max_arity(&self) -> Option<usize> {
        if self.0 == "one" {
            Some(1)
        } else {
            None
        }
    }
}

/// A type that is a letter.
#[derive(Debug, Clone, PartialEq)]
struct Letter(char);

impl Duplicate for Letter {
    fn duplicate(&self) -> Letter {
        self.clone()
    }
}

impl ReadType for Letter {
    fn read_type(s: &str) -> Option<Letter> {
        let mut chars = s.chars();
        match (chars.next(), chars.next()) {
            (Some(c), None) => Some(Letter(c)),
            _ => None,
        }
    }
}

impl HasType<Letter> for char {
    fn has(&self, ty: &Letter) -> bool {
        *self == ty.0
    }
}

type Rules = Result<Vec<RewriteRule<Word, Letter>>, RewriteError>;

fn pattern(s: &str) -> RecExpr<PatternOp<Word, String>> {
    read_pattern(s).unwrap()
}

/// The pattern, written with brackets.
fn shown(p: &RecExpr<PatternOp<Word, String>>) -> String {
    fn at(p: &RecExpr<PatternOp<Word, String>>, i: usize) -> String {
        let node = &p.nodes[i];
        let word = match &node.operation {
            PatternOp::Op(op) => op.0.clone(),
            PatternOp::Var(v) => v.clone(),
        };
        if node.args.is_empty() {
            word
        } else {
            let args: Vec<String> = node.args.iter().map(|a| at(p, *a)).collect();
            format!("({} {})", word, args.join(" "))
        }
    }
    at(p, p.len() - 1)
}

fn condition_error(s: &str) -> ConditionError {
    TypeMatch::<Letter>::parse(s).unwrap_err()
}

#[test]
fn rules_with_names() {
    let rules: Rules = parse("one_plus_one: (+ 1 1) => 2\n");
    let rules = rules.unwrap();
    assert_eq!(rules.len(), 1);
    assert_eq!(rules[0].name, "one_plus_one");
    assert_eq!(shown(&rules[0].lhs), "(+ 1 1)");
    assert_eq!(shown(&rules[0].rhs), "2");
    assert!(rules[0].condition.is_empty());
}

#[test]
fn lines_are_names() {
    let rules: Rules = parse_line("(neg (neg ?x)) ==> ?x");
    let rules = rules.unwrap();
    assert_eq!(rules.len(), 1);
    assert_eq!(rules[0].name, "(neg (neg ?x)) ==> ?x");
    assert_eq!(shown(&rules[0].rhs), "?x");
}

#[test]
fn rules_that_hold_both_ways() {
    let rules: Rules = parse_line("(+ ?x ?y) <==> (add ?y ?x)");
    let rules = rules.unwrap();
    assert_eq!(rules.len(), 2);
    assert_eq!(shown(&rules[0].lhs), "(+ ?x ?y)");
    assert_eq!(shown(&rules[0].rhs), "(add ?y ?x)");
    assert_eq!(shown(&rules[1].lhs), shown(&rules[0].rhs));
    assert_eq!(shown(&rules[1].rhs), shown(&rules[0].lhs));
    assert_ne!(rules[0].name, rules[1].name);
}

#[test]
fn comments_and_blank_lines_are_skipped() {
    let file = "// rules\n\n  a ==> b // a comment\n\t\nn: b => c";
    assert_eq!(read_lines(file), vec!["a ==> b".to_owned(), "n: b => c".to_owned()]);
    let rules: Rules = parse(file);
    assert_eq!(rules.unwrap().len(), 2);
}

#[test]
fn rules_with_conditions() {
    let rules: Rules = parse_line("(f ?x ?y) ==> ?x where (?x: a, ?y: [b | c])");
    let condition = &rules.unwrap()[0].condition;
    let types = |v: &str| condition.type_map.get(&v.to_owned());
    assert_eq!(types("?x"), Some(&vec![Letter('a')]));
    assert_eq!(types("?y"), Some(&vec![Letter('b'), Letter('c')]));
    assert_eq!(condition.vars().len(), 2);
}

#[test]
fn conditions_on_all_variables() {
    let rules: Rules = parse_line("(f ?x ?y) ==> ?x where all(t: [a | b])");
    let condition = &rules.unwrap()[0].condition;
    for v in ["?x", "?y"] {
        assert_eq!(
            condition.type_map.get(&v.to_owned()),
            Some(&vec![Letter('a'), Letter('b')])
        );
    }
}

#[test]
fn parts_of_lines() {
    assert_eq!(
        parse_rewrite_line(" a <==> b ").unwrap(),
        (" a <==> b ".to_owned(), ("a".to_owned(), "b".to_owned(), true))
    );
    assert_eq!(
        parse_rewrite_line("n: a => b where c").unwrap(),
        ("n".to_owned(), ("a".to_owned(), "b".to_owned(), false))
    );
    let (p, c) = parse_lhs_condition::<Word, Letter>("(f ?x) ==> ! where (?x: a)").unwrap();
    assert_eq!(shown(&p), "(f ?x)");
    assert_eq!(c.vars(), vec!["?x".to_owned()]);
    let c = parse_condition::<Word, Letter>("a ==> b", &pattern("a")).unwrap();
    assert!(c.is_empty());
}

#[test]
fn errors_of_rules() {
    let error = |s: &str| -> RewriteError {
        let rules: Rules = parse(s);
        rules.unwrap_err()
    };
    assert_eq!(error("a b"), RewriteError::MissingArrow);
    assert_eq!(error("a => b"), RewriteError::MissingArrow);
    assert_eq!(error("a => b: c"), RewriteError::MissingArrow);
    assert_eq!(error("(f ==> b"), RewriteError::BadLeft);
    assert_eq!(error("! ==> b"), RewriteError::BadLeft);
    assert_eq!(error("(one a b) ==> b"), RewriteError::BadLeft);
    assert_eq!(error("a ==> )"), RewriteError::BadRight);
    assert_eq!(
        error("?x ==> ?x where ?x: a"),
        RewriteError::BadCondition(ConditionError::MissingOpen)
    );
    assert_eq!(error("?x ==> ?y"), RewriteError::Unbound);
    assert_eq!(error("?x ==> ?x where (?y: a)"), RewriteError::Unbound);
    assert_eq!(error("(f ?x ?y) <==> ?x"), RewriteError::UnboundReverse);
    assert_eq!(error("a ==> b\na b\n?x ==> ?y"), RewriteError::MissingArrow);
}

#[test]
fn errors_of_conditions() {
    assert_eq!(condition_error("?x: a"), ConditionError::MissingOpen);
    assert_eq!(condition_error("(?x: a"), ConditionError::MissingClose);
    assert_eq!(condition_error("(?x)"), ConditionError::InvalidFormat);
    assert_eq!(condition_error("(?x: a[b])"), ConditionError::MissingOpenBracket);
    assert_eq!(condition_error("(?x: [a)"), ConditionError::MissingCloseBracket);
    assert_eq!(condition_error("(?x: ab)"), ConditionError::BadType);
    assert_eq!(condition_error("(?x: [a | bc])"), ConditionError::BadType);
    assert_eq!(condition_error("(x: a)"), ConditionError::BadVar);
    assert_eq!(
        parse_condition::<Word, Letter>("?x ==> ?x where all(a)", &pattern("?x")).unwrap_err(),
        ConditionError::InvalidAll
    );
}

#[test]
fn numbered_variables_lose_leading_zeros() {
    let c = TypeMatch::<Letter>::parse("(?#007: a)").unwrap();
    assert_eq!(c.vars(), vec!["?#7".to_owned()]);
    assert_eq!(condition_error("(?#x: a)"), ConditionError::BadVar);
}

#[test]
fn patterns_are_read() {
    let p = pattern("(f ?x (one ?x) ?y)");
    assert_eq!(shown(&p), "(f ?x (one ?x) ?y)");
    let mut vars = pattern_vars(&p);
    vars.sort();
    assert_eq!(vars, vec!["?x".to_owned(), "?y".to_owned()]);
    assert!(read_pattern::<Word>("").is_none());
}

#[test]
fn patterns_from_nodes() {
    let nodes = vec![
        ("?x".to_owned(), true, vec![]),
        ("one".to_owned(), false, vec![0]),
    ];
    assert_eq!(shown(&pattern_of::<Word>(&nodes).unwrap()), "(one ?x)");
    let nodes = vec![("one".to_owned(), false, vec![])];
    assert!(pattern_of::<Word>(&nodes).is_none());
}

#[test]
fn conditions_are_checked() {
    let class = |id: usize, data: char| EClass {
        id,
        nodes: vec![AstNode::leaf(Word("a".to_owned()))],
        data,
    };
    let g = EGraph { slots: vec![0, 1], classes: vec![class(0, 'a'), class(1, 'b')] };
    let c = TypeMatch::<Letter>::parse("(?x: [a | c], ?z: q)").unwrap();
    let mut subst = TextMap::new();
    subst.insert("?x".to_owned(), 0);
    assert!(c.check(&g, &subst));
    subst.insert("?x".to_owned(), 1);
    assert!(!c.check(&g, &subst));
    assert!(TypeMatch::<Letter>::default().check(&g, &subst));
    assert!(!c.duplicate().check(&g, &subst));
}

#[test]
fn rules_of_joined_texts() {
    let names = |s: &str| -> Vec<String> {
        let rules: Rules = parse(s);
        rules.unwrap().into_iter().map(|r| r.name).collect()
    };
    let (a, b) = ("a ==> b\n// none", "\nb <==> c");
    let mut all = names(a);
    all.extend(names(b));
    assert_eq!(names(&format!("{a}\n{b}")), all);
    assert_eq!(all.len(), 3);
    assert!(names("").is_empty());
    let rules: Rules = parse("a b\n?x ==> ?y");
    assert_eq!(rules.unwrap_err(), RewriteError::MissingArrow);
    let rules: Rules = parse("a ==> b\n?x ==> ?y");
    assert_eq!(rules.unwrap_err(), RewriteError::Unbound);
    assert_eq!(names("// a ==> b\n  \na ==> b"), names("a ==> b // b ==> a"));
}
