//! Reading patterns.
use crate::ast_node::partial_expr::PatternOp;
use crate::ast_node::{has_arity, takes, Arity, AstNode, NodeView};
use crate::rec_expr::RecExpr;
use crate::text::texts;
use egg::{ENodeOrVar, Pattern, SymbolLang};
use vstd::prelude::*;

verus! {

/// Operations that can be read from a text.
pub trait ReadOp: Sized {
    /// Whether reading the text gives this, or `None` where it is no
    /// operation.
    open spec fn s_reads(s: Seq<char>, op: Option<Self>) -> bool {
        arbitrary()
    }

    /// A text is read in one way: as no operation, or as one.
    proof fn reads_one_way()
        ensures
            forall|s: Seq<char>, a: Option<Self>, b: Option<Self>| #[trigger]
                Self::s_reads(s, a) && #[trigger] Self::s_reads(s, b) ==> a == b,
    ;

    fn read_op(s: &str) -> (r: Option<Self>)
        ensures
            Self::s_reads(s@, r),
    ;
}

/// A node of a pattern as it was written: its text, whether it is a variable,
/// and its arguments.
#[verifier::ext_equal]
pub struct WrittenNode {
    pub text: Seq<char>,
    pub is_var: bool,
    pub args: Seq<usize>,
}

/// The nodes of the pattern that `egg` reads from a text, or `None` where the
/// text is no pattern.
pub uninterp spec fn written_pattern(s: Seq<char>) -> Option<Seq<WrittenNode>>;

/// The nodes as they were written.
pub open spec fn written(v: Seq<(String, bool, Vec<usize>)>) -> Seq<WrittenNode> {
    Seq::new(
        v.len(),
        |i: int| WrittenNode { text: v[i].0@, is_var: v[i].1, args: v[i].2@ },
    )
}

/// The nodes as they were written, where there are any.
pub open spec fn written_nodes(v: Option<Vec<(String, bool, Vec<usize>)>>) -> Option<
    Seq<WrittenNode>,
> {
    match v {
        Some(v) => Some(written(v@)),
        None => None,
    }
}

/// Whether every argument of a node stands before it.
pub open spec fn written_in_order(s: Seq<WrittenNode>) -> bool {
    forall|i: int, j: int|
        0 <= i < s.len() && 0 <= j < s[i].args.len() ==> (#[trigger] s[i].args[j]) < i
}

/// `FromStr` of `egg::Pattern` with operations that are any symbols: an
/// s-expression whose atoms that start with a question mark are variables. A
/// pattern has a node, and the arguments of a node stand before it.
#[verifier::external_body]
fn egg_pattern(s: &str) -> (r: Option<Vec<(String, bool, Vec<usize>)>>)
    ensures
        written_nodes(r) == written_pattern(s@),
        r is Some ==> r->Some_0@.len() > 0,
        r is Some ==> written_in_order(written(r->Some_0@)),
{
    let to_plain = |n: &ENodeOrVar<SymbolLang>| match n {
        ENodeOrVar::ENode(n) => {
            let args = n.children.iter().copied().map(usize::from).collect();
            (n.op.to_string(), false, args)
        },
        ENodeOrVar::Var(v) => (v.to_string(), true, Vec::new()),
    };
    s.parse::<Pattern<SymbolLang>>().ok().map(|p| p.ast.iter().map(to_plain).collect())
}

/// Whether an operation with so many arguments was read from a text.
pub open spec fn reads_node<Op: ReadOp + Arity>(s: Seq<char>, op: Op, args: nat) -> bool {
    Op::s_reads(s, Some(op)) && takes(op, args as int)
}

/// Whether a text is no operation with so many arguments.
pub open spec fn no_node<Op: ReadOp + Arity>(s: Seq<char>, args: nat) -> bool {
    ||| Op::s_reads(s, None::<Op>)
    ||| exists|op: Op| #[trigger] Op::s_reads(s, Some(op)) && !takes(op, args as int)
}

/// Whether a node of a pattern was read from what was written.
pub open spec fn reads_pattern_node<Op: ReadOp + Arity>(
    w: WrittenNode,
    node: NodeView<PatternOp<Op, String>>,
) -> bool {
    &&& node.args == w.args
    &&& match node.operation {
        PatternOp::Op(op) => !w.is_var && reads_node(w.text, op, w.args.len()),
        PatternOp::Var(v) => w.is_var && v@ == w.text,
    }
}

/// Whether a pattern was read from what was written.
pub open spec fn reads_written<Op: ReadOp + Arity>(
    w: Seq<WrittenNode>,
    p: Seq<NodeView<PatternOp<Op, String>>>,
) -> bool {
    p.len() == w.len() && forall|i: int|
        0 <= i < p.len() ==> reads_pattern_node(w[i], #[trigger] p[i])
}

/// Whether a node that was written is no operation.
pub open spec fn bad_written<Op: ReadOp + Arity>(w: Seq<WrittenNode>) -> bool {
    exists|i: int|
        0 <= i < w.len() && !(#[trigger] w[i]).is_var && no_node::<Op>(
            w[i].text,
            w[i].args.len(),
        )
}

/// Whether a pattern was read from a text.
pub open spec fn reads_pattern<Op: ReadOp + Arity>(
    s: Seq<char>,
    p: Seq<NodeView<PatternOp<Op, String>>>,
) -> bool {
    match written_pattern(s) {
        Some(w) => reads_written(w, p),
        None => false,
    }
}

/// Whether a text is no pattern.
pub open spec fn no_pattern<Op: ReadOp + Arity>(s: Seq<char>) -> bool {
    match written_pattern(s) {
        Some(w) => bad_written::<Op>(w),
        None => true,
    }
}

/// Reads a pattern, or gives `None` where the text is none.
pub fn read_pattern<Op: ReadOp + Arity>(s: &str) -> (r: Option<RecExpr<PatternOp<Op, String>>>)
    ensures
        match r {
            Some(p) => p.wf() && p@.len() > 0 && reads_pattern(s@, p@),
            None => no_pattern::<Op>(s@),
        },
{
    match egg_pattern(s) {
        Some(nodes) => pattern_of(&nodes),
        None => None,
    }
}

/// The pattern of nodes that were written, or `None` where one of them is no
/// operation.
pub fn pattern_of<Op: ReadOp + Arity>(nodes: &Vec<(String, bool, Vec<usize>)>) -> (r: Option<
    RecExpr<PatternOp<Op, String>>,
>)
    requires
        nodes@.len() > 0,
        written_in_order(written(nodes@)),
    ensures
        match r {
            Some(p) => p.wf() && p@.len() > 0 && reads_written(written(nodes@), p@),
            None => bad_written::<Op>(written(nodes@)),
        },
{
    let ghost w = written(nodes@);
    let mut p: RecExpr<PatternOp<Op, String>> = RecExpr::new();
    let n: usize = nodes.len();
    for i in 0..n
        invariant
            n == nodes@.len() == w.len(),
            w == written(nodes@),
            written_in_order(w),
            p.wf(),
            p@.len() == i,
            forall|k: int| 0 <= k < i ==> reads_pattern_node(w[k], #[trigger] p@[k]),
    {
        let node: &(String, bool, Vec<usize>) = &nodes[i];
        assert(w[i as int] == (WrittenNode { text: node.0@, is_var: node.1, args: node.2@ }));
        let m: usize = node.2.len();
        let mut args: Vec<usize> = Vec::new();
        for j in 0..m
            invariant
                m == node.2@.len(),
                args@ == node.2@.take(j as int),
        {
            args.push(node.2[j]);
            assert(args@ =~= node.2@.take(j + 1));
        }
        assert(args@ =~= node.2@);
        assert forall|j: int| 0 <= j < args@.len() implies (#[trigger] args@[j]) < i by {
            assert(w[i as int].args[j] < i);
        }
        if node.1 {
            let _id: usize = p.add(AstNode::new(PatternOp::Var(node.0.clone()), args));
        } else {
            match Op::read_op(node.0.as_str()) {
                Some(op) => {
                    if !has_arity(&op, m) {
                        assert(no_node::<Op>(w[i as int].text, w[i as int].args.len()));
                        return None;
                    }
                    let _id: usize = p.add(AstNode::new(PatternOp::Op(op), args));
                },
                None => {
                    assert(no_node::<Op>(w[i as int].text, w[i as int].args.len()));
                    return None;
                },
            }
        }
    }
    Some(p)
}

/// Whether a pattern has a variable.
pub open spec fn has_var<Op>(p: Seq<NodeView<PatternOp<Op, String>>>, v: Seq<char>) -> bool {
    exists|i: int|
        0 <= i < p.len() && match (#[trigger] p[i]).operation {
            PatternOp::Var(w) => w@ == v,
            PatternOp::Op(_) => false,
        }
}

/// The variables of a pattern, each once.
pub fn pattern_vars<Op>(p: &RecExpr<PatternOp<Op, String>>) -> (r: Vec<String>)
    ensures
        texts(r@).no_duplicates(),
        forall|v: Seq<char>| #[trigger] texts(r@).contains(v) <==> has_var(p@, v),
{
    let mut r: Vec<String> = Vec::new();
    let n: usize = p.nodes.len();
    let ghost e = p@;
    for i in 0..n
        invariant
            n == p.nodes@.len() == e.len(),
            e == p@,
            texts(r@).no_duplicates(),
            forall|v: Seq<char>| #[trigger]
                texts(r@).contains(v) <==> has_var(e.take(i as int), v),
    {
        let ghost a = e.take(i as int);
        let ghost b = e.take(i + 1);
        let ghost before = texts(r@);
        assert(e[i as int] == p.nodes@[i as int]@);
        assert(b =~= a.push(e[i as int]));
        assert forall|v: Seq<char>| has_var(b, v) <==> has_var(a, v) || match e[i as int].operation {
            PatternOp::Var(w) => w@ == v,
            PatternOp::Op(_) => false,
        } by {
            if has_var(a, v) {
                let k = choose|k: int|
                    0 <= k < a.len() && match (#[trigger] a[k]).operation {
                        PatternOp::Var(w) => w@ == v,
                        PatternOp::Op(_) => false,
                    };
                assert(b[k] == a[k]);
            }
            assert(b[i as int] == e[i as int]);
            if has_var(b, v) {
                let k = choose|k: int|
                    0 <= k < b.len() && match (#[trigger] b[k]).operation {
                        PatternOp::Var(w) => w@ == v,
                        PatternOp::Op(_) => false,
                    };
                if k < i {
                    assert(a[k] == b[k]);
                }
            }
        }
        if let PatternOp::Var(w) = &p.nodes[i].operation {
            if !among(&r, w) {
                let ghost x = w@;
                r.push(w.clone());
                proof {
                    let after = texts(r@);
                    assert(after =~= before.push(x));
                    assert forall|v: Seq<char>| #[trigger] after.contains(v) <==> before.contains(v)
                        || v == x by {
                        if before.contains(v) {
                            let k = choose|k: int| 0 <= k < before.len() && before[k] == v;
                            assert(after[k] == v);
                        }
                        assert(after[before.len() as int] == x);
                        if after.contains(v) {
                            let k = choose|k: int| 0 <= k < after.len() && after[k] == v;
                            if k < before.len() {
                                assert(before[k] == v);
                            }
                        }
                    }
                }
            }
        }
    }
    assert(e.take(n as int) =~= e);
    r
}

/// Whether a text is among others.
pub(crate) fn among(v: &Vec<String>, s: &String) -> (r: bool)
    ensures
        r == texts(v@).contains(s@),
{
    let n: usize = v.len();
    for i in 0..n
        invariant
            n == v@.len(),
            forall|k: int| 0 <= k < i ==> texts(v@)[k] != s@,
    {
        if v[i] == *s {
            assert(texts(v@)[i as int] == s@);
            return true;
        }
    }
    false
}

} // verus!
