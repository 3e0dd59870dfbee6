//! What reading texts of rewrite rules keeps: a text has one outcome, texts
//! can be joined, and comments and blank lines add nothing.
use crate::ast_node::partial_expr::PatternOp;
use crate::ast_node::{takes, Arity, Duplicate, NodeView};
use crate::rewrites::pattern::{
    has_var, no_node, no_pattern, reads_pattern, reads_pattern_node, written_pattern, ReadOp,
};
use crate::rewrites::type_match::{all_types, ReadType};
use crate::rewrites::{
    all_read, condition_of, is_bound, joined, lemma_joined, line_read, lines_of, lines_read, parse,
    rest_fails, rule_lines, rule_text, RewriteError, RewriteRule, RuleText,
};
use crate::text_split::{before, has_part, occurs_at, place_from, split, split_once, trimmed};
use vstd::prelude::*;

verus! {

proof fn lemma_joined_halves<R>(a: Seq<Seq<R>>, b: Seq<Seq<R>>, k: nat)
    requires
        k <= b.len(),
    ensures
        joined(a + b, a.len() + k) == joined(a, a.len()) + joined(b, k),
    decreases k,
{
    if k == 0 {
        lemma_joined(a, a + b, a.len());
        assert(joined(a, a.len()) + joined(b, 0) =~= joined(a, a.len()));
    } else {
        lemma_joined_halves(a, b, (k - 1) as nat);
        assert((a + b)[a.len() + k - 1] == b[k - 1]);
        assert(joined(a, a.len()) + (joined(b, (k - 1) as nat) + b[k - 1]) =~= (joined(a, a.len())
            + joined(b, (k - 1) as nat)) + b[k - 1]);
    }
}

pub(crate) proof fn lemma_split_halves(a: Seq<char>, b: Seq<char>, c: char)
    ensures
        split(a.push(c) + b, c) == split(a, c) + split(b, c),
        split(b, c).len() > 0,
    decreases b.len(),
{
    let whole = a.push(c) + b;
    if b.len() == 0 {
        assert(whole =~= a.push(c));
        assert(whole.drop_last() =~= a);
        assert(b =~= Seq::empty());
        assert(split(a, c) + split(b, c) =~= split(a, c).push(Seq::empty()));
    } else {
        lemma_split_halves(a, b.drop_last(), c);
        assert(whole.drop_last() =~= a.push(c) + b.drop_last());
        let rest = split(b.drop_last(), c);
        let all = split(a, c) + rest;
        assert(whole.last() == b.last());
        if b.last() == c {
            assert(all.push(Seq::empty()) =~= split(a, c) + rest.push(Seq::empty()));
        } else {
            assert(all.last() == rest.last());
            assert(all.update(all.len() - 1, all.last().push(b.last())) =~= split(a, c)
                + rest.update(rest.len() - 1, rest.last().push(b.last())));
        }
    }
}

proof fn lemma_rule_lines_halves(a: Seq<Seq<char>>, b: Seq<Seq<char>>, k: nat)
    requires
        k <= b.len(),
    ensures
        rule_lines(a + b, a.len() + k) == rule_lines(a, a.len()) + rule_lines(b, k),
    decreases k,
{
    if k == 0 {
        lemma_rule_lines_prefix(a, a + b, a.len());
        assert(rule_lines(a, a.len()) + rule_lines(b, 0) =~= rule_lines(a, a.len()));
    } else {
        lemma_rule_lines_halves(a, b, (k - 1) as nat);
        assert((a + b)[a.len() + k - 1] == b[k - 1]);
        let line = trimmed(before(b[k - 1], "//"@));
        let first = rule_lines(a, a.len());
        let rest = rule_lines(b, (k - 1) as nat);
        assert((first + rest).push(line) =~= first + rest.push(line));
    }
}

proof fn lemma_rule_lines_prefix(a: Seq<Seq<char>>, b: Seq<Seq<char>>, k: nat)
    requires
        forall|i: int| 0 <= i < k ==> a[i] == b[i],
    ensures
        rule_lines(a, k) == rule_lines(b, k),
    decreases k,
{
    if k > 0 {
        lemma_rule_lines_prefix(a, b, (k - 1) as nat);
    }
}

proof fn lemma_read_in_turn<Op: ReadOp + Arity, T: ReadType>(
    a: Seq<Seq<char>>,
    b: Seq<Seq<char>>,
    first: Seq<RewriteRule<Op, T>>,
    r: Result<Seq<RewriteRule<Op, T>>, RewriteError>,
)
    requires
        lines_read::<Op, T>(a, Ok::<_, RewriteError>(first)),
        lines_read::<Op, T>(b, r),
    ensures
        lines_read::<Op, T>(
            a + b,
            match r {
                Ok(second) => Ok(first + second),
                Err(e) => Err(e),
            },
        ),
{
    let ga = choose|g: Seq<Seq<RewriteRule<Op, T>>>| #[trigger]
        all_read::<Op, T>(a, g, a.len()) && first == joined(g, g.len());
    match r {
        Ok(second) => {
            let gb = choose|g: Seq<Seq<RewriteRule<Op, T>>>| #[trigger]
                all_read::<Op, T>(b, g, b.len()) && second == joined(g, g.len());
            lemma_joined_halves(ga, gb, gb.len());
            lemma_all_read_halves(a, b, ga, gb, b.len());
            assert(all_read::<Op, T>(a + b, ga + gb, (a + b).len()));
        },
        Err(e) => {
            let (gb, k) = choose|g: Seq<Seq<RewriteRule<Op, T>>>, k: nat| #[trigger]
                all_read::<Op, T>(b, g, k) && k < b.len() && line_read::<Op, T>(
                    b[k as int],
                    Err::<Seq<RewriteRule<Op, T>>, _>(e),
                );
            lemma_all_read_halves(a, b, ga, gb, k);
            assert((a + b)[(a.len() + k) as int] == b[k as int]);
            assert(all_read::<Op, T>(a + b, ga + gb, a.len() + k));
        },
    }
}

proof fn lemma_all_read_halves<Op: ReadOp + Arity, T: ReadType>(
    a: Seq<Seq<char>>,
    b: Seq<Seq<char>>,
    ga: Seq<Seq<RewriteRule<Op, T>>>,
    gb: Seq<Seq<RewriteRule<Op, T>>>,
    k: nat,
)
    requires
        all_read::<Op, T>(a, ga, a.len()),
        all_read::<Op, T>(b, gb, k),
    ensures
        all_read::<Op, T>(a + b, ga + gb, a.len() + k),
{
    let g = ga + gb;
    assert forall|i: int| 0 <= i < a.len() + k implies line_read::<Op, T>(
        (a + b)[i],
        Ok::<_, RewriteError>(#[trigger] g[i]),
    ) by {
        if i < a.len() {
            assert(g[i] == ga[i]);
            assert((a + b)[i] == a[i]);
        } else {
            assert(g[i] == gb[i - a.len()]);
            assert((a + b)[i] == b[i - a.len()]);
        }
    }
}

proof fn lemma_lines_of_halves(a: Seq<char>, b: Seq<char>)
    ensures
        lines_of(a.push('\n') + b) == lines_of(a) + lines_of(b),
{
    lemma_split_halves(a, b, '\n');
    lemma_rule_lines_halves(split(a, '\n'), split(b, '\n'), split(b, '\n').len());
}

/// Whether two patterns have the same nodes.
pub open spec fn same_pattern<Op>(
    p: Seq<NodeView<PatternOp<Op, String>>>,
    q: Seq<NodeView<PatternOp<Op, String>>>,
) -> bool {
    p.len() == q.len() && forall|i: int| 0 <= i < p.len() ==> same_node(#[trigger] p[i], q[i])
}

/// Whether two nodes of patterns are the same.
pub open spec fn same_node<Op>(
    a: NodeView<PatternOp<Op, String>>,
    b: NodeView<PatternOp<Op, String>>,
) -> bool {
    &&& a.args == b.args
    &&& match (a.operation, b.operation) {
        (PatternOp::Op(x), PatternOp::Op(y)) => x == y,
        (PatternOp::Var(v), PatternOp::Var(w)) => v@ == w@,
        _ => false,
    }
}

/// Whether two rules are the same: in their names, sides and conditions.
pub open spec fn same_rule<Op, T>(a: RewriteRule<Op, T>, b: RewriteRule<Op, T>) -> bool {
    &&& a.name@ == b.name@
    &&& same_pattern(a.lhs@, b.lhs@)
    &&& same_pattern(a.rhs@, b.rhs@)
    &&& a.condition@ == b.condition@
}

/// Whether two lists of rules are the same.
pub open spec fn same_rules<Op, T>(
    a: Seq<RewriteRule<Op, T>>,
    b: Seq<RewriteRule<Op, T>>,
) -> bool {
    a.len() == b.len() && forall|i: int| 0 <= i < a.len() ==> same_rule(#[trigger] a[i], b[i])
}

/// Whether two outcomes are the same.
pub open spec fn same_outcome<Op, T>(
    a: Result<Seq<RewriteRule<Op, T>>, RewriteError>,
    b: Result<Seq<RewriteRule<Op, T>>, RewriteError>,
) -> bool {
    match (a, b) {
        (Ok(x), Ok(y)) => same_rules(x, y),
        (Err(x), Err(y)) => x == y,
        _ => false,
    }
}

proof fn lemma_one_pattern<Op: ReadOp + Arity>(
    s: Seq<char>,
    p: Seq<NodeView<PatternOp<Op, String>>>,
    q: Seq<NodeView<PatternOp<Op, String>>>,
)
    requires
        reads_pattern(s, p),
        reads_pattern(s, q),
    ensures
        same_pattern(p, q),
        forall|v: Seq<char>| has_var(p, v) == has_var(q, v),
{
    Op::reads_one_way();
    let w = written_pattern(s)->Some_0;
    assert forall|i: int| 0 <= i < p.len() implies same_node(#[trigger] p[i], q[i]) by {
        assert(reads_pattern_node(w[i], p[i]) && reads_pattern_node(w[i], q[i]));
        if let (PatternOp::Op(x), PatternOp::Op(y)) = (p[i].operation, q[i].operation) {
            assert(Op::s_reads(w[i].text, Some(x)) && Op::s_reads(w[i].text, Some(y)));
        }
    }
    lemma_same_vars(p, q);
}

proof fn lemma_same_vars<Op>(
    p: Seq<NodeView<PatternOp<Op, String>>>,
    q: Seq<NodeView<PatternOp<Op, String>>>,
)
    requires
        same_pattern(p, q),
    ensures
        forall|v: Seq<char>| has_var(p, v) == has_var(q, v),
{
    assert forall|v: Seq<char>| has_var(p, v) == has_var(q, v) by {
        if has_var(p, v) {
            let i = choose|i: int|
                0 <= i < p.len() && match (#[trigger] p[i]).operation {
                    PatternOp::Var(w) => w@ == v,
                    PatternOp::Op(_) => false,
                };
            assert(same_node(p[i], q[i]));
            assert(q[i].operation is Var);
        }
        if has_var(q, v) {
            let i = choose|i: int|
                0 <= i < q.len() && match (#[trigger] q[i]).operation {
                    PatternOp::Var(w) => w@ == v,
                    PatternOp::Op(_) => false,
                };
            assert(same_node(p[i], q[i]));
            assert(p[i].operation is Var);
        }
    }
}

proof fn lemma_pattern_or_none<Op: ReadOp + Arity>(
    s: Seq<char>,
    p: Seq<NodeView<PatternOp<Op, String>>>,
)
    requires
        reads_pattern(s, p),
    ensures
        !no_pattern::<Op>(s),
{
    Op::reads_one_way();
    if no_pattern::<Op>(s) {
        let w = written_pattern(s)->Some_0;
        let i = choose|i: int|
            0 <= i < w.len() && !(#[trigger] w[i]).is_var && no_node::<Op>(
                w[i].text,
                w[i].args.len(),
            );
        assert(reads_pattern_node(w[i], p[i]));
        let op = p[i].operation->Op_0;
        assert(Op::s_reads(w[i].text, Some(op)));
        if !Op::s_reads(w[i].text, None::<Op>) {
            let other = choose|other: Op| #[trigger]
                Op::s_reads(w[i].text, Some(other)) && !takes(other, w[i].args.len() as int);
            assert(Some(other) == Some(op));
        }
    }
}

proof fn lemma_same_condition<Op, T: ReadType>(
    line: Seq<char>,
    p: Seq<NodeView<PatternOp<Op, String>>>,
    q: Seq<NodeView<PatternOp<Op, String>>>,
)
    requires
        forall|v: Seq<char>| has_var(p, v) == has_var(q, v),
    ensures
        condition_of::<Op, T>(line, p) == condition_of::<Op, T>(line, q),
{
    match split_once(line, "where"@) {
        None => {},
        Some((_, c)) => {
            let c = trimmed(c);
            if has_part(c, "all"@) {
                match all_types::<T>(c) {
                    Ok(ts) => {
                        assert(Map::new(|v: Seq<char>| has_var(p, v), |v: Seq<char>| ts) =~= Map::new(
                            |v: Seq<char>| has_var(q, v),
                            |v: Seq<char>| ts,
                        ));
                    },
                    Err(_) => {},
                }
            }
        },
    }
}

proof fn lemma_same_binding<Op, T>(
    a: (Seq<NodeView<PatternOp<Op, String>>>, Seq<NodeView<PatternOp<Op, String>>>),
    b: (Seq<NodeView<PatternOp<Op, String>>>, Seq<NodeView<PatternOp<Op, String>>>),
    m: Map<Seq<char>, Seq<T>>,
)
    requires
        forall|v: Seq<char>| has_var(a.0, v) == has_var(b.0, v),
        forall|v: Seq<char>| has_var(a.1, v) == has_var(b.1, v),
    ensures
        is_bound(a.0, a.1, m) == is_bound(b.0, b.1, m),
        is_bound(a.1, a.0, m) == is_bound(b.1, b.0, m),
{
}

/// What fails of a line whose left side is a pattern is always the same.
proof fn lemma_rest_fails<Op: ReadOp + Arity, T: ReadType>(
    line: Seq<char>,
    t: RuleText,
    p: Seq<NodeView<PatternOp<Op, String>>>,
    q: Seq<NodeView<PatternOp<Op, String>>>,
    e: RewriteError,
    f: RewriteError,
)
    requires
        reads_pattern(t.lhs, p),
        reads_pattern(t.lhs, q),
        rest_fails::<Op, T>(line, t, p, e),
        rest_fails::<Op, T>(line, t, q, f),
    ensures
        e == f,
{
    lemma_one_pattern(t.lhs, p, q);
    lemma_same_condition::<Op, T>(line, p, q);
    if no_pattern::<Op>(t.rhs) {
        assert forall|x: Seq<NodeView<PatternOp<Op, String>>>| !(#[trigger] reads_pattern(
            t.rhs,
            x,
        )) by {
            if reads_pattern(t.rhs, x) {
                lemma_pattern_or_none(t.rhs, x);
            }
        }
    } else {
        let x = choose|x: Seq<NodeView<PatternOp<Op, String>>>| #[trigger]
            reads_pattern(t.rhs, x) && match condition_of::<Op, T>(line, p) {
                Err(c) => e == RewriteError::BadCondition(c),
                Ok(m) => if is_bound(p, x, m) {
                    t.both && !is_bound(x, p, m) && e == RewriteError::UnboundReverse
                } else {
                    e == RewriteError::Unbound
                },
            };
        let y = choose|y: Seq<NodeView<PatternOp<Op, String>>>| #[trigger]
            reads_pattern(t.rhs, y) && match condition_of::<Op, T>(line, q) {
                Err(c) => f == RewriteError::BadCondition(c),
                Ok(m) => if is_bound(q, y, m) {
                    t.both && !is_bound(y, q, m) && f == RewriteError::UnboundReverse
                } else {
                    f == RewriteError::Unbound
                },
            };
        lemma_one_pattern(t.rhs, x, y);
        if let Ok(m) = condition_of::<Op, T>(line, p) {
            lemma_same_binding((p, x), (q, y), m);
        }
    }
}

proof fn lemma_rules_or_error<Op: ReadOp + Arity, T: ReadType>(
    line: Seq<char>,
    rules: Seq<RewriteRule<Op, T>>,
    e: RewriteError,
)
    requires
        line_read::<Op, T>(line, Ok::<_, RewriteError>(rules)),
    ensures
        !line_read::<Op, T>(line, Err::<Seq<RewriteRule<Op, T>>, _>(e)),
{
    if line_read::<Op, T>(line, Err::<Seq<RewriteRule<Op, T>>, _>(e)) {
        let t = rule_text(line)->Some_0;
        let lhs = rules[0].lhs@;
        let rhs = rules[0].rhs@;
        lemma_pattern_or_none(t.lhs, lhs);
        lemma_pattern_or_none(t.rhs, rhs);
        let p = choose|p: Seq<NodeView<PatternOp<Op, String>>>| #[trigger]
            reads_pattern(t.lhs, p) && rest_fails::<Op, T>(line, t, p, e);
        lemma_one_pattern(t.lhs, lhs, p);
        lemma_same_condition::<Op, T>(line, lhs, p);
        let q = choose|q: Seq<NodeView<PatternOp<Op, String>>>| #[trigger]
            reads_pattern(t.rhs, q) && match condition_of::<Op, T>(line, p) {
                Err(c) => e == RewriteError::BadCondition(c),
                Ok(m) => if is_bound(p, q, m) {
                    t.both && !is_bound(q, p, m) && e == RewriteError::UnboundReverse
                } else {
                    e == RewriteError::Unbound
                },
            };
        lemma_one_pattern(t.rhs, rhs, q);
        lemma_same_binding((lhs, rhs), (p, q), rules[0].condition@);
    }
}

proof fn lemma_line_has_one_outcome<Op: ReadOp + Arity, T: ReadType>(
    line: Seq<char>,
    r: Result<Seq<RewriteRule<Op, T>>, RewriteError>,
    s: Result<Seq<RewriteRule<Op, T>>, RewriteError>,
)
    requires
        line_read::<Op, T>(line, r),
        line_read::<Op, T>(line, s),
    ensures
        same_outcome(r, s),
{
    match rule_text(line) {
        None => {},
        Some(t) => match (r, s) {
            (Ok(a), Ok(b)) => {
                lemma_one_pattern(t.lhs, a[0].lhs@, b[0].lhs@);
                lemma_one_pattern(t.rhs, a[0].rhs@, b[0].rhs@);
                lemma_same_condition::<Op, T>(line, a[0].lhs@, b[0].lhs@);
                assert forall|i: int| 0 <= i < a.len() implies same_rule(#[trigger] a[i], b[i]) by {
                    if i == 1 {
                        assert(a[1].lhs@ == a[0].rhs@ && b[1].lhs@ == b[0].rhs@);
                    }
                }
            },
            (Ok(a), Err(e)) => {
                lemma_rules_or_error::<Op, T>(line, a, e);
            },
            (Err(e), Ok(b)) => {
                lemma_rules_or_error::<Op, T>(line, b, e);
            },
            (Err(e), Err(f)) => {
                if no_pattern::<Op>(t.lhs) {
                    assert forall|x: Seq<NodeView<PatternOp<Op, String>>>| !(
                    #[trigger] reads_pattern(t.lhs, x)) by {
                        if reads_pattern(t.lhs, x) {
                            lemma_pattern_or_none(t.lhs, x);
                        }
                    }
                } else {
                    let p = choose|p: Seq<NodeView<PatternOp<Op, String>>>| #[trigger]
                        reads_pattern(t.lhs, p) && rest_fails::<Op, T>(line, t, p, e);
                    let q = choose|q: Seq<NodeView<PatternOp<Op, String>>>| #[trigger]
                        reads_pattern(t.lhs, q) && rest_fails::<Op, T>(line, t, q, f);
                    lemma_rest_fails::<Op, T>(line, t, p, q, e, f);
                }
            },
        },
    }
}

proof fn lemma_same_groups<Op: ReadOp + Arity, T: ReadType>(
    lines: Seq<Seq<char>>,
    a: Seq<Seq<RewriteRule<Op, T>>>,
    b: Seq<Seq<RewriteRule<Op, T>>>,
    n: nat,
    k: nat,
)
    requires
        all_read::<Op, T>(lines, a, n),
        all_read::<Op, T>(lines, b, n),
        k <= n,
    ensures
        same_rules(joined(a, k), joined(b, k)),
    decreases k,
{
    if k > 0 {
        let j = (k - 1) as nat;
        lemma_same_groups::<Op, T>(lines, a, b, n, j);
        assert(line_read::<Op, T>(lines[k - 1], Ok::<_, RewriteError>(a[k - 1])));
        assert(line_read::<Op, T>(lines[k - 1], Ok::<_, RewriteError>(b[k - 1])));
        lemma_line_has_one_outcome::<Op, T>(lines[k - 1], Ok(a[k - 1]), Ok(b[k - 1]));
        let (x, y) = (joined(a, k), joined(b, k));
        assert forall|i: int| 0 <= i < x.len() implies same_rule(#[trigger] x[i], y[i]) by {
            let m = joined(a, j).len();
            if i < m {
                assert(same_rule(joined(a, j)[i], joined(b, j)[i]));
            } else {
                assert(same_rule(a[k - 1][i - m], b[k - 1][i - m]));
            }
        }
    }
}

proof fn lemma_lines_have_one_outcome<Op: ReadOp + Arity, T: ReadType>(
    lines: Seq<Seq<char>>,
    r: Result<Seq<RewriteRule<Op, T>>, RewriteError>,
    s: Result<Seq<RewriteRule<Op, T>>, RewriteError>,
)
    requires
        lines_read::<Op, T>(lines, r),
        lines_read::<Op, T>(lines, s),
    ensures
        same_outcome(r, s),
{
    match (r, s) {
        (Ok(x), Ok(y)) => {
            let a = choose|g: Seq<Seq<RewriteRule<Op, T>>>| #[trigger]
                all_read::<Op, T>(lines, g, lines.len()) && x == joined(g, g.len());
            let b = choose|g: Seq<Seq<RewriteRule<Op, T>>>| #[trigger]
                all_read::<Op, T>(lines, g, lines.len()) && y == joined(g, g.len());
            lemma_same_groups::<Op, T>(lines, a, b, lines.len(), lines.len());
        },
        (Ok(x), Err(e)) => {
            lemma_all_or_error::<Op, T>(lines, x, e);
        },
        (Err(e), Ok(y)) => {
            lemma_all_or_error::<Op, T>(lines, y, e);
        },
        (Err(e), Err(f)) => {
            let (a, j) = choose|g: Seq<Seq<RewriteRule<Op, T>>>, k: nat| #[trigger]
                all_read::<Op, T>(lines, g, k) && k < lines.len() && line_read::<Op, T>(
                    lines[k as int],
                    Err::<Seq<RewriteRule<Op, T>>, _>(e),
                );
            let (b, k) = choose|g: Seq<Seq<RewriteRule<Op, T>>>, k: nat| #[trigger]
                all_read::<Op, T>(lines, g, k) && k < lines.len() && line_read::<Op, T>(
                    lines[k as int],
                    Err::<Seq<RewriteRule<Op, T>>, _>(f),
                );
            if j < k {
                assert(line_read::<Op, T>(lines[j as int], Ok::<_, RewriteError>(b[j as int])));
                lemma_rules_or_error::<Op, T>(lines[j as int], b[j as int], e);
            } else if k < j {
                assert(line_read::<Op, T>(lines[k as int], Ok::<_, RewriteError>(a[k as int])));
                lemma_rules_or_error::<Op, T>(lines[k as int], a[k as int], f);
            } else {
                lemma_line_has_one_outcome::<Op, T>(lines[j as int], Err(e), Err(f));
            }
        },
    }
}

proof fn lemma_all_or_error<Op: ReadOp + Arity, T: ReadType>(
    lines: Seq<Seq<char>>,
    rules: Seq<RewriteRule<Op, T>>,
    e: RewriteError,
)
    requires
        lines_read::<Op, T>(lines, Ok::<_, RewriteError>(rules)),
    ensures
        !lines_read::<Op, T>(lines, Err::<Seq<RewriteRule<Op, T>>, _>(e)),
{
    if lines_read::<Op, T>(lines, Err::<Seq<RewriteRule<Op, T>>, _>(e)) {
        let a = choose|g: Seq<Seq<RewriteRule<Op, T>>>| #[trigger]
            all_read::<Op, T>(lines, g, lines.len()) && rules == joined(g, g.len());
        let (b, k) = choose|g: Seq<Seq<RewriteRule<Op, T>>>, k: nat| #[trigger]
            all_read::<Op, T>(lines, g, k) && k < lines.len() && line_read::<Op, T>(
                lines[k as int],
                Err::<Seq<RewriteRule<Op, T>>, _>(e),
            );
        assert(line_read::<Op, T>(lines[k as int], Ok::<_, RewriteError>(a[k as int])));
        lemma_rules_or_error::<Op, T>(lines[k as int], a[k as int], e);
    }
}

/// The rules in an outcome, as a sequence.
pub open spec fn outcome<Op, T>(r: Result<Vec<RewriteRule<Op, T>>, RewriteError>) -> Result<
    Seq<RewriteRule<Op, T>>,
    RewriteError,
> {
    match r {
        Ok(rules) => Ok(rules@),
        Err(e) => Err(e),
    }
}

/// Reading a text twice gives the same rules, or the same error.
pub proof fn law_a_text_has_one_outcome<Op, T>(
    file: &str,
    r: Result<Vec<RewriteRule<Op, T>>, RewriteError>,
    s: Result<Vec<RewriteRule<Op, T>>, RewriteError>,
) where Op: ReadOp + Arity + Duplicate, T: ReadType + Duplicate
    requires
        call_ensures(parse::<Op, T>, (file,), r),
        call_ensures(parse::<Op, T>, (file,), s),
    ensures
        same_outcome(outcome(r), outcome(s)),
{
    lemma_lines_have_one_outcome::<Op, T>(lines_of(file@), outcome(r), outcome(s));
}

/// Of two texts that a line break joins, the whole can be read exactly if both
/// parts can. Its rules are then those of the first part followed by those of
/// the second; otherwise its error is that of the first part that cannot be
/// read.
pub proof fn law_joined_texts<Op, T>(
    first: &str,
    second: &str,
    whole: &str,
    a: Result<Vec<RewriteRule<Op, T>>, RewriteError>,
    b: Result<Vec<RewriteRule<Op, T>>, RewriteError>,
    r: Result<Vec<RewriteRule<Op, T>>, RewriteError>,
) where Op: ReadOp + Arity + Duplicate, T: ReadType + Duplicate
    requires
        whole@ == first@.push('\n') + second@,
        call_ensures(parse::<Op, T>, (first,), a),
        call_ensures(parse::<Op, T>, (second,), b),
        call_ensures(parse::<Op, T>, (whole,), r),
    ensures
        r is Ok <==> a is Ok && b is Ok,
        match (a, b) {
            (Ok(x), Ok(y)) => r is Ok && same_rules(r->Ok_0@, x@ + y@),
            (Err(e), _) => r is Err && r->Err_0 == e,
            (Ok(_), Err(e)) => r is Err && r->Err_0 == e,
        },
{
    let la = lines_of(first@);
    let lb = lines_of(second@);
    lemma_lines_of_halves(first@, second@);
    match a {
        Ok(x) => {
            lemma_read_in_turn::<Op, T>(la, lb, x@, outcome(b));
            let all = match outcome(b) {
                Ok(y) => Ok(x@ + y),
                Err(e) => Err(e),
            };
            lemma_lines_have_one_outcome::<Op, T>(la + lb, outcome(r), all);
        },
        Err(e) => {
            lemma_fails_at_once::<Op, T>(la, lb, e);
            lemma_lines_have_one_outcome::<Op, T>(
                la + lb,
                outcome(r),
                Err::<Seq<RewriteRule<Op, T>>, _>(e),
            );
        },
    }
}

proof fn lemma_fails_at_once<Op: ReadOp + Arity, T: ReadType>(
    a: Seq<Seq<char>>,
    b: Seq<Seq<char>>,
    e: RewriteError,
)
    requires
        lines_read::<Op, T>(a, Err::<Seq<RewriteRule<Op, T>>, _>(e)),
    ensures
        lines_read::<Op, T>(a + b, Err::<Seq<RewriteRule<Op, T>>, _>(e)),
{
    let (g, k) = choose|g: Seq<Seq<RewriteRule<Op, T>>>, k: nat| #[trigger]
        all_read::<Op, T>(a, g, k) && k < a.len() && line_read::<Op, T>(
            a[k as int],
            Err::<Seq<RewriteRule<Op, T>>, _>(e),
        );
    assert((a + b)[k as int] == a[k as int]);
    assert forall|i: int| 0 <= i < k implies line_read::<Op, T>(
        (a + b)[i],
        Ok::<_, RewriteError>(#[trigger] g[i]),
    ) by {
        assert((a + b)[i] == a[i]);
    }
    assert(all_read::<Op, T>(a + b, g, k));
}

proof fn lemma_one_line(line: Seq<char>)
    requires
        !line.contains('\n'),
    ensures
        split(line, '\n') == seq![line],
    decreases line.len(),
{
    if line.len() > 0 {
        let rest = line.drop_last();
        assert forall|i: int| 0 <= i < rest.len() implies rest[i] != '\n' by {
            assert(line.contains(line[i]));
        }
        lemma_one_line(rest);
        assert(line.contains(line.last()));
        assert(rest.push(line.last()) =~= line);
    }
}

proof fn lemma_nothing_before(s: Seq<char>, p: Seq<char>, i: int)
    requires
        0 <= i,
    ensures
        match place_from(s, p, i) {
            Some(at) => i <= at <= s.len() - p.len() && forall|n: int|
                at <= n <= s.len() && n < at + p.len() ==> place_from(
                    #[trigger] s.take(n),
                    p,
                    i,
                ) is None,
            None => true,
        },
    decreases s.len() + 1 - i,
{
    if i + p.len() <= s.len() && !occurs_at(s, p, i) {
        lemma_nothing_before(s, p, i + 1);
        if let Some(at) = place_from(s, p, i) {
            assert forall|n: int| at <= n <= s.len() && n < at + p.len() implies place_from(
                #[trigger] s.take(n),
                p,
                i,
            ) is None by {
                assert(place_from(s.take(n), p, i + 1) is None);
                if i + p.len() <= n {
                    assert(s.take(n).subrange(i, i + p.len()) =~= s.subrange(i, i + p.len()));
                }
            }
        }
    }
}

/// What follows two slashes on a line adds nothing, nor does a line of white
/// space alone.
pub proof fn law_comments_add_nothing(line: Seq<char>)
    requires
        !line.contains('\n'),
    ensures
        lines_of(line) == lines_of(before(line, "//"@)),
        trimmed(before(line, "//"@)).len() == 0 ==> lines_of(line) == Seq::<Seq<char>>::empty(),
{
    let bare = before(line, "//"@);
    reveal_strlit("//");
    lemma_nothing_before(line, "//"@, 0);
    if let Some(at) = place_from(line, "//"@, 0) {
        assert(bare == line.take(at));
        assert(place_from(line.take(at), "//"@, 0) is None);
        assert forall|i: int| 0 <= i < bare.len() implies bare[i] != '\n' by {
            assert(line.contains(line[i]));
        }
    }
    assert(before(bare, "//"@) == bare);
    lemma_one_line(line);
    lemma_one_line(bare);
    reveal_with_fuel(rule_lines, 2);
    assert(seq![line][0] == line && seq![bare][0] == bare);
    assert(rule_lines(seq![line], 1) == rule_lines(seq![bare], 1));
}

/// A text has the outcome of the same text without the comment that ends its
/// first line.
pub proof fn law_a_comment_adds_nothing<Op, T>(
    line: Seq<char>,
    rest: Seq<char>,
    with: &str,
    without: &str,
    r: Result<Vec<RewriteRule<Op, T>>, RewriteError>,
    s: Result<Vec<RewriteRule<Op, T>>, RewriteError>,
) where Op: ReadOp + Arity + Duplicate, T: ReadType + Duplicate
    requires
        !line.contains('\n'),
        with@ == line.push('\n') + rest,
        without@ == before(line, "//"@).push('\n') + rest,
        call_ensures(parse::<Op, T>, (with,), r),
        call_ensures(parse::<Op, T>, (without,), s),
    ensures
        same_outcome(outcome(r), outcome(s)),
{
    law_comments_add_nothing(line);
    lemma_lines_of_halves(line, rest);
    lemma_lines_of_halves(before(line, "//"@), rest);
    lemma_lines_have_one_outcome::<Op, T>(lines_of(with@), outcome(r), outcome(s));
}

/// A text whose first line is blank, or holds a comment alone, has the outcome
/// of what follows that line.
pub proof fn law_a_blank_line_adds_nothing<Op, T>(
    line: Seq<char>,
    with: &str,
    without: &str,
    r: Result<Vec<RewriteRule<Op, T>>, RewriteError>,
    s: Result<Vec<RewriteRule<Op, T>>, RewriteError>,
) where Op: ReadOp + Arity + Duplicate, T: ReadType + Duplicate
    requires
        !line.contains('\n'),
        trimmed(before(line, "//"@)).len() == 0,
        with@ == line.push('\n') + without@,
        call_ensures(parse::<Op, T>, (with,), r),
        call_ensures(parse::<Op, T>, (without,), s),
    ensures
        same_outcome(outcome(r), outcome(s)),
{
    law_comments_add_nothing(line);
    lemma_lines_of_halves(line, without@);
    assert(lines_of(with@) =~= lines_of(without@));
    lemma_lines_have_one_outcome::<Op, T>(lines_of(with@), outcome(r), outcome(s));
}

/// A text without anything has no rules.
pub proof fn law_nothing_has_no_rules<Op, T>(
    file: &str,
    r: Result<Vec<RewriteRule<Op, T>>, RewriteError>,
) where Op: ReadOp + Arity + Duplicate, T: ReadType + Duplicate
    requires
        file@.len() == 0,
        call_ensures(parse::<Op, T>, (file,), r),
    ensures
        r is Ok,
        r->Ok_0@.len() == 0,
{
    let none = file@;
    assert(!none.contains('\n'));
    law_comments_add_nothing(none);
    reveal_strlit("//");
    assert(before(none, "//"@) =~= none);
    assert(trimmed(none).len() == 0);
    assert(lines_of(none).len() == 0);
    if let Ok(rules) = r {
        let g = choose|g: Seq<Seq<RewriteRule<Op, T>>>| #[trigger]
            all_read::<Op, T>(lines_of(none), g, 0) && rules@ == joined(g, g.len());
        assert(joined(g, 0).len() == 0);
    }
}

} // verus!
