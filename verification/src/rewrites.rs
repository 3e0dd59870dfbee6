//! Reading rewrite rules.
//!
//! A file of rewrite rules has one rule per line, such as
//!
//! ```text
//! one_plus_one: (+ 1 1) => 2
//! (+ ?x ?y) <==> (+ ?y ?x) where all(t: int)
//! ```
//!
//! What follows two slashes is a comment.
use crate::ast_node::partial_expr::PatternOp;
use crate::ast_node::{Arity, Duplicate, NodeView};
use crate::rec_expr::RecExpr;
use crate::text::{text_of, texts, to_chars};
use crate::text_split::{
    before, char_seqs, contains, cut, has_part, split, split_on, split_once, trim, trimmed,
};
use vstd::prelude::*;

pub mod condition_laws;
pub mod laws;
pub mod line_laws;
pub mod pattern;
pub mod type_match;

use crate::rewrites::pattern::{
    among, has_var, no_pattern, pattern_vars, read_pattern, reads_pattern, ReadOp,
};
use crate::rewrites::type_match::{
    all_types, condition_read, read_all_types, ConditionError, ReadType, TypeMatch,
};

verus! {

/// Why a rule cannot be read.
#[derive(Clone, Copy, Debug, PartialEq, Eq, Structural)]
pub enum RewriteError {
    /// There is no arrow between the two sides, or only one that goes with a
    /// name, and no name.
    MissingArrow,
    /// The left side is no pattern.
    BadLeft,
    /// The right side is no pattern.
    BadRight,
    /// The condition cannot be read.
    BadCondition(ConditionError),
    /// The right side or the condition has a variable that the left side does
    /// not have.
    Unbound,
    /// The left side or the condition has a variable that the right side does
    /// not have, though the rule holds both ways.
    UnboundReverse,
}

/// A rule that makes of what matches the left side the right side, where the
/// condition holds.
#[derive(Debug)]
pub struct RewriteRule<Op, T> {
    pub name: String,
    pub lhs: RecExpr<PatternOp<Op, String>>,
    pub rhs: RecExpr<PatternOp<Op, String>>,
    pub condition: TypeMatch<T>,
}

/// A line as its name, its two sides, and whether the rule holds both ways.
#[verifier::ext_equal]
pub struct RuleText {
    pub name: Seq<char>,
    pub lhs: Seq<char>,
    pub rhs: Seq<char>,
    pub both: bool,
}

/// The parts of a line. The sides stand before `where`, around a double arrow
/// `<==>` or a long arrow `==>`, and the line itself is the name; or around an
/// arrow `=>`, with the name and a colon in front.
pub open spec fn rule_text(line: Seq<char>) -> Option<RuleText> {
    let rewrite = before(line, "where"@);
    match split_once(rewrite, "<==>"@) {
        Some((l, r)) => Some(
            RuleText { name: line, lhs: trimmed(l), rhs: trimmed(r), both: true },
        ),
        None => match split_once(rewrite, "==>"@) {
            Some((l, r)) => Some(
                RuleText { name: line, lhs: trimmed(l), rhs: trimmed(r), both: false },
            ),
            None => match split_once(rewrite, "=>"@) {
                Some((l, r)) => match split_once(l, ":"@) {
                    Some((n, l)) => Some(
                        RuleText {
                            name: trimmed(n),
                            lhs: trimmed(l),
                            rhs: trimmed(r),
                            both: false,
                        },
                    ),
                    None => None,
                },
                None => None,
            },
        },
    }
}

fn text(v: &Vec<char>) -> (r: String)
    ensures
        r@ == v@,
{
    let r: String = text_of(v, 0, v.len());
    assert(r@ =~= v@);
    r
}

/// Takes a line apart: its name, its two sides, and whether the rule holds
/// both ways.
pub fn parse_rewrite_line(line: &str) -> (r: Result<(String, (String, String, bool)), RewriteError>)
    ensures
        match r {
            Ok((name, (lhs, rhs, both))) => rule_text(line@) == Some(
                RuleText { name: name@, lhs: lhs@, rhs: rhs@, both },
            ),
            Err(e) => e == RewriteError::MissingArrow && rule_text(line@) is None,
        },
{
    let all: Vec<char> = to_chars(line);
    let rewrite: Vec<char> = match cut(&all, "where") {
        Some((a, _)) => a,
        None => to_chars(line),
    };
    if let Some((l, r)) = cut(&rewrite, "<==>") {
        return Ok((line.to_owned(), (text(&trim(&l)), text(&trim(&r)), true)));
    }
    if let Some((l, r)) = cut(&rewrite, "==>") {
        return Ok((line.to_owned(), (text(&trim(&l)), text(&trim(&r)), false)));
    }
    match cut(&rewrite, "=>") {
        Some((l, r)) => match cut(&l, ":") {
            Some((n, l)) => Ok((text(&trim(&n)), (text(&trim(&l)), text(&trim(&r)), false))),
            None => Err(RewriteError::MissingArrow),
        },
        None => Err(RewriteError::MissingArrow),
    }
}

/// The condition of a line on the variables of its left side.
pub open spec fn condition_of<Op, T: ReadType>(
    line: Seq<char>,
    lhs: Seq<NodeView<PatternOp<Op, String>>>,
) -> Result<Map<Seq<char>, Seq<T>>, ConditionError> {
    match split_once(line, "where"@) {
        None => Ok(Map::empty()),
        Some((_, c)) => {
            let c = trimmed(c);
            if has_part(c, "all"@) {
                match all_types::<T>(c) {
                    Ok(ts) => Ok(
                        Map::new(|v: Seq<char>| has_var(lhs, v), |v: Seq<char>| ts),
                    ),
                    Err(e) => Err(e),
                }
            } else {
                condition_read::<T>(c)
            }
        },
    }
}

/// Reads the condition of a line.
pub fn parse_condition<Op, T: ReadType + Duplicate>(
    line: &str,
    lhs: &RecExpr<PatternOp<Op, String>>,
) -> (r: Result<TypeMatch<T>, ConditionError>)
    ensures
        match r {
            Ok(c) => c.wf() && condition_of::<Op, T>(line@, lhs@) == Ok::<_, ConditionError>(c@),
            Err(e) => condition_of::<Op, T>(line@, lhs@) == Err::<Map<Seq<char>, Seq<T>>, _>(e),
        },
{
    let all: Vec<char> = to_chars(line);
    match cut(&all, "where") {
        None => Ok(TypeMatch::default()),
        Some((_, c)) => {
            let c: Vec<char> = trim(&c);
            if contains(&c, "all") {
                match read_all_types::<T>(&c) {
                    Ok(ts) => {
                        let ghost types = ts@;
                        let vars: Vec<String> = pattern_vars(lhs);
                        let m: TypeMatch<T> = TypeMatch::from_vars(&vars, ts);
                        assert(m@ =~= Map::new(
                            |v: Seq<char>| has_var(lhs@, v),
                            |v: Seq<char>| types,
                        ));
                        Ok(m)
                    },
                    Err(e) => Err(e),
                }
            } else {
                let s: String = text(&c);
                TypeMatch::parse(s.as_str())
            }
        },
    }
}

/// Reads the left side of a line and its condition.
pub fn parse_lhs_condition<Op: ReadOp + Arity, T: ReadType + Duplicate>(line: &str) -> (r: Result<
    (RecExpr<PatternOp<Op, String>>, TypeMatch<T>),
    RewriteError,
>)
    ensures
        match r {
            Ok((p, c)) => {
                &&& rule_text(line@) is Some
                &&& p.wf()
                &&& reads_pattern(rule_text(line@)->Some_0.lhs, p@)
                &&& c.wf()
                &&& condition_of::<Op, T>(line@, p@) == Ok::<_, ConditionError>(c@)
            },
            Err(e) => match rule_text(line@) {
                None => e == RewriteError::MissingArrow,
                Some(t) => {
                    ||| e == RewriteError::BadLeft && no_pattern::<Op>(t.lhs)
                    ||| e is BadCondition && exists|p: Seq<NodeView<PatternOp<Op, String>>>| #[trigger]
                        reads_pattern(t.lhs, p) && condition_of::<Op, T>(line@, p) == Err::<
                            Map<Seq<char>, Seq<T>>,
                            _,
                        >(e->BadCondition_0)
                },
            },
        },
{
    let (_, (lhs, _, _)) = match parse_rewrite_line(line) {
        Ok(parts) => parts,
        Err(e) => {
            return Err(e);
        },
    };
    let ghost t = rule_text(line@)->Some_0;
    assert(t.lhs == lhs@);
    match read_pattern::<Op>(lhs.as_str()) {
        None => Err(RewriteError::BadLeft),
        Some(p) => match parse_condition::<Op, T>(line, &p) {
            Ok(c) => Ok((p, c)),
            Err(e) => {
                assert(reads_pattern(t.lhs, p@));
                Err(RewriteError::BadCondition(e))
            },
        },
    }
}

/// Whether every variable of the right side and of the condition is one of
/// the left side.
pub open spec fn is_bound<Op, T>(
    lhs: Seq<NodeView<PatternOp<Op, String>>>,
    rhs: Seq<NodeView<PatternOp<Op, String>>>,
    condition: Map<Seq<char>, Seq<T>>,
) -> bool {
    &&& forall|v: Seq<char>| #[trigger] has_var(rhs, v) ==> has_var(lhs, v)
    &&& forall|v: Seq<char>| #[trigger] condition.dom().contains(v) ==> has_var(lhs, v)
}

fn binds<Op, T>(
    lhs: &RecExpr<PatternOp<Op, String>>,
    rhs: &RecExpr<PatternOp<Op, String>>,
    condition: &TypeMatch<T>,
) -> (r: bool)
    requires
        condition.wf(),
    ensures
        r == is_bound(lhs@, rhs@, condition@),
{
    let bound: Vec<String> = pattern_vars(lhs);
    let used: Vec<String> = pattern_vars(rhs);
    let asked: Vec<String> = condition.vars();
    let in_rhs: bool = all_among(&bound, &used);
    let in_condition: bool = all_among(&bound, &asked);
    proof {
        if in_rhs {
            assert forall|v: Seq<char>| #[trigger] has_var(rhs@, v) implies has_var(lhs@, v) by {
                assert(texts(used@).contains(v));
                assert(texts(bound@).contains(v));
            }
        } else {
            let v = choose|v: Seq<char>| #[trigger]
                texts(used@).contains(v) && !texts(bound@).contains(v);
            assert(has_var(rhs@, v) && !has_var(lhs@, v));
        }
        if in_condition {
            assert forall|v: Seq<char>| #[trigger] condition@.dom().contains(v) implies has_var(
                lhs@,
                v,
            ) by {
                assert(texts(asked@).contains(v));
                assert(texts(bound@).contains(v));
            }
        } else {
            let v = choose|v: Seq<char>| #[trigger]
                texts(asked@).contains(v) && !texts(bound@).contains(v);
            assert(condition@.dom().contains(v) && !has_var(lhs@, v));
        }
    }
    in_rhs && in_condition
}

fn all_among(v: &Vec<String>, w: &Vec<String>) -> (r: bool)
    ensures
        r == forall|x: Seq<char>| #[trigger] texts(w@).contains(x) ==> texts(v@).contains(x),
{
    let n: usize = w.len();
    for i in 0..n
        invariant
            n == w@.len(),
            forall|k: int| 0 <= k < i ==> texts(v@).contains(#[trigger] texts(w@)[k]),
    {
        if !among(v, &w[i]) {
            assert(texts(w@)[i as int] == w@[i as int]@);
            assert(texts(w@).contains(w@[i as int]@));
            return false;
        }
        assert(texts(w@)[i as int] == w@[i as int]@);
    }
    true
}

/// Whether a rule is made of these parts.
pub open spec fn is_rule<Op, T>(
    rule: RewriteRule<Op, T>,
    name: Seq<char>,
    lhs: Seq<NodeView<PatternOp<Op, String>>>,
    rhs: Seq<NodeView<PatternOp<Op, String>>>,
    condition: Map<Seq<char>, Seq<T>>,
) -> bool {
    &&& rule.name@ == name
    &&& rule.lhs@ == lhs
    &&& rule.rhs@ == rhs
    &&& rule.condition.wf()
    &&& rule.condition@ == condition
}

/// The name of the rule that goes the other way.
pub open spec fn reverse_name(name: Seq<char>) -> Seq<char> {
    name + "_reverse"@
}

/// Whether these are the rules with these parts: one, or one each way.
pub open spec fn are_rules<Op, T>(
    rules: Seq<RewriteRule<Op, T>>,
    name: Seq<char>,
    lhs: Seq<NodeView<PatternOp<Op, String>>>,
    rhs: Seq<NodeView<PatternOp<Op, String>>>,
    condition: Map<Seq<char>, Seq<T>>,
    both: bool,
) -> bool {
    &&& rules.len() == if both {
        2int
    } else {
        1
    }
    &&& is_rule(rules[0], name, lhs, rhs, condition)
    &&& is_bound(lhs, rhs, condition)
    &&& both ==> is_rule(rules[1], reverse_name(name), rhs, lhs, condition)
    &&& both ==> is_bound(rhs, lhs, condition)
}

/// Makes the rules with these parts: one, or one each way.
pub fn build_rewrites<Op: Duplicate, T: Duplicate>(
    name: &str,
    lhs: &RecExpr<PatternOp<Op, String>>,
    rhs: &RecExpr<PatternOp<Op, String>>,
    condition: &TypeMatch<T>,
    both: bool,
) -> (r: Result<Vec<RewriteRule<Op, T>>, RewriteError>)
    requires
        condition.wf(),
    ensures
        match r {
            Ok(rules) => are_rules(rules@, name@, lhs@, rhs@, condition@, both),
            Err(e) => if is_bound(lhs@, rhs@, condition@) {
                both && !is_bound(rhs@, lhs@, condition@) && e == RewriteError::UnboundReverse
            } else {
                e == RewriteError::Unbound
            },
        },
{
    let mut rules: Vec<RewriteRule<Op, T>> = Vec::new();
    if !binds(lhs, rhs, condition) {
        return Err(RewriteError::Unbound);
    }
    rules.push(
        RewriteRule {
            name: name.to_owned(),
            lhs: lhs.duplicate(),
            rhs: rhs.duplicate(),
            condition: condition.duplicate(),
        },
    );
    if both {
        if !binds(rhs, lhs, condition) {
            return Err(RewriteError::UnboundReverse);
        }
        let mut reverse: String = name.to_owned();
        reverse.append("_reverse");
        rules.push(
            RewriteRule {
                name: reverse,
                lhs: rhs.duplicate(),
                rhs: lhs.duplicate(),
                condition: condition.duplicate(),
            },
        );
    }
    Ok(rules)
}

/// A rule that holds both ways is there in both directions, and the second
/// undoes the first.
pub proof fn law_reverse_undoes<Op, T>(
    rules: Seq<RewriteRule<Op, T>>,
    name: Seq<char>,
    lhs: Seq<NodeView<PatternOp<Op, String>>>,
    rhs: Seq<NodeView<PatternOp<Op, String>>>,
    condition: Map<Seq<char>, Seq<T>>,
)
    requires
        are_rules(rules, name, lhs, rhs, condition, true),
    ensures
        rules[1].lhs@ == rules[0].rhs@,
        rules[1].rhs@ == rules[0].lhs@,
        rules[1].condition@ == rules[0].condition@,
        forall|v: Seq<char>| has_var(lhs, v) <==> #[trigger] has_var(rhs, v),
{
    assert forall|v: Seq<char>| has_var(lhs, v) <==> #[trigger] has_var(rhs, v) by {}
}

/// What reading a line gives.
pub open spec fn line_read<Op: ReadOp + Arity, T: ReadType>(
    line: Seq<char>,
    r: Result<Seq<RewriteRule<Op, T>>, RewriteError>,
) -> bool {
    match rule_text(line) {
        None => r == Err::<Seq<RewriteRule<Op, T>>, _>(RewriteError::MissingArrow),
        Some(t) => match r {
            Ok(rules) => {
                let lhs = rules[0].lhs@;
                let rhs = rules[0].rhs@;
                let condition = rules[0].condition@;
                &&& reads_pattern(t.lhs, lhs)
                &&& reads_pattern(t.rhs, rhs)
                &&& condition_of::<Op, T>(line, lhs) == Ok::<_, ConditionError>(condition)
                &&& are_rules(rules, t.name, lhs, rhs, condition, t.both)
            },
            Err(e) => {
                ||| e == RewriteError::BadLeft && no_pattern::<Op>(t.lhs)
                ||| exists|p: Seq<NodeView<PatternOp<Op, String>>>| #[trigger]
                    reads_pattern(t.lhs, p) && rest_fails::<Op, T>(line, t, p, e)
            },
        },
    }
}

/// Whether a line with this left side fails with this error.
pub open spec fn rest_fails<Op: ReadOp + Arity, T: ReadType>(
    line: Seq<char>,
    t: RuleText,
    p: Seq<NodeView<PatternOp<Op, String>>>,
    e: RewriteError,
) -> bool {
    ||| e == RewriteError::BadRight && no_pattern::<Op>(t.rhs)
    ||| exists|q: Seq<NodeView<PatternOp<Op, String>>>| #[trigger]
        reads_pattern(t.rhs, q) && match condition_of::<Op, T>(line, p) {
            Err(c) => e == RewriteError::BadCondition(c),
            Ok(m) => if is_bound(p, q, m) {
                t.both && !is_bound(q, p, m) && e == RewriteError::UnboundReverse
            } else {
                e == RewriteError::Unbound
            },
        }
}

/// Reads the rules of one line.
pub fn parse_line<Op, T>(line: &str) -> (r: Result<Vec<RewriteRule<Op, T>>, RewriteError>) where
    Op: ReadOp + Arity + Duplicate,
    T: ReadType + Duplicate,

    ensures
        line_read::<Op, T>(
            line@,
            match r {
                Ok(rules) => Ok(rules@),
                Err(e) => Err(e),
            },
        ),
{
    let (name, (lhs, rhs, both)) = match parse_rewrite_line(line) {
        Ok(parts) => parts,
        Err(e) => {
            return Err(e);
        },
    };
    let p: RecExpr<PatternOp<Op, String>> = match read_pattern(lhs.as_str()) {
        None => {
            return Err(RewriteError::BadLeft);
        },
        Some(p) => p,
    };
    let ghost t = rule_text(line@)->Some_0;
    assert(reads_pattern(t.lhs, p@));
    let q: RecExpr<PatternOp<Op, String>> = match read_pattern(rhs.as_str()) {
        None => {
            assert(rest_fails::<Op, T>(line@, t, p@, RewriteError::BadRight));
            return Err(RewriteError::BadRight);
        },
        Some(q) => q,
    };
    assert(reads_pattern(t.rhs, q@));
    let c: TypeMatch<T> = match parse_condition::<Op, T>(line, &p) {
        Err(e) => {
            assert(rest_fails::<Op, T>(line@, t, p@, RewriteError::BadCondition(e)));
            return Err(RewriteError::BadCondition(e));
        },
        Ok(c) => c,
    };
    match build_rewrites(name.as_str(), &p, &q, &c, both) {
        Ok(rules) => Ok(rules),
        Err(e) => {
            assert(rest_fails::<Op, T>(line@, t, p@, e));
            Err(e)
        },
    }
}

/// The first `k` lines of a file without comments, white space around them
/// and blank lines.
pub open spec fn rule_lines(lines: Seq<Seq<char>>, k: nat) -> Seq<Seq<char>>
    decreases k,
{
    if k == 0 {
        Seq::empty()
    } else {
        let rest = rule_lines(lines, (k - 1) as nat);
        let line = trimmed(before(lines[k - 1], "//"@));
        if line.len() == 0 {
            rest
        } else {
            rest.push(line)
        }
    }
}

/// The lines of a file that hold rules.
pub open spec fn lines_of(file: Seq<char>) -> Seq<Seq<char>> {
    let lines = split(file, '\n');
    rule_lines(lines, lines.len())
}

/// The lines of a file that hold rules.
pub fn read_lines(file: &str) -> (r: Vec<String>)
    ensures
        texts(r@) == lines_of(file@),
{
    let all: Vec<char> = to_chars(file);
    let lines: Vec<Vec<char>> = split_on(&all, '\n');
    let ghost s = split(file@, '\n');
    let n: usize = lines.len();
    let mut r: Vec<String> = Vec::new();
    assert(texts(r@) =~= rule_lines(s, 0));
    for i in 0..n
        invariant
            n == lines@.len() == s.len(),
            s == char_seqs(lines@),
            texts(r@) == rule_lines(s, i as nat),
    {
        let ghost done = texts(r@);
        assert(s[i as int] == lines@[i as int]@);
        let line: Vec<char> = match cut(&lines[i], "//") {
            Some((a, _)) => trim(&a),
            None => trim(&lines[i]),
        };
        if line.len() > 0 {
            r.push(text(&line));
            assert(texts(r@) =~= done.push(line@));
        }
    }
    r
}

/// The rules of the first `k` groups, one after the other.
pub open spec fn joined<R>(groups: Seq<Seq<R>>, k: nat) -> Seq<R>
    decreases k,
{
    if k == 0 {
        Seq::empty()
    } else {
        joined(groups, (k - 1) as nat) + groups[k - 1]
    }
}

/// Whether the rules of the first `k` lines are these groups.
pub open spec fn all_read<Op: ReadOp + Arity, T: ReadType>(
    lines: Seq<Seq<char>>,
    groups: Seq<Seq<RewriteRule<Op, T>>>,
    k: nat,
) -> bool {
    &&& k <= lines.len()
    &&& groups.len() == k
    &&& forall|i: int|
        0 <= i < k ==> line_read::<Op, T>(
            lines[i],
            Ok::<_, RewriteError>(#[trigger] groups[i]),
        )
}

/// What reading a file gives: the rules of its lines, in order, or the error
/// of the first line that cannot be read.
pub open spec fn file_read<Op: ReadOp + Arity, T: ReadType>(
    file: Seq<char>,
    r: Result<Seq<RewriteRule<Op, T>>, RewriteError>,
) -> bool {
    lines_read::<Op, T>(lines_of(file), r)
}

/// What reading lines gives.
pub open spec fn lines_read<Op: ReadOp + Arity, T: ReadType>(
    lines: Seq<Seq<char>>,
    r: Result<Seq<RewriteRule<Op, T>>, RewriteError>,
) -> bool {
    match r {
        Ok(rules) => exists|groups: Seq<Seq<RewriteRule<Op, T>>>| #[trigger]
            all_read::<Op, T>(lines, groups, lines.len()) && rules == joined(groups, groups.len()),
        Err(e) => exists|groups: Seq<Seq<RewriteRule<Op, T>>>, k: nat| #[trigger]
            all_read::<Op, T>(lines, groups, k) && k < lines.len() && line_read::<Op, T>(
                lines[k as int],
                Err::<Seq<RewriteRule<Op, T>>, _>(e),
            ),
    }
}

/// Reads a file of rewrite rules: the rules of its lines, in order, or the
/// error of the first line that cannot be read.
pub fn parse<Op, T>(file: &str) -> (r: Result<Vec<RewriteRule<Op, T>>, RewriteError>) where
    Op: ReadOp + Arity + Duplicate,
    T: ReadType + Duplicate,

    ensures
        file_read::<Op, T>(
            file@,
            match r {
                Ok(rules) => Ok(rules@),
                Err(e) => Err(e),
            },
        ),
{
    let lines: Vec<String> = read_lines(file);
    let ghost s = lines_of(file@);
    let n: usize = lines.len();
    let mut all: Vec<RewriteRule<Op, T>> = Vec::new();
    let ghost mut groups: Seq<Seq<RewriteRule<Op, T>>> = Seq::empty();
    assert(texts(lines@).len() == n);
    for i in 0..n
        invariant
            n == lines@.len() == s.len(),
            s == lines_of(file@),
            s == texts(lines@),
            all_read::<Op, T>(s, groups, i as nat),
            all@ == joined(groups, i as nat),
    {
        assert(s[i as int] == lines@[i as int]@);
        match parse_line::<Op, T>(lines[i].as_str()) {
            Ok(rules) => {
                let mut rules = rules;
                let ghost more = rules@;
                let ghost done = all@;
                let ghost before = groups;
                all.append(&mut rules);
                proof {
                    groups = groups.push(more);
                    lemma_joined(before, groups, i as nat);
                    assert(all@ =~= done + more);
                    assert forall|k: int| 0 <= k < i + 1 implies line_read::<Op, T>(
                        s[k],
                        Ok::<_, RewriteError>(#[trigger] groups[k]),
                    ) by {
                        if k < i {
                            assert(groups[k] == before[k]);
                        }
                    }
                }
            },
            Err(e) => {
                assert(all_read::<Op, T>(lines_of(file@), groups, i as nat));
                return Err(e);
            },
        }
    }
    Ok(all)
}

pub(crate) proof fn lemma_joined<R>(a: Seq<Seq<R>>, b: Seq<Seq<R>>, k: nat)
    requires
        forall|i: int| 0 <= i < k ==> a[i] == b[i],
    ensures
        joined(a, k) == joined(b, k),
    decreases k,
{
    if k > 0 {
        lemma_joined(a, b, (k - 1) as nat);
    }
}

} // verus!
