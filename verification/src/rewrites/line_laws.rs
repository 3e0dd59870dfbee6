//! How a line is taken apart, and which rules are made of its parts.
use crate::ast_node::partial_expr::PatternOp;
use crate::ast_node::{Duplicate, NodeView};
use crate::rec_expr::RecExpr;
use crate::rewrites::pattern::has_var;
use crate::rewrites::type_match::TypeMatch;
use crate::rewrites::{build_rewrites, parse_rewrite_line, RewriteError, RewriteRule};
use crate::text_split::{
    is_white, occurs_at, place_from, trimmed, trimmed_end, trimmed_start, whites,
};
use vstd::prelude::*;

verus! {

/// Whether `p` has every variable of `q` and of a condition.
pub open spec fn has_all_vars<Op, T>(
    p: Seq<NodeView<PatternOp<Op, String>>>,
    q: Seq<NodeView<PatternOp<Op, String>>>,
    condition: Map<Seq<char>, Seq<T>>,
) -> bool {
    &&& forall|v: Seq<char>| #[trigger] condition.dom().contains(v) ==> has_var(p, v)
    &&& forall|v: Seq<char>| #[trigger] has_var(q, v) ==> has_var(p, v)
}

/// Rules are made exactly where the left side has every variable of the right
/// side and of the condition, and for a rule that holds both ways the right
/// side has them too. The first rule has the parts as they are given. The
/// second goes the other way and has `_reverse` behind its name.
pub proof fn law_rules_that_are_made<Op: Duplicate, T: Duplicate>(
    name: &str,
    lhs: &RecExpr<PatternOp<Op, String>>,
    rhs: &RecExpr<PatternOp<Op, String>>,
    condition: &TypeMatch<T>,
    both: bool,
    r: Result<Vec<RewriteRule<Op, T>>, RewriteError>,
)
    requires
        condition.wf(),
        call_ensures(build_rewrites::<Op, T>, (name, lhs, rhs, condition, both), r),
    ensures
        ({
            let forth = has_all_vars(lhs@, rhs@, condition@);
            let back = has_all_vars(rhs@, lhs@, condition@);
            match r {
                Ok(rules) => {
                    &&& forth && (both ==> back)
                    &&& rules@.len() == if both {
                        2int
                    } else {
                        1
                    }
                    &&& rules@[0].name@ == name@
                    &&& rules@[0].lhs@ == lhs@
                    &&& rules@[0].rhs@ == rhs@
                    &&& rules@[0].condition@ == condition@
                    &&& both ==> rules@[1].name@ == name@ + seq![
                        '_', 'r', 'e', 'v', 'e', 'r', 's', 'e',
                    ]
                    &&& both ==> rules@[1].lhs@ == rhs@
                    &&& both ==> rules@[1].rhs@ == lhs@
                    &&& both ==> rules@[1].condition@ == condition@
                },
                Err(e) => if forth {
                    both && !back && e == RewriteError::UnboundReverse
                } else {
                    e == RewriteError::Unbound
                },
            }
        }),
{
    reveal_strlit("_reverse");
    assert("_reverse"@ =~= seq!['_', 'r', 'e', 'v', 'e', 'r', 's', 'e']);
}

/// Whether the first place at which `p` stands in `s` is `i`.
pub open spec fn stands_first(s: Seq<char>, p: Seq<char>, i: int) -> bool {
    &&& 0 <= i <= s.len() - p.len()
    &&& s.subrange(i, i + p.len()) == p
    &&& forall|j: int| 0 <= j < i ==> #[trigger] s.subrange(j, j + p.len()) != p
}

/// Whether `p` stands nowhere in `s`.
pub open spec fn stands_nowhere(s: Seq<char>, p: Seq<char>) -> bool {
    forall|j: int| 0 <= j <= s.len() - p.len() ==> #[trigger] s.subrange(j, j + p.len()) != p
}

/// Whether `t` is `s` without the white space around it.
pub open spec fn is_trim_of(t: Seq<char>, s: Seq<char>) -> bool {
    exists|a: int, b: int|
        0 <= a <= b <= s.len() && t == #[trigger] s.subrange(a, b) && (forall|i: int|
            0 <= i < a ==> is_white(#[trigger] s[i])) && (forall|i: int|
            b <= i < s.len() ==> is_white(#[trigger] s[i])) && (t.len() > 0 ==> !is_white(t[0])
            && !is_white(t.last()))
}

proof fn lemma_place(s: Seq<char>, p: Seq<char>, i: int, k: int)
    requires
        0 <= k <= i,
        stands_first(s, p, i),
    ensures
        place_from(s, p, k) == Some(i),
    decreases i - k,
{
    if k < i {
        assert(s.subrange(k, k + p.len()) != p);
        assert(!occurs_at(s, p, k));
        lemma_place(s, p, i, k + 1);
    }
}

pub(crate) proof fn lemma_no_place(s: Seq<char>, p: Seq<char>, k: int)
    requires
        0 <= k,
        stands_nowhere(s, p),
    ensures
        place_from(s, p, k) is None,
    decreases s.len() + 1 - k,
{
    if k + p.len() <= s.len() {
        assert(s.subrange(k, k + p.len()) != p);
        lemma_no_place(s, p, k + 1);
    }
}

proof fn lemma_start(s: Seq<char>) -> (a: int)
    ensures
        0 <= a <= s.len(),
        trimmed_start(s, whites()) == s.skip(a),
        forall|i: int| 0 <= i < a ==> is_white(#[trigger] s[i]),
        a < s.len() ==> !is_white(s[a]),
    decreases s.len(),
{
    if s.len() > 0 && whites()(s[0]) {
        let t = s.drop_first();
        let a = lemma_start(t);
        assert(t.skip(a) =~= s.skip(a + 1));
        assert forall|i: int| 0 <= i < a + 1 implies is_white(#[trigger] s[i]) by {
            if i > 0 {
                assert(is_white(t[i - 1]));
            }
        }
        a + 1
    } else {
        assert(s.skip(0) =~= s);
        0
    }
}

proof fn lemma_end(s: Seq<char>) -> (b: int)
    ensures
        0 <= b <= s.len(),
        trimmed_end(s, whites()) == s.take(b),
        forall|i: int| b <= i < s.len() ==> is_white(#[trigger] s[i]),
        b > 0 ==> !is_white(s[b - 1]),
    decreases s.len(),
{
    if s.len() > 0 && whites()(s.last()) {
        let t = s.drop_last();
        let b = lemma_end(t);
        assert(t.take(b) =~= s.take(b));
        assert forall|i: int| b <= i < s.len() implies is_white(#[trigger] s[i]) by {
            if i < t.len() {
                assert(is_white(t[i]));
            }
        }
        b
    } else {
        assert(s.take(s.len() as int) =~= s);
        s.len() as int
    }
}

/// Trimming takes the white space around a text away and nothing else.
pub proof fn law_trimmed(s: Seq<char>)
    ensures
        is_trim_of(trimmed(s), s),
{
    let a = lemma_start(s);
    let t = s.skip(a);
    let b = lemma_end(t);
    assert(trimmed(s) =~= s.subrange(a, a + b));
    assert forall|i: int| a + b <= i < s.len() implies is_white(#[trigger] s[i]) by {
        assert(is_white(t[i - a]));
    }
    if b > 0 {
        assert(trimmed(s)[0] == s[a]);
        assert(trimmed(s).last() == t[b - 1]);
    }
}

/// What stands before the first `where` of a line, or the whole line.
pub open spec fn is_rule_part(line: Seq<char>, rule: Seq<char>) -> bool {
    let word = seq!['w', 'h', 'e', 'r', 'e'];
    ||| stands_nowhere(line, word) && rule == line
    ||| stands_first(line, word, rule.len() as int) && rule == line.take(rule.len() as int)
}

proof fn lemma_rule_part(line: Seq<char>, rule: Seq<char>)
    requires
        is_rule_part(line, rule),
    ensures
        crate::text_split::before(line, "where"@) == rule,
{
    reveal_strlit("where");
    let word = seq!['w', 'h', 'e', 'r', 'e'];
    assert("where"@ =~= word);
    if stands_nowhere(line, word) && rule == line {
        lemma_no_place(line, word, 0);
    } else {
        lemma_place(line, word, rule.len() as int, 0);
    }
}

/// A line with a double arrow is the rule between what stands before and
/// behind it, both ways, under the whole line for a name.
pub proof fn law_double_arrow(
    line: &str,
    rule: Seq<char>,
    i: int,
    r: Result<(String, (String, String, bool)), RewriteError>,
)
    requires
        call_ensures(parse_rewrite_line, (line,), r),
        is_rule_part(line@, rule),
        stands_first(rule, seq!['<', '=', '=', '>'], i),
    ensures
        r is Ok,
        r->Ok_0.0@ == line@,
        is_trim_of(r->Ok_0.1.0@, rule.take(i)),
        is_trim_of(r->Ok_0.1.1@, rule.skip(i + 4)),
        r->Ok_0.1.2,
{
    lemma_rule_part(line@, rule);
    reveal_strlit("<==>");
    assert("<==>"@ =~= seq!['<', '=', '=', '>']);
    lemma_place(rule, "<==>"@, i, 0);
    law_trimmed(rule.take(i));
    law_trimmed(rule.skip(i + 4));
}

/// A line without a double arrow and with a long one is the rule from what
/// stands before it to what stands behind it, under the whole line for a name.
pub proof fn law_long_arrow(
    line: &str,
    rule: Seq<char>,
    i: int,
    r: Result<(String, (String, String, bool)), RewriteError>,
)
    requires
        call_ensures(parse_rewrite_line, (line,), r),
        is_rule_part(line@, rule),
        stands_nowhere(rule, seq!['<', '=', '=', '>']),
        stands_first(rule, seq!['=', '=', '>'], i),
    ensures
        r is Ok,
        r->Ok_0.0@ == line@,
        is_trim_of(r->Ok_0.1.0@, rule.take(i)),
        is_trim_of(r->Ok_0.1.1@, rule.skip(i + 3)),
        !r->Ok_0.1.2,
{
    lemma_rule_part(line@, rule);
    reveal_strlit("<==>");
    reveal_strlit("==>");
    assert("<==>"@ =~= seq!['<', '=', '=', '>']);
    assert("==>"@ =~= seq!['=', '=', '>']);
    lemma_no_place(rule, "<==>"@, 0);
    lemma_place(rule, "==>"@, i, 0);
    law_trimmed(rule.take(i));
    law_trimmed(rule.skip(i + 3));
}

/// A line with neither, and with a short arrow behind a colon, is the rule
/// between them, under what stands before the colon for a name.
pub proof fn law_short_arrow(
    line: &str,
    rule: Seq<char>,
    i: int,
    j: int,
    r: Result<(String, (String, String, bool)), RewriteError>,
)
    requires
        call_ensures(parse_rewrite_line, (line,), r),
        is_rule_part(line@, rule),
        stands_nowhere(rule, seq!['<', '=', '=', '>']),
        stands_nowhere(rule, seq!['=', '=', '>']),
        stands_first(rule, seq!['=', '>'], i),
        stands_first(rule.take(i), seq![':'], j),
    ensures
        r is Ok,
        is_trim_of(r->Ok_0.0@, rule.take(j)),
        is_trim_of(r->Ok_0.1.0@, rule.subrange(j + 1, i)),
        is_trim_of(r->Ok_0.1.1@, rule.skip(i + 2)),
        !r->Ok_0.1.2,
{
    lemma_rule_part(line@, rule);
    reveal_strlit("<==>");
    reveal_strlit("==>");
    reveal_strlit("=>");
    reveal_strlit(":");
    assert("<==>"@ =~= seq!['<', '=', '=', '>']);
    assert("==>"@ =~= seq!['=', '=', '>']);
    assert("=>"@ =~= seq!['=', '>']);
    assert(":"@ =~= seq![':']);
    lemma_no_place(rule, "<==>"@, 0);
    lemma_no_place(rule, "==>"@, 0);
    lemma_place(rule, "=>"@, i, 0);
    lemma_place(rule.take(i), ":"@, j, 0);
    assert(rule.take(i).take(j) =~= rule.take(j));
    assert(rule.take(i).skip(j + 1) =~= rule.subrange(j + 1, i));
    law_trimmed(rule.take(j));
    law_trimmed(rule.subrange(j + 1, i));
    law_trimmed(rule.skip(i + 2));
}

/// A line without an arrow, or with a short one and no colon before it, is no
/// rule.
pub proof fn law_no_arrow(
    line: &str,
    rule: Seq<char>,
    i: int,
    r: Result<(String, (String, String, bool)), RewriteError>,
)
    requires
        call_ensures(parse_rewrite_line, (line,), r),
        is_rule_part(line@, rule),
        stands_nowhere(rule, seq!['<', '=', '=', '>']),
        stands_nowhere(rule, seq!['=', '=', '>']),
        stands_nowhere(rule, seq!['=', '>']) || (stands_first(rule, seq!['=', '>'], i)
            && stands_nowhere(rule.take(i), seq![':'])),
    ensures
        r is Err,
        r->Err_0 == RewriteError::MissingArrow,
{
    lemma_rule_part(line@, rule);
    reveal_strlit("<==>");
    reveal_strlit("==>");
    reveal_strlit("=>");
    reveal_strlit(":");
    assert("<==>"@ =~= seq!['<', '=', '=', '>']);
    assert("==>"@ =~= seq!['=', '=', '>']);
    assert("=>"@ =~= seq!['=', '>']);
    assert(":"@ =~= seq![':']);
    lemma_no_place(rule, "<==>"@, 0);
    lemma_no_place(rule, "==>"@, 0);
    if stands_nowhere(rule, seq!['=', '>']) {
        lemma_no_place(rule, "=>"@, 0);
    } else {
        lemma_place(rule, "=>"@, i, 0);
        lemma_no_place(rule.take(i), ":"@, 0);
    }
}

} // verus!
