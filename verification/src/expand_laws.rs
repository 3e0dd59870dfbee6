//! Which rules and which library functions messages and lists of rules keep.
use crate::expand::{
    all_rules, collect_messages, distinct, distinct_rules, first_of_name, last_of,
    law_rules_are_distinct, message_of, names, rule_order, rule_views, rules_of, with_entry,
    ExpandMessage, LearnMessage, LibRule, Rule, RuleView,
};
use crate::id_map::{holds, keys, lemma_put, lookup};
use crate::runner::selection::competing_rules;
use crate::sorting::{placed, sorted};
use crate::text_sort::{law_texts_are_ordered, text_le};
use std::sync::Arc;
use vstd::prelude::*;

verus! {

/// The first rule with a name.
spec fn first_named(s: Seq<RuleView>, name: Seq<char>) -> Option<RuleView>
    decreases s.len(),
{
    if s.len() == 0 {
        None
    } else {
        match first_named(s.drop_last(), name) {
            Some(x) => Some(x),
            None => if s.last().name == name {
                Some(s.last())
            } else {
                None
            },
        }
    }
}

proof fn lemma_first_named(s: Seq<RuleView>, name: Seq<char>, k: int)
    requires
        0 <= k < s.len(),
        s[k].name == name,
        forall|j: int| 0 <= j < k ==> (#[trigger] s[j]).name != name,
    ensures
        first_named(s, name) == Some(s[k]),
    decreases s.len(),
{
    let t = s.drop_last();
    if k < s.len() - 1 {
        assert(t[k] == s[k]);
        assert forall|j: int| 0 <= j < k implies (#[trigger] t[j]).name != name by {
            assert(t[j] == s[j]);
        }
        lemma_first_named(t, name, k);
    } else {
        assert forall|j: int| 0 <= j < t.len() implies (#[trigger] t[j]).name != name by {
            assert(t[j] == s[j]);
        }
        lemma_none_named(t, name);
    }
}

proof fn lemma_none_named(s: Seq<RuleView>, name: Seq<char>)
    requires
        forall|j: int| 0 <= j < s.len() ==> (#[trigger] s[j]).name != name,
    ensures
        first_named(s, name) is None,
    decreases s.len(),
{
    if s.len() > 0 {
        let t = s.drop_last();
        assert forall|j: int| 0 <= j < t.len() implies (#[trigger] t[j]).name != name by {
            assert(t[j] == s[j]);
        }
        lemma_none_named(t, name);
        assert(s[s.len() - 1].name != name);
    }
}

proof fn lemma_place_of_first(s: Seq<RuleView>, name: Seq<char>) -> (k: int)
    requires
        first_named(s, name) is Some,
    ensures
        0 <= k < s.len(),
        s[k].name == name,
        first_named(s, name) == Some(s[k]),
        forall|j: int| 0 <= j < k ==> (#[trigger] s[j]).name != name,
    decreases s.len(),
{
    let t = s.drop_last();
    if first_named(t, name) is Some {
        let k = lemma_place_of_first(t, name);
        assert(t[k] == s[k]);
        assert forall|j: int| 0 <= j < k implies (#[trigger] s[j]).name != name by {
            assert(t[j] == s[j]);
        }
        k
    } else {
        assert forall|j: int| 0 <= j < t.len() implies (#[trigger] s[j]).name != name by {
            if s[j].name == name {
                lemma_some_named(t, name, j);
            }
        }
        s.len() - 1
    }
}

proof fn lemma_some_named(s: Seq<RuleView>, name: Seq<char>, j: int)
    requires
        0 <= j < s.len(),
        s[j].name == name,
    ensures
        first_named(s, name) is Some,
    decreases s.len(),
{
    if j < s.len() - 1 {
        assert(s.drop_last()[j] == s[j]);
        lemma_some_named(s.drop_last(), name, j);
    }
}

proof fn lemma_first_of_placed(s: Seq<RuleView>, x: RuleView, name: Seq<char>)
    ensures
        first_named(placed(s, x, rule_order()), name) == first_named(s.push(x), name),
    decreases s.len(),
{
    let le = rule_order();
    let t = placed(s, x, le);
    assert(s.push(x).drop_last() =~= s);
    if s.len() > 0 && !le(s.last(), x) {
        let u = s.drop_last();
        lemma_first_of_placed(u, x, name);
        assert(u.push(x).drop_last() =~= u);
        law_texts_are_ordered();
        let order = crate::text_sort::text_order();
        assert(order(x.name, x.name) || order(x.name, x.name));
        assert(text_le(x.name, x.name));
        assert(s.last().name != x.name);
        assert(t.drop_last() =~= placed(u, x, le));
        assert(t.last() == s.last());
        assert(first_named(s.push(x), name) == match first_named(s, name) {
            Some(y) => Some(y),
            None => if x.name == name {
                Some(x)
            } else {
                None
            },
        });
        assert(first_named(u.push(x), name) == match first_named(u, name) {
            Some(y) => Some(y),
            None => if x.name == name {
                Some(x)
            } else {
                None
            },
        });
        assert(first_named(t, name) == match first_named(u.push(x), name) {
            Some(y) => Some(y),
            None => if s.last().name == name {
                Some(s.last())
            } else {
                None
            },
        });
    } else {
        assert(t =~= s.push(x));
    }
}

proof fn lemma_first_of_sorted(s: Seq<RuleView>, name: Seq<char>)
    ensures
        first_named(sorted(s, rule_order()), name) == first_named(s, name),
    decreases s.len(),
{
    if s.len() > 0 {
        let t = sorted(s.drop_last(), rule_order());
        lemma_first_of_sorted(s.drop_last(), name);
        lemma_first_of_placed(t, s.last(), name);
        assert(t.push(s.last()).drop_last() =~= t);
    }
}

proof fn lemma_first_of_kept(s: Seq<RuleView>, name: Seq<char>)
    ensures
        first_named(first_of_name(s), name) == first_named(s, name),
    decreases s.len(),
{
    if s.len() > 0 {
        let u = s.drop_last();
        let r = first_of_name(u);
        lemma_first_of_kept(u, name);
        if r.len() > 0 && r.last().name == s.last().name {
            if s.last().name == name {
                lemma_some_named(r, name, r.len() - 1);
            }
        } else {
            assert(r.push(s.last()).drop_last() =~= r);
        }
    }
}

proof fn lemma_kept_is_first(s: Seq<RuleView>, k: int)
    requires
        0 <= k < distinct_rules(s).len(),
    ensures
        first_named(s, distinct_rules(s)[k].name) == Some(distinct_rules(s)[k]),
{
    let r = distinct_rules(s);
    let name = r[k].name;
    law_rules_are_distinct(s);
    assert forall|j: int| 0 <= j < k implies (#[trigger] r[j]).name != name by {
        assert(names(r)[j] != names(r)[k]);
    }
    lemma_first_named(r, name, k);
    lemma_first_of_kept(sorted(s, rule_order()), name);
    lemma_first_of_sorted(s, name);
}

/// Of the rules with one name the first is kept, and of every name there is
/// one. They are in the order of their names.
pub proof fn law_first_rule_of_a_name_is_kept(v: Vec<Rule>, r: Vec<Rule>)
    requires
        call_ensures(distinct, (v,), r),
    ensures
        forall|k: int|
            0 <= k < r@.len() ==> exists|i: int|
                0 <= i < v@.len() && (#[trigger] v@[i])@ == (#[trigger] r@[k])@ && forall|j: int|
                    0 <= j < i ==> (#[trigger] v@[j]).name@ != r@[k].name@,
        forall|i: int|
            0 <= i < v@.len() ==> exists|k: int|
                0 <= k < r@.len() && (#[trigger] r@[k]).name@ == (#[trigger] v@[i]).name@,
        forall|k: int, l: int|
            0 <= k < l < r@.len() ==> text_le(
                (#[trigger] r@[k]).name@,
                (#[trigger] r@[l]).name@,
            ) && r@[k].name@ != r@[l].name@,
{
    let s = rule_views(v@);
    let t = rule_views(r@);
    law_rules_are_distinct(s);
    assert forall|k: int| 0 <= k < r@.len() implies exists|i: int|
        0 <= i < v@.len() && (#[trigger] v@[i])@ == (#[trigger] r@[k])@ && forall|j: int|
            0 <= j < i ==> (#[trigger] v@[j]).name@ != r@[k].name@ by {
        assert(t[k] == r@[k]@);
        lemma_kept_is_first(s, k);
        let i = lemma_place_of_first(s, t[k].name);
        assert(v@[i]@ == r@[k]@);
        assert forall|j: int| 0 <= j < i implies (#[trigger] v@[j]).name@ != r@[k].name@ by {
            assert(s[j].name != t[k].name);
        }
    }
    assert forall|i: int| 0 <= i < v@.len() implies exists|k: int|
        0 <= k < r@.len() && (#[trigger] r@[k]).name@ == (#[trigger] v@[i]).name@ by {
        let x = v@[i].name@;
        assert(names(s)[i] == x);
        assert(names(t).contains(x));
        let k = choose|k: int| 0 <= k < names(t).len() && names(t)[k] == x;
        assert(r@[k].name@ == x);
    }
    assert forall|k: int, l: int| 0 <= k < l < r@.len() implies text_le(
        (#[trigger] r@[k]).name@,
        (#[trigger] r@[l]).name@,
    ) && r@[k].name@ != r@[l].name@ by {
        assert(text_le(names(t)[k], names(t)[l]));
    }
}

/// Whether rule `j` of entry `i` is the first with its name among the entries.
pub open spec fn is_first_rule<T>(
    s: Seq<(usize, Arc<Vec<LibRule<T>>>)>,
    i: int,
    j: int,
    name: Seq<char>,
) -> bool {
    &&& 0 <= i < s.len()
    &&& 0 <= j < s[i].1@.len()
    &&& s[i].1@[j].rule.name@ == name
    &&& forall|a: int, b: int|
        0 <= a < s.len() && 0 <= b < s[a].1@.len() && (a < i || (a == i && b < j)) ==> (
        #[trigger] s[a].1@[b]).rule.name@ != name
}

/// Whether an entry has a rule with this name.
pub open spec fn has_rule<T>(s: Seq<(usize, Arc<Vec<LibRule<T>>>)>, name: Seq<char>) -> bool {
    exists|i: int, j: int|
        0 <= i < s.len() && 0 <= j < s[i].1@.len() && (#[trigger] s[i].1@[j]).rule.name@ == name
}

proof fn lemma_first_rule<T>(
    s: Seq<(usize, Arc<Vec<LibRule<T>>>)>,
    n: nat,
    name: Seq<char>,
) -> (p: (int, int))
    requires
        n <= s.len(),
    ensures
        match first_named(all_rules(s, n), name) {
            Some(x) => {
                &&& 0 <= p.0 < n
                &&& is_first_rule(s, p.0, p.1, name)
                &&& s[p.0].1@[p.1].rule@ == x
            },
            None => forall|a: int, b: int|
                0 <= a < n && 0 <= b < s[a].1@.len() ==> (#[trigger] s[a].1@[b]).rule.name@
                    != name,
        },
    decreases n,
{
    if n == 0 {
        (0, 0)
    } else {
        let p = lemma_first_rule(s, (n - 1) as nat, name);
        let before = all_rules(s, (n - 1) as nat);
        let more = rules_of(s[n - 1].1@);
        lemma_first_of_both(before, more, name);
        if first_named(before, name) is Some {
            p
        } else if first_named(more, name) is Some {
            let j = lemma_place_of_first(more, name);
            assert(s[n - 1].1@[j].rule@ == more[j]);
            assert forall|a: int, b: int|
                0 <= a < s.len() && 0 <= b < s[a].1@.len() && (a < n - 1 || (a == n - 1 && b
                    < j)) implies (#[trigger] s[a].1@[b]).rule.name@ != name by {
                if a == n - 1 {
                    assert(more[b].name != name);
                }
            }
            (n - 1, j)
        } else {
            assert forall|a: int, b: int| 0 <= a < n && 0 <= b < s[a].1@.len() implies (
            #[trigger] s[a].1@[b]).rule.name@ != name by {
                if a == n - 1 && more[b].name == name {
                    lemma_some_named(more, name, b);
                }
            }
            (0, 0)
        }
    }
}

proof fn lemma_first_of_both(a: Seq<RuleView>, b: Seq<RuleView>, name: Seq<char>)
    ensures
        first_named(a + b, name) == match first_named(a, name) {
            Some(x) => Some(x),
            None => first_named(b, name),
        },
    decreases b.len(),
{
    if b.len() == 0 {
        assert(a + b =~= a);
    } else {
        assert((a + b).drop_last() =~= a + b.drop_last());
        lemma_first_of_both(a, b.drop_last(), name);
    }
}

/// The rules that compete are those of all library functions, each name once:
/// the first with that name of what was learned now, or else the first of what
/// was learned earlier.
pub proof fn law_new_rules_compete_first<Op, T>(
    new: &ExpandMessage<Op, T>,
    past: &ExpandMessage<Op, T>,
    r: Vec<Rule>,
    k: int,
)
    requires
        call_ensures(competing_rules::<Op, T>, (new, past), r),
        0 <= k < r@.len(),
    ensures
        ({
            let (a, b) = (new.rewrites_conditions.entries@, past.rewrites_conditions.entries@);
            let name = r@[k].name@;
            if has_rule(a, name) {
                exists|i: int, j: int| #[trigger]
                    is_first_rule(a, i, j, name) && a[i].1@[j].rule@ == r@[k]@
            } else {
                exists|i: int, j: int| #[trigger]
                    is_first_rule(b, i, j, name) && b[i].1@[j].rule@ == r@[k]@
            }
        }),
{
    let (a, b) = (new.rewrites_conditions.entries@, past.rewrites_conditions.entries@);
    let (x, y) = (all_rules(a, a.len()), all_rules(b, b.len()));
    let name = r@[k].name@;
    assert(rule_views(r@)[k] == r@[k]@);
    lemma_kept_is_first(x + y, k);
    lemma_first_of_both(x, y, name);
    let p = lemma_first_rule(a, a.len(), name);
    let q = lemma_first_rule(b, b.len(), name);
    if has_rule(a, name) {
        let (i, j) = choose|i: int, j: int|
            0 <= i < a.len() && 0 <= j < a[i].1@.len() && (#[trigger] a[i].1@[j]).rule.name@
                == name;
        assert(is_first_rule(a, p.0, p.1, name));
    } else if first_named(x, name) is Some {
        assert(a[p.0].1@[p.1].rule.name@ == name);
    } else {
        assert(is_first_rule(b, q.0, q.1, name));
    }
}

/// Every rule of a library function competes, itself or the one that has its
/// name.
pub proof fn law_every_name_competes<Op, T>(
    new: &ExpandMessage<Op, T>,
    past: &ExpandMessage<Op, T>,
    r: Vec<Rule>,
    name: Seq<char>,
)
    requires
        call_ensures(competing_rules::<Op, T>, (new, past), r),
        has_rule(new.rewrites_conditions.entries@, name) || has_rule(
            past.rewrites_conditions.entries@,
            name,
        ),
    ensures
        exists|k: int| 0 <= k < r@.len() && (#[trigger] r@[k]).name@ == name,
{
    let (a, b) = (new.rewrites_conditions.entries@, past.rewrites_conditions.entries@);
    let (x, y) = (all_rules(a, a.len()), all_rules(b, b.len()));
    lemma_first_of_both(x, y, name);
    let p = lemma_first_rule(a, a.len(), name);
    let q = lemma_first_rule(b, b.len(), name);
    if has_rule(a, name) {
        let (i, j) = choose|i: int, j: int|
            0 <= i < a.len() && 0 <= j < a[i].1@.len() && (#[trigger] a[i].1@[j]).rule.name@
                == name;
        assert(a[i].1@[j].rule.name@ == name);
    } else {
        let (i, j) = choose|i: int, j: int|
            0 <= i < b.len() && 0 <= j < b[i].1@.len() && (#[trigger] b[i].1@[j]).rule.name@
                == name;
        assert(b[i].1@[j].rule.name@ == name);
    }
    let i = lemma_place_of_first(x + y, name);
    law_rules_are_distinct(x + y);
    assert(names(x + y)[i] == name);
    let t = names(distinct_rules(x + y));
    assert(t.contains(name));
    let k = choose|k: int| 0 <= k < t.len() && t[k] == name;
    assert(rule_views(r@)[k] == r@[k]@);
    assert(r@[k].name@ == name);
}

/// What is known of a library function is what was learned of it last.
pub proof fn law_last_learned_is_known<Op, T>(
    learned: Vec<LearnMessage<Op, T>>,
    r: ExpandMessage<Op, T>,
    i: int,
)
    requires
        call_ensures(collect_messages::<Op, T>, (learned,), r),
        0 <= i < learned@.len(),
        forall|j: int| i < j < learned@.len() ==> (#[trigger] learned@[j]).lib_id
            != learned@[i].lib_id,
    ensures
        ({
            let x = learned@[i];
            &&& lookup(r.rewrites_conditions.entries@, x.lib_id) is Some
            &&& lookup(r.rewrites_conditions.entries@, x.lib_id)->Some_0@ == seq![x.rewrite]
            &&& lookup(r.searchers.entries@, x.lib_id) is Some
            &&& lookup(r.searchers.entries@, x.lib_id)->Some_0@ == seq![x.searcher]
            &&& lookup(r.appliers.entries@, x.lib_id) is Some
            &&& *lookup(r.appliers.entries@, x.lib_id)->Some_0 == x.applier
            &&& lookup(r.lib_search_results.entries@, x.lib_id) == Some(x.search_len)
        }),
{
    lemma_last_of(learned@, i);
}

proof fn lemma_last_of<Op, T>(s: Seq<LearnMessage<Op, T>>, i: int)
    requires
        0 <= i < s.len(),
        forall|j: int| i < j < s.len() ==> (#[trigger] s[j]).lib_id != s[i].lib_id,
    ensures
        last_of(s, s[i].lib_id) == Some(s[i]),
    decreases s.len(),
{
    if i < s.len() - 1 {
        let t = s.drop_last();
        assert(s[s.len() - 1].lib_id != s[i].lib_id);
        assert forall|j: int| i < j < t.len() implies (#[trigger] t[j]).lib_id != t[i].lib_id by {
            assert(t[j] == s[j]);
        }
        lemma_last_of(t, i);
    }
}

proof fn lemma_never<Op, T>(s: Seq<LearnMessage<Op, T>>, id: usize)
    requires
        forall|j: int| 0 <= j < s.len() ==> (#[trigger] s[j]).lib_id != id,
    ensures
        last_of(s, id) is None,
    decreases s.len(),
{
    if s.len() > 0 {
        let t = s.drop_last();
        assert(s[s.len() - 1].lib_id != id);
        assert forall|j: int| 0 <= j < t.len() implies (#[trigger] t[j]).lib_id != id by {
            assert(t[j] == s[j]);
        }
        lemma_never(t, id);
    }
}

/// Nothing is known of a library function of which nothing was learned.
pub proof fn law_nothing_else_is_known<Op, T>(
    learned: Vec<LearnMessage<Op, T>>,
    r: ExpandMessage<Op, T>,
    id: usize,
)
    requires
        call_ensures(collect_messages::<Op, T>, (learned,), r),
        forall|j: int| 0 <= j < learned@.len() ==> (#[trigger] learned@[j]).lib_id != id,
    ensures
        !holds(r.rewrites_conditions.entries@, id),
        !holds(r.searchers.entries@, id),
        !holds(r.appliers.entries@, id),
        !holds(r.lib_search_results.entries@, id),
        !r.meta_libs@.contains(id),
{
    lemma_never(learned@, id);
    assert(message_of(r, learned@));
    assert(last_of(learned@, id) is None);
}

/// Taking over an entry replaces the one that was there, and no other.
pub proof fn law_taken_over<V>(s: Seq<(usize, V)>, id: usize, from: Seq<(usize, V)>, k: usize)
    requires
        crate::id_map::increasing(keys(s)),
    ensures
        k != id ==> lookup(with_entry(s, id, from), k) == lookup(s, k),
        !holds(from, id) ==> with_entry(s, id, from) == s,
        holds(from, id) ==> lookup(with_entry(s, id, from), id) == lookup(from, id),
{
    if holds(from, id) {
        lemma_put(s, id, lookup(from, id)->Some_0);
    }
}

} // verus!
