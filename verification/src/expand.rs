//! Library functions that were learned, and the rules that introduce them.
use crate::ast_node::partial_expr::PatternOp;
use crate::id_map::{holds, id_among, keys, lemma_put, lookup, put, retained, IdMap};
use crate::rec_expr::RecExpr;
use crate::rewrites::type_match::TypeMatch;
use crate::sorting::{lemma_placed_at, lemma_sorted, placed, sorted};
use crate::text::same_text;
use crate::text_sort::{
    law_texts_are_ordered, lemma_without_repeats, text_in_order, text_le, text_order,
    texts_increase, without_repeats,
};
use std::sync::Arc;
use vstd::prelude::*;

verus! {

// ---------------------------------------------------------------------------
// Rules
// ---------------------------------------------------------------------------

/// A rewrite rule that is kept elsewhere: its name, and the number that it is
/// found by.
#[derive(Clone, Debug, PartialEq, Eq)]
pub struct Rule {
    pub name: String,
    pub handle: usize,
}

/// The contents of a [`Rule`].
#[verifier::ext_equal]
pub struct RuleView {
    pub name: Seq<char>,
    pub handle: usize,
}

impl View for Rule {
    type V = RuleView;

    open spec fn view(&self) -> RuleView {
        RuleView { name: self.name@, handle: self.handle }
    }
}

impl Rule {
    /// The same rule once more.
    pub fn duplicate(&self) -> (r: Self)
        ensures
            r@ == self@,
    {
        Rule { name: self.name.clone(), handle: self.handle }
    }
}

/// The contents of rules.
pub open spec fn rule_views(s: Seq<Rule>) -> Seq<RuleView> {
    Seq::new(s.len(), |i: int| s[i]@)
}

/// The names of rules.
pub open spec fn names(s: Seq<RuleView>) -> Seq<Seq<char>> {
    Seq::new(s.len(), |i: int| s[i].name)
}

/// Rules in the order of their names.
pub open spec fn rule_order() -> spec_fn(RuleView, RuleView) -> bool {
    |a: RuleView, b: RuleView| text_le(a.name, b.name)
}

/// `s` where of neighbors with the same name only the first is kept.
pub open spec fn first_of_name(s: Seq<RuleView>) -> Seq<RuleView>
    decreases s.len(),
{
    if s.len() == 0 {
        s
    } else {
        let r = first_of_name(s.drop_last());
        if r.len() > 0 && r.last().name == s.last().name {
            r
        } else {
            r.push(s.last())
        }
    }
}

/// The rules in the order of their names, each name once.
pub open spec fn distinct_rules(s: Seq<RuleView>) -> Seq<RuleView> {
    first_of_name(sorted(s, rule_order()))
}

/// Puts the rules in the order of their names, and keeps the first of those
/// with the same name.
pub fn distinct(v: Vec<Rule>) -> (r: Vec<Rule>)
    ensures
        rule_views(r@) == distinct_rules(rule_views(v@)),
{
    let ghost s = rule_views(v@);
    let ghost le = rule_order();
    let mut out: Vec<Rule> = Vec::new();
    let n: usize = v.len();
    assert(rule_views(out@) =~= sorted(s.take(0), le));
    for i in 0..n
        invariant
            n == v@.len(),
            s == rule_views(v@),
            le == rule_order(),
            rule_views(out@) == sorted(s.take(i as int), le),
    {
        let ghost t = rule_views(out@);
        let ghost x = s[i as int];
        assert(x == v@[i as int]@);
        let mut p: usize = out.len();
        while p > 0 && !text_in_order(out[p - 1].name.as_str(), v[i].name.as_str())
            invariant
                i < v@.len(),
                p <= out@.len(),
                t == rule_views(out@),
                x == v@[i as int]@,
                le == rule_order(),
                forall|j: int| p <= j < t.len() ==> !le(#[trigger] t[j], x),
            decreases p,
        {
            assert(!le(t[p - 1], x));
            p = p - 1;
        }
        proof {
            if p > 0 {
                assert(le(t[p - 1], x));
            }
            lemma_placed_at(t, x, le, p as int);
            assert(s.take(i + 1).drop_last() =~= s.take(i as int));
        }
        out.insert(p, v[i].duplicate());
        assert(rule_views(out@) =~= t.insert(p as int, x));
    }
    assert(s.take(n as int) =~= s);
    let ghost ordered = rule_views(out@);
    let count: usize = out.len();
    let mut r: Vec<Rule> = Vec::new();
    assert(rule_views(r@) =~= first_of_name(ordered.take(0)));
    for i in 0..count
        invariant
            count == out@.len() == ordered.len(),
            ordered == rule_views(out@),
            rule_views(r@) == first_of_name(ordered.take(i as int)),
    {
        let ghost t = rule_views(r@);
        let ghost u = ordered.take(i + 1);
        assert(u.drop_last() =~= ordered.take(i as int));
        assert(u.last() == out@[i as int]@);
        let m: usize = r.len();
        let repeated: bool = m > 0 && same_text(r[m - 1].name.as_str(), out[i].name.as_str());
        if !repeated {
            r.push(out[i].duplicate());
            assert(rule_views(r@) =~= t.push(u.last()));
        }
    }
    assert(ordered.take(count as int) =~= ordered);
    r
}

proof fn lemma_names_placed(s: Seq<RuleView>, x: RuleView)
    ensures
        names(placed(s, x, rule_order())) == placed(names(s), x.name, text_order()),
    decreases s.len(),
{
    let le = rule_order();
    if s.len() == 0 {
        assert(names(placed(s, x, le)) =~= placed(names(s), x.name, text_order()));
    } else if le(s.last(), x) {
        assert(names(s.push(x)) =~= names(s).push(x.name));
    } else {
        lemma_names_placed(s.drop_last(), x);
        let p = placed(s.drop_last(), x, le);
        assert(names(s).drop_last() =~= names(s.drop_last()));
        assert(names(p.push(s.last())) =~= names(p).push(s.last().name));
    }
}

proof fn lemma_names_sorted(s: Seq<RuleView>)
    ensures
        names(sorted(s, rule_order())) == sorted(names(s), text_order()),
    decreases s.len(),
{
    if s.len() == 0 {
        assert(names(sorted(s, rule_order())) =~= sorted(names(s), text_order()));
    } else {
        lemma_names_sorted(s.drop_last());
        lemma_names_placed(sorted(s.drop_last(), rule_order()), s.last());
        assert(names(s).drop_last() =~= names(s.drop_last()));
    }
}

proof fn lemma_names_once(s: Seq<RuleView>)
    ensures
        names(first_of_name(s)) == without_repeats(names(s)),
    decreases s.len(),
{
    if s.len() == 0 {
        assert(names(first_of_name(s)) =~= without_repeats(names(s)));
    } else {
        lemma_names_once(s.drop_last());
        let r = first_of_name(s.drop_last());
        assert(names(s).drop_last() =~= names(s.drop_last()));
        assert(names(r.push(s.last())) =~= names(r).push(s.last().name));
        assert(names(r).len() == r.len());
    }
}

/// Distinct rules have different names, in order, and no name is lost.
pub proof fn law_rules_are_distinct(s: Seq<RuleView>)
    ensures
        texts_increase(names(distinct_rules(s))),
        forall|x: Seq<char>| #[trigger]
            names(distinct_rules(s)).contains(x) <==> names(s).contains(x),
{
    let t = sorted(s, rule_order());
    lemma_names_sorted(s);
    lemma_names_once(t);
    law_texts_are_ordered();
    lemma_sorted(names(s), text_order());
    lemma_without_repeats(names(t));
    broadcast use vstd::seq_lib::group_to_multiset_ensures;

    assert forall|x: Seq<char>| #[trigger] names(distinct_rules(s)).contains(x) <==> names(
        s,
    ).contains(x) by {
        assert(names(t).contains(x) <==> names(t).to_multiset().count(x) > 0);
        assert(names(s).contains(x) <==> names(s).to_multiset().count(x) > 0);
    }
}

// ---------------------------------------------------------------------------
// Messages
// ---------------------------------------------------------------------------

/// A pattern with named variables.
pub type Pattern<Op> = RecExpr<PatternOp<Op, String>>;

/// A rule that introduces a library function, and where it applies.
#[derive(Debug)]
pub struct LibRule<T> {
    pub rule: Rule,
    pub condition: TypeMatch<T>,
}

/// The rules of library rules.
pub open spec fn rules_of<T>(s: Seq<LibRule<T>>) -> Seq<RuleView> {
    Seq::new(s.len(), |i: int| s[i].rule@)
}

/// What was learned of one library function.
#[derive(Debug)]
pub struct LearnMessage<Op, T> {
    pub lib_id: usize,
    pub rewrite: LibRule<T>,
    /// What the library function stands for.
    pub searcher: Pattern<Op>,
    /// What takes its place.
    pub applier: Pattern<Op>,
    /// How often it was found.
    pub search_len: usize,
}

/// What is known of library functions, by their identifiers.
#[derive(Debug)]
pub struct ExpandMessage<Op, T> {
    /// The rules that introduce each of them.
    pub rewrites_conditions: IdMap<Arc<Vec<LibRule<T>>>>,
    /// What each of them may stand for.
    pub searchers: IdMap<Arc<Vec<Pattern<Op>>>>,
    /// What takes its place.
    pub appliers: IdMap<Arc<Pattern<Op>>>,
    /// How often each of them was found.
    pub lib_search_results: IdMap<usize>,
    /// Those that stand for several operations.
    pub meta_libs: Vec<usize>,
}

impl<Op, T> ExpandMessage<Op, T> {
    /// Whether nothing is known of any library function.
    pub open spec fn knows_nothing(&self) -> bool {
        &&& self.rewrites_conditions.entries@.len() == 0
        &&& self.searchers.entries@.len() == 0
        &&& self.appliers.entries@.len() == 0
        &&& self.lib_search_results.entries@.len() == 0
        &&& self.meta_libs@.len() == 0
    }
}

impl<Op, T> Default for ExpandMessage<Op, T> {
    /// No library functions.
    fn default() -> (r: Self)
        ensures
            r.wf(),
            r.knows_nothing(),
    {
        ExpandMessage {
            rewrites_conditions: IdMap::new(),
            searchers: IdMap::new(),
            appliers: IdMap::new(),
            lib_search_results: IdMap::new(),
            meta_libs: Vec::new(),
        }
    }
}

/// The entries, with that of `from` for `id` where there is one.
pub open spec fn with_entry<V>(s: Seq<(usize, V)>, id: usize, from: Seq<(usize, V)>) -> Seq<
    (usize, V),
> {
    match lookup(from, id) {
        Some(v) => put(s, id, v),
        None => s,
    }
}

fn copy_entry<V: crate::ast_node::Duplicate>(to: &mut IdMap<V>, id: usize, from: &IdMap<V>)
    requires
        old(to).wf(),
        from.wf(),
    ensures
        final(to).wf(),
        final(to).entries@ == with_entry(old(to).entries@, id, from.entries@),
{
    if let Some(v) = from.get(id) {
        to.insert(id, v.duplicate());
    }
}

/// The numbers, and `id` where it is not there yet.
pub open spec fn with_number(s: Seq<usize>, id: usize) -> Seq<usize> {
    if s.contains(id) {
        s
    } else {
        s.push(id)
    }
}

/// The first `n` numbers that are in `ids`.
pub open spec fn numbers_in(s: Seq<usize>, ids: Seq<usize>, n: nat) -> Seq<usize>
    decreases n,
{
    if n == 0 {
        Seq::empty()
    } else if ids.contains(s[n - 1]) {
        numbers_in(s, ids, (n - 1) as nat).push(s[n - 1])
    } else {
        numbers_in(s, ids, (n - 1) as nat)
    }
}

/// The numbers that are in `ids`.
pub fn retain_numbers(v: &Vec<usize>, ids: &Vec<usize>) -> (r: Vec<usize>)
    ensures
        r@ == numbers_in(v@, ids@, v@.len()),
{
    let mut r: Vec<usize> = Vec::new();
    let n: usize = v.len();
    assert(r@ =~= numbers_in(v@, ids@, 0));
    for i in 0..n
        invariant
            n == v@.len(),
            r@ == numbers_in(v@, ids@, i as nat),
    {
        if id_among(ids, v[i]) {
            r.push(v[i]);
        }
    }
    r
}

/// The rules of the first `n` entries, one after the other.
pub open spec fn all_rules<T>(s: Seq<(usize, Arc<Vec<LibRule<T>>>)>, n: nat) -> Seq<RuleView>
    decreases n,
{
    if n == 0 {
        Seq::empty()
    } else {
        all_rules(s, (n - 1) as nat) + rules_of(s[n - 1].1@)
    }
}

/// Adds rules to a list.
pub(crate) fn push_rules<T>(out: &mut Vec<Rule>, rules: &Vec<LibRule<T>>)
    ensures
        rule_views(final(out)@) == rule_views(old(out)@) + rules_of(rules@),
{
    let ghost start = rule_views(out@);
    let ghost all = rules_of(rules@);
    let n: usize = rules.len();
    assert(rule_views(out@) =~= start + all.take(0));
    for i in 0..n
        invariant
            n == rules@.len() == all.len(),
            all == rules_of(rules@),
            rule_views(out@) == start + all.take(i as int),
    {
        let ghost before = rule_views(out@);
        out.push(rules[i].rule.duplicate());
        assert(rule_views(out@) =~= before.push(all[i as int]));
        assert(rule_views(out@) =~= start + all.take(i + 1));
    }
    assert(all.take(n as int) =~= all);
}

impl<Op, T> ExpandMessage<Op, T> {
    /// Whether the entries are in order.
    pub open spec fn wf(&self) -> bool {
        &&& self.rewrites_conditions.wf()
        &&& self.searchers.wf()
        &&& self.appliers.wf()
        &&& self.lib_search_results.wf()
    }

    /// Takes over what another message knows of a library function.
    pub fn insert_from_messages(&mut self, id: usize, from: &Self)
        requires
            old(self).wf(),
            from.wf(),
        ensures
            final(self).wf(),
            final(self).rewrites_conditions.entries@ == with_entry(
                old(self).rewrites_conditions.entries@,
                id,
                from.rewrites_conditions.entries@,
            ),
            final(self).searchers.entries@ == with_entry(
                old(self).searchers.entries@,
                id,
                from.searchers.entries@,
            ),
            final(self).appliers.entries@ == with_entry(
                old(self).appliers.entries@,
                id,
                from.appliers.entries@,
            ),
            final(self).lib_search_results.entries@ == with_entry(
                old(self).lib_search_results.entries@,
                id,
                from.lib_search_results.entries@,
            ),
            final(self).meta_libs@ == if from.meta_libs@.contains(id) {
                with_number(old(self).meta_libs@, id)
            } else {
                old(self).meta_libs@
            },
    {
        copy_entry(&mut self.rewrites_conditions, id, &from.rewrites_conditions);
        copy_entry(&mut self.searchers, id, &from.searchers);
        copy_entry(&mut self.appliers, id, &from.appliers);
        copy_entry(&mut self.lib_search_results, id, &from.lib_search_results);
        if id_among(&from.meta_libs, id) && !id_among(&self.meta_libs, id) {
            self.meta_libs.push(id);
        }
    }

    /// Keeps only what is known of these library functions.
    pub fn retain_with_ids(&mut self, ids: &Vec<usize>)
        requires
            old(self).wf(),
        ensures
            final(self).wf(),
            final(self).rewrites_conditions.entries@ == retained(
                old(self).rewrites_conditions.entries@,
                ids@,
                old(self).rewrites_conditions.entries@.len(),
            ),
            final(self).searchers.entries@ == retained(
                old(self).searchers.entries@,
                ids@,
                old(self).searchers.entries@.len(),
            ),
            final(self).appliers.entries@ == retained(
                old(self).appliers.entries@,
                ids@,
                old(self).appliers.entries@.len(),
            ),
            final(self).lib_search_results.entries@ == retained(
                old(self).lib_search_results.entries@,
                ids@,
                old(self).lib_search_results.entries@.len(),
            ),
            final(self).meta_libs@ == numbers_in(
                old(self).meta_libs@,
                ids@,
                old(self).meta_libs@.len(),
            ),
    {
        self.rewrites_conditions.retain(ids);
        self.searchers.retain(ids);
        self.appliers.retain(ids);
        self.lib_search_results.retain(ids);
        self.meta_libs = retain_numbers(&self.meta_libs, ids);
    }

    /// The identifier for the next library function: one more than the
    /// largest.
    pub fn next_lib_id(&self) -> (r: usize)
        requires
            self.wf(),
            !holds(self.appliers.entries@, usize::MAX),
        ensures
            r == next_id(self.appliers.entries@),
            forall|k: usize| #[trigger] holds(self.appliers.entries@, k) ==> k < r,
            r > 0 ==> holds(self.appliers.entries@, (r - 1) as usize),
    {
        let n: usize = self.appliers.entries.len();
        let ghost s = self.appliers.entries@;
        if n == 0 {
            return 0;
        }
        let last: usize = self.appliers.entries[n - 1].0;
        proof {
            assert(s[n - 1].0 == last);
            assert(holds(s, last));
            assert forall|k: usize| #[trigger] holds(s, k) implies k <= last by {
                let i = choose|i: int| 0 <= i < s.len() && (#[trigger] s[i]).0 == k;
                if i < n - 1 {
                    assert(keys(s)[i] < keys(s)[n - 1]);
                }
            }
        }
        last + 1
    }

    /// The rules of all library functions.
    pub fn rules(&self) -> (r: Vec<Rule>)
        ensures
            rule_views(r@) == all_rules(
                self.rewrites_conditions.entries@,
                self.rewrites_conditions.entries@.len(),
            ),
    {
        let mut out: Vec<Rule> = Vec::new();
        let ghost s = self.rewrites_conditions.entries@;
        let n: usize = self.rewrites_conditions.entries.len();
        assert(rule_views(out@) =~= all_rules(s, 0));
        for i in 0..n
            invariant
                s == self.rewrites_conditions.entries@,
                n == s.len(),
                rule_views(out@) == all_rules(s, i as nat),
        {
            push_rules(&mut out, &*self.rewrites_conditions.entries[i].1);
        }
        out
    }
}

/// One more than the largest identifier, or zero where there is none.
pub open spec fn next_id<V>(s: Seq<(usize, V)>) -> int {
    if s.len() == 0 {
        0
    } else {
        s.last().0 + 1
    }
}

/// Whether the entries of a message for the first `n` of the library
/// functions that were learned are what was learned of them. What was learned
/// later takes the place of what was learned before.
pub open spec fn message_of<Op, T>(
    m: ExpandMessage<Op, T>,
    learned: Seq<LearnMessage<Op, T>>,
) -> bool {
    &&& m.wf()
    &&& m.meta_libs@.len() == 0
    &&& forall|id: usize|
        #![trigger last_of(learned, id)]
        match last_of(learned, id) {
            Some(x) => {
                &&& lookup(m.rewrites_conditions.entries@, id) matches Some(rs) && rs@ == seq![
                    x.rewrite,
                ]
                &&& lookup(m.searchers.entries@, id) matches Some(ss) && ss@ == seq![x.searcher]
                &&& lookup(m.appliers.entries@, id) matches Some(a) && *a == x.applier
                &&& lookup(m.lib_search_results.entries@, id) == Some(x.search_len)
            },
            None => {
                &&& lookup(m.rewrites_conditions.entries@, id) is None
                &&& lookup(m.searchers.entries@, id) is None
                &&& lookup(m.appliers.entries@, id) is None
                &&& lookup(m.lib_search_results.entries@, id) is None
            },
        }
}

/// What was learned last of a library function.
pub open spec fn last_of<Op, T>(learned: Seq<LearnMessage<Op, T>>, id: usize) -> Option<
    LearnMessage<Op, T>,
>
    decreases learned.len(),
{
    if learned.len() == 0 {
        None
    } else if learned.last().lib_id == id {
        Some(learned.last())
    } else {
        last_of(learned.drop_last(), id)
    }
}

proof fn lemma_lookup_put<V>(s: Seq<(usize, V)>, k: usize, v: V, j: usize)
    requires
        crate::id_map::increasing(keys(s)),
    ensures
        lookup(put(s, k, v), j) == if j == k {
            Some(v)
        } else {
            lookup(s, j)
        },
{
    lemma_put(s, k, v);
}

/// The message of what was learned.
pub fn collect_messages<Op, T>(learned: Vec<LearnMessage<Op, T>>) -> (r: ExpandMessage<Op, T>)
    ensures
        message_of(r, learned@),
{
    let mut learned = learned;
    let ghost all = learned@;
    let mut r: ExpandMessage<Op, T> = ExpandMessage::default();
    let n: usize = learned.len();
    let mut rest: Vec<LearnMessage<Op, T>> = Vec::new();
    // The last is at the end: turn the list round to take them in order.
    for i in 0..n
        invariant
            n == all.len(),
            learned@ == all.take(n - i),
            rest@.len() == i,
            forall|k: int| 0 <= k < i ==> rest@[k] == all[n - 1 - k],
    {
        let last: LearnMessage<Op, T> = learned.pop().unwrap();
        assert(learned@ =~= all.take(n - i - 1));
        rest.push(last);
    }
    assert(all.take(0) =~= Seq::empty());
    assert(message_of(r, all.take(0))) by {
        assert forall|id: usize| #[trigger] last_of(all.take(0), id) is None by {}
    }
    for i in 0..n
        invariant
            n == all.len(),
            rest@.len() == n - i,
            forall|k: int| 0 <= k < rest@.len() ==> rest@[k] == all[n - 1 - k],
            message_of(r, all.take(i as int)),
    {
        let ghost before = r;
        let msg: LearnMessage<Op, T> = rest.pop().unwrap();
        let ghost x = msg;
        let LearnMessage { lib_id, rewrite, searcher, applier, search_len } = msg;
        let mut rules: Vec<LibRule<T>> = Vec::new();
        rules.push(rewrite);
        let mut searchers: Vec<Pattern<Op>> = Vec::new();
        searchers.push(searcher);
        let rules: Arc<Vec<LibRule<T>>> = Arc::new(rules);
        let searchers: Arc<Vec<Pattern<Op>>> = Arc::new(searchers);
        let applier: Arc<Pattern<Op>> = Arc::new(applier);
        r.rewrites_conditions.insert(lib_id, rules.clone());
        r.searchers.insert(lib_id, searchers.clone());
        r.appliers.insert(lib_id, applier.clone());
        r.lib_search_results.insert(lib_id, search_len);
        proof {
            let done = all.take(i + 1);
            assert(done.drop_last() =~= all.take(i as int));
            assert(done.last() == x);
            assert(rules@ =~= seq![x.rewrite]);
            assert(searchers@ =~= seq![x.searcher]);
            assert forall|id: usize|
                #![trigger last_of(done, id)]
                match last_of(done, id) {
                    Some(x) => {
                        &&& lookup(r.rewrites_conditions.entries@, id) matches Some(rs) && rs@
                            == seq![x.rewrite]
                        &&& lookup(r.searchers.entries@, id) matches Some(ss) && ss@ == seq![
                            x.searcher,
                        ]
                        &&& lookup(r.appliers.entries@, id) matches Some(a) && *a == x.applier
                        &&& lookup(r.lib_search_results.entries@, id) == Some(x.search_len)
                    },
                    None => {
                        &&& lookup(r.rewrites_conditions.entries@, id) is None
                        &&& lookup(r.searchers.entries@, id) is None
                        &&& lookup(r.appliers.entries@, id) is None
                        &&& lookup(r.lib_search_results.entries@, id) is None
                    },
                } by {
                lemma_lookup_put(before.rewrites_conditions.entries@, lib_id, rules, id);
                lemma_lookup_put(before.searchers.entries@, lib_id, searchers, id);
                lemma_lookup_put(before.appliers.entries@, lib_id, applier, id);
                lemma_lookup_put(before.lib_search_results.entries@, lib_id, search_len, id);
                assert(last_of(all.take(i as int), id) is Some || last_of(
                    all.take(i as int),
                    id,
                ) is None);
            }
        }
    }
    assert(all.take(n as int) =~= all);
    r
}

} // verus!
