//! What a selection of library functions needs to be tried.
use crate::expand::{
    all_rules, distinct, distinct_rules, push_rules, rule_views, rules_of, with_entry,
    with_number, ExpandMessage, LibRule, Pattern, Rule, RuleView,
};
use crate::extract::lib_sel::LibSel;
use crate::id_map::{holds, keys, lemma_put, lookup, IdMap};
use crate::number::Number;
use std::sync::Arc;
use vstd::prelude::*;

verus! {

/// The rules of a selection, its library functions, and what they stand for.
#[derive(Debug)]
pub struct Chosen<Op> {
    pub rules: Vec<Rule>,
    /// What takes the place of what each library function stands for.
    pub libs: IdMap<Arc<Pattern<Op>>>,
    /// What each library function may stand for; the first is used.
    pub searchers: IdMap<Arc<Vec<Pattern<Op>>>>,
}

/// The message that knows of a library function: those before `max_lib_id`
/// were learned earlier.
pub open spec fn source<Op, T>(
    past: ExpandMessage<Op, T>,
    new: ExpandMessage<Op, T>,
    max_lib_id: usize,
    id: usize,
) -> ExpandMessage<Op, T> {
    if id < max_lib_id {
        past
    } else {
        new
    }
}

/// Whether the rules of a library function and what takes its place are
/// known.
pub open spec fn is_known<Op, T>(
    past: ExpandMessage<Op, T>,
    new: ExpandMessage<Op, T>,
    max_lib_id: usize,
    id: usize,
) -> bool {
    let m = source(past, new, max_lib_id, id);
    holds(m.rewrites_conditions.entries@, id) && holds(m.appliers.entries@, id)
}

/// The rules of the first `k` library functions, one after the other.
pub open spec fn chosen_rules<Op, T>(
    past: ExpandMessage<Op, T>,
    new: ExpandMessage<Op, T>,
    max_lib_id: usize,
    ids: Seq<usize>,
    k: nat,
) -> Seq<RuleView>
    decreases k,
{
    if k == 0 {
        Seq::empty()
    } else {
        let id = ids[k - 1];
        let m = source(past, new, max_lib_id, id);
        chosen_rules(past, new, max_lib_id, ids, (k - 1) as nat) + rules_of(
            lookup(m.rewrites_conditions.entries@, id)->Some_0@,
        )
    }
}

/// The list, where it is not empty.
pub open spec fn if_any<X>(v: Option<Arc<Vec<X>>>) -> Option<Arc<Vec<X>>> {
    match v {
        Some(x) => if x@.len() > 0 {
            v
        } else {
            None
        },
        None => None,
    }
}

/// What is chosen for a library function.
pub open spec fn chosen_for<Op, T>(
    c: Chosen<Op>,
    past: ExpandMessage<Op, T>,
    new: ExpandMessage<Op, T>,
    max_lib_id: usize,
    ids: Seq<usize>,
    id: usize,
) -> bool {
    let m = source(past, new, max_lib_id, id);
    if ids.contains(id) {
        &&& lookup(c.libs.entries@, id) == lookup(m.appliers.entries@, id)
        &&& lookup(c.searchers.entries@, id) == if_any(lookup(m.searchers.entries@, id))
    } else {
        lookup(c.libs.entries@, id) is None && lookup(c.searchers.entries@, id) is None
    }
}

/// Collects what a selection needs.
pub fn choose_selection<Op, T, N: Number>(
    sel: &LibSel<N>,
    past: &ExpandMessage<Op, T>,
    new: &ExpandMessage<Op, T>,
    max_lib_id: usize,
) -> (r: Chosen<Op>)
    requires
        past.wf(),
        new.wf(),
        forall|i: int|
            0 <= i < sel.libs.entries@.len() ==> is_known(
                *past,
                *new,
                max_lib_id,
                (#[trigger] sel.libs.entries@[i]).0,
            ),
    ensures
        r.libs.wf(),
        r.searchers.wf(),
        rule_views(r.rules@) == chosen_rules(
            *past,
            *new,
            max_lib_id,
            keys(sel.libs.entries@),
            sel.libs.entries@.len(),
        ),
        forall|id: usize|
            #![trigger source(*past, *new, max_lib_id, id)]
            chosen_for(r, *past, *new, max_lib_id, keys(sel.libs.entries@), id),
{
    let ghost ids = keys(sel.libs.entries@);
    let mut r: Chosen<Op> = Chosen {
        rules: Vec::new(),
        libs: IdMap::new(),
        searchers: IdMap::new(),
    };
    let n: usize = sel.libs.entries.len();
    assert(rule_views(r.rules@) =~= chosen_rules(*past, *new, max_lib_id, ids, 0));
    assert forall|id: usize|
        #![trigger source(*past, *new, max_lib_id, id)]
        chosen_for(r, *past, *new, max_lib_id, ids.take(0), id) by {}
    for i in 0..n
        invariant
            n == sel.libs.entries@.len() == ids.len(),
            ids == keys(sel.libs.entries@),
            past.wf(),
            new.wf(),
            forall|i: int|
                0 <= i < sel.libs.entries@.len() ==> is_known(
                    *past,
                    *new,
                    max_lib_id,
                    (#[trigger] sel.libs.entries@[i]).0,
                ),
            r.libs.wf(),
            r.searchers.wf(),
            rule_views(r.rules@) == chosen_rules(*past, *new, max_lib_id, ids, i as nat),
            forall|id: usize|
                #![trigger source(*past, *new, max_lib_id, id)]
                chosen_for(r, *past, *new, max_lib_id, ids.take(i as int), id),
    {
        let id: usize = sel.libs.entries[i].0;
        let ghost before = r;
        let m: &ExpandMessage<Op, T> = if id < max_lib_id {
            past
        } else {
            new
        };
        assert(is_known(*past, *new, max_lib_id, sel.libs.entries@[i as int].0));
        let rules: &Arc<Vec<LibRule<T>>> = m.rewrites_conditions.get(id).unwrap();
        push_rules(&mut r.rules, &**rules);
        let applier: Arc<Pattern<Op>> = m.appliers.get(id).unwrap().clone();
        let ghost a = applier;
        r.libs.insert(id, applier);
        proof {
            lemma_put(before.libs.entries@, id, a);
        }
        if let Some(searchers) = m.searchers.get(id) {
            if searchers.len() > 0 {
                let ghost s = *searchers;
                r.searchers.insert(id, searchers.clone());
                proof {
                    lemma_put(before.searchers.entries@, id, s);
                }
            }
        }
        proof {
            let old_ids = ids.take(i as int);
            let now = ids.take(i + 1);
            assert(now =~= old_ids.push(id));
            assert forall|k: usize|
                #![trigger source(*past, *new, max_lib_id, k)]
                chosen_for(r, *past, *new, max_lib_id, now, k) by {
                assert(chosen_for(before, *past, *new, max_lib_id, old_ids, k));
                if old_ids.contains(k) {
                    let q = choose|q: int| 0 <= q < old_ids.len() && old_ids[q] == k;
                    assert(now[q] == k);
                }
                if k == id {
                    assert(now[i as int] == id);
                }
                if now.contains(k) && k != id {
                    let q = choose|q: int| 0 <= q < now.len() && now[q] == k;
                    assert(old_ids[q] == k);
                }
            }
        }
    }
    assert(ids.take(n as int) =~= ids);
    r
}

/// What a message knows of a library function after it has taken over what
/// is known of those in `ids`.
pub open spec fn noted<V>(
    before: Seq<(usize, V)>,
    after: Seq<(usize, V)>,
    from: Seq<(usize, V)>,
    taken: bool,
    id: usize,
) -> bool {
    lookup(after, id) == if taken && holds(from, id) {
        lookup(from, id)
    } else {
        lookup(before, id)
    }
}

/// Whether a message has taken over what is known of a library function.
pub open spec fn all_noted<Op, T>(
    before: ExpandMessage<Op, T>,
    after: ExpandMessage<Op, T>,
    from: ExpandMessage<Op, T>,
    taken: bool,
    id: usize,
) -> bool {
    &&& noted(
        before.rewrites_conditions.entries@,
        after.rewrites_conditions.entries@,
        from.rewrites_conditions.entries@,
        taken,
        id,
    )
    &&& noted(
        before.searchers.entries@,
        after.searchers.entries@,
        from.searchers.entries@,
        taken,
        id,
    )
    &&& noted(before.appliers.entries@, after.appliers.entries@, from.appliers.entries@, taken, id)
    &&& noted(
        before.lib_search_results.entries@,
        after.lib_search_results.entries@,
        from.lib_search_results.entries@,
        taken,
        id,
    )
    &&& after.meta_libs@.contains(id) <==> before.meta_libs@.contains(id) || (taken
        && from.meta_libs@.contains(id))
}

proof fn lemma_with_entry<V>(s: Seq<(usize, V)>, id: usize, from: Seq<(usize, V)>, k: usize)
    requires
        crate::id_map::increasing(keys(s)),
    ensures
        noted(s, with_entry(s, id, from), from, k == id, k),
{
    if holds(from, id) {
        lemma_put(s, id, lookup(from, id)->Some_0);
    }
}

/// Notes in a message what is known of the library functions of a selection.
pub fn note_selection<Op, T, N: Number>(
    message: &mut ExpandMessage<Op, T>,
    sel: &LibSel<N>,
    past: &ExpandMessage<Op, T>,
    new: &ExpandMessage<Op, T>,
    max_lib_id: usize,
)
    requires
        old(message).wf(),
        past.wf(),
        new.wf(),
    ensures
        final(message).wf(),
        forall|id: usize|
            #![trigger source(*past, *new, max_lib_id, id)]
            all_noted(
                *old(message),
                *final(message),
                source(*past, *new, max_lib_id, id),
                keys(sel.libs.entries@).contains(id),
                id,
            ),
{
    let ghost start = *message;
    let ghost ids = keys(sel.libs.entries@);
    let n: usize = sel.libs.entries.len();
    for i in 0..n
        invariant
            n == sel.libs.entries@.len() == ids.len(),
            ids == keys(sel.libs.entries@),
            message.wf(),
            past.wf(),
            new.wf(),
            forall|id: usize|
                #![trigger source(*past, *new, max_lib_id, id)]
                all_noted(
                    start,
                    *message,
                    source(*past, *new, max_lib_id, id),
                    ids.take(i as int).contains(id),
                    id,
                ),
    {
        let id: usize = sel.libs.entries[i].0;
        let ghost before = *message;
        let m: &ExpandMessage<Op, T> = if id < max_lib_id {
            past
        } else {
            new
        };
        message.insert_from_messages(id, m);
        proof {
            let old_ids = ids.take(i as int);
            let now = ids.take(i + 1);
            assert(now =~= old_ids.push(id));
            assert forall|k: usize|
                #![trigger source(*past, *new, max_lib_id, k)]
                all_noted(
                    start,
                    *message,
                    source(*past, *new, max_lib_id, k),
                    now.contains(k),
                    k,
                ) by {
                assert(all_noted(
                    start,
                    before,
                    source(*past, *new, max_lib_id, k),
                    old_ids.contains(k),
                    k,
                ));
                lemma_with_entry(
                    before.rewrites_conditions.entries@,
                    id,
                    m.rewrites_conditions.entries@,
                    k,
                );
                lemma_with_entry(before.searchers.entries@, id, m.searchers.entries@, k);
                lemma_with_entry(before.appliers.entries@, id, m.appliers.entries@, k);
                lemma_with_entry(
                    before.lib_search_results.entries@,
                    id,
                    m.lib_search_results.entries@,
                    k,
                );
                lemma_with_number(before.meta_libs@, id, k);
                if old_ids.contains(k) {
                    let q = choose|q: int| 0 <= q < old_ids.len() && old_ids[q] == k;
                    assert(now[q] == k);
                }
                if k == id {
                    assert(now[i as int] == id);
                }
                if now.contains(k) && k != id {
                    let q = choose|q: int| 0 <= q < now.len() && now[q] == k;
                    assert(old_ids[q] == k);
                }
            }
        }
    }
    assert(ids.take(n as int) =~= ids);
}

proof fn lemma_with_number(s: Seq<usize>, id: usize, k: usize)
    ensures
        with_number(s, id).contains(k) <==> s.contains(k) || k == id,
{
    let t = with_number(s, id);
    if !s.contains(id) {
        assert(t[s.len() as int] == id);
        if s.contains(k) {
            let q = choose|q: int| 0 <= q < s.len() && s[q] == k;
            assert(t[q] == k);
        }
    }
}

/// The rules that compete: those of what was learned now, then those of what
/// was learned earlier, each name once.
pub fn competing_rules<Op, T>(new: &ExpandMessage<Op, T>, past: &ExpandMessage<Op, T>) -> (r: Vec<
    Rule,
>)
    ensures
        rule_views(r@) == distinct_rules(
            all_rules(
                new.rewrites_conditions.entries@,
                new.rewrites_conditions.entries@.len(),
            ) + all_rules(
                past.rewrites_conditions.entries@,
                past.rewrites_conditions.entries@.len(),
            ),
        ),
{
    let mut all: Vec<Rule> = new.rules();
    let mut more: Vec<Rule> = past.rules();
    let ghost a = rule_views(all@);
    let ghost b = rule_views(more@);
    all.append(&mut more);
    assert(rule_views(all@) =~= a + b);
    distinct(all)
}

} // verus!
