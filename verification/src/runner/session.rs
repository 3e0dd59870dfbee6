//! The course of a run: what is done after what.
//!
//! The caller keeps the e-graphs and does the work on them that needs rules
//! or a solver: a [`Session`] says what comes next, and takes in what came of
//! it.
use crate::assoc::SiteMap;
use crate::ast_node::Duplicate;
use crate::bb_query::{BBInfo, BBQuery};
use crate::egraph::EGraph;
use crate::expand::{
    collect_messages, message_of, next_id, rule_views, ExpandMessage, LearnMessage, Rule,
};
use crate::extract::beam_pareto::{known, ClassMatch, ISAXAnalysis, ISAXCost, TypeInfo};
use crate::extract::cost_set::sel_views;
use crate::extract::lambda::{eliminate_lambda, eliminated, under_lambda};
use crate::extract::lib_sel::LibSel;
use crate::id_map::{holds, keys, IdMap};
use crate::number::Number;
use crate::perf_infer::{class_tagged, inferred, perf_infer};
use crate::rec_expr::RecExpr;
use crate::runner::exact_latency::{
    exact_latencies, latency_known, nodes_of_classes, sites_fit,
};
use crate::runner::operation::OperationInfo;
use crate::runner::pareto::{
    class_typed, conclude, fill_result_types, learn_from, summarize, ExtractResult, LearnFrom,
    ParetoResult,
};
use crate::runner::recalculate::{all_recalculated, recalculate_all_data, same_nodes};
use crate::runner::selection::{
    all_noted, choose_selection, chosen_for, chosen_rules, competing_rules, is_known,
    note_selection, source, Chosen,
};
use crate::schedule::{lib_area, shares, Schedulable, Scheduler};
use crate::teachable::Teachable;
use std::sync::Arc;
use vstd::prelude::*;
use vstd::std_specs::cmp::PartialEqSpec;

verus! {

/// What comes next in a run.
#[derive(Clone, Copy, Debug, PartialEq, Eq, Structural)]
pub enum Stage {
    /// Apply the rules of the language.
    ApplyRules,
    /// Add what was learned earlier to a copy of the e-graph.
    AddPast,
    /// Look for vectors.
    Vectorize,
    /// Learn library functions.
    Learn(LearnFrom),
    /// Apply the rules of all library functions, old and new.
    Compete,
    /// Apply the rules of one selection.
    Try(usize),
    /// Extract the cheapest expression of one selection.
    Solve(usize),
    /// Draw up the result.
    Done,
}

/// Whether `after` is `before` with the types of the classes on its nodes.
pub open spec fn graph_typed<Op: OperationInfo<N>, N: Number, D: ClassMatch>(
    before: EGraph<Op, D>,
    after: EGraph<Op, D>,
) -> bool {
    &&& after.slots@ == before.slots@
    &&& after.classes@.len() == before.classes@.len()
    &&& forall|k: int|
        0 <= k < before.classes@.len() ==> class_typed::<Op, N, D>(
            before.classes@[k],
            #[trigger] after.classes@[k],
        )
}

/// Whether `after` is `before` with the basic blocks that the roots hand
/// down.
pub open spec fn graph_tagged<Op: BBInfo, N: Number, T>(
    before: EGraph<Op, ISAXCost<N, T>>,
    roots: Seq<usize>,
    after: EGraph<Op, ISAXCost<N, T>>,
) -> bool {
    &&& after.slots == before.slots
    &&& after.classes@.len() == before.classes@.len()
    &&& forall|k: int|
        0 <= k < before.classes@.len() ==> ({
            let class = before.classes@[k];
            match inferred(before, roots)[class.id as int] {
                Some(bbs) => class_tagged(class, #[trigger] after.classes@[k], bbs),
                None => after.classes@[k] == class,
            }
        })
}

/// Whether `after` is `before` with variables in place of what has or stands
/// below a lambda.
pub open spec fn graph_without_lambda<Op, N, D>(
    before: EGraph<Op, D>,
    after: EGraph<Op, D>,
) -> bool where Op: OperationInfo<N> + Teachable<N>, N: Number {
    &&& after.slots@ == before.slots@
    &&& after.classes@.len() == before.classes@.len()
    &&& forall|k: int|
        0 <= k < after.classes@.len() ==> {
            let (a, b) = (before.classes@[k], #[trigger] after.classes@[k]);
            &&& b.id == a.id
            &&& b.data == a.data
            &&& b.nodes@.len() == a.nodes@.len()
            &&& forall|n: int|
                0 <= n < b.nodes@.len() ==> if under_lambda::<Op, N, D>(before, k) {
                    eliminated::<Op, N>(a.nodes@[n]@, (#[trigger] b.nodes@[n])@, a.id)
                } else {
                    b.nodes@[n]@ == a.nodes@[n]@
                }
        }
}

/// A run in progress.
#[derive(Debug)]
pub struct Session<Op, T, N: Number> {
    pub stage: Stage,
    /// Whether vectors are looked for.
    pub vectorize: bool,
    /// Whether packs of operations are looked for.
    pub enable_meta_au: bool,
    /// The identifier of the first new library function.
    pub max_lib_id: usize,
    /// What was learned in this run.
    pub learned: ExpandMessage<Op, T>,
    /// The selections that are tried.
    pub selections: Vec<LibSel<N>>,
    /// What is known of the library functions that were tried.
    pub message: ExpandMessage<Op, T>,
    /// The rules that were tried.
    pub rules: Vec<Rule>,
    /// The library functions of the selection that is tried.
    pub chosen: Chosen<Op>,
    pub results: Vec<ExtractResult<Op, N>>,
}

/// The stage in which the selection `i` is tried, or the end where there is
/// none.
pub open spec fn trying(i: int, selections: nat) -> Stage {
    if i < selections {
        Stage::Try(i as usize)
    } else {
        Stage::Done
    }
}

impl<Op, T, N: Number> Session<Op, T, N> {
    /// Whether what is known of library functions is in order, and there is a
    /// result for every selection that was tried.
    pub open spec fn wf(&self) -> bool {
        &&& match self.stage {
            Stage::Try(i) => i < self.selections@.len() && self.results@.len() == i,
            Stage::Solve(i) => i < self.selections@.len() && self.results@.len() == i,
            Stage::Done => self.results@.len() == self.selections@.len(),
            _ => self.results@.len() == 0 && self.selections@.len() == 0,
        }
        &&& self.learned.wf()
        &&& self.message.wf()
        &&& self.chosen.libs.wf()
        &&& self.chosen.searchers.wf()
    }

    /// Whether everything but the stage is the same.
    pub open spec fn only_stage(&self, other: &Self) -> bool {
        *self == (Session { stage: self.stage, ..*other })
    }

    /// Begins a run after which was learned what `past` knows.
    pub fn begin(past: &ExpandMessage<Op, T>, vectorize: bool, enable_meta_au: bool) -> (r: Self)
        requires
            past.wf(),
            !holds(past.appliers.entries@, usize::MAX),
        ensures
            r.wf(),
            r.stage == Stage::ApplyRules,
            r.vectorize == vectorize,
            r.enable_meta_au == enable_meta_au,
            r.max_lib_id == next_id(past.appliers.entries@),
            r.selections@.len() == 0,
            r.rules@.len() == 0,
            r.results@.len() == 0,
            r.message.knows_nothing(),
            r.learned.knows_nothing(),
            r.chosen.rules@.len() == 0,
            r.chosen.libs.entries@.len() == 0,
            r.chosen.searchers.entries@.len() == 0,
    {
        Session {
            stage: Stage::ApplyRules,
            vectorize,
            enable_meta_au,
            max_lib_id: past.next_lib_id(),
            learned: ExpandMessage::default(),
            selections: Vec::new(),
            message: ExpandMessage::default(),
            rules: Vec::new(),
            chosen: Chosen { rules: Vec::new(), libs: IdMap::new(), searchers: IdMap::new() },
            results: Vec::new(),
        }
    }

    /// Takes in the e-graph to which the rules of the language were applied:
    /// its nodes get the types of their classes and the basic blocks of the
    /// root.
    pub fn rules_applied(&mut self, egraph: &mut EGraph<Op, ISAXCost<N, T>>, root: usize) where
        Op: OperationInfo<N> + BBInfo,
        ISAXCost<N, T>: ClassMatch,

        requires
            old(self).wf(),
            old(self).stage == Stage::ApplyRules,
            old(egraph).wf(),
            root < old(egraph).slots@.len(),
        ensures
            final(self).wf(),
            final(self).stage == Stage::AddPast,
            final(self).only_stage(old(self)),
            final(egraph).wf(),
            exists|g: EGraph<Op, ISAXCost<N, T>>| #[trigger]
                graph_typed::<Op, N, ISAXCost<N, T>>(*old(egraph), g) && graph_tagged(
                    g,
                    seq![root],
                    *final(egraph),
                ),
    {
        fill_result_types::<Op, N, ISAXCost<N, T>>(egraph);
        let ghost middle = *egraph;
        let mut roots: Vec<usize> = Vec::new();
        roots.push(root);
        assert(roots@ =~= seq![root]);
        perf_infer(egraph, &roots);
        assert(graph_typed::<Op, N, ISAXCost<N, T>>(*old(egraph), middle));
        assert(graph_tagged(middle, seq![root], *egraph));
        self.stage = Stage::AddPast;
    }

    /// Takes in the copy of the e-graph to which what was learned earlier was
    /// added: its nodes get the basic blocks of the roots.
    pub fn past_added(&mut self, egraph: &mut EGraph<Op, ISAXCost<N, T>>, roots: &Vec<usize>) where
        Op: BBInfo,

        requires
            old(self).wf(),
            old(self).stage == Stage::AddPast,
            old(egraph).wf(),
            forall|i: int|
                0 <= i < roots@.len() ==> (#[trigger] roots@[i]) < old(egraph).slots@.len(),
        ensures
            final(self).wf(),
            final(self).stage == if old(self).vectorize {
                Stage::Vectorize
            } else if old(self).enable_meta_au {
                Stage::Learn(LearnFrom::Packs)
            } else {
                Stage::Learn(LearnFrom::Expressions)
            },
            final(self).only_stage(old(self)),
            final(egraph).wf(),
            graph_tagged(*old(egraph), roots@, *final(egraph)),
    {
        perf_infer(egraph, roots);
        self.stage = if self.vectorize {
            Stage::Vectorize
        } else {
            Stage::Learn(learn_from(self.vectorize, self.enable_meta_au))
        };
    }

    /// Takes in the library functions that vectors stand for. They are used
    /// unless packs of operations are looked for.
    pub fn vectorized(&mut self, learned: Vec<LearnMessage<Op, T>>)
        requires
            old(self).wf(),
            old(self).stage == Stage::Vectorize,
        ensures
            final(self).wf(),
            if old(self).enable_meta_au {
                final(self).stage == Stage::Learn(LearnFrom::Packs) && final(self).only_stage(
                    old(self),
                )
            } else {
                &&& final(self).stage == Stage::Compete
                &&& message_of(final(self).learned, learned@)
                &&& *final(self) == (Session {
                    stage: Stage::Compete,
                    learned: final(self).learned,
                    ..*old(self)
                })
            },
    {
        if self.enable_meta_au {
            self.stage = Stage::Learn(LearnFrom::Packs);
        } else {
            self.learned = collect_messages(learned);
            self.stage = Stage::Compete;
        }
    }

    /// Takes in the library functions that expressions have in common.
    pub fn found(&mut self, learned: Vec<LearnMessage<Op, T>>)
        requires
            old(self).wf(),
            old(self).stage == Stage::Learn(LearnFrom::Expressions),
        ensures
            final(self).wf(),
            message_of(final(self).learned, learned@),
            *final(self) == (Session {
                stage: Stage::Compete,
                learned: final(self).learned,
                ..*old(self)
            }),
    {
        self.learned = collect_messages(learned);
        self.stage = Stage::Compete;
    }

    /// Takes in the packs of operations that were found.
    pub fn expanded(&mut self, message: ExpandMessage<Op, T>)
        requires
            old(self).wf(),
            old(self).stage == Stage::Learn(LearnFrom::Packs),
            message.wf(),
        ensures
            final(self).wf(),
            *final(self) == (Session { stage: Stage::Compete, learned: message, ..*old(self) }),
    {
        self.learned = message;
        self.stage = Stage::Compete;
    }

    /// The rules that compete, each name once.
    pub fn competing(&self, past: &ExpandMessage<Op, T>) -> (r: Vec<Rule>)
        ensures
            call_ensures(competing_rules::<Op, T>, (&self.learned, past), r),
    {
        competing_rules(&self.learned, past)
    }

    /// Takes in the e-graph to which the competing rules were applied: its
    /// nodes get the basic blocks of the root, what is known of its classes is
    /// computed anew, and the selections of the root are those to try.
    pub fn competed(
        &mut self,
        analysis: &ISAXAnalysis<N>,
        egraph: &mut EGraph<Op, ISAXCost<N, T>>,
        root: usize,
    ) where
        Op: OperationInfo<N> + Teachable<N> + TypeInfo<T> + BBInfo + Duplicate,
        T: Duplicate + PartialEq,

        requires
            old(self).wf(),
            old(self).stage == Stage::Compete,
            analysis.wf(),
            T::obeys_eq_spec(),
            old(egraph).wf(),
            root < old(egraph).slots@.len(),
            forall|k: int|
                0 <= k < old(egraph).classes@.len() ==> (#[trigger] old(
                    egraph,
                ).classes@[k]).nodes@.len() > 0,
            forall|g: EGraph<Op, ISAXCost<N, T>>| #[trigger]
                graph_tagged(*old(egraph), seq![root], g) ==> all_recalculated::<Op, N, T>(
                    *analysis,
                    g,
                    root,
                ).fits,
        ensures
            final(self).wf(),
            final(self).stage == trying(0, final(self).selections@.len()),
            *final(self) == (Session {
                stage: final(self).stage,
                selections: final(self).selections,
                ..*old(self)
            }),
            final(egraph).wf(),
            exists|g: EGraph<Op, ISAXCost<N, T>>| #[trigger]
                graph_tagged(*old(egraph), seq![root], g) && same_nodes(g, *final(egraph)) && known(
                    *final(egraph),
                ) == all_recalculated::<Op, N, T>(*analysis, g, root).known,
            sel_views(final(self).selections@) == final(egraph).class(root).data@.cs,
    {
        let mut roots: Vec<usize> = Vec::new();
        roots.push(root);
        assert(roots@ =~= seq![root]);
        perf_infer(egraph, &roots);
        let ghost middle = *egraph;
        proof {
            assert(graph_tagged(*old(egraph), seq![root], middle));
            assert forall|k: int| 0 <= k < middle.classes@.len() implies (
            #[trigger] middle.classes@[k]).nodes@.len() > 0 by {
                assert(old(egraph).classes@[k].nodes@.len() > 0);
            }
        }
        recalculate_all_data(analysis, egraph, root);
        self.selections = egraph.get(root).data.cs.duplicate().set;
        self.stage = if self.selections.len() > 0 {
            Stage::Try(0)
        } else {
            Stage::Done
        };
    }

    /// The rules of the selection that is tried next.
    pub fn try_rules(&mut self, past: &ExpandMessage<Op, T>) -> (r: Vec<Rule>)
        requires
            old(self).wf(),
            past.wf(),
            old(self).stage is Try,
            ({
                let libs = old(self).selections@[old(self).stage->Try_0 as int].libs.entries@;
                forall|i: int|
                    0 <= i < libs.len() ==> is_known(
                        *past,
                        old(self).learned,
                        old(self).max_lib_id,
                        (#[trigger] libs[i]).0,
                    )
            }),
        ensures
            final(self).wf(),
            final(self).stage == Stage::Solve(old(self).stage->Try_0),
            *final(self) == (Session {
                stage: final(self).stage,
                message: final(self).message,
                rules: final(self).rules,
                chosen: final(self).chosen,
                ..*old(self)
            }),
            ({
                let ids = keys(
                    old(self).selections@[old(self).stage->Try_0 as int].libs.entries@,
                );
                let (new, max) = (old(self).learned, old(self).max_lib_id);
                &&& rule_views(r@) == chosen_rules(*past, new, max, ids, ids.len())
                &&& rule_views(final(self).rules@) == rule_views(old(self).rules@) + rule_views(r@)
                &&& forall|id: usize|
                    #![trigger source(*past, new, max, id)]
                    chosen_for(final(self).chosen, *past, new, max, ids, id)
                &&& forall|id: usize|
                    #![trigger source(*past, new, max, id)]
                    all_noted(
                        old(self).message,
                        final(self).message,
                        source(*past, new, max, id),
                        ids.contains(id),
                        id,
                    )
            }),
    {
        let i: usize = match self.stage {
            Stage::Try(i) => i,
            _ => 0,
        };
        let ghost before = rule_views(self.rules@);
        let chosen: Chosen<Op> = choose_selection(
            &self.selections[i],
            past,
            &self.learned,
            self.max_lib_id,
        );
        note_selection(
            &mut self.message,
            &self.selections[i],
            past,
            &self.learned,
            self.max_lib_id,
        );
        let mut r: Vec<Rule> = Vec::new();
        let n: usize = chosen.rules.len();
        let ghost all = rule_views(chosen.rules@);
        assert(before + all.take(0) =~= before);
        assert(rule_views(r@) =~= all.take(0));
        let ghost old_rules = self.rules@;
        let mut rules: Vec<Rule> = Vec::new();
        let m: usize = self.rules.len();
        assert(rule_views(rules@) =~= before.take(0));
        for k in 0..m
            invariant
                m == self.rules@.len(),
                before == rule_views(self.rules@),
                rule_views(rules@) == before.take(k as int),
        {
            let ghost done = rule_views(rules@);
            rules.push(self.rules[k].duplicate());
            assert(rule_views(rules@) =~= done.push(before[k as int]));
            assert(rule_views(rules@) =~= before.take(k + 1));
        }
        assert(before.take(m as int) =~= before);
        for k in 0..n
            invariant
                n == chosen.rules@.len(),
                all == rule_views(chosen.rules@),
                rule_views(r@) == all.take(k as int),
                rule_views(rules@) == before + all.take(k as int),
        {
            let ghost a = rule_views(r@);
            let ghost b = rule_views(rules@);
            r.push(chosen.rules[k].duplicate());
            rules.push(chosen.rules[k].duplicate());
            assert(rule_views(r@) =~= a.push(all[k as int]));
            assert(rule_views(r@) =~= all.take(k + 1));
            assert(rule_views(rules@) =~= b.push(all[k as int]));
            assert(rule_views(rules@) =~= before + all.take(k + 1));
        }
        assert(all.take(n as int) =~= all);
        self.rules = rules;
        self.chosen = chosen;
        self.stage = Stage::Solve(i);
        r
    }

    /// Takes in the e-graph to which the rules of a selection were applied:
    /// its nodes get the basic blocks of the root. Gives the latencies of the
    /// library functions at their sites, and the e-graph to extract from.
    pub fn tried<LA, LD>(
        &self,
        egraph: EGraph<Op, ISAXCost<N, T>>,
        root: usize,
        scheduler: &Scheduler<N, LA, LD>,
    ) -> (r: (SiteMap<N>, EGraph<Op, ISAXCost<N, T>>)) where
        Op: Schedulable<N, LA, LD> + OperationInfo<N> + Teachable<N> + BBInfo + Duplicate,

        requires
            self.wf(),
            self.stage is Solve,
            egraph.wf(),
            root < egraph.slots@.len(),
            scheduler.bb_query.wf(),
            forall|g: EGraph<Op, ISAXCost<N, T>>| #[trigger]
                graph_tagged(egraph, seq![root], g) ==> sites_fit(
                    scheduler@,
                    self.chosen.searchers.entries@,
                    g,
                ),
        ensures
            r.0.wf(),
            r.1.wf(),
            exists|g: EGraph<Op, ISAXCost<N, T>>| #[trigger]
                graph_tagged(egraph, seq![root], g) && graph_without_lambda::<
                    Op,
                    N,
                    ISAXCost<N, T>,
                >(g, r.1) && forall|site: (usize, Seq<Seq<char>>)| #[trigger]
                    latency_known(
                        r.0@,
                        scheduler@,
                        self.chosen.searchers.entries@,
                        nodes_of_classes(g, g.classes@.len()),
                        site,
                    ),
    {
        let ghost given = egraph;
        let mut egraph = egraph;
        let mut roots: Vec<usize> = Vec::new();
        roots.push(root);
        assert(roots@ =~= seq![root]);
        perf_infer(&mut egraph, &roots);
        let ghost middle = egraph;
        assert(graph_tagged(given, seq![root], middle));
        let exact: SiteMap<N> = exact_latencies(&egraph, &self.chosen.searchers, scheduler);
        let bare: EGraph<Op, ISAXCost<N, T>> = eliminate_lambda::<Op, N, ISAXCost<N, T>>(egraph);
        assert(graph_without_lambda::<Op, N, ISAXCost<N, T>>(middle, bare));
        (exact, bare)
    }

    /// Takes in the cheapest expression of a selection.
    pub fn solved<LA, LD>(
        &mut self,
        best: RecExpr<Op>,
        exact: &SiteMap<N>,
        bb_query: &BBQuery<N>,
    ) where Op: Schedulable<N, LA, LD> + OperationInfo<N> + Teachable<N>
        requires
            old(self).wf(),
            old(self).stage is Solve,
            exact.wf(),
            bb_query.wf(),
            lib_area(
                shares::<Op, N, LA, LD>(best@, bb_query@, exact@),
                best@.len(),
            ) <= usize::MAX,
        ensures
            final(self).wf(),
            final(self).stage == trying(
                old(self).stage->Solve_0 + 1,
                old(self).selections@.len(),
            ),
            final(self).results@.len() == old(self).results@.len() + 1,
            final(self).results@.drop_last() == old(self).results@,
            call_ensures(
                conclude::<Op, N, LA, LD>,
                (best, old(self).chosen.libs, exact, bb_query),
                final(self).results@.last(),
            ),
            *final(self) == (Session {
                stage: final(self).stage,
                chosen: final(self).chosen,
                results: final(self).results,
                ..*old(self)
            }),
            final(self).chosen.rules == old(self).chosen.rules,
            final(self).chosen.searchers == old(self).chosen.searchers,
            final(self).chosen.libs.entries@.len() == 0,
    {
        let i: usize = match self.stage {
            Stage::Solve(i) => i,
            _ => 0,
        };
        let mut libs: IdMap<Arc<crate::expand::Pattern<Op>>> = IdMap::new();
        std::mem::swap(&mut libs, &mut self.chosen.libs);
        let ghost before = self.results@;
        let result: ExtractResult<Op, N> = conclude::<Op, N, LA, LD>(best, libs, exact, bb_query);
        self.results.push(result);
        assert(self.results@.drop_last() =~= before);
        let n: usize = self.selections.len();
        self.stage = if i + 1 < n {
            Stage::Try(i + 1)
        } else {
            Stage::Done
        };
    }

    /// Draws up the result. The e-graph with vectors is there exactly where
    /// vectors were looked for.
    pub fn finish(
        self,
        vectorized_egraph_with_root: Option<(EGraph<Op, ISAXCost<N, T>>, usize)>,
        run_time: u64,
        egraph_size: (usize, usize),
    ) -> (r: ParetoResult<Op, T, N, ISAXCost<N, T>>)
        requires
            self.wf(),
            self.stage == Stage::Done,
            self.vectorize == vectorized_egraph_with_root.is_some(),
        ensures
            self.vectorize == r.vectorized_egraph_with_root.is_some(),
            r.extract_results@.len() == self.selections@.len(),
            call_ensures(
                summarize::<Op, T, N, ISAXCost<N, T>>,
                (
                    self.results,
                    self.message,
                    self.rules,
                    vectorized_egraph_with_root,
                    run_time,
                    egraph_size,
                ),
                r,
            ),
    {
        summarize(
            self.results,
            self.message,
            self.rules,
            vectorized_egraph_with_root,
            run_time,
            egraph_size,
        )
    }
}

} // verus!
