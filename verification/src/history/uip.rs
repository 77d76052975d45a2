use vstd::prelude::*;
use crate::formula::Formula;
use crate::formula::clause::{Clause, distinct_count, watched_for_len_spec};
use crate::history::{ConflictLearnResult, History};
use crate::history::clause_minimization::{backtrack_of, levels_of, lemma_levels_of_len};
use crate::history::conflict_analysis::{ConflictAnalysis, analyze_conflict_graph, lits_in_range, walk_ready, first_uip_analysis};

verus! {

/// `r` is a first-UIP result for the analysis `a` of `h`: the clause is the minimized first-UIP
/// clause (a sub-list of it keeping its first literal, the only one of the current level), with
/// its backtrack level and LBD.
pub open spec fn uip_result_of(r: ConflictLearnResult, a: ConflictAnalysis, h: History) -> bool {
    match r {
        ConflictLearnResult::Uip { clause, backtrack_level, minimized_literals } => {
            let lits = a.uip_clause_literals@;
            &&& clause@.len() <= lits.len()
            &&& clause@.len() >= 1
            &&& clause@[0] == lits[0]
            &&& (forall|i: int| 0 <= i < clause@.len() ==> lits.contains(#[trigger] clause@[i]))
            &&& (forall|i: int| 1 <= i < clause@.len() ==> h.level_of(#[trigger] clause@[i]) != Some(a.current_level))
            &&& minimized_literals == lits.len() - clause@.len()
            &&& backtrack_level == backtrack_of(levels_of(h, clause@))
            &&& clause.lbd == distinct_count(levels_of(h, clause@))
            &&& clause.lock_count == 0
            &&& !clause.bva_generated
            &&& clause.watched == watched_for_len_spec(clause@.len())
        },
        _ => false,
    }
}

/// The result when nothing can be learnt: the empty clause at level 0.
pub open spec fn is_empty_result(r: ConflictLearnResult) -> bool {
    match r {
        ConflictLearnResult::Uip { clause, backtrack_level, minimized_literals } => {
            &&& clause@.len() == 0
            &&& backtrack_level == 0
            &&& minimized_literals == 0
            &&& clause.lbd == -1
            &&& clause.lock_count == 0
            &&& clause.wf()
        },
        _ => false,
    }
}

/// Learns the minimized first-UIP clause of `analysis`.
pub fn learn_from_analysis(analysis: &ConflictAnalysis, history: &History, formula: &Formula) -> (r: ConflictLearnResult)
    requires
        formula.wf(),
        formula.tracks(history),
        analysis.wf(history, formula.n_vars()),
    ensures
        uip_result_of(r, *analysis, *history),
        r matches ConflictLearnResult::Uip { clause, .. } && clause.wf() && lits_in_range(clause@, formula.n_vars()),
{
    let mut lits: Vec<crate::formula::literal::Literal> = Vec::new();
    for i in 0..analysis.uip_clause_literals.len()
        invariant
            lits@ == analysis.uip_clause_literals@.subrange(0, i as int),
    {
        lits.push(analysis.uip_clause_literals[i]);
        assert(lits@ =~= analysis.uip_clause_literals@.subrange(0, i + 1));
    }
    assert(lits@ =~= analysis.uip_clause_literals@);
    let (minimized_lits, minimized_literals) = history.minimize_clause_literals(formula, lits);
    proof {
        assert forall|i: int| 0 <= i < minimized_lits@.len() implies (#[trigger] minimized_lits@[i]).wf()
            && minimized_lits@[i].var() < formula.n_vars() by {
            let j = choose|j: int| 0 <= j < analysis.uip_clause_literals@.len() && analysis.uip_clause_literals@[j] == minimized_lits@[i];
            assert(analysis.uip_clause_literals@[j].wf());
        }
    }
    proof {
        assert forall|i: int| 1 <= i < minimized_lits@.len() implies
            history.level_of(#[trigger] minimized_lits@[i]) != Some(analysis.current_level) by {
            let tail = lits@.subrange(1, lits@.len() as int);
            assert(tail.contains(minimized_lits@[i]));
            let k = choose|k: int| 0 <= k < tail.len() && tail[k] == minimized_lits@[i];
            assert(analysis.uip_clause_literals@[k + 1] == minimized_lits@[i]);
        }
    }
    let (backtrack_level, lbd) = history.clause_levels(minimized_lits.as_slice());
    let clause = Clause::from_literals(minimized_lits, lbd);
    ConflictLearnResult::Uip { clause, backtrack_level, minimized_literals }
}

/// The empty clause at level 0, learnt when there is nothing to analyse.
pub fn empty_result() -> (r: ConflictLearnResult)
    ensures
        is_empty_result(r),
{
    ConflictLearnResult::Uip { clause: Clause::new(), backtrack_level: 0, minimized_literals: 0 }
}

/// First-UIP conflict analysis of the clause `conflict_clause_index`.
pub fn find_1uip(history: &History, formula: &Formula, conflict_clause_index: usize) -> (r: ConflictLearnResult)
    requires
        formula.wf(),
        formula.tracks(history),
        conflict_clause_index < formula.clauses@.len(),
    ensures
        history.level_spec() == 0 ==> is_empty_result(r),
        history.level_spec() > 0 && walk_ready(*history, *formula, conflict_clause_index as int) ==> !is_empty_result(r),
        is_empty_result(r) || exists|a: ConflictAnalysis| a.wf(history, formula.n_vars()) && #[trigger] uip_result_of(r, a, *history)
            && (walk_ready(*history, *formula, conflict_clause_index as int)
                ==> first_uip_analysis(*history, *formula, conflict_clause_index as int, a.first_uip_pos as int, a.uip_clause_literals@)),
        r matches ConflictLearnResult::Uip { clause, .. } && clause.wf() && lits_in_range(clause@, formula.n_vars()),
{
    match analyze_conflict_graph(history, formula, conflict_clause_index) {
        Some(analysis) => learn_from_analysis(&analysis, history, formula),
        None => empty_result(),
    }
}


impl History {
    /// Learns from the conflict at clause `conflict_clause_index` at the given implication point.
    pub fn analyze_conflict(&self, formula: &Formula, conflict_clause_index: usize, implication_point: crate::history::ImplicationPoint)
        -> (r: ConflictLearnResult)
        requires
            formula.wf(),
            formula.tracks(self),
            conflict_clause_index < formula.clauses@.len(),
        ensures
            self.level_spec() == 0 ==> is_empty_result(r),
            self.level_spec() > 0 && walk_ready(*self, *formula, conflict_clause_index as int) ==> !is_empty_result(r),
            implication_point == crate::history::ImplicationPoint::UIP ==> r is Uip,
            is_empty_result(r) || exists|a: ConflictAnalysis| #[trigger] a.wf(self, formula.n_vars())
                && (uip_result_of(r, a, *self) || crate::history::dip::dip_result_of(r, a, *self, formula.n_vars()))
                && (walk_ready(*self, *formula, conflict_clause_index as int)
                    ==> first_uip_analysis(*self, *formula, conflict_clause_index as int, a.first_uip_pos as int, a.uip_clause_literals@)),
            r matches ConflictLearnResult::Uip { clause, .. } ==> clause.wf() && lits_in_range(clause@, formula.n_vars()),
            r matches ConflictLearnResult::Dip { dip_a, dip_b, pre_clause_without_z, post_clause_without_z, .. } ==> {
                &&& dip_a.wf() && dip_a.var() < formula.n_vars()
                &&& dip_b.wf() && dip_b.var() < formula.n_vars()
                &&& lits_in_range(pre_clause_without_z@, formula.n_vars())
                &&& lits_in_range(post_clause_without_z@, formula.n_vars())
            },
    {
        match implication_point {
            crate::history::ImplicationPoint::UIP => {
                let r = find_1uip(self, formula, conflict_clause_index);
                proof {
                    if !is_empty_result(r) {
                        let a = choose|a: ConflictAnalysis| a.wf(self, formula.n_vars()) && #[trigger] uip_result_of(r, a, *self)
                            && (walk_ready(*self, *formula, conflict_clause_index as int)
                                ==> first_uip_analysis(*self, *formula, conflict_clause_index as int, a.first_uip_pos as int, a.uip_clause_literals@));
                        assert(a.wf(self, formula.n_vars()));
                    }
                }
                r
            },
            crate::history::ImplicationPoint::DIP => crate::history::dip::find_dip(self, formula, conflict_clause_index),
        }
    }
}

} // verus!
