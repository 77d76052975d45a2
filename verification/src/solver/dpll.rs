use vstd::prelude::*;
use crate::formula::Formula;
use crate::formula::propagation::extends;
use crate::formula::database::same_but_lock;
use crate::formula::literal::Literal;
use crate::formula::clause::{clause_unit, clause_falsified, clause_sat};
use crate::formula::simplify::{pure_literal, satisfiable_from, is_model};
use crate::formula::literal::{valid_lit_value, var_of};
use crate::history::History;
use crate::history::decision_level::DecisionLevel;

verus! {

/// What a DPLL step found.
pub enum DpllStep {
    /// Every clause is satisfied by the stored values, which are returned.
    Sat(Vec<bool>),
    /// Every branch failed.
    Unsat,
    /// The search goes on.
    Continue,
}

/// Unit propagation and pure-literal elimination until neither assigns anything.
pub fn propagate(formula: &mut Formula, history: &mut History)
    requires
        old(formula).wf(),
        old(formula).tracks(old(history)),
    ensures
        final(formula).wf(),
        final(formula).tracks(final(history)),
        final(history).decision_levels@.len() == old(history).decision_levels@.len(),
        forall|c: int| 0 <= c < final(formula).clauses@.len() ==> !clause_unit(#[trigger] final(formula).clauses@[c]@, final(formula).assignment@),
        forall|x: int| valid_lit_value(x) && var_of(x) < final(formula).n_vars() ==> !#[trigger] pure_literal(final(formula).clauses@, final(formula).assignment@, x),
        final(formula).clauses@.len() == old(formula).clauses@.len(),
        forall|i: int| 0 <= i < old(formula).clauses@.len() ==> (#[trigger] final(formula).clauses@[i])@ == old(formula).clauses@[i]@,
        extends(final(formula).assignment@, old(formula).assignment@),
        satisfiable_from(old(formula).clauses@, old(formula).assignment@)
            ==> satisfiable_from(final(formula).clauses@, final(formula).assignment@),
{
    loop
        invariant
            formula.wf(),
            formula.tracks(history),
            history.decision_levels@.len() == old(history).decision_levels@.len(),
            formula.clauses@.len() == old(formula).clauses@.len(),
            forall|i: int| 0 <= i < old(formula).clauses@.len() ==> (#[trigger] formula.clauses@[i])@ == old(formula).clauses@[i]@,
            extends(formula.assignment@, old(formula).assignment@),
            satisfiable_from(old(formula).clauses@, old(formula).assignment@)
                ==> satisfiable_from(formula.clauses@, formula.assignment@),
        ensures
            forall|c: int| 0 <= c < formula.clauses@.len() ==> !clause_unit(#[trigger] formula.clauses@[c]@, formula.assignment@),
            forall|x: int| valid_lit_value(x) && var_of(x) < formula.n_vars() ==> !#[trigger] pure_literal(formula.clauses@, formula.assignment@, x),
        decreases crate::formula::propagation::count_none(formula.assignment@),
    {
        let ghost before = formula.assignment@;
        let ghost bf = *formula;
        let units = formula.unit_propagate(Some(&mut *history));
        let ghost mid = formula.assignment@;
        let ghost mf = *formula;
        let pures = formula.pure_literals_propagate(Some(&mut *history));
        proof {
            assert forall|i: int| 0 <= i < old(formula).clauses@.len() implies (#[trigger] formula.clauses@[i])@ == old(formula).clauses@[i]@ by {
                assert(formula.clauses@[i]@ == mf.clauses@[i]@);
                assert(mf.clauses@[i]@ == bf.clauses@[i]@);
            }
            assert forall|v: int| 0 <= v < old(formula).assignment@.len() && #[trigger] old(formula).assignment@[v] is Some
                implies formula.assignment@[v] == old(formula).assignment@[v] by {
                assert(bf.assignment@[v] == old(formula).assignment@[v]);
                assert(mf.assignment@[v] == bf.assignment@[v]);
            }
        }
        if !units && !pures {
            break;
        }
        proof {
            lemma_extends_count(mid, before);
            lemma_extends_count(formula.assignment@, mid);
            if units {
                lemma_extends_count_strict(mid, before);
            } else {
                lemma_extends_count_strict(formula.assignment@, mid);
            }
        }
    }
}

/// Extending an assignment leaves no more unassigned variables.
pub proof fn lemma_extends_count(new: Seq<Option<bool>>, old: Seq<Option<bool>>)
    requires
        crate::formula::propagation::extends(new, old),
    ensures
        crate::formula::propagation::count_none(new) <= crate::formula::propagation::count_none(old),
    decreases old.len(),
{
    if old.len() > 0 {
        assert forall|v: int| 0 <= v < old.drop_last().len() && #[trigger] old.drop_last()[v] is Some implies
            new.drop_last()[v] == old.drop_last()[v] by {
            assert(old[v] is Some);
        }
        lemma_extends_count(new.drop_last(), old.drop_last());
        if old.last() is Some {
            assert(old[old.len() - 1] is Some);
        }
    }
}

/// Extending an assignment by at least one variable leaves fewer unassigned variables.
pub proof fn lemma_extends_count_strict(new: Seq<Option<bool>>, old: Seq<Option<bool>>)
    requires
        crate::formula::propagation::extends(new, old),
        new != old,
    ensures
        crate::formula::propagation::count_none(new) < crate::formula::propagation::count_none(old),
    decreases old.len(),
{
    if old.len() > 0 {
        assert forall|v: int| 0 <= v < old.drop_last().len() && #[trigger] old.drop_last()[v] is Some implies
            new.drop_last()[v] == old.drop_last()[v] by {
            assert(old[v] is Some);
        }
        if old.last() is Some {
            assert(old[old.len() - 1] is Some);
        }
        if new.drop_last() == old.drop_last() {
            assert(new.last() != old.last()) by {
                if new.last() == old.last() {
                    assert forall|i: int| 0 <= i < new.len() implies new[i] == old[i] by {
                        if i < new.len() - 1 {
                            assert(new.drop_last()[i] == old.drop_last()[i]);
                        }
                    }
                    assert(new =~= old);
                }
            }
            lemma_extends_count(new.drop_last(), old.drop_last());
        } else {
            lemma_extends_count_strict(new.drop_last(), old.drop_last());
        }
    } else {
        assert(new =~= old);
    }
}

/// The level was opened by a negative decision.
pub open spec fn negative_decision(l: DecisionLevel) -> bool {
    l.decision_literal matches Some(e) && e.neg_spec()
}

/// The level was opened by a positive decision.
pub open spec fn positive_decision(l: DecisionLevel) -> bool {
    l.decision_literal matches Some(e) && e@ > 0
}

/// `before` was opened by a positive decision and `after` by its negation.
pub open spec fn flipped_decision(before: DecisionLevel, after: DecisionLevel) -> bool {
    &&& before.decision_literal matches Some(d)
    &&& !d.neg_spec()
    &&& after.decision_literal matches Some(f)
    &&& f@ == -d@
}

/// Undoes decisions from the latest down to the last positive one, which it replaces by its
/// negation; `false` when no positive decision is left.
pub fn backtrack(formula: &mut Formula, history: &mut History) -> (r: bool)
    requires
        old(formula).wf(),
        old(formula).tracks(old(history)),
    ensures
        final(formula).wf(),
        final(formula).tracks(final(history)),
        final(formula).clauses@.len() == old(formula).clauses@.len(),
        r ==> final(history).decision_levels@.len() <= old(history).decision_levels@.len(),
        r ==> (final(history).decision_levels@.last().decision_literal matches Some(d) && d.neg_spec()),
        r ==> exists|k: int| 1 <= k < old(history).decision_levels@.len()
            && final(history).decision_levels@.len() == k + 1
            && final(history).decision_levels@.subrange(0, k) == old(history).decision_levels@.subrange(0, k)
            && flipped_decision(#[trigger] old(history).decision_levels@[k], final(history).decision_levels@[k])
            && forall|j: int| k < j < old(history).decision_levels@.len() ==>
                negative_decision(#[trigger] old(history).decision_levels@[j]),
        !r ==> final(history).decision_levels@.len() == 1 || final(history).decision_levels@.last().decision_literal is None,
        !r ==> forall|j: int| final(history).decision_levels@.len() <= j < old(history).decision_levels@.len() ==>
            negative_decision(#[trigger] old(history).decision_levels@[j]),
        !r ==> extends(old(formula).assignment@, final(formula).assignment@),
        forall|i: int| 0 <= i < old(formula).clauses@.len() ==> (#[trigger] final(formula).clauses@[i])@ == old(formula).clauses@[i]@,
{
    loop
        invariant
            formula.wf(),
            formula.tracks(history),
            formula.clauses@.len() == old(formula).clauses@.len(),
            history.decision_levels@.len() <= old(history).decision_levels@.len(),
            history.decision_levels@.len() >= 1,
            history.decision_levels@ == old(history).decision_levels@.subrange(0, history.decision_levels@.len() as int),
            forall|j: int| history.decision_levels@.len() <= j < old(history).decision_levels@.len() ==>
                negative_decision(#[trigger] old(history).decision_levels@[j]),
            extends(old(formula).assignment@, formula.assignment@),
            forall|i: int| 0 <= i < old(formula).clauses@.len() ==> (#[trigger] formula.clauses@[i])@ == old(formula).clauses@[i]@,
        decreases history.decision_levels@.len(),
    {
        if history.get_decision_level() == 0 {
            return false;
        }
        let last_decision = match history.last_decision_literal() {
            Some(l) => *l,
            None => {
                return false;
            },
        };
        let ghost k = history.decision_levels@.len() - 1;
        let ghost before = history.decision_levels@;
        proof {
            assert(history.decision_levels@.last().wf());
            assert(history.decision_levels@.last().below(formula.n_vars()));
            assert(before[k] == old(history).decision_levels@[k]);
        }
        let ghost before_f = *formula;
        formula.revert_last_decision(history);
        proof {
            assert(history.decision_levels@ =~= old(history).decision_levels@.subrange(0, k));
            assert forall|v: int| 0 <= v < formula.assignment@.len() && #[trigger] formula.assignment@[v] is Some
                implies old(formula).assignment@[v] == formula.assignment@[v] by {
                assert(before_f.assignment@[v] == formula.assignment@[v]);
            }
            assert forall|i: int| 0 <= i < old(formula).clauses@.len() implies (#[trigger] formula.clauses@[i])@ == old(formula).clauses@[i]@ by {
                assert(same_but_lock(formula.clauses@[i], before_f.clauses@[i]));
            }
        }
        if !last_decision.is_negated() {
            let flipped = last_decision.negated();
            formula.add_decision(&flipped, history);
            proof {
                assert(history.decision_levels@.subrange(0, k) =~= history.decision_levels@.drop_last());
                assert(old(history).decision_levels@.subrange(0, k) =~= before.subrange(0, k));
                assert(history.decision_levels@[k] == history.decision_levels@.last());
            }
            return true;
        }
    }
}

/// One DPLL round: propagate; stop with the stored values when every clause is satisfied;
/// backtrack on an empty clause; otherwise decide the smallest unassigned variable positively.
pub fn dpll_step(formula: &mut Formula, history: &mut History) -> (r: DpllStep)
    requires
        old(formula).wf(),
        old(formula).tracks(old(history)),
    ensures
        final(formula).wf(),
        final(formula).tracks(final(history)),
        r matches DpllStep::Sat(m) ==> m@ == final(formula).assignment.raw_values() && final(formula).satisfied_spec(),
        final(formula).clauses@.len() == old(formula).clauses@.len(),
        r is Continue ==> (final(history).decision_levels@.len() == old(history).decision_levels@.len() + 1
            && positive_decision(final(history).decision_levels@.last()))
            || (final(history).decision_levels@.len() <= old(history).decision_levels@.len()
                && negative_decision(final(history).decision_levels@.last())),
        r is Unsat ==> final(history).decision_levels@.len() == 1 || final(history).decision_levels@.last().decision_literal is None,
        r is Unsat ==> exists|mid: Seq<Option<bool>>| extends(mid, final(formula).assignment@)
            && exists|c: int| 0 <= c < final(formula).clauses@.len() && clause_falsified(#[trigger] final(formula).clauses@[c]@, mid),
        r is Unsat ==> !satisfiable_from(old(formula).clauses@, old(formula).assignment@),
{
    propagate(formula, history);
    if formula.is_satisfied() {
        return DpllStep::Sat(formula.get_model());
    }
    if formula.contains_empty_clause(&formula.assignment) {
        let ghost mid = *formula;
        if !backtrack(formula, history) {
            proof {
                let c = choose|c: int| 0 <= c < mid.clauses@.len() && clause_falsified(#[trigger] mid.clauses@[c]@, mid.assignment@);
                if satisfiable_from(old(formula).clauses@, old(formula).assignment@) {
                    let m = choose|m: Seq<Option<bool>>| #[trigger] extends(m, mid.assignment@) && is_model(mid.clauses@, m);
                    let s = mid.clauses@[c]@;
                    assert(clause_sat(s, m));
                    let i = choose|i: int| 0 <= i < s.len() && (#[trigger] s[i]).eval_spec(m) == Some(true);
                    assert(s[i].eval_spec(mid.assignment@) == Some(false));
                    assert(mid.assignment@[s[i].var() as int] is Some);
                }
                assert(formula.clauses@[c]@ == mid.clauses@[c]@);
                assert(clause_falsified(formula.clauses@[c]@, mid.assignment@));
            }
            return DpllStep::Unsat;
        }
        return DpllStep::Continue;
    }
    let lit = match formula.get_unassigned_literal() {
        Some(l) => l,
        None => {
            proof { formula.lemma_complete_unfalsified_satisfied(); }
            return DpllStep::Sat(formula.get_model());
        },
    };
    let decision = Literal::new(lit.get_index());
    formula.add_decision(&decision, history);
    DpllStep::Continue
}

} // verus!
