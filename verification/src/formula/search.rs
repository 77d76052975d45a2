use vstd::prelude::*;
use crate::formula::{Formula, count_in, bump_lock};
use crate::formula::assignment::AssignResult;
use crate::formula::clause::{Clause, clause_sat, clause_falsified, clause_unit, unit_at};
use crate::formula::database::{same_but_lock, same_clause, sat_sub_usize};
use crate::formula::literal::Literal;
use crate::history::{History, levels_reasons, unassign_levels};

verus! {

impl Formula {
    /// `h` is a history over this formula: literals in range, reasons naming clauses.
    pub open spec fn tracks(&self, h: &History) -> bool {
        h.wf() && h.below(self.n_vars()) && h.reasons_below(self.clauses@.len())
    }

    /// Every clause is satisfied by the assignment.
    pub open spec fn satisfied_spec(&self) -> bool {
        forall|c: int| 0 <= c < self.clauses@.len() ==> clause_sat(#[trigger] self.clauses@[c]@, self.assignment@)
    }

    /// A complete assignment under which no clause is falsified satisfies every clause.
    pub proof fn lemma_complete_unfalsified_satisfied(&self)
        requires
            self.wf(),
            forall|v: int| 1 <= v < self.n_vars() ==> #[trigger] self.assignment@[v] is Some,
            !exists|c: int| 0 <= c < self.clauses@.len() && clause_falsified(#[trigger] self.clauses@[c]@, self.assignment@),
        ensures
            self.satisfied_spec(),
    {
        assert forall|c: int| 0 <= c < self.clauses@.len() implies clause_sat(#[trigger] self.clauses@[c]@, self.assignment@) by {
            let s = self.clauses@[c]@;
            assert(self.clause_fits(self.clauses@[c]));
            assert(!clause_falsified(s, self.assignment@));
            let i = choose|i: int| 0 <= i < s.len() && (#[trigger] s[i]).eval_spec(self.assignment@) != Some(false);
            assert(s[i].wf());
            assert(s[i].var() < self.n_vars());
            assert(self.assignment@[s[i].var() as int] is Some);
            assert(s[i].eval_spec(self.assignment@) == Some(true));
        }
    }

    /// Assigns `value` to variable `index`.
    pub fn set_variable(&mut self, index: usize, value: bool)
        requires
            old(self).wf(),
            index < old(self).n_vars(),
        ensures
            final(self).wf(),
            final(self).assignment@ == old(self).assignment@.update(index as int, Some(value)),
            final(self).clauses == old(self).clauses,
            final(self).watch == old(self).watch,
            final(self).occurrence == old(self).occurrence,
    {
        self.assignment.assign(index, value)
    }

    /// Unassigns variable `index`.
    pub fn unset_variable(&mut self, index: usize)
        requires
            old(self).wf(),
            index < old(self).n_vars(),
        ensures
            final(self).wf(),
            final(self).assignment@ == old(self).assignment@.update(index as int, None),
            final(self).clauses == old(self).clauses,
            final(self).watch == old(self).watch,
            final(self).occurrence == old(self).occurrence,
    {
        self.assignment.unset(index);
    }

    /// Makes `literal` true and opens a decision level for it.
    pub fn add_decision(&mut self, literal: &Literal, history: &mut History)
        requires
            old(self).wf(),
            old(self).tracks(old(history)),
            literal.wf(),
            literal.var() < old(self).n_vars(),
        ensures
            final(self).wf(),
            final(self).tracks(final(history)),
            final(self).assignment@ == old(self).assignment@.update(literal.var() as int, Some(!literal.neg_spec())),
            final(self).clauses == old(self).clauses,
            final(self).watch == old(self).watch,
            final(self).occurrence == old(self).occurrence,
            final(self).stats == old(self).stats,
            final(self).extensions == old(self).extensions,
            final(self).self_subsuming == old(self).self_subsuming,
            final(history).decision_levels@.len() == old(history).decision_levels@.len() + 1,
            final(history).decision_levels@.drop_last() == old(history).decision_levels@,
            final(history).decision_levels@.last().decision_literal == Some(*literal),
            final(history).decision_levels@.last().implied_literals@.len() == 0,
    {
        self.assignment.assign_history(literal, history);
        proof {
            assert forall|k: int| 0 <= k < history.decision_levels@.len() implies (#[trigger] history.decision_levels@[k]).below(self.n_vars())
                && history.decision_levels@[k].reasons_below(self.clauses@.len()) by {
                if k < old(history).decision_levels@.len() {
                    assert(history.decision_levels@[k] == old(history).decision_levels@[k]);
                }
            }
        }
    }

    /// Makes `literal` true as an implication with reason `reason_clause_idx` (recorded in
    /// `history`); a reason clause gains a lock when the literal gets assigned.
    pub fn assign_implication(&mut self, literal: Literal, history: &mut History, reason_clause_idx: Option<usize>) -> (r: AssignResult)
        requires
            old(self).wf(),
            old(self).tracks(old(history)),
            literal.wf(),
            literal.var() < old(self).n_vars(),
            reason_clause_idx matches Some(i) ==> i < old(self).clauses@.len(),
        ensures
            final(self).wf(),
            final(self).tracks(final(history)),
            match literal.eval_spec(old(self).assignment@) {
                Some(false) => r is Conflict && final(self).assignment@ == old(self).assignment@,
                Some(true) => r is AlreadyAssigned && final(self).assignment@ == old(self).assignment@,
                None => r == AssignResult::Assigned(literal) && final(self).assignment@
                    == old(self).assignment@.update(literal.var() as int, Some(!literal.neg_spec())),
            },
            !(r is Assigned) ==> *final(history) == *old(history),
            final(history).decision_levels@.len() == old(history).decision_levels@.len(),
            final(self).clauses@.len() == old(self).clauses@.len(),
            forall|i: int| 0 <= i < old(self).clauses@.len() ==> #[trigger] same_but_lock(final(self).clauses@[i], old(self).clauses@[i])
                && final(self).clauses@[i].lock_count == bump_lock(old(self).clauses@[i].lock_count,
                    r is Assigned && (reason_clause_idx matches Some(ri) && ri as int == i)),
            final(self).watch == old(self).watch,
            final(self).occurrence == old(self).occurrence,
            final(self).stats == old(self).stats,
            final(self).extensions == old(self).extensions,
            final(self).self_subsuming == old(self).self_subsuming,
            old(self).watch_lists_sound() ==> final(self).watch_lists_sound(),
    {
        let result = self.assignment.assign_implication(literal, history, reason_clause_idx);
        proof {
            assert(history.below(self.n_vars()));
            assert(history.reasons_below(self.clauses@.len()));
        }
        if let AssignResult::Assigned(_) = result {
            if let Some(idx) = reason_clause_idx {
                if self.clauses[idx].lock_count < usize::MAX {
                    let mut c = self.clauses[idx].clone();
                    c.lock_count = c.lock_count + 1;
                    self.clauses.set(idx, c);
                }
            }
        }
        proof {
            assert forall|c: int| 0 <= c < self.clauses@.len() implies self.clause_fits(#[trigger] self.clauses@[c]) by {
                assert(old(self).clause_fits(old(self).clauses@[c]));
            }
            if old(self).watch_lists_sound() {
                crate::formula::propagation::lemma_watch_lists_sound_same_but_lock(*old(self), *self);
            }
        }
        result
    }

    /// Undoes the levels from `level` on (see `History::revert_decision_collect_reasons`)
    /// and releases one lock on the reason clause of every undone implication.
    pub fn revert_decision(&mut self, level: usize, history: &mut History)
        requires
            old(self).wf(),
            old(self).tracks(old(history)),
            level <= old(history).decision_levels@.len(),
        ensures
            final(self).wf(),
            final(self).tracks(final(history)),
            level == 0 ==> *final(history) == *old(history) && final(self).assignment@ == old(self).assignment@,
            level > 0 ==> {
                let undone = old(history).decision_levels@.subrange(level as int, old(history).decision_levels@.len() as int);
                &&& final(history).decision_levels@ == old(history).decision_levels@.subrange(0, level as int)
                &&& final(self).assignment@ == unassign_levels(old(self).assignment@, undone)
                &&& forall|i: int| 0 <= i < old(self).clauses@.len() ==> #[trigger] final(self).clauses@[i].lock_count
                    == sat_sub_usize(old(self).clauses@[i].lock_count, count_in(levels_reasons(undone), i))
            },
            final(self).clauses@.len() == old(self).clauses@.len(),
            forall|i: int| 0 <= i < old(self).clauses@.len() ==> #[trigger] same_but_lock(final(self).clauses@[i], old(self).clauses@[i]),
            final(self).watch == old(self).watch,
            final(self).occurrence == old(self).occurrence,
            final(self).stats == old(self).stats,
            final(self).extensions == old(self).extensions,
            final(self).self_subsuming == old(self).self_subsuming,
            old(self).watch_lists_sound() ==> final(self).watch_lists_sound(),
    {
        let removed_reasons = history.revert_decision_collect_reasons(level, &mut self.assignment);
        let ghost base = self.clauses@;
        let ghost after = *self;
        assert(base == old(self).clauses@);
        assert(self.assignment@.len() == old(self).assignment@.len());
        let mut k: usize = 0;
        while k < removed_reasons.len()
            invariant
                k <= removed_reasons@.len(),
                base == old(self).clauses@,
                self.assignment == after.assignment,
                self.watch == after.watch,
                self.occurrence == after.occurrence,
                self.stats == after.stats,
                self.extensions == after.extensions,
                self.self_subsuming == after.self_subsuming,
                self.clauses@.len() == base.len(),
                forall|i: int| 0 <= i < base.len() ==> #[trigger] same_but_lock(self.clauses@[i], base[i])
                    && self.clauses@[i].lock_count == sat_sub_usize(base[i].lock_count, count_in(removed_reasons@.subrange(0, k as int), i)),
            decreases removed_reasons@.len() - k,
        {
            let ghost pre = removed_reasons@.subrange(0, k as int);
            let ghost pre1 = removed_reasons@.subrange(0, k + 1);
            assert(pre1.drop_last() =~= pre);
            let idx = removed_reasons[k];
            assert(pre1.last() == idx);
            let ghost prev = self.clauses@;
            if idx < self.clauses.len() {
                let mut c = self.clauses[idx].clone();
                c.lock_count = c.lock_count.saturating_sub(1);
                self.clauses.set(idx, c);
            }
            k = k + 1;
            proof {
                assert(pre1 == removed_reasons@.subrange(0, k as int));
                assert forall|i: int| 0 <= i < base.len() implies #[trigger] same_but_lock(self.clauses@[i], base[i])
                    && self.clauses@[i].lock_count == sat_sub_usize(base[i].lock_count, count_in(removed_reasons@.subrange(0, k as int), i)) by {
                    assert(count_in(pre1, i) == count_in(pre, i) + if idx as int == i { 1nat } else { 0nat });
                    assert(same_but_lock(prev[i], base[i]));
                    assert(prev[i].lock_count == sat_sub_usize(base[i].lock_count, count_in(pre, i)));
                    if i != idx as int {
                        assert(self.clauses@[i] == prev[i]);
                    } else {
                        assert(self.clauses@[i].lock_count == sat_sub_usize(prev[i].lock_count, 1));
                        assert(same_but_lock(self.clauses@[i], prev[i]));
                    }
                }
            }
        }
        assert(removed_reasons@.subrange(0, removed_reasons@.len() as int) =~= removed_reasons@);
        proof {
            assert forall|c: int| 0 <= c < self.clauses@.len() implies self.clause_fits(#[trigger] self.clauses@[c])
                && self.clauses@[c].lock_count == sat_sub_usize(base[c].lock_count, count_in(removed_reasons@, c)) by {
                assert(same_but_lock(self.clauses@[c], base[c]));
                assert(old(self).clause_fits(old(self).clauses@[c]));
            }
            if level > 0 {
                assert forall|k: int| 0 <= k < history.decision_levels@.len() implies (#[trigger] history.decision_levels@[k]).below(self.n_vars())
                    && history.decision_levels@[k].reasons_below(self.clauses@.len()) by {
                    assert(history.decision_levels@[k] == old(history).decision_levels@[k]);
                }
            }
            if old(self).watch_lists_sound() {
                crate::formula::propagation::lemma_watch_lists_sound_same_but_lock(*old(self), *self);
            }
        }
    }

    /// Undoes the current level.
    pub fn revert_last_decision(&mut self, history: &mut History)
        requires
            old(self).wf(),
            old(self).tracks(old(history)),
        ensures
            final(self).wf(),
            final(self).tracks(final(history)),
            final(self).clauses@.len() == old(self).clauses@.len(),
            old(history).decision_levels@.len() > 1 ==> final(history).decision_levels@
                == old(history).decision_levels@.subrange(0, old(history).decision_levels@.len() - 1)
                && final(self).assignment@ == unassign_levels(old(self).assignment@, seq![old(history).decision_levels@.last()]),
            old(history).decision_levels@.len() == 1 ==> *final(history) == *old(history)
                && final(self).assignment@ == old(self).assignment@,
            final(self).n_vars() == old(self).n_vars(),
            forall|i: int| 0 <= i < old(self).clauses@.len() ==> #[trigger] same_but_lock(final(self).clauses@[i], old(self).clauses@[i]),
    {
        let level = history.get_decision_level();
        let ghost levels = history.decision_levels@;
        self.revert_decision(level, history);
        proof {
            if levels.len() > 1 {
                assert(levels.subrange(level as int, levels.len() as int) =~= seq![levels.last()]);
            }
        }
    }

    /// The stored value of every variable (`true`/`false`; unassigned ones read their last value).
    pub fn get_model(&self) -> (r: Vec<bool>)
        requires
            self.wf(),
        ensures
            r@ == self.assignment.raw_values(),
            r@.len() == self.n_vars(),
            forall|i: int| 0 <= i < r@.len() && #[trigger] self.assignment@[i] is Some ==> r@[i] == self.assignment@[i]->0,
    {
        proof { self.assignment.lemma_raw_values(); }
        self.assignment.to_model()
    }

    /// Whether every clause is satisfied.
    pub fn is_satisfied(&self) -> (r: bool)
        requires
            self.wf(),
        ensures
            r == self.satisfied_spec(),
    {
        for c in 0..self.clauses.len()
            invariant
                self.wf(),
                forall|j: int| 0 <= j < c ==> clause_sat(#[trigger] self.clauses@[j]@, self.assignment@),
        {
            if !self.clauses[c].is_satisfied(&self.assignment) {
                return false;
            }
        }
        true
    }

    /// The positive literal of the smallest unassigned variable (variable 0 excluded).
    pub fn get_unassigned_literal(&self) -> (r: Option<Literal>)
        requires
            self.wf(),
        ensures
            r is None ==> forall|v: int| 1 <= v < self.n_vars() ==> #[trigger] self.assignment@[v] is Some,
            r matches Some(l) ==> l.wf() && l@ > 0 && l@ < self.n_vars() && self.assignment@[l@] is None
                && forall|v: int| 1 <= v < l@ ==> #[trigger] self.assignment@[v] is Some,
    {
        let n = self.assignment.len();
        for i in 1..n
            invariant
                self.wf(),
                n == self.n_vars(),
                forall|v: int| 1 <= v < i ==> #[trigger] self.assignment@[v] is Some,
        {
            if self.assignment.get_value(i).is_none() {
                return Some(Literal::new(i as i32));
            }
        }
        None
    }

    /// Whether some clause is falsified under `assignment`.
    pub fn contains_empty_clause(&self, assignment: &crate::formula::assignment::Assignment) -> (r: bool)
        requires
            self.wf(),
            assignment.wf(),
        ensures
            r == exists|c: int| 0 <= c < self.clauses@.len() && clause_falsified(#[trigger] self.clauses@[c]@, assignment@),
    {
        self.get_empty_clause(assignment).is_some()
    }

    /// The first clause falsified under `assignment`, with its index.
    pub fn get_empty_clause<'a>(&'a self, assignment: &crate::formula::assignment::Assignment) -> (r: Option<(usize, &'a Clause)>)
        requires
            self.wf(),
            assignment.wf(),
        ensures
            r is None <==> forall|c: int| 0 <= c < self.clauses@.len() ==> !clause_falsified(#[trigger] self.clauses@[c]@, assignment@),
            r matches Some((i, c)) ==> i < self.clauses@.len() && *c == self.clauses@[i as int]
                && clause_falsified(c@, assignment@)
                && forall|j: int| 0 <= j < i ==> !clause_falsified(#[trigger] self.clauses@[j]@, assignment@),
    {
        for c in 0..self.clauses.len()
            invariant
                self.wf(),
                assignment.wf(),
                forall|j: int| 0 <= j < c ==> !clause_falsified(#[trigger] self.clauses@[j]@, assignment@),
        {
            if self.clauses[c].is_empty(assignment) {
                return Some((c, &self.clauses[c]));
            }
        }
        None
    }

    /// The clauses falsified by the formula's assignment, in order; `None` when there are none.
    pub fn get_empty_clauses(&self) -> (r: Option<Vec<&Clause>>)
        requires
            self.wf(),
        ensures
            r is None <==> forall|c: int| 0 <= c < self.clauses@.len() ==> !clause_falsified(#[trigger] self.clauses@[c]@, self.assignment@),
            r matches Some(v) ==> v@.len() > 0 && forall|k: int| 0 <= k < v@.len() ==> clause_falsified((#[trigger] v@[k])@, self.assignment@),
    {
        let mut out: Vec<&Clause> = Vec::new();
        for c in 0..self.clauses.len()
            invariant
                self.wf(),
                (out@.len() == 0) == forall|j: int| 0 <= j < c ==> !clause_falsified(#[trigger] self.clauses@[j]@, self.assignment@),
                forall|k: int| 0 <= k < out@.len() ==> clause_falsified((#[trigger] out@[k])@, self.assignment@),
        {
            if self.clauses[c].is_empty(&self.assignment) {
                out.push(&self.clauses[c]);
            }
        }
        if out.len() > 0 { Some(out) } else { None }
    }

    /// The clauses not satisfied by the assignment, with their indices, in order.
    pub fn get_unsatisfied_clauses(&self) -> (r: Vec<(usize, &Clause)>)
        requires
            self.wf(),
        ensures
            forall|k: int| 0 <= k < r@.len() ==> (#[trigger] r@[k]).0 < self.clauses@.len()
                && *r@[k].1 == self.clauses@[r@[k].0 as int] && !clause_sat(r@[k].1@, self.assignment@),
            forall|k1: int, k2: int| 0 <= k1 < k2 < r@.len() ==> (#[trigger] r@[k1]).0 < (#[trigger] r@[k2]).0,
            forall|c: int| 0 <= c < self.clauses@.len() && !clause_sat(#[trigger] self.clauses@[c]@, self.assignment@)
                ==> exists|k: int| 0 <= k < r@.len() && r@[k].0 == c,
    {
        let mut out: Vec<(usize, &Clause)> = Vec::new();
        for c in 0..self.clauses.len()
            invariant
                self.wf(),
                forall|k: int| 0 <= k < out@.len() ==> (#[trigger] out@[k]).0 < c
                    && *out@[k].1 == self.clauses@[out@[k].0 as int] && !clause_sat(out@[k].1@, self.assignment@),
                forall|k1: int, k2: int| 0 <= k1 < k2 < out@.len() ==> (#[trigger] out@[k1]).0 < (#[trigger] out@[k2]).0,
                forall|j: int| 0 <= j < c && !clause_sat(#[trigger] self.clauses@[j]@, self.assignment@)
                    ==> exists|k: int| 0 <= k < out@.len() && out@[k].0 == j,
        {
            let ghost out0 = out@;
            if !self.clauses[c].is_satisfied(&self.assignment) {
                out.push((c, &self.clauses[c]));
                assert(out@[out@.len() - 1].0 == c);
            }
            proof {
                assert forall|k: int| 0 <= k < out0.len() implies out@[k] == out0[k] by {}
            }
        }
        out
    }

    /// The unit clauses under the assignment, with their indices, in order.
    pub fn get_unit_clauses(&self) -> (r: Vec<(usize, &Clause)>)
        requires
            self.wf(),
        ensures
            forall|k: int| 0 <= k < r@.len() ==> (#[trigger] r@[k]).0 < self.clauses@.len()
                && *r@[k].1 == self.clauses@[r@[k].0 as int] && clause_unit(r@[k].1@, self.assignment@),
            forall|k1: int, k2: int| 0 <= k1 < k2 < r@.len() ==> (#[trigger] r@[k1]).0 < (#[trigger] r@[k2]).0,
            forall|c: int| 0 <= c < self.clauses@.len() && clause_unit(#[trigger] self.clauses@[c]@, self.assignment@)
                ==> exists|k: int| 0 <= k < r@.len() && r@[k].0 == c,
    {
        let mut out: Vec<(usize, &Clause)> = Vec::new();
        for c in 0..self.clauses.len()
            invariant
                self.wf(),
                forall|k: int| 0 <= k < out@.len() ==> (#[trigger] out@[k]).0 < c
                    && *out@[k].1 == self.clauses@[out@[k].0 as int] && clause_unit(out@[k].1@, self.assignment@),
                forall|k1: int, k2: int| 0 <= k1 < k2 < out@.len() ==> (#[trigger] out@[k1]).0 < (#[trigger] out@[k2]).0,
                forall|j: int| 0 <= j < c && clause_unit(#[trigger] self.clauses@[j]@, self.assignment@)
                    ==> exists|k: int| 0 <= k < out@.len() && out@[k].0 == j,
        {
            let ghost out0 = out@;
            if self.clauses[c].is_unit(&self.assignment) {
                out.push((c, &self.clauses[c]));
                assert(out@[out@.len() - 1].0 == c);
            }
            proof {
                assert forall|k: int| 0 <= k < out0.len() implies out@[k] == out0[k] by {}
            }
        }
        out
    }
}

} // verus!
