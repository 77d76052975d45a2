use vstd::prelude::*;
use crate::formula::Formula;
use crate::formula::assignment::AssignResult;
use crate::formula::clause::{clause_sat, clause_unit, unit_at, clause_falsified};
use crate::formula::literal::{Literal, var_of, valid_lit_value};
use crate::formula::propagation::{count_none, lemma_count_none_assign};
use crate::history::History;

verus! {

/// Clause `c` of `cs` is not satisfied under `model` and holds the unassigned literal `x`.
pub open spec fn open_occurrence(cs: Seq<crate::formula::clause::Clause>, model: Seq<Option<bool>>, c: int, x: int) -> bool {
    &&& 0 <= c < cs.len()
    &&& !clause_sat(cs[c]@, model)
    &&& exists|i: int| 0 <= i < cs[c]@.len() && (#[trigger] cs[c]@[i])@ == x && cs[c]@[i].eval_spec(model) is None
}

/// Some clause among the first `m` of `cs` is an open occurrence of `x`.
pub open spec fn occurs_open(cs: Seq<crate::formula::clause::Clause>, model: Seq<Option<bool>>, m: int, x: int) -> bool {
    exists|c: int| 0 <= c < m && #[trigger] open_occurrence(cs, model, c, x)
}

/// `x` is pure: it occurs unassigned in some unsatisfied clause, and its negation in none.
pub open spec fn pure_literal(cs: Seq<crate::formula::clause::Clause>, model: Seq<Option<bool>>, x: int) -> bool {
    occurs_open(cs, model, cs.len() as int, x) && !occurs_open(cs, model, cs.len() as int, -x)
}

/// `m` assigns every slot and satisfies every clause of `cs`.
pub open spec fn is_model(cs: Seq<crate::formula::clause::Clause>, m: Seq<Option<bool>>) -> bool {
    &&& forall|v: int| 0 <= v < m.len() ==> #[trigger] m[v] is Some
    &&& forall|c: int| 0 <= c < cs.len() ==> clause_sat(#[trigger] cs[c]@, m)
}

/// Some model of `cs` agrees with the partial assignment `a`.
pub open spec fn satisfiable_from(cs: Seq<crate::formula::clause::Clause>, a: Seq<Option<bool>>) -> bool {
    exists|m: Seq<Option<bool>>| #[trigger] crate::formula::propagation::extends(m, a) && is_model(cs, m)
}

/// Only the literals of the clauses matter.
pub proof fn lemma_satisfiable_same_views(cs: Seq<crate::formula::clause::Clause>, ds: Seq<crate::formula::clause::Clause>,
    a: Seq<Option<bool>>)
    requires
        cs.len() == ds.len(),
        forall|i: int| 0 <= i < cs.len() ==> (#[trigger] cs[i])@ == ds[i]@,
        satisfiable_from(cs, a),
    ensures
        satisfiable_from(ds, a),
{
    let m = choose|m: Seq<Option<bool>>| #[trigger] crate::formula::propagation::extends(m, a) && is_model(cs, m);
    assert forall|c: int| 0 <= c < ds.len() implies clause_sat(#[trigger] ds[c]@, m) by {
        assert(cs[c]@ == ds[c]@);
        assert(clause_sat(cs[c]@, m));
    }
    assert(is_model(ds, m));
}

/// A model that agrees with `a` makes the unassigned literal of a unit clause true.
pub proof fn lemma_unit_keeps_models(cs: Seq<crate::formula::clause::Clause>, a: Seq<Option<bool>>, c: int, k: int,
    m: Seq<Option<bool>>)
    requires
        0 <= c < cs.len(),
        unit_at(cs[c]@, a, k),
        crate::formula::propagation::extends(m, a),
        is_model(cs, m),
    ensures
        crate::formula::propagation::extends(m, a.update(cs[c]@[k].var() as int, Some(!cs[c]@[k].neg_spec()))),
{
    let s = cs[c]@;
    assert(clause_sat(s, m));
    let i = choose|i: int| 0 <= i < s.len() && (#[trigger] s[i]).eval_spec(m) == Some(true);
    if i != k {
        assert(s[i].eval_spec(a) == Some(false));
        assert(a[s[i].var() as int] is Some);
        assert(m[s[i].var() as int] == a[s[i].var() as int]);
    }
    assert(s[k].var() < m.len());
}

/// One unit assignment keeps a model agreeing with the assignment, if there was one.
pub proof fn lemma_unit_step(cs: Seq<crate::formula::clause::Clause>, ds: Seq<crate::formula::clause::Clause>,
    a0: Seq<Option<bool>>, a1: Seq<Option<bool>>, idx: int, lit: Literal)
    requires
        cs.len() == ds.len(),
        forall|i: int| 0 <= i < cs.len() ==> (#[trigger] cs[i])@ == ds[i]@,
        0 <= idx < ds.len(),
        exists|k: int| #[trigger] unit_at(ds[idx]@, a0, k) && ds[idx]@[k] == lit,
        lit.eval_spec(a0) is None,
        a1 == a0.update(lit.var() as int, Some(!lit.neg_spec())),
    ensures
        satisfiable_from(cs, a0) ==> satisfiable_from(cs, a1),
{
    if satisfiable_from(cs, a0) {
        let k = choose|k: int| #[trigger] unit_at(ds[idx]@, a0, k) && ds[idx]@[k] == lit;
        assert(cs[idx]@ == ds[idx]@);
        let m = choose|m: Seq<Option<bool>>| #[trigger] crate::formula::propagation::extends(m, a0) && is_model(cs, m);
        lemma_unit_keeps_models(cs, a0, idx, k, m);
    }
}

/// Assigning the one literal of a clause that is not false keeps a model agreeing with the
/// assignment, if there was one.
pub proof fn lemma_forced_step(cs: Seq<crate::formula::clause::Clause>, a0: Seq<Option<bool>>, idx: int, lit: Literal)
    requires
        0 <= idx < cs.len(),
        forall|j: int| 0 <= j < cs[idx]@.len() && cs[idx]@[j] != lit ==> (#[trigger] cs[idx]@[j]).eval_spec(a0) == Some(false),
        lit.var() < a0.len(),
        lit.eval_spec(a0) is None,
    ensures
        satisfiable_from(cs, a0) ==> satisfiable_from(cs, a0.update(lit.var() as int, Some(!lit.neg_spec()))),
{
    if satisfiable_from(cs, a0) {
        let m = choose|m: Seq<Option<bool>>| #[trigger] crate::formula::propagation::extends(m, a0) && is_model(cs, m);
        let s = cs[idx]@;
        assert(clause_sat(s, m));
        let i = choose|i: int| 0 <= i < s.len() && (#[trigger] s[i]).eval_spec(m) == Some(true);
        if s[i] != lit {
            assert(s[i].eval_spec(a0) == Some(false));
            assert(a0[s[i].var() as int] is Some);
            assert(m[s[i].var() as int] == a0[s[i].var() as int]);
        }
        assert(lit.var() < m.len());
        assert(crate::formula::propagation::extends(m, a0.update(lit.var() as int, Some(!lit.neg_spec()))));
    }
}

/// No model agrees with an assignment under which some clause is false.
pub proof fn lemma_falsified_unsat(cs: Seq<crate::formula::clause::Clause>, a: Seq<Option<bool>>, c: int)
    requires
        0 <= c < cs.len(),
        clause_falsified(cs[c]@, a),
    ensures
        !satisfiable_from(cs, a),
{
    if satisfiable_from(cs, a) {
        let m = choose|m: Seq<Option<bool>>| #[trigger] crate::formula::propagation::extends(m, a) && is_model(cs, m);
        let s = cs[c]@;
        assert(clause_sat(s, m));
        let i = choose|i: int| 0 <= i < s.len() && (#[trigger] s[i]).eval_spec(m) == Some(true);
        assert(s[i].eval_spec(a) == Some(false));
        assert(a[s[i].var() as int] is Some);
        assert(m[s[i].var() as int] == a[s[i].var() as int]);
    }
}

/// One pure-literal assignment keeps a model agreeing with the assignment, if there was one.
pub proof fn lemma_pure_step(cs: Seq<crate::formula::clause::Clause>, ds: Seq<crate::formula::clause::Clause>,
    a0: Seq<Option<bool>>, a1: Seq<Option<bool>>, x: Literal)
    requires
        cs.len() == ds.len(),
        forall|i: int| 0 <= i < cs.len() ==> (#[trigger] cs[i])@ == ds[i]@,
        x.wf(),
        x.var() < a0.len(),
        pure_literal(ds, a0, x@),
        a1 == a0.update(x.var() as int, Some(!x.neg_spec())),
    ensures
        satisfiable_from(cs, a0) ==> satisfiable_from(cs, a1),
{
    if satisfiable_from(cs, a0) {
        lemma_satisfiable_same_views(cs, ds, a0);
        lemma_pure_keeps_satisfiable(ds, a0, x);
        lemma_satisfiable_same_views(ds, cs, a1);
    }
}

/// Making a pure literal true keeps some model agreeing with the assignment.
pub proof fn lemma_pure_keeps_satisfiable(cs: Seq<crate::formula::clause::Clause>, a: Seq<Option<bool>>, x: Literal)
    requires
        x.wf(),
        x.var() < a.len(),
        pure_literal(cs, a, x@),
        satisfiable_from(cs, a),
    ensures
        satisfiable_from(cs, a.update(x.var() as int, Some(!x.neg_spec()))),
{
    let xv = x.var() as int;
    let a1 = a.update(xv, Some(!x.neg_spec()));
    lemma_pure_unassigned(cs, a, x@);
    let (c0, i0) = choose|c: int, i: int| 0 <= c < cs.len() && 0 <= i < cs[c]@.len() && (#[trigger] cs[c]@[i])@ == x@
        && cs[c]@[i].eval_spec(a) is None;
    assert(cs[c0]@[i0].var() == x.var());
    assert(a[xv] is None);
    let m = choose|m: Seq<Option<bool>>| #[trigger] crate::formula::propagation::extends(m, a) && is_model(cs, m);
    let m1 = m.update(xv, Some(!x.neg_spec()));
    assert forall|v: int| 0 <= v < m1.len() implies #[trigger] m1[v] is Some by {
        if v != xv {
            assert(m[v] is Some);
        }
    }
    assert forall|c: int| 0 <= c < cs.len() implies clause_sat(#[trigger] cs[c]@, m1) by {
        let s = cs[c]@;
        assert(clause_sat(s, m));
        let i = choose|i: int| 0 <= i < s.len() && (#[trigger] s[i]).eval_spec(m) == Some(true);
        if s[i].var() != x.var() {
            assert(s[i].eval_spec(m1) == Some(true));
        } else if s[i]@ == x@ {
            assert(s[i].eval_spec(m1) == Some(true));
        } else {
            assert(s[i]@ == -x@);
            if clause_sat(s, a) {
                let j = choose|j: int| 0 <= j < s.len() && (#[trigger] s[j]).eval_spec(a) == Some(true);
                assert(a[s[j].var() as int] is Some);
                assert(s[j].var() != x.var());
                assert(m[s[j].var() as int] == a[s[j].var() as int]);
                assert(s[j].eval_spec(m1) == Some(true));
            } else {
                assert(s[i].eval_spec(a) is None);
                assert(open_occurrence(cs, a, c, -x@));
                assert(occurs_open(cs, a, cs.len() as int, -x@));
            }
        }
    }
    assert(crate::formula::propagation::extends(m1, a1));
}

impl Formula {
    /// The pure literals among the unsatisfied clauses, one per variable, by increasing variable.
    pub fn get_pure_literals(&mut self) -> (r: Vec<Literal>)
        requires
            old(self).wf(),
        ensures
            *final(self) == *old(self),
            forall|k: int| 0 <= k < r@.len() ==> (#[trigger] r@[k]).wf() && r@[k].var() < old(self).n_vars()
                && pure_literal(old(self).clauses@, old(self).assignment@, r@[k]@),
            forall|x: int| valid_lit_value(x) && var_of(x) < old(self).n_vars() && #[trigger] pure_literal(old(self).clauses@, old(self).assignment@, x)
                ==> exists|k: int| 0 <= k < r@.len() && (#[trigger] r@[k])@ == x,
            forall|a: int, b: int| 0 <= a < b < r@.len() ==> r@[a].var() < r@[b].var(),
    {
        let n = self.assignment.len();
        let ghost cs = self.clauses@;
        let ghost model = self.assignment@;
        let mut pos: Vec<bool> = Vec::new();
        let mut neg: Vec<bool> = Vec::new();
        for _v in 0..n
            invariant
                pos@.len() == _v,
                neg@.len() == _v,
                forall|v: int| 0 <= v < _v ==> !(#[trigger] pos@[v]),
                forall|v: int| 0 <= v < _v ==> !(#[trigger] neg@[v]),
        {
            pos.push(false);
            neg.push(false);
        }
        let m = self.clauses.len();
        for ci in 0..m
            invariant
                self.wf(),
                cs == self.clauses@,
                model == self.assignment@,
                m == cs.len(),
                n == self.n_vars(),
                pos@.len() == n,
                neg@.len() == n,
                forall|v: int| 1 <= v < n ==> (#[trigger] pos@[v] <==> occurs_open(cs, model, ci as int, v)),
                forall|v: int| 1 <= v < n ==> (#[trigger] neg@[v] <==> occurs_open(cs, model, ci as int, -v)),
        {
            proof { assert(self.clause_fits(cs[ci as int])); }
            let clause = &self.clauses[ci];
            let ghost pos0 = pos@;
            let ghost neg0 = neg@;
            if !clause.is_satisfied(&self.assignment) {
                let len = clause.literals.len();
                for i in 0..len
                    invariant
                        self.wf(),
                        cs == self.clauses@,
                        model == self.assignment@,
                        *clause == cs[ci as int],
                        len == cs[ci as int]@.len(),
                        self.clause_fits(cs[ci as int]),
                        !clause_sat(cs[ci as int]@, model),
                        n == self.n_vars(),
                        pos@.len() == n,
                        neg@.len() == n,
                        forall|v: int| 1 <= v < n ==> (#[trigger] pos@[v] <==> (pos0[v]
                            || exists|j: int| 0 <= j < i && (#[trigger] cs[ci as int]@[j])@ == v && cs[ci as int]@[j].eval_spec(model) is None)),
                        forall|v: int| 1 <= v < n ==> (#[trigger] neg@[v] <==> (neg0[v]
                            || exists|j: int| 0 <= j < i && (#[trigger] cs[ci as int]@[j])@ == -v && cs[ci as int]@[j].eval_spec(model) is None)),
                {
                    let lit = clause.literals[i];
                    proof {
                        assert(cs[ci as int]@[i as int].wf());
                        assert(cs[ci as int]@[i as int].var() < n);
                    }
                    if self.assignment.eval(&lit).is_none() {
                        let v = lit.get_variable();
                        if lit.is_negated() {
                            neg.set(v, true);
                        } else {
                            pos.set(v, true);
                        }
                    }
                    proof {
                        assert forall|w: int| 1 <= w < n implies (#[trigger] pos@[w] <==> (pos0[w]
                            || exists|j: int| 0 <= j < i + 1 && (#[trigger] cs[ci as int]@[j])@ == w && cs[ci as int]@[j].eval_spec(model) is None)) by {
                            if cs[ci as int]@[i as int]@ == w && cs[ci as int]@[i as int].eval_spec(model) is None {
                                assert(pos@[w]);
                            }
                        }
                        assert forall|w: int| 1 <= w < n implies (#[trigger] neg@[w] <==> (neg0[w]
                            || exists|j: int| 0 <= j < i + 1 && (#[trigger] cs[ci as int]@[j])@ == -w && cs[ci as int]@[j].eval_spec(model) is None)) by {
                            if cs[ci as int]@[i as int]@ == -w && cs[ci as int]@[i as int].eval_spec(model) is None {
                                assert(neg@[w]);
                            }
                        }
                    }
                }
                proof {
                    assert forall|v: int| 1 <= v < n implies (#[trigger] pos@[v] <==> occurs_open(cs, model, ci + 1, v)) by {
                        if pos@[v] && !pos0[v] {
                            assert(open_occurrence(cs, model, ci as int, v));
                        }
                        if occurs_open(cs, model, ci + 1, v) {
                            let c = choose|c: int| 0 <= c < ci + 1 && #[trigger] open_occurrence(cs, model, c, v);
                            if c < ci {
                                assert(occurs_open(cs, model, ci as int, v));
                            }
                        }
                    }
                    assert forall|v: int| 1 <= v < n implies (#[trigger] neg@[v] <==> occurs_open(cs, model, ci + 1, -v)) by {
                        if neg@[v] && !neg0[v] {
                            assert(open_occurrence(cs, model, ci as int, -v));
                        }
                        if occurs_open(cs, model, ci + 1, -v) {
                            let c = choose|c: int| 0 <= c < ci + 1 && #[trigger] open_occurrence(cs, model, c, -v);
                            if c < ci {
                                assert(occurs_open(cs, model, ci as int, -v));
                            }
                        }
                    }
                }
            } else {
                proof {
                    assert forall|v: int| 1 <= v < n implies (#[trigger] pos@[v] <==> occurs_open(cs, model, ci + 1, v)) by {
                        if occurs_open(cs, model, ci + 1, v) {
                            let c = choose|c: int| 0 <= c < ci + 1 && #[trigger] open_occurrence(cs, model, c, v);
                            if c < ci {
                                assert(occurs_open(cs, model, ci as int, v));
                            }
                        }
                    }
                    assert forall|v: int| 1 <= v < n implies (#[trigger] neg@[v] <==> occurs_open(cs, model, ci + 1, -v)) by {
                        if occurs_open(cs, model, ci + 1, -v) {
                            let c = choose|c: int| 0 <= c < ci + 1 && #[trigger] open_occurrence(cs, model, c, -v);
                            if c < ci {
                                assert(occurs_open(cs, model, ci as int, -v));
                            }
                        }
                    }
                }
            }
        }
        let mut pure_literals: Vec<Literal> = Vec::new();
        for v in 1..n
            invariant
                self.wf(),
                n == self.n_vars(),
                cs == self.clauses@,
                model == self.assignment@,
                pos@.len() == n,
                neg@.len() == n,
                forall|w: int| 1 <= w < n ==> (#[trigger] pos@[w] <==> occurs_open(cs, model, cs.len() as int, w)),
                forall|w: int| 1 <= w < n ==> (#[trigger] neg@[w] <==> occurs_open(cs, model, cs.len() as int, -w)),
                forall|k: int| 0 <= k < pure_literals@.len() ==> (#[trigger] pure_literals@[k]).wf()
                    && pure_literals@[k].var() < v && pure_literal(cs, model, pure_literals@[k]@),
                forall|x: int| valid_lit_value(x) && var_of(x) < v && #[trigger] pure_literal(cs, model, x)
                    ==> exists|k: int| 0 <= k < pure_literals@.len() && (#[trigger] pure_literals@[k])@ == x,
                forall|a: int, b: int| 0 <= a < b < pure_literals@.len() ==> pure_literals@[a].var() < pure_literals@[b].var(),
        {
            let ghost before = pure_literals@;
            if pos[v] && !neg[v] {
                pure_literals.push(Literal::new(v as i32));
            } else if neg[v] && !pos[v] {
                pure_literals.push(Literal::new(-(v as i32)));
            }
            proof {
                assert forall|x: int| valid_lit_value(x) && var_of(x) < v + 1 && #[trigger] pure_literal(cs, model, x)
                    implies exists|k: int| 0 <= k < pure_literals@.len() && (#[trigger] pure_literals@[k])@ == x by {
                    if var_of(x) < v {
                        let k = choose|k: int| 0 <= k < before.len() && (#[trigger] before[k])@ == x;
                        assert(pure_literals@[k] == before[k]);
                    } else {
                        assert(pure_literals@[before.len() as int]@ == x);
                    }
                }
            }
        }
        pure_literals
    }
}


impl Formula {
    /// The first unit clause (by index) and its unassigned literal, if any.
    fn find_unit(&self) -> (r: Option<(usize, Literal)>)
        requires
            self.wf(),
        ensures
            r is None ==> forall|c: int| 0 <= c < self.clauses@.len() ==> !clause_unit(#[trigger] self.clauses@[c]@, self.assignment@),
            r matches Some(p) ==> p.0 < self.clauses@.len() && p.1.wf() && p.1.var() < self.n_vars()
                && p.1.eval_spec(self.assignment@) is None
                && exists|k: int| #[trigger] unit_at(self.clauses@[p.0 as int]@, self.assignment@, k) && self.clauses@[p.0 as int]@[k] == p.1,
    {
        for idx in 0..self.clauses.len()
            invariant
                self.wf(),
                forall|c: int| 0 <= c < idx ==> !clause_unit(#[trigger] self.clauses@[c]@, self.assignment@),
        {
            proof { assert(self.clause_fits(self.clauses@[idx as int])); }
            match self.clauses[idx].get_unit_literal(&self.assignment) {
                Some(l) => {
                    proof {
                        let k = choose|k: int| unit_at(self.clauses@[idx as int]@, self.assignment@, k) && self.clauses@[idx as int]@[k] == *l;
                        assert(self.clauses@[idx as int]@[k].wf());
                        assert(self.clauses@[idx as int]@[k].var() < self.n_vars());
                        assert(unit_at(self.clauses@[idx as int]@, self.assignment@, k));
                        assert(l.eval_spec(self.assignment@) is None);
                        assert(exists|k: int| #[trigger] unit_at(self.clauses@[idx as int]@, self.assignment@, k)
                            && self.clauses@[idx as int]@[k] == *l);
                    }
                    let found = (idx, *l);
                    assert(found.0 == idx && found.1 == *l);
                    return Some(found);
                },
                None => {},
            }
        }
        None
    }

    /// Assigns unit literals (recording them in `history`, with their clause as reason, when
    /// given) until no clause is unit; returns whether anything was assigned.
    pub fn unit_propagate(&mut self, history: Option<&mut History>) -> (r: bool)
        requires
            old(self).wf(),
            history matches Some(h) ==> old(self).tracks(h),
        ensures
            final(self).wf(),
            history matches Some(h) ==> final(self).tracks(final(h))
                && final(h).decision_levels@.len() == h.decision_levels@.len(),
            crate::formula::propagation::extends(final(self).assignment@, old(self).assignment@),
            forall|c: int| 0 <= c < final(self).clauses@.len() ==> !clause_unit(#[trigger] final(self).clauses@[c]@, final(self).assignment@),
            r <==> final(self).assignment@ != old(self).assignment@,
            satisfiable_from(old(self).clauses@, old(self).assignment@) ==> satisfiable_from(final(self).clauses@, final(self).assignment@),
            final(self).clauses@.len() == old(self).clauses@.len(),
            forall|i: int| 0 <= i < old(self).clauses@.len() ==> (#[trigger] final(self).clauses@[i])@ == old(self).clauses@[i]@,
    {
        match history {
            Some(h) => self.unit_propagate_tracking(h),
            None => self.unit_propagate_plain(),
        }
    }

    fn unit_propagate_tracking(&mut self, history: &mut History) -> (r: bool)
        requires
            old(self).wf(),
            old(self).tracks(old(history)),
        ensures
            final(self).wf(),
            final(self).tracks(final(history)),
            final(history).decision_levels@.len() == old(history).decision_levels@.len(),
            crate::formula::propagation::extends(final(self).assignment@, old(self).assignment@),
            forall|c: int| 0 <= c < final(self).clauses@.len() ==> !clause_unit(#[trigger] final(self).clauses@[c]@, final(self).assignment@),
            r <==> final(self).assignment@ != old(self).assignment@,
            satisfiable_from(old(self).clauses@, old(self).assignment@) ==> satisfiable_from(final(self).clauses@, final(self).assignment@),
            final(self).clauses@.len() == old(self).clauses@.len(),
            forall|i: int| 0 <= i < old(self).clauses@.len() ==> (#[trigger] final(self).clauses@[i])@ == old(self).clauses@[i]@,
    {
        let mut progress = false;
        loop
            invariant
                self.wf(),
                self.tracks(history),
                history.decision_levels@.len() == old(history).decision_levels@.len(),
                crate::formula::propagation::extends(self.assignment@, old(self).assignment@),
                self.clauses@.len() == old(self).clauses@.len(),
                forall|i: int| 0 <= i < old(self).clauses@.len() ==> (#[trigger] self.clauses@[i])@ == old(self).clauses@[i]@,
                progress <==> self.assignment@ != old(self).assignment@,
                progress ==> count_none(self.assignment@) < count_none(old(self).assignment@),
                satisfiable_from(old(self).clauses@, old(self).assignment@) ==> satisfiable_from(old(self).clauses@, self.assignment@),
            ensures
                forall|c: int| 0 <= c < self.clauses@.len() ==> !clause_unit(#[trigger] self.clauses@[c]@, self.assignment@),
            decreases count_none(self.assignment@),
        {
            let ghost before = *self;
            match self.find_unit() {
                None => {
                    break;
                },
                Some((idx, lit)) => {
                    self.assign_implication(lit, history, Some(idx));
                    proof {
                        lemma_unit_step(old(self).clauses@, before.clauses@, before.assignment@, self.assignment@, idx as int, lit);
                        lemma_count_none_assign(before.assignment@, lit.var() as int, !lit.neg_spec());
                        assert(self.assignment@[lit.var() as int] != before.assignment@[lit.var() as int]);
                        assert forall|i: int| 0 <= i < old(self).clauses@.len() implies (#[trigger] self.clauses@[i])@ == old(self).clauses@[i]@ by {
                            assert(crate::formula::database::same_but_lock(self.clauses@[i], before.clauses@[i]));
                        }
                        assert forall|v: int| 0 <= v < old(self).assignment@.len() && #[trigger] old(self).assignment@[v] is Some implies
                            self.assignment@[v] == old(self).assignment@[v] by {
                            assert(before.assignment@[v] == old(self).assignment@[v]);
                        }
                    }
                    progress = true;
                },
            }
        }
        progress
    }

    fn unit_propagate_plain(&mut self) -> (r: bool)
        requires
            old(self).wf(),
        ensures
            final(self).wf(),
            crate::formula::propagation::extends(final(self).assignment@, old(self).assignment@),
            forall|c: int| 0 <= c < final(self).clauses@.len() ==> !clause_unit(#[trigger] final(self).clauses@[c]@, final(self).assignment@),
            r <==> final(self).assignment@ != old(self).assignment@,
            satisfiable_from(old(self).clauses@, old(self).assignment@) ==> satisfiable_from(final(self).clauses@, final(self).assignment@),
            final(self).clauses == old(self).clauses,
    {
        let mut progress = false;
        loop
            invariant
                self.wf(),
                crate::formula::propagation::extends(self.assignment@, old(self).assignment@),
                self.clauses == old(self).clauses,
                progress <==> self.assignment@ != old(self).assignment@,
                progress ==> count_none(self.assignment@) < count_none(old(self).assignment@),
                satisfiable_from(old(self).clauses@, old(self).assignment@) ==> satisfiable_from(old(self).clauses@, self.assignment@),
            ensures
                forall|c: int| 0 <= c < self.clauses@.len() ==> !clause_unit(#[trigger] self.clauses@[c]@, self.assignment@),
            decreases count_none(self.assignment@),
        {
            let ghost before = *self;
            match self.find_unit() {
                None => {
                    break;
                },
                Some((idx, lit)) => {
                    self.assignment.assign_literal(lit);
                    proof {
                        lemma_unit_step(old(self).clauses@, before.clauses@, before.assignment@, self.assignment@, idx as int, lit);
                        lemma_count_none_assign(before.assignment@, lit.var() as int, !lit.neg_spec());
                        assert(self.assignment@[lit.var() as int] != before.assignment@[lit.var() as int]);
                        assert forall|c: int| 0 <= c < self.clauses@.len() implies self.clause_fits(#[trigger] self.clauses@[c]) by {
                            assert(before.clause_fits(before.clauses@[c]));
                        }
                        assert forall|v: int| 0 <= v < old(self).assignment@.len() && #[trigger] old(self).assignment@[v] is Some implies
                            self.assignment@[v] == old(self).assignment@[v] by {
                            assert(before.assignment@[v] == old(self).assignment@[v]);
                        }
                    }
                    progress = true;
                },
            }
        }
        progress
    }
}


impl Formula {
    /// Assigns pure literals one at a time (the one with the smallest variable first; recorded in
    /// `history` without a reason when given) until none is left; returns whether anything was
    /// assigned.
    pub fn pure_literals_propagate(&mut self, history: Option<&mut History>) -> (r: bool)
        requires
            old(self).wf(),
            history matches Some(h) ==> old(self).tracks(h),
        ensures
            final(self).wf(),
            history matches Some(h) ==> final(self).tracks(final(h))
                && final(h).decision_levels@.len() == h.decision_levels@.len(),
            crate::formula::propagation::extends(final(self).assignment@, old(self).assignment@),
            forall|x: int| valid_lit_value(x) && var_of(x) < final(self).n_vars() ==> !#[trigger] pure_literal(final(self).clauses@, final(self).assignment@, x),
            r <==> final(self).assignment@ != old(self).assignment@,
            satisfiable_from(old(self).clauses@, old(self).assignment@) ==> satisfiable_from(final(self).clauses@, final(self).assignment@),
            final(self).clauses@.len() == old(self).clauses@.len(),
            forall|i: int| 0 <= i < old(self).clauses@.len() ==> (#[trigger] final(self).clauses@[i])@ == old(self).clauses@[i]@,
    {
        match history {
            Some(h) => self.pure_propagate_tracking(h),
            None => self.pure_propagate_plain(),
        }
    }

    fn pure_propagate_tracking(&mut self, history: &mut History) -> (r: bool)
        requires
            old(self).wf(),
            old(self).tracks(old(history)),
        ensures
            final(self).wf(),
            final(self).tracks(final(history)),
            final(history).decision_levels@.len() == old(history).decision_levels@.len(),
            crate::formula::propagation::extends(final(self).assignment@, old(self).assignment@),
            forall|x: int| valid_lit_value(x) && var_of(x) < final(self).n_vars() ==> !#[trigger] pure_literal(final(self).clauses@, final(self).assignment@, x),
            r <==> final(self).assignment@ != old(self).assignment@,
            satisfiable_from(old(self).clauses@, old(self).assignment@) ==> satisfiable_from(final(self).clauses@, final(self).assignment@),
            final(self).clauses@.len() == old(self).clauses@.len(),
            forall|i: int| 0 <= i < old(self).clauses@.len() ==> (#[trigger] final(self).clauses@[i])@ == old(self).clauses@[i]@,
    {
        let mut progress = false;
        loop
            invariant
                self.wf(),
                self.tracks(history),
                history.decision_levels@.len() == old(history).decision_levels@.len(),
                crate::formula::propagation::extends(self.assignment@, old(self).assignment@),
                self.clauses@.len() == old(self).clauses@.len(),
                forall|i: int| 0 <= i < old(self).clauses@.len() ==> (#[trigger] self.clauses@[i])@ == old(self).clauses@[i]@,
                progress <==> self.assignment@ != old(self).assignment@,
                progress ==> count_none(self.assignment@) < count_none(old(self).assignment@),
                satisfiable_from(old(self).clauses@, old(self).assignment@) ==> satisfiable_from(old(self).clauses@, self.assignment@),
            ensures
                forall|x: int| valid_lit_value(x) && var_of(x) < self.n_vars() ==> !#[trigger] pure_literal(self.clauses@, self.assignment@, x),
            decreases count_none(self.assignment@),
        {
            let ghost before = *self;
            let pure_literals = self.get_pure_literals();
            if pure_literals.len() == 0 {
                break;
            }
            let pure = pure_literals[0];
            proof {
                lemma_pure_unassigned(self.clauses@, self.assignment@, pure@);
            }
            self.assign_implication(pure, history, None);
            proof {
                lemma_pure_step(old(self).clauses@, before.clauses@, before.assignment@, self.assignment@, pure);
                lemma_count_none_assign(before.assignment@, pure.var() as int, !pure.neg_spec());
                assert(self.assignment@[pure.var() as int] != before.assignment@[pure.var() as int]);
                assert forall|i: int| 0 <= i < old(self).clauses@.len() implies (#[trigger] self.clauses@[i])@ == old(self).clauses@[i]@ by {
                    assert(crate::formula::database::same_but_lock(self.clauses@[i], before.clauses@[i]));
                }
                assert forall|v: int| 0 <= v < old(self).assignment@.len() && #[trigger] old(self).assignment@[v] is Some implies
                    self.assignment@[v] == old(self).assignment@[v] by {
                    assert(before.assignment@[v] == old(self).assignment@[v]);
                }
            }
            progress = true;
        }
        progress
    }

    fn pure_propagate_plain(&mut self) -> (r: bool)
        requires
            old(self).wf(),
        ensures
            final(self).wf(),
            crate::formula::propagation::extends(final(self).assignment@, old(self).assignment@),
            forall|x: int| valid_lit_value(x) && var_of(x) < final(self).n_vars() ==> !#[trigger] pure_literal(final(self).clauses@, final(self).assignment@, x),
            r <==> final(self).assignment@ != old(self).assignment@,
            satisfiable_from(old(self).clauses@, old(self).assignment@) ==> satisfiable_from(final(self).clauses@, final(self).assignment@),
            final(self).clauses == old(self).clauses,
    {
        let mut progress = false;
        loop
            invariant
                self.wf(),
                crate::formula::propagation::extends(self.assignment@, old(self).assignment@),
                self.clauses == old(self).clauses,
                progress <==> self.assignment@ != old(self).assignment@,
                progress ==> count_none(self.assignment@) < count_none(old(self).assignment@),
                satisfiable_from(old(self).clauses@, old(self).assignment@) ==> satisfiable_from(old(self).clauses@, self.assignment@),
            ensures
                forall|x: int| valid_lit_value(x) && var_of(x) < self.n_vars() ==> !#[trigger] pure_literal(self.clauses@, self.assignment@, x),
            decreases count_none(self.assignment@),
        {
            let ghost before = *self;
            let pure_literals = self.get_pure_literals();
            if pure_literals.len() == 0 {
                break;
            }
            let pure = pure_literals[0];
            proof {
                lemma_pure_unassigned(self.clauses@, self.assignment@, pure@);
            }
            self.assignment.assign_literal(pure);
            proof {
                lemma_pure_step(old(self).clauses@, before.clauses@, before.assignment@, self.assignment@, pure);
                lemma_count_none_assign(before.assignment@, pure.var() as int, !pure.neg_spec());
                assert(self.assignment@[pure.var() as int] != before.assignment@[pure.var() as int]);
                assert forall|c: int| 0 <= c < self.clauses@.len() implies self.clause_fits(#[trigger] self.clauses@[c]) by {
                    assert(before.clause_fits(before.clauses@[c]));
                }
                assert forall|v: int| 0 <= v < old(self).assignment@.len() && #[trigger] old(self).assignment@[v] is Some implies
                    self.assignment@[v] == old(self).assignment@[v] by {
                    assert(before.assignment@[v] == old(self).assignment@[v]);
                }
            }
            progress = true;
        }
        progress
    }
}

/// A pure literal is unassigned.
proof fn lemma_pure_unassigned(cs: Seq<crate::formula::clause::Clause>, model: Seq<Option<bool>>, x: int)
    requires
        pure_literal(cs, model, x),
    ensures
        exists|c: int, i: int| 0 <= c < cs.len() && 0 <= i < cs[c]@.len() && (#[trigger] cs[c]@[i])@ == x
            && cs[c]@[i].eval_spec(model) is None,
{
    let c = choose|c: int| 0 <= c < cs.len() && #[trigger] open_occurrence(cs, model, c, x);
    let i = choose|i: int| 0 <= i < cs[c]@.len() && (#[trigger] cs[c]@[i])@ == x && cs[c]@[i].eval_spec(model) is None;
}

} // verus!
