use vstd::prelude::*;
use std::collections::VecDeque;
use crate::formula::{Formula, bump_lock, count_in};
use crate::formula::clause::{Clause, clause_falsified, clause_sat};
use crate::formula::literal::unsigned_index_of;
use crate::formula::literal::Literal;
use crate::formula::simplify::{satisfiable_from, lemma_forced_step, lemma_satisfiable_same_views};
use crate::history::History;
use crate::two_watched::Watched;

verus! {

/// Number of unassigned variables.
pub open spec fn count_none(s: Seq<Option<bool>>) -> nat
    decreases s.len(),
{
    if s.len() == 0 {
        0
    } else {
        count_none(s.drop_last()) + if s.last() is None { 1nat } else { 0nat }
    }
}

/// Assigning an unassigned variable leaves one fewer unassigned variable.
pub proof fn lemma_count_none_assign(s: Seq<Option<bool>>, v: int, b: bool)
    requires
        0 <= v < s.len(),
        s[v] is None,
    ensures
        count_none(s.update(v, Some(b))) + 1 == count_none(s),
    decreases s.len(),
{
    let t = s.update(v, Some(b));
    if v == s.len() - 1 {
        assert(t.drop_last() =~= s.drop_last());
    } else {
        assert(t.drop_last() =~= s.drop_last().update(v, Some(b)));
        lemma_count_none_assign(s.drop_last(), v, b);
    }
}

/// `new` keeps every value of `old` and may assign more variables.
pub open spec fn extends(new: Seq<Option<bool>>, old: Seq<Option<bool>>) -> bool {
    &&& new.len() == old.len()
    &&& forall|v: int| 0 <= v < old.len() && #[trigger] old[v] is Some ==> new[v] == old[v]
}

/// Literals that can stand in the propagation queue of a formula with `n` variable slots.
pub open spec fn queue_ok(q: Seq<Literal>, n: nat) -> bool {
    forall|i: int| 0 <= i < q.len() ==> (#[trigger] q[i]).wf() && q[i].var() < n
}

/// Number of watched positions of `c` that hold a literal with dense index `u`.
pub open spec fn watch_count(c: Clause, u: nat) -> nat {
    match c.watched {
        Watched::Unwatched => 0,
        Watched::One(i) => if c@[i as int].uidx() == u { 1 } else { 0 },
        Watched::Two(i, j) => (if c@[i as int].uidx() == u { 1nat } else { 0nat })
            + (if c@[j as int].uidx() == u { 1nat } else { 0nat }),
    }
}

/// A clause watched on a single position holds a single literal.
pub open spec fn single_watch_ok(c: Clause) -> bool {
    c.watched is One ==> c@.len() == 1
}

/// Variable `v` had a level in `h0`, or is the variable of an implication that `h` records at
/// its current level from entry `from` on.
pub open spec fn recorded_since(h0: History, h: History, from: int, v: nat) -> bool {
    ||| h0.implication_levels_indexes.level_of_var(v) is Some
    ||| exists|k: int| 0 <= k && from <= k < h.decision_levels@.last().implied_literals@.len()
        && (#[trigger] h.decision_levels@.last().implied_literals@[k]).0.var() == v
}

/// Going from `a0`/`h0` to `a`/`h`, every newly assigned variable, and every variable that
/// gained a level, is recorded (see `recorded_since`).
pub open spec fn records_new(a0: Seq<Option<bool>>, a: Seq<Option<bool>>, h0: History, h: History, from: int) -> bool {
    &&& forall|v: int| 0 <= v < a.len() && v < a0.len() && a0[v] is None && (#[trigger] a[v]) is Some
        ==> recorded_since(h0, h, from, v as nat)
    &&& forall|v: nat| (#[trigger] h.implication_levels_indexes.level_of_var(v)) is Some ==> recorded_since(h0, h, from, v)
}

/// What is recorded stays recorded when the current level only gains entries.
proof fn lemma_recorded_grow(h0: History, h1: History, h2: History, from: int, v: nat)
    requires
        recorded_since(h0, h1, from, v),
        h1.decision_levels@.last().implied_literals@.is_prefix_of(h2.decision_levels@.last().implied_literals@),
    ensures
        recorded_since(h0, h2, from, v),
{
    if !(h0.implication_levels_indexes.level_of_var(v) is Some) {
        let e1 = h1.decision_levels@.last().implied_literals@;
        let e2 = h2.decision_levels@.last().implied_literals@;
        let k = choose|k: int| 0 <= k && from <= k < e1.len() && (#[trigger] e1[k]).0.var() == v;
        assert(e1.len() <= e2.len() && e1 == e2.subrange(0, e1.len() as int));
        assert(e2.subrange(0, e1.len() as int)[k] == e2[k]);
        assert(e2[k] == e1[k]);
    }
}

/// Two recording steps compose.
proof fn lemma_records_new_trans(a0: Seq<Option<bool>>, a1: Seq<Option<bool>>, a2: Seq<Option<bool>>,
    h0: History, h1: History, h2: History, from: int, mid: int)
    requires
        records_new(a0, a1, h0, h1, from),
        records_new(a1, a2, h1, h2, mid),
        extends(a1, a0),
        a2.len() == a1.len(),
        from <= mid,
        h1.decision_levels@.last().implied_literals@.is_prefix_of(h2.decision_levels@.last().implied_literals@),
    ensures
        records_new(a0, a2, h0, h2, from),
{
    assert forall|v: int| 0 <= v < a2.len() && v < a0.len() && a0[v] is None && (#[trigger] a2[v]) is Some
        implies recorded_since(h0, h2, from, v as nat) by {
        if a1[v] is Some {
            lemma_recorded_grow(h0, h1, h2, from, v as nat);
        } else {
            assert(recorded_since(h1, h2, mid, v as nat));
            if h1.implication_levels_indexes.level_of_var(v as nat) is Some {
                lemma_recorded_grow(h0, h1, h2, from, v as nat);
            }
        }
    }
    assert forall|v: nat| (#[trigger] h2.implication_levels_indexes.level_of_var(v)) is Some implies recorded_since(h0, h2, from, v) by {
        assert(recorded_since(h1, h2, mid, v));
        if h1.implication_levels_indexes.level_of_var(v) is Some {
            lemma_recorded_grow(h0, h1, h2, from, v);
        }
    }
}

/// Every variable unassigned in `a0` and assigned in `a` is the variable of a literal of `q`.
pub open spec fn queued_all(a0: Seq<Option<bool>>, a: Seq<Option<bool>>, q: Seq<Literal>) -> bool {
    forall|v: int| 0 <= v < a.len() && v < a0.len() && a0[v] is None && (#[trigger] a[v]) is Some
        ==> exists|k: int| 0 <= k < q.len() && (#[trigger] q[k]).var() == v
}

/// Queues of two successive stretches of assignments add up.
proof fn lemma_queued_concat(a0: Seq<Option<bool>>, a1: Seq<Option<bool>>, a2: Seq<Option<bool>>, q: Seq<Literal>, r: Seq<Literal>)
    requires
        queued_all(a0, a1, q),
        queued_all(a1, a2, r),
        extends(a1, a0),
        a2.len() == a1.len(),
    ensures
        queued_all(a0, a2, q + r),
{
    assert forall|v: int| 0 <= v < a2.len() && v < a0.len() && a0[v] is None && (#[trigger] a2[v]) is Some
        implies exists|k: int| 0 <= k < (q + r).len() && (#[trigger] (q + r)[k]).var() == v by {
        if a1[v] is Some {
            let k = choose|k: int| 0 <= k < q.len() && (#[trigger] q[k]).var() == v;
            assert((q + r)[k] == q[k]);
        } else {
            let k = choose|k: int| 0 <= k < r.len() && (#[trigger] r[k]).var() == v;
            assert((q + r)[q.len() + k] == r[k]);
        }
    }
}

/// Every literal of `q` is true under `a`.
pub open spec fn queue_true(q: Seq<Literal>, a: Seq<Option<bool>>) -> bool {
    forall|i: int| 0 <= i < q.len() ==> (#[trigger] q[i]).eval_spec(a) == Some(true)
}

proof fn lemma_count_in_concat(a: Seq<usize>, b: Seq<usize>, x: int)
    ensures
        count_in(a + b, x) == count_in(a, x) + count_in(b, x),
    decreases b.len(),
{
    if b.len() == 0 {
        assert(a + b =~= a);
    } else {
        lemma_count_in_concat(a, b.drop_last(), x);
        assert((a + b).drop_last() =~= a + b.drop_last());
    }
}

proof fn lemma_count_in_front(s: Seq<usize>, p: int, x: int)
    requires
        0 <= p < s.len(),
    ensures
        count_in(s.subrange(p, s.len() as int), x)
            == count_in(s.subrange(p + 1, s.len() as int), x) + if s[p] as int == x { 1nat } else { 0nat },
{
    let t = s.subrange(p + 1, s.len() as int);
    assert(s.subrange(p, s.len() as int) =~= seq![s[p]] + t);
    lemma_count_in_concat(seq![s[p]], t, x);
    assert(seq![s[p]].drop_last() =~= Seq::<usize>::empty());
    assert(count_in(Seq::<usize>::empty(), x) == 0);
    assert(count_in(seq![s[p]], x) == if s[p] as int == x { 1nat } else { 0nat });
}

proof fn lemma_count_in_push(s: Seq<usize>, y: usize, x: int)
    ensures
        count_in(s.push(y), x) == count_in(s, x) + if y as int == x { 1nat } else { 0nat },
{
    assert(s.push(y).drop_last() =~= s);
}

/// Well-formed literals with the same dense index are equal.
proof fn lemma_uidx_injective(a: Literal, b: Literal)
    requires
        a.wf(),
        b.wf(),
        a.uidx() == b.uidx(),
    ensures
        a == b,
{
    Literal::lemma_view_injective(a, b);
}

/// The implication `entry` (a literal and its reason clause) holds under `a` in `cs`: the literal
/// is true, and its reason clause holds it and has every other literal false.
pub open spec fn implication_justified(entry: (Literal, Option<usize>), cs: Seq<Clause>, a: Seq<Option<bool>>) -> bool {
    &&& entry.0.eval_spec(a) == Some(true)
    &&& entry.1 matches Some(c)
    &&& c < cs.len()
    &&& cs[c as int]@.contains(entry.0)
    &&& forall|j: int| 0 <= j < cs[c as int]@.len() && cs[c as int]@[j] != entry.0
        ==> (#[trigger] cs[c as int]@[j]).eval_spec(a) == Some(false)
}

/// Every implication of `entries` from position `from` on is justified under `a` in `cs`.
pub open spec fn implications_justified(entries: Seq<(Literal, Option<usize>)>, from: int, cs: Seq<Clause>,
    a: Seq<Option<bool>>) -> bool {
    forall|i: int| from <= i < entries.len() ==> implication_justified(#[trigger] entries[i], cs, a)
}

/// A justified implication stays justified when the assignment only grows and the clauses keep
/// their literals.
pub proof fn lemma_justified_stable(entries: Seq<(Literal, Option<usize>)>, from: int, cs: Seq<Clause>,
    a: Seq<Option<bool>>, cs2: Seq<Clause>, a2: Seq<Option<bool>>)
    requires
        implications_justified(entries, from, cs, a),
        extends(a2, a),
        cs2.len() == cs.len(),
        forall|c: int| 0 <= c < cs.len() ==> (#[trigger] cs2[c])@ == cs[c]@,
    ensures
        implications_justified(entries, from, cs2, a2),
{
    assert forall|i: int| from <= i < entries.len() implies implication_justified(#[trigger] entries[i], cs2, a2) by {
        let e = entries[i];
        assert(implication_justified(e, cs, a));
        assert(a[e.0.var() as int] is Some);
        let c = e.1->0;
        assert(cs2[c as int]@ == cs[c as int]@);
        assert forall|j: int| 0 <= j < cs2[c as int]@.len() && cs2[c as int]@[j] != e.0
            implies (#[trigger] cs2[c as int]@[j]).eval_spec(a2) == Some(false) by {
            assert(cs[c as int]@[j].eval_spec(a) == Some(false));
            assert(a[cs[c as int]@[j].var() as int] is Some);
        }
    }
}

/// Sound watch lists stay sound when only locks and the assignment change.
pub proof fn lemma_watch_lists_sound_same_but_lock(f: Formula, g: Formula)
    requires
        f.watch_lists_sound(),
        g.watch == f.watch,
        g.clauses@.len() == f.clauses@.len(),
        forall|i: int| 0 <= i < f.clauses@.len() ==> #[trigger] crate::formula::database::same_but_lock(g.clauses@[i], f.clauses@[i]),
    ensures
        g.watch_lists_sound(),
{
    assert forall|u: int, c: int| #![trigger count_in(g.watch@[u], c)]
        0 <= u < g.watch@.len() && 0 <= c < g.clauses@.len() implies
        count_in(g.watch@[u], c) <= watch_count(g.clauses@[c], u as nat) by {
        assert(crate::formula::database::same_but_lock(g.clauses@[c], f.clauses@[c]));
        assert(count_in(f.watch@[u], c) <= watch_count(f.clauses@[c], u as nat));
    }
    assert forall|c: int| 0 <= c < g.clauses@.len() implies single_watch_ok(#[trigger] g.clauses@[c]) by {
        assert(crate::formula::database::same_but_lock(g.clauses@[c], f.clauses@[c]));
        assert(single_watch_ok(f.clauses@[c]));
    }
}

/// Every clause in the watch list with dense index `u` is satisfied.
pub open spec fn watchers_satisfied(f: Formula, u: int) -> bool {
    forall|k: int| 0 <= k < f.watch@[u].len() ==> clause_sat(f.clauses@[#[trigger] f.watch@[u][k] as int]@, f.assignment@)
}

/// A literal with the dense index of the negation of a true literal is false.
proof fn lemma_negation_false(q: Literal, l: Literal, a: Seq<Option<bool>>)
    requires
        q.wf(),
        l.wf(),
        l.uidx() == unsigned_index_of(-q@),
        q.eval_spec(a) == Some(true),
    ensures
        l.eval_spec(a) == Some(false),
{
    assert(l@ == -q@);
}

/// A satisfied clause stays satisfied when the assignment only grows.
proof fn lemma_sat_extends(c: Seq<Literal>, a: Seq<Option<bool>>, a2: Seq<Option<bool>>)
    requires
        clause_sat(c, a),
        extends(a2, a),
    ensures
        clause_sat(c, a2),
{
    let i = choose|i: int| 0 <= i < c.len() && (#[trigger] c[i]).eval_spec(a) == Some(true);
    assert(a[c[i].var() as int] is Some);
    assert(c[i].eval_spec(a2) == Some(true));
}

/// What propagation may change: watches, locks and the assignment (only by extending it).
pub open spec fn propagation_step(new: Formula, old: Formula) -> bool {
    &&& new.clauses@.len() == old.clauses@.len()
    &&& forall|i: int| 0 <= i < old.clauses@.len() ==> {
        &&& (#[trigger] new.clauses@[i])@ == old.clauses@[i]@
        &&& new.clauses@[i].lbd == old.clauses@[i].lbd
        &&& new.clauses@[i].bva_generated == old.clauses@[i].bva_generated
        &&& new.clauses@[i].lock_count >= old.clauses@[i].lock_count
        &&& (new.clauses@[i].watched is One <==> old.clauses@[i].watched is One)
    }
    &&& extends(new.assignment@, old.assignment@)
    &&& new.watch@.len() == old.watch@.len()
    &&& new.occurrence == old.occurrence
    &&& new.stats == old.stats
    &&& new.extensions == old.extensions
    &&& new.self_subsuming == old.self_subsuming
}

pub proof fn lemma_propagation_step_trans(a: Formula, b: Formula, c: Formula)
    requires
        propagation_step(b, a),
        propagation_step(c, b),
    ensures
        propagation_step(c, a),
{
    assert forall|i: int| 0 <= i < a.clauses@.len() implies {
        &&& (#[trigger] c.clauses@[i])@ == a.clauses@[i]@
        &&& c.clauses@[i].lbd == a.clauses@[i].lbd
        &&& c.clauses@[i].bva_generated == a.clauses@[i].bva_generated
        &&& c.clauses@[i].lock_count >= a.clauses@[i].lock_count
        &&& (c.clauses@[i].watched is One <==> a.clauses@[i].watched is One)
    } by {
        assert(b.clauses@[i]@ == a.clauses@[i]@);
    }
    assert forall|v: int| 0 <= v < a.assignment@.len() && #[trigger] a.assignment@[v] is Some implies
        c.assignment@[v] == a.assignment@[v] by {
        assert(b.assignment@[v] == a.assignment@[v]);
    }
}

impl Formula {
    /// Each clause stands in the watch list of a literal at most as often as it watches that
    /// literal, and a clause watched on a single position holds a single literal.
    pub open spec fn watch_lists_sound(&self) -> bool {
        &&& forall|u: int, c: int| #![trigger count_in(self.watch@[u], c)]
            0 <= u < self.watch@.len() && 0 <= c < self.clauses@.len() ==>
            count_in(self.watch@[u], c) <= watch_count(self.clauses@[c], u as nat)
        &&& forall|c: int| 0 <= c < self.clauses@.len() ==> single_watch_ok(#[trigger] self.clauses@[c])
    }

    /// Handles the clause `clause_idx` of the watch list of `false_lit` (a literal that just became
    /// false): the clause keeps its watch, moves it to another non-false literal, propagates its
    /// other watched literal, or is reported as the conflict. Returns whether the clause stays on the
    /// list and whether it is the conflict.
    fn visit_watcher(&mut self, clause_idx: usize, false_lit: Literal, history: &mut History,
        queue: &mut VecDeque<Literal>) -> (r: (bool, bool))
        requires
            old(self).wf(),
            old(self).tracks(old(history)),
            clause_idx < old(self).clauses@.len(),
            false_lit.wf(),
            false_lit.var() < old(self).n_vars(),
            queue_ok(old(queue)@, old(self).n_vars()),
        ensures
            final(self).wf(),
            final(self).tracks(final(history)),
            final(history).decision_levels@.len() == old(history).decision_levels@.len(),
            propagation_step(*final(self), *old(self)),
            final(self).watch@.len() == old(self).watch@.len(),
            forall|u: int| 0 <= u < old(self).watch@.len() ==>
                old(self).watch@[u].is_prefix_of(#[trigger] final(self).watch@[u]),
            queue_ok(final(queue)@, final(self).n_vars()),
            old(queue)@.is_prefix_of(final(queue)@),
            final(queue)@.len() - old(queue)@.len() == count_none(old(self).assignment@) - count_none(final(self).assignment@),
            r.1 ==> r.0,
            queue_true(old(queue)@, old(self).assignment@) ==> queue_true(final(queue)@, final(self).assignment@),
            (watch_count(old(self).clauses@[clause_idx as int], false_lit.uidx()) >= 1
                && false_lit.eval_spec(old(self).assignment@) == Some(false)) ==> {
                &&& forall|u: int, c: int| #![trigger count_in(final(self).watch@[u], c)]
                    0 <= u < old(self).watch@.len() && 0 <= c < old(self).clauses@.len() ==>
                    watch_count(final(self).clauses@[c], u as nat) - count_in(final(self).watch@[u], c)
                        == watch_count(old(self).clauses@[c], u as nat) - count_in(old(self).watch@[u], c)
                            - (if !r.0 && c == clause_idx && u == false_lit.uidx() { 1int } else { 0int })
                &&& (r.1 && single_watch_ok(old(self).clauses@[clause_idx as int]))
                    ==> clause_falsified(final(self).clauses@[clause_idx as int]@, final(self).assignment@)
                &&& implications_justified(final(history).decision_levels@.last().implied_literals@,
                    old(history).decision_levels@.last().implied_literals@.len() as int, final(self).clauses@, final(self).assignment@)
            },
            old(history).decision_levels@.last().implied_literals@.is_prefix_of(final(history).decision_levels@.last().implied_literals@),
            (watch_count(old(self).clauses@[clause_idx as int], false_lit.uidx()) >= 1
                && false_lit.eval_spec(old(self).assignment@) == Some(false) && r.0 && !r.1)
                ==> clause_sat(final(self).clauses@[clause_idx as int]@, final(self).assignment@),
            forall|u: int| 0 <= u < old(self).watch@.len() && final(self).watch@[u] != old(self).watch@[u] ==>
                exists|l: Literal| l.wf() && l.uidx() == u && #[trigger] l.eval_spec(final(self).assignment@) != Some(false),
            records_new(old(self).assignment@, final(self).assignment@, *old(history), *final(history),
                old(history).decision_levels@.last().implied_literals@.len() as int),
            queued_all(old(self).assignment@, final(self).assignment@,
                final(queue)@.subrange(old(queue)@.len() as int, final(queue)@.len() as int)),
            (watch_count(old(self).clauses@[clause_idx as int], false_lit.uidx()) >= 1
                && false_lit.eval_spec(old(self).assignment@) == Some(false)
                && satisfiable_from(old(self).clauses@, old(self).assignment@))
                ==> satisfiable_from(old(self).clauses@, final(self).assignment@),
    {
        let ghost n = self.n_vars();
        let ghost old_self = *self;
        let ghost premise = watch_count(old_self.clauses@[clause_idx as int], false_lit.uidx()) >= 1
            && false_lit.eval_spec(old_self.assignment@) == Some(false);
        proof {
            assert(self.clause_fits(self.clauses@[clause_idx as int]));
        }
        let (false_idx, other_idx) = match self.clauses[clause_idx].watched {
            Watched::Two(i, j) => {
                if self.clauses[clause_idx].literals[i] == false_lit {
                    (i, j)
                } else {
                    proof {
                        let cl = self.clauses@[clause_idx as int]@;
                        if premise && cl[i as int].uidx() == false_lit.uidx() {
                            lemma_uidx_injective(cl[i as int], false_lit);
                        }
                        if premise {
                            assert(cl[j as int].uidx() == false_lit.uidx());
                            lemma_uidx_injective(cl[j as int], false_lit);
                        }
                    }
                    (j, i)
                }
            }
            Watched::One(i) => {
                let conflict = self.clauses[clause_idx].literals[i] == false_lit;
                proof {
                    if premise && !conflict {
                        let cl = self.clauses@[clause_idx as int]@;
                        assert(cl[i as int].uidx() == false_lit.uidx());
                        lemma_uidx_injective(cl[i as int], false_lit);
                    }
                    if premise && conflict && single_watch_ok(old_self.clauses@[clause_idx as int]) {
                        let cl = self.clauses@[clause_idx as int]@;
                        assert(cl[0] == false_lit);
                    }
                }
                return (true, conflict);
            }
            Watched::Unwatched => {
                return (true, false);
            }
        };
        let len = self.clauses[clause_idx].literals.len();
        let other_lit = self.clauses[clause_idx].literals[other_idx];
        proof {
            assert(self.clauses@[clause_idx as int]@[other_idx as int].wf());
            assert(self.clauses@[clause_idx as int]@[other_idx as int].var() < n);
        }
        if self.assignment.eval(&other_lit) == Some(true) {
            proof {
                assert(self.clauses@[clause_idx as int]@[other_idx as int] == other_lit);
            }
            return (true, false);
        }
        let mut k: usize = 0;
        while k < len
            invariant
                *self == old_self,
                old_self == *old(self),
                *history == *old(history),
                *queue == *old(queue),
                queue_ok(queue@, n),
                n == old_self.n_vars(),
                old_self.tracks(history),
                len == self.clauses@[clause_idx as int]@.len(),
                self.wf(),
                clause_idx < self.clauses@.len(),
                false_idx < len,
                other_idx < len,
                false_idx != other_idx,
                self.clauses@[clause_idx as int].watched == Watched::Two(false_idx, other_idx)
                    || self.clauses@[clause_idx as int].watched == Watched::Two(other_idx, false_idx),
                premise == (watch_count(old_self.clauses@[clause_idx as int], false_lit.uidx()) >= 1
                    && false_lit.eval_spec(old_self.assignment@) == Some(false)),
                premise ==> self.clauses@[clause_idx as int]@[false_idx as int] == false_lit,
                other_lit == self.clauses@[clause_idx as int]@[other_idx as int],
                forall|kk: int| 0 <= kk < k && kk != false_idx && kk != other_idx ==>
                    (#[trigger] self.clauses@[clause_idx as int]@[kk]).eval_spec(self.assignment@) == Some(false),
            decreases len - k,
        {
            if k != false_idx && k != other_idx {
                let candidate = self.clauses[clause_idx].literals[k];
                proof {
                    assert(self.clause_fits(self.clauses@[clause_idx as int]));
                    assert(self.clauses@[clause_idx as int]@[k as int].wf());
                    assert(self.clauses@[clause_idx as int]@[k as int].var() < n);
                }
                let value = self.assignment.eval(&candidate);
                let candidate_false = match value {
                    Some(b) => !b,
                    None => false,
                };
                if !candidate_false {
                    let ghost before = self.clauses@;
                    let ghost before_watch = self.watch@;
                    self.clauses[clause_idx].watched = Watched::Two(k, other_idx);
                    self.watch.add_to_watchlist(clause_idx, &candidate);
                    proof {
                        assert forall|c: int| 0 <= c < self.clauses@.len() implies self.clause_fits(#[trigger] self.clauses@[c]) by {
                            assert(old_self.clause_fits(old_self.clauses@[c]));
                        }
                        assert forall|u: int, kk: int| 0 <= u < self.watch@.len() && 0 <= kk < self.watch@[u].len()
                            implies #[trigger] self.watch@[u][kk] < self.clauses@.len() by {
                            if u != candidate.uidx() as int || kk < old_self.watch@[u].len() {
                                assert(self.watch@[u][kk] == old_self.watch@[u][kk]);
                            }
                        }
                        assert forall|u: int| 0 <= u < old_self.watch@.len() implies
                            old_self.watch@[u].is_prefix_of(#[trigger] self.watch@[u]) by {
                            if u == candidate.uidx() as int {
                                assert(self.watch@[u] =~= old_self.watch@[u].push(clause_idx));
                            }
                        }
                        assert(count_none(old_self.assignment@) == count_none(self.assignment@));
                        assert(self.n_vars() == n);
                        assert forall|u: int| 0 <= u < old_self.watch@.len() && self.watch@[u] != old_self.watch@[u] implies
                            exists|l: Literal| l.wf() && l.uidx() == u && #[trigger] l.eval_spec(self.assignment@) != Some(false) by {
                            assert(u == candidate.uidx());
                            assert(candidate.eval_spec(self.assignment@) != Some(false));
                        }
                        assert(queue_ok(queue@, n));
                        assert forall|i: int| 0 <= i < old_self.clauses@.len() implies {
                            &&& (#[trigger] self.clauses@[i])@ == old_self.clauses@[i]@
                            &&& self.clauses@[i].lbd == old_self.clauses@[i].lbd
                            &&& self.clauses@[i].bva_generated == old_self.clauses@[i].bva_generated
                            &&& self.clauses@[i].lock_count >= old_self.clauses@[i].lock_count
                            &&& (self.clauses@[i].watched is One <==> old_self.clauses@[i].watched is One)
                        } by {
                        }
                        if premise {
                            let cl = old_self.clauses@[clause_idx as int]@;
                            assert(candidate != false_lit);
                            if candidate.uidx() == false_lit.uidx() {
                                lemma_uidx_injective(candidate, false_lit);
                            }
                            assert forall|u: int, c: int| #![trigger count_in(self.watch@[u], c)]
                                0 <= u < old_self.watch@.len() && 0 <= c < old_self.clauses@.len() implies
                                watch_count(self.clauses@[c], u as nat) - count_in(self.watch@[u], c)
                                    == watch_count(old_self.clauses@[c], u as nat) - count_in(old_self.watch@[u], c)
                                        - (if c == clause_idx && u == false_lit.uidx() { 1int } else { 0int }) by {
                                if u == candidate.uidx() as int {
                                    lemma_count_in_push(old_self.watch@[u], clause_idx, c);
                                } else {
                                    assert(self.watch@[u] == old_self.watch@[u]);
                                }
                                if c != clause_idx as int {
                                    assert(self.clauses@[c] == old_self.clauses@[c]);
                                } else {
                                    assert(cl[false_idx as int] == false_lit);
                                    assert(self.clauses@[c]@ == cl);
                                }
                            }
                        }
                    }
                    return (false, false);
                }
            }
            k = k + 1;
        }
        if self.assignment.eval(&other_lit) == Some(false) {
            proof {
                if premise {
                    let cl = self.clauses@[clause_idx as int]@;
                    assert forall|i: int| 0 <= i < cl.len() implies (#[trigger] cl[i]).eval_spec(self.assignment@) == Some(false) by {
                        if i != false_idx as int && i != other_idx as int {
                            assert(self.clauses@[clause_idx as int]@[i] == cl[i]);
                        }
                    }
                }
            }
            return (true, true);
        }
        let ghost before = *self;
        let ghost before_hist = *history;
        proof {
            if premise {
                let cl = self.clauses@[clause_idx as int]@;
                assert(cl == old_self.clauses@[clause_idx as int]@);
                assert(before.assignment@ == old_self.assignment@);
                assert forall|j: int| 0 <= j < cl.len() && cl[j] != other_lit implies (#[trigger] cl[j]).eval_spec(old_self.assignment@) == Some(false) by {
                    if j != false_idx as int && j != other_idx as int {
                        assert(self.clauses@[clause_idx as int]@[j] == cl[j]);
                    }
                }
                assert(other_lit.eval_spec(old_self.assignment@) is None);
                lemma_forced_step(old_self.clauses@, old_self.assignment@, clause_idx as int, other_lit);
            }
        }
        self.assignment.assign(other_lit.get_variable(), !other_lit.is_negated());
        history.add_implication(&other_lit, Some(clause_idx));
        proof {
            let from = before_hist.decision_levels@.last().implied_literals@.len() as int;
            let x = other_lit.var();
            if before_hist.level_of(other_lit) is None {
                let e = history.decision_levels@.last().implied_literals@;
                assert(e[from].0 == other_lit);
                assert(recorded_since(before_hist, *history, from, x));
            }
            assert(records_new(before.assignment@, self.assignment@, before_hist, *history, from)) by {
                assert forall|v: int| 0 <= v < self.assignment@.len() && v < before.assignment@.len() && before.assignment@[v] is None
                    && (#[trigger] self.assignment@[v]) is Some implies recorded_since(before_hist, *history, from, v as nat) by {
                    assert(v == x as int);
                }
                assert forall|v: nat| (#[trigger] history.implication_levels_indexes.level_of_var(v)) is Some
                    implies recorded_since(before_hist, *history, from, v) by {
                    if before_hist.level_of(other_lit) is None && v == x {
                    }
                }
            }
        }
        if self.clauses[clause_idx].lock_count < usize::MAX {
            self.clauses[clause_idx].lock_count = self.clauses[clause_idx].lock_count + 1;
        }
        queue.push_back(other_lit);
        proof {
            let sfx = queue@.subrange(old(queue)@.len() as int, queue@.len() as int);
            assert(sfx[0] == other_lit);
            assert forall|v: int| 0 <= v < self.assignment@.len() && v < old(self).assignment@.len() && old(self).assignment@[v] is None
                && (#[trigger] self.assignment@[v]) is Some implies exists|k: int| 0 <= k < sfx.len() && (#[trigger] sfx[k]).var() == v by {
                assert(v == other_lit.var() as int);
                assert(sfx[0].var() == v);
            }
            lemma_count_none_assign(before.assignment@, other_lit.var() as int, !other_lit.neg_spec());
            assert forall|c: int| 0 <= c < self.clauses@.len() implies self.clause_fits(#[trigger] self.clauses@[c]) by {
                assert(old_self.clause_fits(old_self.clauses@[c]));
            }
            assert(history.below(self.n_vars()));
            assert(history.reasons_below(self.clauses@.len()));
            assert forall|v: int| 0 <= v < old_self.assignment@.len() && #[trigger] old_self.assignment@[v] is Some implies
                self.assignment@[v] == old_self.assignment@[v] by {
            }
            assert forall|i: int| 0 <= i < old_self.clauses@.len() implies {
                &&& (#[trigger] self.clauses@[i])@ == old_self.clauses@[i]@
                &&& self.clauses@[i].lbd == old_self.clauses@[i].lbd
                &&& self.clauses@[i].bva_generated == old_self.clauses@[i].bva_generated
                &&& self.clauses@[i].lock_count >= old_self.clauses@[i].lock_count
                &&& (self.clauses@[i].watched is One <==> old_self.clauses@[i].watched is One)
            } by {
            }
            assert forall|i: int| 0 <= i < queue@.len() implies (#[trigger] queue@[i]).wf() && queue@[i].var() < self.n_vars() by {
                if i < old(queue)@.len() {
                    assert(queue@[i] == old(queue)@[i]);
                }
            }
            assert(old(queue)@.is_prefix_of(queue@));
            assert(self.clauses@[clause_idx as int]@[other_idx as int] == other_lit);
            assert(other_lit.eval_spec(self.assignment@) == Some(true));
            if premise {
                let cl = self.clauses@[clause_idx as int]@;
                let entries = history.decision_levels@.last().implied_literals@;
                let old_len = old(history).decision_levels@.last().implied_literals@.len();
                assert(cl == old_self.clauses@[clause_idx as int]@);
                assert(other_lit.eval_spec(self.assignment@) == Some(true));
                assert(cl[other_idx as int] == other_lit);
                assert(cl.contains(other_lit));
                assert forall|j: int| 0 <= j < cl.len() && cl[j] != other_lit implies (#[trigger] cl[j]).eval_spec(self.assignment@) == Some(false) by {
                    assert(cl[j].eval_spec(old_self.assignment@) == Some(false));
                    assert(old_self.assignment@[cl[j].var() as int] is Some);
                }
                assert forall|i: int| old_len <= i < entries.len() implies
                    implication_justified(#[trigger] entries[i], self.clauses@, self.assignment@) by {
                    assert(entries[i] == (other_lit, Some(clause_idx)));
                }
            }
            if queue_true(old(queue)@, old_self.assignment@) {
                assert forall|i: int| 0 <= i < queue@.len() implies (#[trigger] queue@[i]).eval_spec(self.assignment@) == Some(true) by {
                    if i < old(queue)@.len() {
                        assert(queue@[i] == old(queue)@[i]);
                        assert(old(queue)@[i].eval_spec(old_self.assignment@) == Some(true));
                        assert(old_self.assignment@[old(queue)@[i].var() as int] is Some);
                    }
                }
            }
            assert forall|u: int, c: int| #![trigger count_in(self.watch@[u], c)]
                0 <= u < old_self.watch@.len() && 0 <= c < old_self.clauses@.len() implies
                watch_count(self.clauses@[c], u as nat) == watch_count(old_self.clauses@[c], u as nat)
                    && self.watch@[u] == old_self.watch@[u] by {
                assert(self.clauses@[c].watched == old_self.clauses@[c].watched);
            }
        }
        (true, false)
    }

    /// Two-watched-literal propagation of the literals in `queue` (each one just became true).
    ///
    /// For each queued literal the clauses watching its negation either keep their watch, move it
    /// to another non-false literal, or, when only the other watched literal can still be true,
    /// assign it as an implication (recorded in `history` with the clause as reason, the clause
    /// gaining a lock) and queue it. Stops at the first clause with no non-false literal left,
    /// returning its index; returns `None` once the queue is exhausted.
    ///
    /// When the watch lists are sound and every queued literal is true, they stay sound, the queue
    /// stays true, and a reported conflict clause has every literal false.
    pub fn propagate_twl(&mut self, history: &mut History, queue: &mut VecDeque<Literal>) -> (r: Option<usize>)
        requires
            old(self).wf(),
            old(self).tracks(old(history)),
            queue_ok(old(queue)@, old(self).n_vars()),
        ensures
            final(self).wf(),
            final(self).tracks(final(history)),
            final(history).decision_levels@.len() == old(history).decision_levels@.len(),
            propagation_step(*final(self), *old(self)),
            queue_ok(final(queue)@, final(self).n_vars()),
            r matches Some(c) ==> c < final(self).clauses@.len(),
            r is None ==> final(queue)@.len() == 0,
            old(history).decision_levels@.last().implied_literals@.is_prefix_of(final(history).decision_levels@.last().implied_literals@),
            records_new(old(self).assignment@, final(self).assignment@, *old(history), *final(history),
                old(history).decision_levels@.last().implied_literals@.len() as int),
            (old(self).watch_lists_sound() && queue_true(old(queue)@, old(self).assignment@)) ==> {
                &&& final(self).watch_lists_sound()
                &&& queue_true(final(queue)@, final(self).assignment@)
                &&& r matches Some(c) ==> clause_falsified(final(self).clauses@[c as int]@, final(self).assignment@)
                &&& implications_justified(final(history).decision_levels@.last().implied_literals@,
                    old(history).decision_levels@.last().implied_literals@.len() as int, final(self).clauses@, final(self).assignment@)
                &&& r is None ==> forall|i: int| 0 <= i < old(queue)@.len() ==>
                    watchers_satisfied(*final(self), unsigned_index_of(-(#[trigger] old(queue)@[i])@) as int)
                &&& r is None ==> forall|v: int| 0 <= v < final(self).assignment@.len() && old(self).assignment@[v] is None
                    && (#[trigger] final(self).assignment@[v]) is Some ==> exists|l: Literal| l.var() == v
                        && l.eval_spec(final(self).assignment@) == Some(true)
                        && #[trigger] watchers_satisfied(*final(self), unsigned_index_of(-l@) as int)
                &&& satisfiable_from(old(self).clauses@, old(self).assignment@)
                    ==> satisfiable_from(final(self).clauses@, final(self).assignment@)
            },
    {
        let ghost start = *self;
        let ghost mut all_q: Seq<Literal> = old(queue)@;
        let ghost mut popped: int = 0;
        let ghost sound = old(self).watch_lists_sound() && queue_true(old(queue)@, old(self).assignment@);
        let ghost start_implied = old(history).decision_levels@.last().implied_literals@;
        let ghost sat0 = satisfiable_from(old(self).clauses@, old(self).assignment@);
        while queue.len() > 0
            invariant
                sat0 == satisfiable_from(start.clauses@, start.assignment@),
                sound && sat0 ==> satisfiable_from(self.clauses@, self.assignment@),
                self.wf(),
                self.tracks(history),
                history.decision_levels@.len() == old(history).decision_levels@.len(),
                propagation_step(*self, start),
                start == *old(self),
                queue_ok(queue@, self.n_vars()),
                sound == (old(self).watch_lists_sound() && queue_true(old(queue)@, old(self).assignment@)),
                sound ==> self.watch_lists_sound(),
                sound ==> queue_true(queue@, self.assignment@),
                start_implied == old(history).decision_levels@.last().implied_literals@,
                start_implied.is_prefix_of(history.decision_levels@.last().implied_literals@),
                records_new(start.assignment@, self.assignment@, *old(history), *history, start_implied.len() as int),
                sound ==> implications_justified(history.decision_levels@.last().implied_literals@, start_implied.len() as int,
                    self.clauses@, self.assignment@),
                old(queue)@.is_prefix_of(all_q),
                queue_ok(all_q, self.n_vars()),
                queued_all(start.assignment@, self.assignment@, all_q),
                0 <= popped <= all_q.len(),
                queue@ == all_q.subrange(popped, all_q.len() as int),
                sound ==> forall|i: int| 0 <= i < popped ==> (#[trigger] all_q[i]).eval_spec(self.assignment@) == Some(true)
                    && watchers_satisfied(*self, unsigned_index_of(-all_q[i]@) as int),
            decreases 2 * count_none(self.assignment@) + queue@.len(),
        {
            let ghost round_start = *self;
            let ghost p0 = popped;
            let ghost measure0 = 2 * count_none(self.assignment@) + queue@.len();
            let ghost queue0 = queue@;
            let lit = match queue.pop_front() {
                Some(l) => l,
                None => { return None; }
            };
            let false_lit = lit.negated();
            proof {
                assert(lit == all_q[p0]);
                assert(queue@ =~= all_q.subrange(p0 + 1, all_q.len() as int));
                if sound {
                    assert(queue0[0].eval_spec(self.assignment@) == Some(true));
                    assert forall|i: int| 0 <= i < queue@.len() implies (#[trigger] queue@[i]).eval_spec(self.assignment@) == Some(true) by {
                        assert(queue@[i] == queue0[i + 1]);
                    }
                }
            }
            let watching = self.watch.take(&false_lit);
            let ghost after_take = *self;
            let ghost qlen = queue@.len();
            let ghost count0 = count_none(self.assignment@);
            let ghost lu = false_lit.uidx() as int;
            proof {
                assert(propagation_step(after_take, round_start));
                assert forall|kk: int| 0 <= kk < watching@.len() implies #[trigger] watching@[kk] < self.clauses@.len() by {
                    assert(round_start.watch@[false_lit.uidx() as int][kk] < round_start.clauses@.len());
                }
                if sound {
                    assert(watching@.subrange(0, watching@.len() as int) =~= watching@);
                    assert(count_in(Seq::<usize>::empty(), 0) == 0);
                    assert forall|u: int, c: int| #![trigger count_in(self.watch@[u], c)]
                        0 <= u < self.watch@.len() && 0 <= c < self.clauses@.len() implies
                        count_in(self.watch@[u], c) + (if u == lu {
                            count_in(watching@.subrange(0, watching@.len() as int), c) + count_in(Seq::<usize>::empty(), c)
                        } else { 0 }) <= watch_count(self.clauses@[c], u as nat) by {
                        assert(count_in(round_start.watch@[u], c) <= watch_count(round_start.clauses@[c], u as nat));
                        if u == lu {
                            assert(self.watch@[u] =~= Seq::<usize>::empty());
                        } else {
                            assert(self.watch@[u] == round_start.watch@[u]);
                        }
                    }
                }
            }
            proof {
                if sound {
                    assert(self.watch@[lu] =~= Seq::<usize>::empty());
                    assert forall|i: int| 0 <= i < p0 implies (#[trigger] all_q[i]).eval_spec(self.assignment@) == Some(true)
                        && (unsigned_index_of(-all_q[i]@) as int != lu ==> watchers_satisfied(*self, unsigned_index_of(-all_q[i]@) as int)) by {
                        let u = unsigned_index_of(-all_q[i]@) as int;
                        if u != lu {
                            assert(self.watch@[u] == round_start.watch@[u]);
                        }
                    }
                }
            }
            let mut keep: Vec<usize> = Vec::new();
            let mut conflict: Option<usize> = None;
            for p in 0..watching.len()
                invariant
                    sound && sat0 ==> satisfiable_from(self.clauses@, self.assignment@),
                    self.wf(),
                    self.tracks(history),
                    history.decision_levels@.len() == old(history).decision_levels@.len(),
                    propagation_step(*self, after_take),
                    queue_ok(queue@, self.n_vars()),
                    false_lit.wf(),
                    false_lit.var() < self.n_vars(),
                    false_lit.uidx() < self.watch@.len(),
                    lu == false_lit.uidx(),
                    forall|kk: int| 0 <= kk < watching@.len() ==> #[trigger] watching@[kk] < self.clauses@.len(),
                    forall|kk: int| 0 <= kk < keep@.len() ==> #[trigger] keep@[kk] < self.clauses@.len(),
                    conflict matches Some(c) ==> c < self.clauses@.len(),
                    queue@.len() >= qlen,
                    queue@.len() - qlen == count0 - count_none(self.assignment@),
                    count_none(self.assignment@) <= count0,
                    sound ==> queue_true(queue@, self.assignment@),
                    sound ==> false_lit.eval_spec(self.assignment@) == Some(false),
                    sound ==> forall|c: int| 0 <= c < self.clauses@.len() ==> single_watch_ok(#[trigger] self.clauses@[c]),
                    sound ==> forall|u: int, c: int| #![trigger count_in(self.watch@[u], c)]
                        0 <= u < self.watch@.len() && 0 <= c < self.clauses@.len() ==>
                        count_in(self.watch@[u], c) + (if u == lu {
                            count_in(watching@.subrange(p as int, watching@.len() as int), c) + count_in(keep@, c)
                        } else { 0 }) <= watch_count(self.clauses@[c], u as nat),
                    sound ==> (conflict matches Some(c) ==> clause_falsified(self.clauses@[c as int]@, self.assignment@)),
                    start_implied.is_prefix_of(history.decision_levels@.last().implied_literals@),
                    records_new(start.assignment@, self.assignment@, *old(history), *history, start_implied.len() as int),
                    start_implied == old(history).decision_levels@.last().implied_literals@,
                    extends(self.assignment@, start.assignment@),
                    sound ==> implications_justified(history.decision_levels@.last().implied_literals@, start_implied.len() as int,
                        self.clauses@, self.assignment@),
                    old(queue)@.is_prefix_of(all_q),
                    queue_ok(all_q, self.n_vars()),
                    queued_all(start.assignment@, self.assignment@, all_q),
                    0 <= p0 < all_q.len(),
                    queue@ == all_q.subrange(p0 + 1, all_q.len() as int),
                    lit == all_q[p0],
                    false_lit@ == -lit@,
                    sound ==> forall|i: int| 0 <= i < p0 ==> (#[trigger] all_q[i]).eval_spec(self.assignment@) == Some(true)
                        && (unsigned_index_of(-all_q[i]@) as int != lu ==> watchers_satisfied(*self, unsigned_index_of(-all_q[i]@) as int)),
                    sound ==> self.watch@[lu].len() == 0,
                    sound && conflict is None ==> forall|kk: int| 0 <= kk < keep@.len() ==>
                        clause_sat(self.clauses@[#[trigger] keep@[kk] as int]@, self.assignment@),
            {
                let clause_idx = watching[p];
                let ghost keep0 = keep@;
                let ghost before = *self;
                proof {
                    if sound {
                        lemma_count_in_front(watching@, p as int, clause_idx as int);
                    }
                }
                if conflict.is_some() {
                    keep.push(clause_idx);
                    proof {
                        if sound {
                            assert forall|u: int, c: int| #![trigger count_in(self.watch@[u], c)]
                                0 <= u < self.watch@.len() && 0 <= c < self.clauses@.len() implies
                                count_in(self.watch@[u], c) + (if u == lu {
                                    count_in(watching@.subrange(p + 1, watching@.len() as int), c) + count_in(keep@, c)
                                } else { 0 }) <= watch_count(self.clauses@[c], u as nat) by {
                                if u == lu {
                                    lemma_count_in_front(watching@, p as int, c);
                                    lemma_count_in_push(keep0, clause_idx, c);
                                }
                            }
                        }
                    }
                } else {
                    let ghost qbefore = queue@.len();
                    let ghost qv = queue@;
                    proof {
                        if sound {
                            assert(count_in(before.watch@[lu], clause_idx as int) + count_in(watching@.subrange(p as int, watching@.len() as int), clause_idx as int)
                                + count_in(keep0, clause_idx as int) <= watch_count(before.clauses@[clause_idx as int], lu as nat));
                        }
                    }
                    let ghost hist_before = history.decision_levels@.last().implied_literals@;
                    let ghost hb = *history;
                    let (stay, is_conflict) = self.visit_watcher(clause_idx, false_lit, history, queue);
                    proof {
                        assert(start_implied.len() <= hist_before.len());
                        lemma_records_new_trans(start.assignment@, before.assignment@, self.assignment@, *old(history), hb,
                            *history, start_implied.len() as int, hist_before.len() as int);
                        lemma_propagation_step_trans(after_take, before, *self);
                        let entries = history.decision_levels@.last().implied_literals@;
                        assert(start_implied.is_prefix_of(entries)) by {
                            assert forall|i: int| 0 <= i < start_implied.len() implies entries[i] == start_implied[i] by {
                                assert(hist_before[i] == start_implied[i]);
                            }
                        }
                        if sound {
                            assert forall|c: int| 0 <= c < before.clauses@.len() implies (#[trigger] self.clauses@[c])@ == before.clauses@[c]@ by {}
                            lemma_justified_stable(hist_before, start_implied.len() as int, before.clauses@, before.assignment@,
                                self.clauses@, self.assignment@);
                            assert forall|i: int| start_implied.len() <= i < entries.len() implies
                                implication_justified(#[trigger] entries[i], self.clauses@, self.assignment@) by {
                                if i < hist_before.len() {
                                    assert(entries[i] == hist_before[i]);
                                }
                            }
                        }
                    }
                    proof {
                        if sound && sat0 {
                            assert(watch_count(before.clauses@[clause_idx as int], false_lit.uidx()) >= 1);
                            assert(satisfiable_from(before.clauses@, self.assignment@));
                            assert forall|c: int| 0 <= c < before.clauses@.len() implies (#[trigger] before.clauses@[c])@ == self.clauses@[c]@ by {
                                assert(self.clauses@[c]@ == before.clauses@[c]@);
                            }
                            lemma_satisfiable_same_views(before.clauses@, self.clauses@, self.assignment@);
                        }
                    }
                    if stay {
                        keep.push(clause_idx);
                    }
                    if is_conflict {
                        conflict = Some(clause_idx);
                    }
                    proof {
                        let qb = all_q;
                        all_q = all_q + queue@.subrange(qbefore as int, queue@.len() as int);
                        assert(qv.len() == qbefore);
                        lemma_queued_concat(start.assignment@, before.assignment@, self.assignment@, qb,
                            queue@.subrange(qbefore as int, queue@.len() as int));
                        assert(old(queue)@.is_prefix_of(all_q)) by {
                            assert forall|i: int| 0 <= i < old(queue)@.len() implies all_q[i] == old(queue)@[i] by {
                                assert(qb[i] == old(queue)@[i]);
                            }
                        }
                        assert(qv.is_prefix_of(queue@));
                        assert(qb.len() == p0 + 1 + qv.len());
                        assert forall|i: int| 0 <= i < queue@.len() implies queue@[i] == all_q.subrange(p0 + 1, all_q.len() as int)[i] by {
                            if i < qv.len() {
                                assert(queue@[i] == qv[i]);
                                assert(qv[i] == qb[p0 + 1 + i]);
                            }
                        }
                        assert(queue@ =~= all_q.subrange(p0 + 1, all_q.len() as int));
                        assert forall|i: int| 0 <= i < all_q.len() implies (#[trigger] all_q[i]).wf() && all_q[i].var() < self.n_vars() by {
                            if i >= qb.len() {
                                assert(all_q[i] == queue@[i - p0 - 1]);
                            } else {
                                assert(all_q[i] == qb[i]);
                            }
                        }
                        assert(lit == all_q[p0]);
                        if sound {
                            assert(false_lit.eval_spec(self.assignment@) == Some(false)) by {
                                assert(before.assignment@[false_lit.var() as int] is Some);
                            }
                            assert(self.watch@[lu] == before.watch@[lu]) by {
                                if self.watch@[lu] != before.watch@[lu] {
                                    let l = choose|l: Literal| l.wf() && l.uidx() == lu && #[trigger] l.eval_spec(self.assignment@) != Some(false);
                                    lemma_uidx_injective(l, false_lit);
                                }
                            }
                            assert forall|i: int| 0 <= i < p0 implies (#[trigger] all_q[i]).eval_spec(self.assignment@) == Some(true)
                                && (unsigned_index_of(-all_q[i]@) as int != lu ==> watchers_satisfied(*self, unsigned_index_of(-all_q[i]@) as int)) by {
                                assert(all_q[i] == qb[i]);
                                assert(qb[i].eval_spec(before.assignment@) == Some(true));
                                assert(before.assignment@[qb[i].var() as int] is Some);
                                let u = unsigned_index_of(-all_q[i]@) as int;
                                if u != lu {
                                    assert(0 <= u < self.watch@.len());
                                    if self.watch@[u] != before.watch@[u] {
                                        let l = choose|l: Literal| l.wf() && l.uidx() == u && #[trigger] l.eval_spec(self.assignment@) != Some(false);
                                        lemma_negation_false(all_q[i], l, self.assignment@);
                                    }
                                    assert forall|k: int| 0 <= k < self.watch@[u].len() implies
                                        clause_sat(self.clauses@[#[trigger] self.watch@[u][k] as int]@, self.assignment@) by {
                                        let c = self.watch@[u][k] as int;
                                        assert(before.watch@[u][k] == self.watch@[u][k]);
                                        assert(clause_sat(before.clauses@[c]@, before.assignment@));
                                        assert(self.clauses@[c]@ == before.clauses@[c]@);
                                        lemma_sat_extends(before.clauses@[c]@, before.assignment@, self.assignment@);
                                    }
                                }
                            }
                            if conflict is None {
                                assert forall|kk: int| 0 <= kk < keep@.len() implies
                                    clause_sat(self.clauses@[#[trigger] keep@[kk] as int]@, self.assignment@) by {
                                    if kk < keep0.len() {
                                        assert(keep@[kk] == keep0[kk]);
                                        let c = keep0[kk] as int;
                                        assert(clause_sat(before.clauses@[c]@, before.assignment@));
                                        assert(self.clauses@[c]@ == before.clauses@[c]@);
                                        lemma_sat_extends(before.clauses@[c]@, before.assignment@, self.assignment@);
                                    }
                                }
                            }
                        }
                    }
                    proof {
                        if sound {
                            assert forall|c: int| 0 <= c < self.clauses@.len() implies single_watch_ok(#[trigger] self.clauses@[c]) by {
                                assert(single_watch_ok(before.clauses@[c]));
                                assert(self.clauses@[c]@ == before.clauses@[c]@);
                            }
                            assert forall|u: int, c: int| #![trigger count_in(self.watch@[u], c)]
                                0 <= u < self.watch@.len() && 0 <= c < self.clauses@.len() implies
                                count_in(self.watch@[u], c) + (if u == lu {
                                    count_in(watching@.subrange(p + 1, watching@.len() as int), c) + count_in(keep@, c)
                                } else { 0 }) <= watch_count(self.clauses@[c], u as nat) by {
                                assert(count_in(before.watch@[u], c) + (if u == lu {
                                    count_in(watching@.subrange(p as int, watching@.len() as int), c) + count_in(keep0, c)
                                } else { 0 }) <= watch_count(before.clauses@[c], u as nat));
                                if u == lu {
                                    lemma_count_in_front(watching@, p as int, c);
                                    lemma_count_in_push(keep0, clause_idx, c);
                                }
                            }
                            assert forall|i: int| 0 <= i < queue@.len() implies (#[trigger] queue@[i]).eval_spec(self.assignment@) == Some(true) by {
                            }
                            assert(self.assignment@[false_lit.var() as int] == before.assignment@[false_lit.var() as int]);
                        }
                    }
                }
            }
            let ghost before_set = *self;
            self.watch.set(&false_lit, keep);
            proof {
                assert forall|u: int, kk: int| 0 <= u < self.watch@.len() && 0 <= kk < self.watch@[u].len()
                    implies #[trigger] self.watch@[u][kk] < self.clauses@.len() by {
                    if u != false_lit.uidx() as int {
                        assert(self.watch@[u][kk] == before_set.watch@[u][kk]);
                    }
                }
                assert(propagation_step(*self, before_set));
                lemma_propagation_step_trans(after_take, before_set, *self);
                lemma_propagation_step_trans(round_start, after_take, *self);
                lemma_propagation_step_trans(start, round_start, *self);
                if sound {
                    assert forall|u: int, c: int| #![trigger count_in(self.watch@[u], c)]
                        0 <= u < self.watch@.len() && 0 <= c < self.clauses@.len() implies
                        count_in(self.watch@[u], c) <= watch_count(self.clauses@[c], u as nat) by {
                        assert(count_in(before_set.watch@[u], c) + (if u == lu {
                            count_in(watching@.subrange(watching@.len() as int, watching@.len() as int), c) + count_in(keep@, c)
                        } else { 0 }) <= watch_count(before_set.clauses@[c], u as nat));
                        if u != lu {
                            assert(self.watch@[u] == before_set.watch@[u]);
                        }
                    }
                }
            }
            if let Some(c) = conflict {
                return Some(c);
            }
            proof {
                popped = p0 + 1;
                if sound {
                    assert forall|i: int| 0 <= i < popped implies (#[trigger] all_q[i]).eval_spec(self.assignment@) == Some(true)
                        && watchers_satisfied(*self, unsigned_index_of(-all_q[i]@) as int) by {
                        let u = unsigned_index_of(-all_q[i]@) as int;
                        if i == p0 {
                            assert(all_q[i] == lit);
                            assert(u == lu);
                        } else if u != lu {
                            assert(self.watch@[u] == before_set.watch@[u]);
                        }
                    }
                }
            }
        }
        proof {
            if sound {
                assert(popped == all_q.len());
                assert forall|i: int| 0 <= i < old(queue)@.len() implies
                    watchers_satisfied(*self, unsigned_index_of(-(#[trigger] old(queue)@[i])@) as int) by {
                    assert(old(queue)@[i] == all_q[i]);
                }
                assert forall|v: int| 0 <= v < self.assignment@.len() && old(self).assignment@[v] is None
                    && (#[trigger] self.assignment@[v]) is Some implies exists|l: Literal| l.var() == v
                        && l.eval_spec(self.assignment@) == Some(true)
                        && #[trigger] watchers_satisfied(*self, unsigned_index_of(-l@) as int) by {
                    let k = choose|k: int| 0 <= k < all_q.len() && (#[trigger] all_q[k]).var() == v;
                    assert(all_q[k].eval_spec(self.assignment@) == Some(true));
                    assert(watchers_satisfied(*self, unsigned_index_of(-all_q[k]@) as int));
                }
            }
        }
        None
    }
}

} // verus!
