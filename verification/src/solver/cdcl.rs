use vstd::prelude::*;
use std::collections::VecDeque;
use std::io::Write;
use crate::drat::{DratLogger, drat_line};
use crate::formula::Formula;
use crate::formula::database::{same_but_lock, addition_text, lemma_addition_text_same, lemma_addition_text_push, lemma_addition_text_empty};
use crate::formula::assignment::AssignResult;
use crate::formula::clause::{Clause, lits_wf, clause_falsified, clause_sat, clause_unit, unit_at, watched_for_len_spec};
use crate::formula::literal::Literal;
use crate::formula::propagation::{queue_ok, queue_true, propagation_step, implications_justified, watchers_satisfied, extends, records_new};
use crate::formula::literal::unsigned_index_of;
use crate::formula::simplify::{satisfiable_from, lemma_forced_step, lemma_falsified_unsat, lemma_satisfiable_same_views};
use crate::process::subsumption::subset_lits;
use crate::history::{History, ImplicationPoint, ConflictLearnResult, unassign_levels, in_levels, in_level};
use crate::history::decision_level::DecisionLevel;
use crate::history::conflict_analysis::{ConflictAnalysis, level_trail, walk_ready, reason_ready, lits_in_range, first_uip_analysis};
use crate::history::uip::{uip_result_of, is_empty_result};
use crate::history::dip::dip_result_of;
use crate::process::{Process, processed};

verus! {

/// `2^k`.
pub open spec fn p2(k: nat) -> nat
    decreases k,
{
    if k == 0 { 1 } else { 2 * p2((k - 1) as nat) }
}

/// The least `k >= start` with `2^k - 1 >= i` (`k >= i` always qualifies).
pub open spec fn luby_k(i: nat, start: nat) -> nat
    decreases i - start,
{
    if p2(start) >= i + 1 || start >= i {
        start
    } else {
        luby_k(i, start + 1)
    }
}

pub proof fn lemma_p2_ge(k: nat)
    ensures
        p2(k) >= k + 1,
        p2(k) >= 1,
    decreases k,
{
    if k > 0 {
        lemma_p2_ge((k - 1) as nat);
    }
}

pub proof fn lemma_luby_k(i: nat, start: nat)
    requires
        start >= 1,
        forall|j: nat| 1 <= j < start ==> #[trigger] p2(j) < i + 1,
    ensures
        luby_k(i, start) >= start,
        p2(luby_k(i, start)) >= i + 1,
        forall|j: nat| 1 <= j < luby_k(i, start) ==> #[trigger] p2(j) < i + 1,
    decreases i - start,
{
    lemma_p2_ge(start);
    if p2(start) >= i + 1 || start >= i {
    } else {
        assert forall|j: nat| 1 <= j < start + 1 implies #[trigger] p2(j) < i + 1 by {
            if j < start {
            }
        }
        lemma_luby_k(i, start + 1);
    }
}

/// The Luby restart sequence `1, 1, 2, 1, 1, 2, 4, 1, ...` (1-based): for `i = 2^k - 1` it is
/// `2^(k-1)`, otherwise it repeats from the start after the last such point below `i`.
pub open spec fn luby_spec(i: nat) -> nat
    decreases i,
{
    if i <= 1 {
        1
    } else {
        let k = luby_k(i, 1);
        if p2(k) == i + 1 {
            p2((k - 1) as nat)
        } else {
            proof {
                lemma_luby_k(i, 1);
                assert(k >= 2) by {
                    if k < 2 {
                        assert(p2(1) == 2 * p2(0));
                    }
                }
                assert(p2((k - 1) as nat) < i + 1);
                assert(p2((k - 1) as nat) >= 2) by {
                    lemma_p2_ge((k - 1) as nat);
                }
            }
            luby_spec((i + 1 - p2((k - 1) as nat)) as nat)
        }
    }
}

pub proof fn lemma_luby_k_is(i: nat, start: nat, k: nat)
    requires
        1 <= start <= k,
        forall|j: nat| start <= j < k ==> #[trigger] p2(j) < i + 1,
        p2(k) >= i + 1,
    ensures
        luby_k(i, start) == k,
    decreases k - start,
{
    lemma_p2_ge(start);
    if start < k {
        assert(p2(start) < i + 1);
        if start >= i {
            assert(p2(start) >= start + 1);
        }
        lemma_luby_k_is(i, start + 1, k);
    }
}

/// The `index`-th element (from 1) of the Luby sequence.
pub fn luby(index: u64) -> (r: u64)
    requires
        0 < index < 0x8000_0000_0000_0000,
    ensures
        r == luby_spec(index as nat),
    decreases index,
{
    let mut k: u64 = 1;
    let mut p: u64 = 2;
    assert(p2(1) == 2 * p2(0));
    while p - 1 < index
        invariant
            1 <= k,
            k + 1 <= p,
            p == p2(k as nat),
            0 < index < 0x8000_0000_0000_0000,
            forall|j: nat| 1 <= j < k ==> #[trigger] p2(j) < index + 1,
            p <= 2 * index,
        decreases 2 * index - p,
    {
        k = k + 1;
        p = p * 2;
        proof {
            assert forall|j: nat| 1 <= j < k implies #[trigger] p2(j) < index + 1 by {
                if j == k - 1 {
                }
            }
        }
    }
    proof {
        lemma_luby_k_is(index as nat, 1, k as nat);
    }
    let half = p / 2;
    proof {
        assert(p2(k as nat) == 2 * p2((k - 1) as nat));
    }
    if index == p - 1 {
        if index == 1 {
            return 1;
        }
        half
    } else {
        proof {
            if index <= 1 {
                assert(p2(1) == 2);
            }
            lemma_luby_k(index as nat, 1);
            lemma_p2_ge((k - 1) as nat);
            if k < 2 {
                assert(p2(1) == 2 * p2(0));
            }
        }
        luby(index - half + 1)
    }
}


/// Conflicts between restarts are this multiple of the Luby sequence.
pub const RESTART_CONFLICT_SCALE: u64 = 100;
/// Inprocessing runs at every this many restarts.
pub const INPROCESSING_RESTART_INTERVAL: u64 = 8;
/// The clause database is reduced every this many conflicts.
pub const DB_REDUCTION_CONFLICT_INTERVAL: u64 = 2000;

/// What a CDCL step asks of its driver.
pub enum CdclStep {
    /// Propagation ended without conflict: a decision is needed.
    Decide,
    /// A clause was learnt (its literals, for the branching heuristic); `true` when the search
    /// restarted afterwards, so that a decision is needed next.
    Learned(Vec<Literal>, bool),
    /// The formula is unsatisfiable (the empty clause was logged).
    Unsat,
}

/// Inconsistencies that stop the search.
#[derive(Clone, Copy, Debug, PartialEq, Eq, Structural)]
pub enum CdclError {
    /// A DIP post clause is false right after backtracking.
    DipPostClauseConflicting,
    /// A DIP post clause is neither satisfied nor unit after backtracking.
    DipPostClauseNotAsserting,
    /// The unit literal of a DIP post clause is already false above level 0.
    DipPostUnitConflict,
    /// A DIP pre clause is false right after the post clause propagated.
    DipPreClauseConflicting,
    /// The clause database cannot grow any further.
    DatabaseFull,
}

/// Logs the empty clause, the end of a refutation.
pub fn unsat<W: Write>(logger: &mut Option<DratLogger<W>>)
    ensures
        *old(logger) matches Some(l) ==> (*final(logger) matches Some(l2)
            && l2.logged() == l.logged() + drat_line(Seq::empty(), false) && l2.ends_with_empty_clause()),
        *old(logger) is None ==> *final(logger) is None,
{
    match logger {
        Some(log) => {
            let _ = log.log_empty_clause();
        },
        None => {},
    }
}

/// Two-watched-literal propagation of `lits` (see `Formula::propagate_twl`).
pub fn propagate_from(formula: &mut Formula, history: &mut History, lits: Vec<Literal>) -> (r: Option<usize>)
    requires
        old(formula).wf(),
        old(formula).tracks(old(history)),
        queue_ok(lits@, old(formula).n_vars()),
    ensures
        final(formula).wf(),
        final(formula).tracks(final(history)),
        final(history).decision_levels@.len() == old(history).decision_levels@.len(),
        propagation_step(*final(formula), *old(formula)),
        r matches Some(c) ==> c < final(formula).clauses@.len(),
        old(history).decision_levels@.last().implied_literals@.is_prefix_of(final(history).decision_levels@.last().implied_literals@),
        records_new(old(formula).assignment@, final(formula).assignment@, *old(history), *final(history),
            old(history).decision_levels@.last().implied_literals@.len() as int),
        (old(formula).watch_lists_sound() && queue_true(lits@, old(formula).assignment@)) ==> {
            &&& final(formula).watch_lists_sound()
            &&& r matches Some(c) ==> clause_falsified(final(formula).clauses@[c as int]@, final(formula).assignment@)
            &&& implications_justified(final(history).decision_levels@.last().implied_literals@,
                old(history).decision_levels@.last().implied_literals@.len() as int, final(formula).clauses@, final(formula).assignment@)
            &&& r is None ==> forall|i: int| 0 <= i < lits@.len() ==>
                watchers_satisfied(*final(formula), unsigned_index_of(-(#[trigger] lits@[i])@) as int)
            &&& r is None ==> forall|v: int| 0 <= v < final(formula).assignment@.len() && old(formula).assignment@[v] is None
                && (#[trigger] final(formula).assignment@[v]) is Some ==> exists|l: Literal| l.var() == v
                    && l.eval_spec(final(formula).assignment@) == Some(true)
                    && #[trigger] watchers_satisfied(*final(formula), unsigned_index_of(-l@) as int)
            &&& satisfiable_from(old(formula).clauses@, old(formula).assignment@)
                ==> satisfiable_from(final(formula).clauses@, final(formula).assignment@)
        },
{
    let mut queue: VecDeque<Literal> = VecDeque::new();
    for i in 0..lits.len()
        invariant
            queue@ == lits@.subrange(0, i as int),
    {
        queue.push_back(lits[i]);
        assert(queue@ =~= lits@.subrange(0, i + 1));
    }
    assert(queue@ =~= lits@);
    formula.propagate_twl(history, &mut queue)
}

/// `f` and `h` can come from `of` and `oh` by propagating the queued literals `q`, ending at the
/// conflict clause `ci` (false whenever the watch lists were sound and the queue true).
pub open spec fn propagated_conflict(of: Formula, oh: History, q: Seq<Literal>, f: Formula, h: History, ci: int) -> bool {
    &&& f.wf()
    &&& f.tracks(&h)
    &&& h.decision_levels@.len() == oh.decision_levels@.len()
    &&& propagation_step(f, of)
    &&& oh.decision_levels@.last().implied_literals@.is_prefix_of(h.decision_levels@.last().implied_literals@)
    &&& records_new(of.assignment@, f.assignment@, oh, h, oh.decision_levels@.last().implied_literals@.len() as int)
    &&& 0 <= ci < f.clauses@.len()
    &&& (of.watch_lists_sound() && queue_true(q, of.assignment@)) ==> clause_falsified(f.clauses@[ci]@, f.assignment@)
}

/// Back at the root level, the head of a first-UIP clause (the negated implication point, a
/// literal of the conflict level) is unassigned, so the clause is not false there.
proof fn lemma_root_unassigns_uip_head(h: History, a: ConflictAnalysis, n: nat, c: Seq<Literal>, fin: Seq<Option<bool>>)
    requires
        a.wf(&h, n),
        h.decision_levels@.len() > 1,
        c.len() >= 1,
        c[0] == a.uip_clause_literals@[0],
        root_undone(h.decision_levels@, fin),
        fin.len() == n,
    ensures
        !clause_falsified(c, fin),
{
    let l = h.decision_levels@.last();
    let t = level_trail(l);
    let p = a.first_uip_pos as int;
    let x = t[p];
    let v = x.var();
    let implied = Seq::new(l.implied_literals@.len(), |i: int| l.implied_literals@[i].0);
    match l.decision_literal {
        Some(d) => {
            assert(t == seq![d] + implied);
            if p == 0 {
                assert(x == d);
            } else {
                assert(x == l.implied_literals@[p - 1].0);
                assert(in_level(l, v));
            }
        },
        None => {
            assert(t == implied);
            assert(x == l.implied_literals@[p].0);
        },
    }
    assert(in_level(l, v));
    let len = h.decision_levels@.len() as int;
    let ls = h.decision_levels@.subrange(1, len);
    assert(ls[len - 2] == l);
    assert(in_levels(ls, v));
    assert(lits_in_range(t, n));
    assert(v < n);
    assert(fin[v as int] is None);
    assert(c[0]@ == -x@);
    assert(c[0].var() == v);
    assert(c[0].eval_spec(fin) is None);
}

/// Whether the walk back from a conflict is possible depends only on the clauses.
proof fn lemma_walk_ready_same_clauses(h: History, f: Formula, g: Formula, ci: int)
    requires
        f.clauses@ == g.clauses@,
        walk_ready(h, f, ci),
    ensures
        walk_ready(h, g, ci),
{
    let l = h.decision_levels@.last();
    let tr = level_trail(l);
    let cur = (h.decision_levels@.len() - 1) as usize;
    let cl = f.clauses@[ci]@;
    assert(cl == g.clauses@[ci]@);
    let j = choose|j: int| 0 <= j < cl.len() && #[trigger] h.level_of(cl[j]) == Some(cur);
    assert(h.level_of(g.clauses@[ci]@[j]) == Some(cur));
    assert forall|p: int| 0 <= p < tr.len() implies #[trigger] reason_ready(h, g, p) by {
        assert(reason_ready(h, f, p));
    }
}

/// Some first-UIP analysis of the conflict in `h` and `f` has a clause of `g` made of its literals
/// only, and that clause is false in `g`.
pub open spec fn subsumed_learning_false(h: History, f: Formula, g: Formula) -> bool {
    exists|a: ConflictAnalysis, i: int| #![trigger a.wf(&h, f.n_vars()), g.clauses@[i]]
        a.wf(&h, f.n_vars()) && 0 <= i < g.clauses@.len()
        && clause_falsified(g.clauses@[i]@, g.assignment@)
        && forall|k: int| 0 <= k < g.clauses@[i]@.len() ==> a.uip_clause_literals@.contains(#[trigger] g.clauses@[i]@[k])
}

/// Some DIP analysis of the conflict in `h` and `f` gives a pair whose extension literal `z` is
/// recorded in `g`, and the post clause `¬z ∨ post` is false in `g`.
pub open spec fn dip_post_false(h: History, f: Formula, g: Formula) -> bool {
    exists|a: ConflictAnalysis, r: ConflictLearnResult, nz: Literal| #[trigger] dip_post_false_at(h, f, g, a, r, nz)
}

/// `dip_post_false` with its analysis `a`, result `r` and literal `nz` (that is `¬z`).
pub open spec fn dip_post_false_at(h: History, f: Formula, g: Formula, a: ConflictAnalysis, r: ConflictLearnResult,
    nz: Literal) -> bool {
    &&& a.wf(&h, f.n_vars())
    &&& dip_result_of(r, a, h, f.n_vars())
    &&& g.extensions@.contains_key(crate::formula::extension::ordered_pair(r->dip_a@, r->dip_b@))
    &&& nz@ == -g.extensions@[crate::formula::extension::ordered_pair(r->dip_a@, r->dip_b@)]
    &&& clause_falsified(seq![nz] + r->post_clause_without_z@, g.assignment@)
}

/// Every variable of the levels above the root level of `levels` is unassigned in `a`.
pub open spec fn root_undone(levels: Seq<DecisionLevel>, a: Seq<Option<bool>>) -> bool {
    forall|v: nat| #[trigger] in_levels(levels.subrange(1, levels.len() as int), v) && v < a.len() ==> a[v as int] is None
}

/// Backtracks to `preferred_level`, then one level further each time `clause` is still false;
/// returns the level at which it is not false, or `None` when it is false even at level 0.
pub fn backtrack_until_not_conflicting(clause: &Clause, preferred_level: usize, history: &mut History, formula: &mut Formula)
    -> (r: Option<usize>)
    requires
        old(formula).wf(),
        old(formula).tracks(old(history)),
        lits_wf(clause@),
        preferred_level < old(history).decision_levels@.len(),
    ensures
        final(formula).wf(),
        final(formula).tracks(final(history)),
        final(formula).clauses@.len() == old(formula).clauses@.len(),
        forall|i: int| 0 <= i < old(formula).clauses@.len() ==> #[trigger] same_but_lock(final(formula).clauses@[i], old(formula).clauses@[i]),
        final(formula).extensions == old(formula).extensions,
        final(formula).self_subsuming == old(formula).self_subsuming,
        final(formula).n_vars() == old(formula).n_vars(),
        r matches Some(l) ==> l <= preferred_level && final(history).decision_levels@.len() == l + 1
            && !clause_falsified(clause@, final(formula).assignment@),
        r is None ==> final(history).decision_levels@.len() == 1 && clause_falsified(clause@, final(formula).assignment@),
        r is None ==> root_undone(old(history).decision_levels@, final(formula).assignment@),
        old(formula).watch_lists_sound() ==> final(formula).watch_lists_sound(),
{
    let mut level = preferred_level;
    loop
        invariant
            history.decision_levels@ == old(history).decision_levels@.subrange(0, history.decision_levels@.len() as int),
            history.decision_levels@.len() <= old(history).decision_levels@.len(),
            formula.n_vars() == old(formula).n_vars(),
            forall|v: nat| #[trigger] in_levels(old(history).decision_levels@.subrange(history.decision_levels@.len() as int,
                old(history).decision_levels@.len() as int), v) && v < formula.n_vars() ==> formula.assignment@[v as int] is None,
            old(formula).watch_lists_sound() ==> formula.watch_lists_sound(),
            formula.wf(),
            formula.tracks(history),
            formula.clauses@.len() == old(formula).clauses@.len(),
            forall|i: int| 0 <= i < old(formula).clauses@.len() ==> #[trigger] same_but_lock(formula.clauses@[i], old(formula).clauses@[i]),
            formula.extensions == old(formula).extensions,
            formula.self_subsuming == old(formula).self_subsuming,
            formula.n_vars() == old(formula).n_vars(),
            lits_wf(clause@),
            level <= preferred_level,
            level < history.decision_levels@.len(),
        decreases level,
    {
        let ghost before = *formula;
        let ghost hb = history.decision_levels@;
        let depth = history.decision_levels.len();
        assert(level + 1 <= depth);
        formula.revert_decision(level + 1, history);
        proof {
            let ol = old(history).decision_levels@;
            let on = ol.len() as int;
            let k0 = level + 1;
            assert forall|v: nat| #[trigger] in_levels(ol.subrange(k0, on), v) && v < formula.n_vars()
                implies formula.assignment@[v as int] is None by {
                let k = choose|k: int| 0 <= k < ol.subrange(k0, on).len() && in_level(#[trigger] ol.subrange(k0, on)[k], v);
                let kk = k0 + k;
                if kk < hb.len() {
                    let undone = hb.subrange(k0, hb.len() as int);
                    assert(undone[k] == ol[kk]);
                    assert(in_levels(undone, v));
                } else {
                    let rest = ol.subrange(hb.len() as int, on);
                    assert(rest[kk - hb.len()] == ol[kk]);
                    assert(in_levels(rest, v));
                    assert(before.assignment@[v as int] is None);
                }
            }
            assert(history.decision_levels@ =~= ol.subrange(0, history.decision_levels@.len() as int));
        }
        proof {
            if before.watch_lists_sound() {
                crate::formula::propagation::lemma_watch_lists_sound_same_but_lock(before, *formula);
            }
            assert forall|i: int| 0 <= i < old(formula).clauses@.len() implies #[trigger] same_but_lock(formula.clauses@[i], old(formula).clauses@[i]) by {
                assert(same_but_lock(before.clauses@[i], old(formula).clauses@[i]));
                assert(same_but_lock(formula.clauses@[i], before.clauses@[i]));
            }
        }
        if !clause.is_empty(&formula.assignment) {
            return Some(level);
        }
        if level == 0 {
            return None;
        }
        level = level - 1;
    }
}

/// The clause `first` followed by `rest`, with the given LBD.
pub fn prefixed_clause(first: Literal, rest: Vec<Literal>, lbd: i64) -> (r: Clause)
    ensures
        r@ == seq![first] + rest@,
        r.lbd == lbd,
        r.lock_count == 0,
        !r.bva_generated,
        r.watched == watched_for_len_spec(rest@.len() + 1),
        first.wf() && lits_wf(rest@) ==> r.wf(),
{
    let mut lits: Vec<Literal> = Vec::new();
    lits.push(first);
    for i in 0..rest.len()
        invariant
            lits@ == seq![first] + rest@.subrange(0, i as int),
    {
        lits.push(rest[i]);
        assert(lits@ =~= seq![first] + rest@.subrange(0, i + 1));
    }
    assert(lits@ =~= seq![first] + rest@);
    Clause::from_literals(lits, lbd)
}

/// Learns a first-UIP clause: backtracks until it is not false, adds it (see
/// `Formula::add_clause`) and asserts its unit literal. `None` when it stays false.
pub fn learn_uip_clause<W: Write>(formula: &mut Formula, history: &mut History, logger: &mut Option<DratLogger<W>>,
    propagation: &mut Vec<Literal>, learned: Clause, backtrack_level: usize) -> (r: Result<Option<Clause>, CdclError>)
    requires
        old(formula).wf(),
        old(formula).tracks(old(history)),
        old(formula).clause_fits(learned),
        backtrack_level < old(history).decision_levels@.len(),
        queue_ok(old(propagation)@, old(formula).n_vars()),
    ensures
        final(formula).wf(),
        final(formula).tracks(final(history)),
        queue_ok(final(propagation)@, final(formula).n_vars()),
        final(formula).n_vars() == old(formula).n_vars(),
        r matches Ok(Some(c)) ==> c@ == learned@,
        r is Err ==> old(formula).clauses@.len() == usize::MAX,
        r matches Err(e) ==> e == CdclError::DatabaseFull,
        r matches Ok(Some(_)) ==> final(history).decision_levels@.len() <= backtrack_level + 1
            && !clause_falsified(learned@, final(formula).assignment@)
            && exists|i: int| 0 <= i < final(formula).clauses@.len() && subset_lits(#[trigger] final(formula).clauses@[i], learned),
        old(formula).watch_lists_sound() ==> final(formula).watch_lists_sound(),
        queue_true(old(propagation)@, old(formula).assignment@) && old(propagation)@.len() == 0
            ==> queue_true(final(propagation)@, final(formula).assignment@),
        r matches Ok(None) ==> (final(history).decision_levels@.len() == 1 && clause_falsified(learned@, final(formula).assignment@))
            || exists|i: int| 0 <= i < final(formula).clauses@.len() && subset_lits(#[trigger] final(formula).clauses@[i], learned)
                && clause_falsified(final(formula).clauses@[i]@, final(formula).assignment@),
        r matches Ok(None) ==> (final(history).decision_levels@.len() == 1
                && root_undone(old(history).decision_levels@, final(formula).assignment@)
                && clause_falsified(learned@, final(formula).assignment@))
            || (old(formula).self_subsuming && learned.lbd != 0 && !clause_falsified(learned@, final(formula).assignment@)),
        final(formula).self_subsuming == old(formula).self_subsuming,
        *old(logger) is None ==> *final(logger) is None,
        *old(logger) matches Some(l) ==> *final(logger) matches Some(l2) && l.logged().is_prefix_of(l2.logged())
            && ((r matches Ok(Some(_)) && (!old(formula).self_subsuming || learned.lbd == 0))
                ==> l2.logged() == l.logged() + drat_line(learned@, false)),
{
    let bt = backtrack_until_not_conflicting(&learned, backtrack_level, history, formula);
    if bt.is_none() {
        return Ok(None);
    }
    if formula.clauses.len() == usize::MAX {
        return Err(CdclError::DatabaseFull);
    }
    let ghost levels_after_backtrack = history.decision_levels@.len();
    formula.stats.add_learnt_clause(&learned);
    let copy = learned.clone();
    let clause_idx = formula.add_clause(copy, logger, Some(history));
    let ghost stored = formula.clauses@[clause_idx as int];
    proof {
        assert(formula.clause_fits(formula.clauses@[clause_idx as int]));
        assert(subset_lits(stored, learned)) by {
            if stored@ == learned@ {
                assert forall|i: int| 0 <= i < stored@.len() implies learned@.contains(#[trigger] stored@[i]) by {
                    assert(learned@[i] == stored@[i]);
                }
            }
        }
    }
    let unit = match formula.clauses[clause_idx].get_unit_literal(&formula.assignment) {
        Some(l) => Some(*l),
        None => None,
    };
    match unit {
        Some(u) => {
            proof {
                let k = choose|k: int| unit_at(formula.clauses@[clause_idx as int]@, formula.assignment@, k)
                    && formula.clauses@[clause_idx as int]@[k] == u;
                assert(formula.clauses@[clause_idx as int]@[k].wf());
            }
            let ghost before_assign = *formula;
            let res = formula.assign_implication(u, history, Some(clause_idx));
            proof {
                assert(same_but_lock(formula.clauses@[clause_idx as int], before_assign.clauses@[clause_idx as int]));
                assert(u.eval_spec(formula.assignment@) == Some(true));
                assert(learned@.contains(u));
                let j = choose|j: int| 0 <= j < learned@.len() && learned@[j] == u;
                assert(learned@[j].eval_spec(formula.assignment@) == Some(true));
                assert(subset_lits(formula.clauses@[clause_idx as int], learned)) by {
                    assert forall|i: int| 0 <= i < formula.clauses@[clause_idx as int]@.len() implies
                        learned@.contains(#[trigger] formula.clauses@[clause_idx as int]@[i]) by {
                        assert(formula.clauses@[clause_idx as int]@[i] == stored@[i]);
                    }
                }
            }
            if let AssignResult::Assigned(lit) = res {
                propagation.push(lit);
                proof {
                    assert forall|i: int| 0 <= i < propagation@.len() implies (#[trigger] propagation@[i]).wf()
                        && propagation@[i].var() < formula.n_vars() by {
                        if i < old(propagation)@.len() {
                            assert(propagation@[i] == old(propagation)@[i]);
                        }
                    }
                }
            }
        },
        None => {
            if formula.clauses[clause_idx].is_empty(&formula.assignment) {
                proof {
                    assert(subset_lits(formula.clauses@[clause_idx as int], learned));
                }
                return Ok(None);
            }
            proof {
                let j = choose|j: int| 0 <= j < stored@.len() && !((#[trigger] stored@[j]).eval_spec(formula.assignment@) == Some(false));
                assert(learned@.contains(stored@[j]));
                let q = choose|q: int| 0 <= q < learned@.len() && learned@[q] == stored@[j];
                assert(learned@[q].eval_spec(formula.assignment@) != Some(false));
            }
        },
    }
    Ok(Some(learned))
}

/// The extension literal `z` standing for `dip_a ∧ dip_b`: the existing one, or a fresh variable
/// with the three defining clauses `z ∨ ¬a ∨ ¬b`, `¬z ∨ a`, `¬z ∨ b` (LBD 0).
pub fn extension_literal<W: Write>(formula: &mut Formula, logger: &mut Option<DratLogger<W>>, dip_a: &Literal, dip_b: &Literal)
    -> (r: Literal)
    requires
        old(formula).wf(),
        dip_a.wf() && dip_a.var() < old(formula).n_vars(),
        dip_b.wf() && dip_b.var() < old(formula).n_vars(),
        old(formula).n_vars() < i32::MAX,
        old(formula).clauses@.len() < usize::MAX - 3,
    ensures
        final(formula).wf(),
        r.wf(),
        r.var() < final(formula).n_vars(),
        old(formula).n_vars() <= final(formula).n_vars() <= old(formula).n_vars() + 1,
        old(formula).clauses@.len() <= final(formula).clauses@.len() <= old(formula).clauses@.len() + 3,
        old(formula).clauses@.is_prefix_of(final(formula).clauses@),
        final(formula).assignment@.subrange(0, old(formula).n_vars() as int) == old(formula).assignment@,
        final(formula).extensions@.contains_key(crate::formula::extension::ordered_pair(dip_a@, dip_b@)),
        final(formula).extensions@[crate::formula::extension::ordered_pair(dip_a@, dip_b@)] == r@,
        old(formula).watch_lists_sound() ==> final(formula).watch_lists_sound(),
        final(formula).clauses@.len() == old(formula).clauses@.len() || final(formula).clauses@.len() == old(formula).clauses@.len() + 3,
        final(formula).self_subsuming == old(formula).self_subsuming,
        *old(logger) is None ==> *final(logger) is None,
        *old(logger) matches Some(l) ==> *final(logger) matches Some(l2)
            && l2.logged() == l.logged() + addition_text(final(formula).clauses@, old(formula).clauses@.len() as int,
                final(formula).clauses@.len() as int),
{
    match formula.extensions.substitute(dip_a, dip_b) {
        Some(ext_lit) => {
            if ext_lit.get_variable() < formula.assignment.len() {
                proof {
                    assert(formula.clauses@ =~= old(formula).clauses@);
                    assert(formula.assignment@.subrange(0, old(formula).n_vars() as int) =~= old(formula).assignment@);
                    lemma_addition_text_empty(formula.clauses@, formula.clauses@.len() as int);
                    if *old(logger) is Some {
                        assert((*old(logger))->0.logged() + Seq::<u8>::empty() =~= (*old(logger))->0.logged());
                    }
                }
                return ext_lit;
            }
        },
        None => {},
    }
    let z = formula.add_literal();
    formula.stats.add_extension_literal();
    formula.extensions.add_substitution(dip_a, dip_b, &z);
    let ghost mid = *formula;
    let mut c1: Vec<Literal> = Vec::new();
    c1.push(z);
    c1.push(dip_a.negated());
    c1.push(dip_b.negated());
    let mut c2: Vec<Literal> = Vec::new();
    c2.push(z.negated());
    c2.push(*dip_a);
    let mut c3: Vec<Literal> = Vec::new();
    c3.push(z.negated());
    c3.push(*dip_b);
    let cl1 = Clause::from_literals(c1, 0);
    let cl2 = Clause::from_literals(c2, 0);
    let cl3 = Clause::from_literals(c3, 0);
    proof {
        assert(formula.clause_fits(cl1));
        assert(formula.clause_fits(cl2));
        assert(formula.clause_fits(cl3));
    }
    let ghost n0 = old(formula).clauses@.len() as int;
    let ghost f0 = formula.clauses@;
    proof {
        lemma_addition_text_empty(f0, n0);
        assert(f0.len() == n0);
    }
    formula.add_clause(cl1, logger, None);
    proof { lemma_addition_text_push(f0, cl1, n0); }
    let ghost f1 = formula.clauses@;
    formula.add_clause(cl2, logger, None);
    proof { lemma_addition_text_push(f1, cl2, n0); }
    let ghost f2 = formula.clauses@;
    formula.add_clause(cl3, logger, None);
    proof { lemma_addition_text_push(f2, cl3, n0); }
    proof {
        assert(old(formula).clauses@.is_prefix_of(formula.clauses@));
        assert(formula.assignment@.subrange(0, old(formula).n_vars() as int) =~= old(formula).assignment@);
    }
    z
}


/// `f` ends with the post clause `¬z ∨ post` and then the pre clause `z ∨ pre` of the pair
/// `(a, b)`, `z` being the extension literal recorded for the pair, and `c` holds exactly the
/// literals of these two clauses.
pub open spec fn dip_learned(f: Formula, a: Literal, b: Literal, pre: Seq<Literal>, post: Seq<Literal>, c: Clause) -> bool {
    let key = crate::formula::extension::ordered_pair(a@, b@);
    let n = f.clauses@.len();
    let post_c = f.clauses@[n - 2]@;
    let pre_c = f.clauses@[n - 1]@;
    &&& f.extensions@.contains_key(key)
    &&& n >= 2
    &&& post_c.len() == post.len() + 1 && post_c[0]@ == -f.extensions@[key] && post_c.subrange(1, post_c.len() as int) == post
    &&& pre_c.len() == pre.len() + 1 && pre_c[0]@ == f.extensions@[key] && pre_c.subrange(1, pre_c.len() as int) == pre
    &&& forall|x: Literal| #[trigger] c@.contains(x) <==> (post_c.contains(x) || pre_c.contains(x))
}

/// Relocking clauses leaves their addition lines unchanged.
proof fn lemma_additions_after_relock(cs: Seq<Clause>, ds: Seq<Clause>, from: int)
    requires
        0 <= from,
        cs.len() == ds.len(),
        forall|i: int| 0 <= i < cs.len() ==> #[trigger] same_but_lock(ds[i], cs[i]),
    ensures
        addition_text(cs, from, cs.len() as int) == addition_text(ds, from, ds.len() as int),
{
    assert forall|i: int| from <= i < cs.len() implies (#[trigger] cs[i])@ == ds[i]@ by {
        assert(same_but_lock(ds[i], cs[i]));
    }
    lemma_addition_text_same(cs, ds, from, cs.len() as int);
}

/// Literals with the same value head the same clause.
proof fn lemma_same_head(x: Literal, y: Literal, rest: Seq<Literal>)
    requires
        x@ == y@,
    ensures
        seq![x] + rest == seq![y] + rest,
{
    Literal::lemma_view_injective(x, y);
}

/// A true literal of a clause satisfies it, also after the assignment grows.
proof fn lemma_sat_after_extend(s: Seq<Literal>, a0: Seq<Option<bool>>, a1: Seq<Option<bool>>)
    requires
        clause_sat(s, a0),
        extends(a1, a0),
        lits_wf(s),
    ensures
        clause_sat(s, a1),
{
    let i = choose|i: int| 0 <= i < s.len() && (#[trigger] s[i]).eval_spec(a0) == Some(true);
    assert(s[i].wf());
    if s[i].var() < a0.len() {
        assert(a0[s[i].var() as int] is Some);
    }
}

/// Learns the two clauses of a dominating implication pair: with `z` the extension literal of
/// `dip_a ∧ dip_b`, the post clause `¬z ∨ post` (backtracking until it is not false) and the pre
/// clause `z ∨ pre`; both are added and their unit literals asserted. Returns the literals of both
/// clauses (each once) as the learnt clause for the branching heuristic, `None` when the post
/// clause stays false at level 0.
#[verifier::rlimit(50)]
#[verifier::spinoff_prover]
pub fn learn_dip_clauses<W: Write>(formula: &mut Formula, history: &mut History, logger: &mut Option<DratLogger<W>>,
    propagation: &mut Vec<Literal>, dip_a: Literal, dip_b: Literal, pre_clause_without_z: Vec<Literal>,
    post_clause_without_z: Vec<Literal>, pre_lbd: i64, post_lbd: i64, backtrack_level: usize)
    -> (r: Result<Option<Clause>, CdclError>)
    requires
        old(formula).wf(),
        old(formula).tracks(old(history)),
        dip_a.wf() && dip_a.var() < old(formula).n_vars(),
        dip_b.wf() && dip_b.var() < old(formula).n_vars(),
        crate::history::conflict_analysis::lits_in_range(pre_clause_without_z@, old(formula).n_vars()),
        crate::history::conflict_analysis::lits_in_range(post_clause_without_z@, old(formula).n_vars()),
        backtrack_level < old(history).decision_levels@.len(),
        queue_ok(old(propagation)@, old(formula).n_vars()),
        old(formula).n_vars() < i32::MAX,
    ensures
        final(formula).wf(),
        final(formula).tracks(final(history)),
        queue_ok(final(propagation)@, final(formula).n_vars()),
        r matches Ok(Some(c)) ==> c.wf() && final(formula).clauses@.len() >= old(formula).clauses@.len() + 2
            && dip_learned(*final(formula), dip_a, dip_b, pre_clause_without_z@, post_clause_without_z@, c),
        old(formula).watch_lists_sound() ==> final(formula).watch_lists_sound(),
        old(propagation)@.len() == 0 ==> queue_true(final(propagation)@, final(formula).assignment@),
        r matches Ok(None) ==> final(history).decision_levels@.len() == 1
            && final(formula).extensions@.contains_key(crate::formula::extension::ordered_pair(dip_a@, dip_b@))
            && exists|nz: Literal| nz@ == -final(formula).extensions@[crate::formula::extension::ordered_pair(dip_a@, dip_b@)]
                && #[trigger] clause_falsified(seq![nz] + post_clause_without_z@, final(formula).assignment@),
        (r matches Err(e) && e == CdclError::DatabaseFull) <==> old(formula).clauses@.len() >= usize::MAX - 5,
        !(r matches Err(e) && e == CdclError::DipPostClauseConflicting),
        !(r matches Err(e) && e == CdclError::DipPostUnitConflict),
        (r matches Err(e) && e == CdclError::DipPostClauseNotAsserting) <==> (!(r matches Err(e) && e == CdclError::DatabaseFull)
            && exists|nz: Literal|
            nz@ == -final(formula).extensions@[crate::formula::extension::ordered_pair(dip_a@, dip_b@)]
            && !clause_sat(#[trigger] (seq![nz] + post_clause_without_z@), final(formula).assignment@)
            && !clause_unit(seq![nz] + post_clause_without_z@, final(formula).assignment@)
            && !clause_falsified(seq![nz] + post_clause_without_z@, final(formula).assignment@)),
        (r matches Err(e) && e == CdclError::DipPreClauseConflicting) <==> (!(r matches Err(e) && e == CdclError::DatabaseFull)
            && (forall|nz: Literal| nz@ == -final(formula).extensions@[crate::formula::extension::ordered_pair(dip_a@, dip_b@)]
                ==> #[trigger] clause_sat(seq![nz] + post_clause_without_z@, final(formula).assignment@))
            && exists|z: Literal|
            z@ == final(formula).extensions@[crate::formula::extension::ordered_pair(dip_a@, dip_b@)]
            && #[trigger] clause_falsified(seq![z] + pre_clause_without_z@, final(formula).assignment@)),
        r is Ok ==> forall|nz: Literal| nz@ == -final(formula).extensions@[crate::formula::extension::ordered_pair(dip_a@, dip_b@)]
            ==> #[trigger] clause_sat(seq![nz] + post_clause_without_z@, final(formula).assignment@)
                || clause_falsified(seq![nz] + post_clause_without_z@, final(formula).assignment@),
        r matches Ok(Some(_)) ==> forall|z: Literal| z@ == final(formula).extensions@[crate::formula::extension::ordered_pair(dip_a@, dip_b@)]
            ==> !#[trigger] clause_falsified(seq![z] + pre_clause_without_z@, final(formula).assignment@),
        (r matches Err(e) && e != CdclError::DatabaseFull) ==> final(history).decision_levels@.len() <= backtrack_level + 1
            && final(formula).extensions@.contains_key(crate::formula::extension::ordered_pair(dip_a@, dip_b@)),
        *old(logger) is None ==> *final(logger) is None,
        *old(logger) matches Some(l) ==> *final(logger) matches Some(l2)
            && l2.logged() == l.logged() + addition_text(final(formula).clauses@, old(formula).clauses@.len() as int,
                final(formula).clauses@.len() as int),
        r matches Ok(Some(_)) ==> final(formula).clauses@.len() == old(formula).clauses@.len() + 2
            || final(formula).clauses@.len() == old(formula).clauses@.len() + 5,
{
    if formula.clauses.len() >= usize::MAX - 5 {
        proof {
            lemma_addition_text_empty(formula.clauses@, formula.clauses@.len() as int);
            if *old(logger) is Some {
                assert((*old(logger))->0.logged() + Seq::<u8>::empty() =~= (*old(logger))->0.logged());
            }
        }
        return Err(CdclError::DatabaseFull);
    }
    let ghost hist_before = *history;
    let ghost n0 = formula.n_vars();
    let z = extension_literal(formula, logger, &dip_a, &dip_b);
    proof {
        assert(formula.tracks(history)) by {
            assert forall|k: int| 0 <= k < history.decision_levels@.len() implies (#[trigger] history.decision_levels@[k]).below(formula.n_vars())
                && history.decision_levels@[k].reasons_below(formula.clauses@.len()) by {
                let l = history.decision_levels@[k];
                assert(l.below(n0));
                assert(l.reasons_below(old(formula).clauses@.len()));
                assert forall|i: int| 0 <= i < l.implied_literals@.len() implies (#[trigger] l.implied_literals@[i]).0.var() < formula.n_vars() by {
                }
                assert forall|i: int| 0 <= i < l.implied_literals@.len() implies
                    ((#[trigger] l.implied_literals@[i]).1 matches Some(r) ==> r < formula.clauses@.len()) by {
                }
                assert forall|i: int| 0 <= i < l.reason_by_unsigned@.len() implies
                    ((#[trigger] l.reason_by_unsigned@[i]) matches Some(r) ==> r < formula.clauses@.len()) by {
                }
            }
        }
        assert forall|i: int| 0 <= i < propagation@.len() implies (#[trigger] propagation@[i]).wf()
            && propagation@[i].var() < formula.n_vars() by {
            assert(propagation@[i].var() < n0);
        }
    }
    let neg_z = z.negated();
    let post_clause = prefixed_clause(neg_z, post_clause_without_z, post_lbd);
    let pre_clause = prefixed_clause(z, pre_clause_without_z, pre_lbd);
    proof {
        assert forall|i: int| 0 <= i < post_clause@.len() implies (#[trigger] post_clause@[i]).wf()
            && post_clause@[i].var() < formula.n_vars() by {
            if i > 0 {
                assert(post_clause@[i] == post_clause_without_z@[i - 1]);
            }
        }
        assert forall|i: int| 0 <= i < pre_clause@.len() implies (#[trigger] pre_clause@[i]).wf()
            && pre_clause@[i].var() < formula.n_vars() by {
            if i > 0 {
                assert(pre_clause@[i] == pre_clause_without_z@[i - 1]);
            }
        }
        assert(formula.clause_fits(post_clause));
        assert(formula.clause_fits(pre_clause));
    }
    let ghost key = crate::formula::extension::ordered_pair(dip_a@, dip_b@);
    let ghost zv = formula.extensions@[key];
    let ghost m0 = formula.clauses@.len();
    let ghost fe = formula.clauses@;
    let ghost n_start = old(formula).clauses@.len() as int;
    let bt = backtrack_until_not_conflicting(&post_clause, backtrack_level, history, formula);
    proof {
        lemma_additions_after_relock(fe, formula.clauses@, n_start);
    }
    let actual_backtrack = match bt {
        Some(l) => l,
        None => {
            proof {
                assert(post_clause@ == seq![neg_z] + post_clause_without_z@);
                assert(clause_falsified(seq![neg_z] + post_clause_without_z@, formula.assignment@));
                assert(neg_z@ == -formula.extensions@[key]);
                assert(!clause_sat(seq![neg_z] + post_clause_without_z@, formula.assignment@));
                assert forall|nz: Literal| nz@ == neg_z@ implies #[trigger] clause_sat(seq![nz] + post_clause_without_z@, formula.assignment@)
                    || clause_falsified(seq![nz] + post_clause_without_z@, formula.assignment@) by {
                    lemma_same_head(nz, neg_z, post_clause_without_z@);
                }
            }
            return Ok(None);
        },
    };
    let mut learned = Clause::new();
    for i in 0..post_clause.literals.len()
        invariant
            learned.wf(),
            lits_wf(post_clause@),
            forall|x: Literal| #[trigger] learned@.contains(x) <==> post_clause@.subrange(0, i as int).contains(x),
    {
        let ghost before = learned@;
        let _ = learned.add_literal(&post_clause.literals[i]);
        proof {
            let y = post_clause@[i as int];
            assert(post_clause@.subrange(0, i + 1) =~= post_clause@.subrange(0, i as int).push(y));
            assert forall|x: Literal| #[trigger] learned@.contains(x) <==> post_clause@.subrange(0, i + 1).contains(x) by {
                vstd::seq_lib::lemma_seq_contains_after_push(post_clause@.subrange(0, i as int), y, x);
                vstd::seq_lib::lemma_seq_contains_after_push(before, y, x);
            }
        }
    }
    proof { assert(post_clause@.subrange(0, post_clause@.len() as int) =~= post_clause@); }
    for i in 0..pre_clause.literals.len()
        invariant
            learned.wf(),
            lits_wf(pre_clause@),
            forall|x: Literal| #[trigger] learned@.contains(x) <==> (post_clause@.contains(x) || pre_clause@.subrange(0, i as int).contains(x)),
    {
        let ghost before = learned@;
        let _ = learned.add_literal(&pre_clause.literals[i]);
        proof {
            let y = pre_clause@[i as int];
            assert(pre_clause@.subrange(0, i + 1) =~= pre_clause@.subrange(0, i as int).push(y));
            assert forall|x: Literal| #[trigger] learned@.contains(x) <==> (post_clause@.contains(x) || pre_clause@.subrange(0, i + 1).contains(x)) by {
                vstd::seq_lib::lemma_seq_contains_after_push(pre_clause@.subrange(0, i as int), y, x);
                vstd::seq_lib::lemma_seq_contains_after_push(before, y, x);
            }
        }
    }
    proof { assert(pre_clause@.subrange(0, pre_clause@.len() as int) =~= pre_clause@); }
    if post_clause.is_empty(&formula.assignment) {
        return Err(CdclError::DipPostClauseConflicting);
    }
    proof {
        assert(post_clause@ == seq![neg_z] + post_clause_without_z@);
        assert(pre_clause@ == seq![z] + pre_clause_without_z@);
    }
    if !post_clause.is_satisfied(&formula.assignment) && !post_clause.is_unit(&formula.assignment) {
        return Err(CdclError::DipPostClauseNotAsserting);
    }
    let ghost sat_or_unit_at = formula.assignment@;
    formula.stats.add_learnt_clause(&post_clause);
    let ghost post_view = post_clause@;
    let ghost pre_view = pre_clause@;
    let ghost fb = formula.clauses@;
    let post_idx = formula.add_clause_unchecked(post_clause, logger);
    proof { lemma_addition_text_push(fb, formula.clauses@.last(), n_start); }
    formula.stats.add_learnt_clause(&pre_clause);
    let pre_copy = pre_clause.clone();
    let ghost fp = formula.clauses@;
    let pre_idx = formula.add_clause_unchecked(pre_copy, logger);
    proof { lemma_addition_text_push(fp, formula.clauses@.last(), n_start); }
    proof {
        assert(formula.clauses@[post_idx as int]@ == post_view);
        assert(formula.clauses@[pre_idx as int]@ == pre_view);
        assert(pre_idx == post_idx + 1);
        assert(formula.extensions@[key] == zv);
    }
    let ghost added = *formula;
    let ghost post_at = post_idx as int;
    let ghost pre_at = pre_idx as int;
    proof {
        assert(formula.tracks(history));
        assert(formula.clause_fits(formula.clauses@[post_idx as int]));
    }
    let post_unit = match formula.clauses[post_idx].get_unit_literal(&formula.assignment) {
        Some(l) => Some(*l),
        None => None,
    };
    match post_unit {
        Some(u) => {
            proof {
                let k = choose|k: int| unit_at(formula.clauses@[post_idx as int]@, formula.assignment@, k)
                    && formula.clauses@[post_idx as int]@[k] == u;
                assert(formula.clauses@[post_idx as int]@[k].wf());
            }
            let ghost fa = formula.clauses@;
            let ar = formula.assign_implication(u, history, Some(post_idx));
            proof { lemma_additions_after_relock(fa, formula.clauses@, n_start); }
            match ar {
                AssignResult::Conflict => {
                    if actual_backtrack == 0 {
                        return Ok(None);
                    }
                    return Err(CdclError::DipPostUnitConflict);
                },
                AssignResult::AlreadyAssigned => {},
                AssignResult::Assigned(lit) => {
                    propagation.push(lit);
                    proof {
                        assert forall|i: int| 0 <= i < propagation@.len() implies (#[trigger] propagation@[i]).wf()
                            && propagation@[i].var() < formula.n_vars() by {
                        }
                        let k = choose|k: int| unit_at(added.clauses@[post_idx as int]@, added.assignment@, k)
                            && added.clauses@[post_idx as int]@[k] == u;
                        assert(post_view[k] == u);
                        assert(u.eval_spec(formula.assignment@) == Some(true));
                        assert(clause_sat(post_view, formula.assignment@));
                    }
                },
            }
        },
        None => {
            if formula.clauses[post_idx].is_empty(&formula.assignment) {
                proof {
                    assert forall|nz: Literal| nz@ == neg_z@ implies #[trigger] clause_sat(seq![nz] + post_clause_without_z@, formula.assignment@)
                        || clause_falsified(seq![nz] + post_clause_without_z@, formula.assignment@) by {
                        lemma_same_head(nz, neg_z, post_clause_without_z@);
                    }
                }
                return Ok(None);
            }
            proof {
                assert(!clause_unit(post_view, formula.assignment@));
                assert(clause_sat(post_view, formula.assignment@));
            }
        },
    }
    proof {
        assert(same_but_lock(formula.clauses@[post_at], added.clauses@[post_at]));
        assert(same_but_lock(formula.clauses@[pre_at], added.clauses@[pre_at]));
    }
    let ghost mid = *formula;
    if pre_clause.is_empty(&formula.assignment) {
        proof {
            assert(clause_falsified(seq![z] + pre_clause_without_z@, formula.assignment@));
            assert forall|nz: Literal| nz@ == neg_z@ implies #[trigger] clause_sat(seq![nz] + post_clause_without_z@, formula.assignment@) by {
                lemma_same_head(nz, neg_z, post_clause_without_z@);
            }
        }
        return Err(CdclError::DipPreClauseConflicting);
    }
    let pre_unit = match pre_clause.get_unit_literal(&formula.assignment) {
        Some(l) => Some(*l),
        None => None,
    };
    if let Some(asserting_lit) = pre_unit {
        proof {
            let k = choose|k: int| unit_at(pre_clause@, formula.assignment@, k) && pre_clause@[k] == asserting_lit;
            assert(pre_clause@[k].wf());
        }
        proof {
            assert(pre_idx < formula.clauses@.len());
        }
        let ghost fq = formula.clauses@;
        let ar2 = formula.assign_implication(asserting_lit, history, Some(pre_idx));
        proof { lemma_additions_after_relock(fq, formula.clauses@, n_start); }
        if let AssignResult::Assigned(lit) = ar2 {
            propagation.push(lit);
            proof {
                assert forall|i: int| 0 <= i < propagation@.len() implies (#[trigger] propagation@[i]).wf()
                    && propagation@[i].var() < formula.n_vars() by {
                }
            }
        }
    }
    proof {
        assert(formula.clauses@.len() == added.clauses@.len());
        assert(same_but_lock(formula.clauses@[post_at], mid.clauses@[post_at]));
        assert(same_but_lock(formula.clauses@[pre_at], mid.clauses@[pre_at]));
        let post_c = formula.clauses@[post_idx as int]@;
        let pre_c = formula.clauses@[pre_idx as int]@;
        assert(post_c == post_view);
        assert(pre_c == pre_view);
        assert(post_view.subrange(1, post_view.len() as int) =~= post_clause_without_z@);
        assert(pre_view.subrange(1, pre_view.len() as int) =~= pre_clause_without_z@);
        assert(formula.clauses@.len() - 2 == post_idx);
        assert(formula.clauses@.len() - 1 == pre_idx);
        assert(lits_wf(post_view));
        lemma_sat_after_extend(post_view, mid.assignment@, formula.assignment@);
        assert forall|nz: Literal| nz@ == neg_z@ implies #[trigger] clause_sat(seq![nz] + post_clause_without_z@, formula.assignment@)
            || clause_falsified(seq![nz] + post_clause_without_z@, formula.assignment@) by {
            lemma_same_head(nz, neg_z, post_clause_without_z@);
        }
        if pre_unit is Some {
            let al = pre_unit->0;
            assert(pre_clause@.contains(al));
            assert(al.eval_spec(formula.assignment@) == Some(true));
        }
        assert(!clause_falsified(pre_view, formula.assignment@));
        assert forall|zz: Literal| zz@ == z@ implies !#[trigger] clause_falsified(seq![zz] + pre_clause_without_z@, formula.assignment@) by {
            lemma_same_head(zz, z, pre_clause_without_z@);
        }
    }
    Ok(Some(learned))
}


/// A restart: back to level 0 (releasing the reasons' locks), then the inprocessing passes
/// when `run_inprocessing`.
pub fn restart<W: Write>(formula: &mut Formula, history: &mut History, inprocessing: &Vec<Process>, run_inprocessing: bool,
    logger: &mut Option<DratLogger<W>>)
    requires
        old(formula).wf(),
        old(formula).tracks(old(history)),
    ensures
        final(formula).wf(),
        final(formula).tracks(final(history)),
        final(history).decision_levels@.len() == 1,
        !run_inprocessing ==> final(formula).assignment@ == unassign_levels(old(formula).assignment@,
            old(history).decision_levels@.subrange(1, old(history).decision_levels@.len() as int))
            && final(formula).clauses@.len() == old(formula).clauses@.len(),
        run_inprocessing ==> exists|m: Formula| #[trigger] processed(m, *final(formula))
            && m.assignment@ == unassign_levels(old(formula).assignment@,
                old(history).decision_levels@.subrange(1, old(history).decision_levels@.len() as int))
            && m.clauses@.len() == old(formula).clauses@.len(),
        old(formula).watch_lists_sound() ==> final(formula).watch_lists_sound(),
{
    formula.stats.add_restart();
    let ghost pre_revert = *formula;
    formula.revert_decision(1, history);
    proof {
        if pre_revert.watch_lists_sound() {
            crate::formula::propagation::lemma_watch_lists_sound_same_but_lock(pre_revert, *formula);
        }
    }
    let ghost reverted = *formula;
    if run_inprocessing {
        let mut methods: Vec<Process> = Vec::new();
        for i in 0..inprocessing.len() {
            methods.push(inprocessing[i]);
        }
        formula.process(methods, logger, false, Some(&mut *history));
        proof { assert(processed(reverted, *formula)); }
    }
}

/// `a * b`, capped at `u64::MAX`.
fn mul_capped(a: u64, b: u64) -> (r: u64)
    ensures
        r == if a * b > u64::MAX { u64::MAX as int } else { a * b },
{
    match a.checked_mul(b) {
        Some(x) => x,
        None => u64::MAX,
    }
}

/// The search state of a CDCL run between the driver's decisions.
pub struct Cdcl {
    pub history: History,
    pub implication_point: ImplicationPoint,
    pub inprocessing: Vec<Process>,
    pub restart_count: u64,
    pub conflicts_at_last_restart: u64,
    pub next_restart_conflicts: u64,
    pub next_db_reduction_conflicts: u64,
    pub propagation: Vec<Literal>,
}

impl Cdcl {
    /// The state is consistent with `formula`.
    pub open spec fn inv(&self, formula: &Formula) -> bool {
        &&& formula.wf()
        &&& formula.tracks(&self.history)
        &&& queue_ok(self.propagation@, formula.n_vars())
    }

    /// The watch lists hold no clause more often than it watches a literal, and every queued
    /// literal is true: what propagation needs to report only false clauses as conflicts.
    pub open spec fn sound(&self, formula: &Formula) -> bool {
        &&& formula.watch_lists_sound()
        &&& queue_true(self.propagation@, formula.assignment@)
    }

    /// A fresh search at level 0, the first restart after `RESTART_CONFLICT_SCALE` conflicts.
    pub fn new(implication_point: ImplicationPoint, inprocessing: Vec<Process>) -> (r: Self)
        ensures
            r.history.decision_levels@.len() == 1,
            r.history.decision_levels@[0].implied_literals@.len() == 0,
            r.history.decision_levels@[0].reason_by_unsigned@.len() == 0,
            r.history.decision_levels@[0].decision_literal is None,
            r.history.wf(),
            r.implication_point == implication_point,
            r.inprocessing@ == inprocessing@,
            r.restart_count == 0,
            r.conflicts_at_last_restart == 0,
            r.next_restart_conflicts == RESTART_CONFLICT_SCALE * luby_spec(1),
            r.next_db_reduction_conflicts == DB_REDUCTION_CONFLICT_INTERVAL,
            r.propagation@.len() == 0,
    {
        let first = luby(1);
        Cdcl {
            history: History::new(),
            implication_point,
            inprocessing,
            restart_count: 0,
            conflicts_at_last_restart: 0,
            next_restart_conflicts: mul_capped(RESTART_CONFLICT_SCALE, first),
            next_db_reduction_conflicts: DB_REDUCTION_CONFLICT_INTERVAL,
            propagation: Vec::new(),
        }
    }

    /// Before the first decision: an empty clause makes the formula unsatisfiable; otherwise
    /// the unit clauses are asserted and propagated. Returns `false` (after logging the empty
    /// clause) when this already refutes the formula.
    pub fn start<W: Write>(&mut self, formula: &mut Formula, logger: &mut Option<DratLogger<W>>) -> (r: bool)
        requires
            old(self).inv(old(formula)),
        ensures
            final(self).inv(final(formula)),
            (exists|i: int| 0 <= i < old(formula).clauses@.len() && (#[trigger] old(formula).clauses@[i])@.len() == 0) ==> !r,
            r ==> *final(logger) == *old(logger),
            !r ==> (*old(logger) matches Some(l) ==> (*final(logger) matches Some(l2)
                && l2.logged() == l.logged() + drat_line(Seq::empty(), false))),
            *old(logger) is None ==> *final(logger) is None,
            old(formula).watch_lists_sound() && !r ==> exists|i: int| 0 <= i < final(formula).clauses@.len()
                && clause_falsified(#[trigger] final(formula).clauses@[i]@, final(formula).assignment@),
            old(formula).watch_lists_sound() && !r ==> !satisfiable_from(old(formula).clauses@, old(formula).assignment@),
            final(formula).clauses@.len() == old(formula).clauses@.len(),
            forall|i: int| 0 <= i < old(formula).clauses@.len() ==> (#[trigger] final(formula).clauses@[i])@ == old(formula).clauses@[i]@,
            extends(final(formula).assignment@, old(formula).assignment@),
            r ==> forall|i: int| 0 <= i < old(formula).clauses@.len() && (#[trigger] old(formula).clauses@[i])@.len() == 1
                ==> old(formula).clauses@[i]@[0].eval_spec(final(formula).assignment@) == Some(true),
            old(self).sound(old(formula)) ==> final(self).sound(final(formula)),
            final(self).propagation == old(self).propagation,
    {
        for i in 0..formula.clauses.len()
            invariant
                self.inv(formula),
                forall|j: int| 0 <= j < i ==> (#[trigger] formula.clauses@[j])@.len() != 0,
                *logger == *old(logger),
                *formula == *old(formula),
        {
            if formula.clauses[i].len() == 0 {
                proof {
                    assert(clause_falsified(formula.clauses@[i as int]@, formula.assignment@));
                    lemma_falsified_unsat(formula.clauses@, formula.assignment@, i as int);
                }
                unsat(logger);
                return false;
            }
        }
        let mut initial_propagation: Vec<Literal> = Vec::new();
        let m = formula.clauses.len();
        for idx in 0..m
            invariant
                self.inv(formula),
                m == formula.clauses@.len(),
                queue_ok(initial_propagation@, formula.n_vars()),
                *logger == *old(logger),
                old(formula).watch_lists_sound() ==> formula.watch_lists_sound(),
                queue_true(initial_propagation@, formula.assignment@),
                formula.clauses@.len() == old(formula).clauses@.len(),
                forall|i: int| 0 <= i < old(formula).clauses@.len() ==> (#[trigger] formula.clauses@[i])@ == old(formula).clauses@[i]@,
                extends(formula.assignment@, old(formula).assignment@),
                forall|j: int| 0 <= j < idx && (#[trigger] old(formula).clauses@[j])@.len() == 1
                    ==> old(formula).clauses@[j]@[0].eval_spec(formula.assignment@) == Some(true),
                self.propagation == old(self).propagation,
                old(self).sound(old(formula)) ==> queue_true(self.propagation@, formula.assignment@),
                satisfiable_from(old(formula).clauses@, old(formula).assignment@)
                    ==> satisfiable_from(old(formula).clauses@, formula.assignment@),
        {
            if formula.clauses[idx].len() == 1 {
                let lit = formula.clauses[idx].literals[0];
                proof {
                    assert(formula.clause_fits(formula.clauses@[idx as int]));
                    assert(formula.clauses@[idx as int]@[0].wf());
                }
                let ghost before = *formula;
                let ghost q0 = initial_propagation@;
                proof {
                    let cl = old(formula).clauses@[idx as int]@;
                    assert(cl == formula.clauses@[idx as int]@);
                    assert(cl[0] == lit);
                    if lit.eval_spec(formula.assignment@) is None {
                        assert forall|j: int| 0 <= j < cl.len() && cl[j] != lit implies (#[trigger] cl[j]).eval_spec(formula.assignment@) == Some(false) by {
                            assert(j == 0);
                        }
                        lemma_forced_step(old(formula).clauses@, formula.assignment@, idx as int, lit);
                    }
                    if lit.eval_spec(formula.assignment@) == Some(false) {
                        assert(clause_falsified(cl, formula.assignment@));
                        lemma_falsified_unsat(old(formula).clauses@, formula.assignment@, idx as int);
                    }
                }
                let res = formula.assign_implication(lit, &mut self.history, Some(idx));
                proof {
                    if before.watch_lists_sound() {
                        crate::formula::propagation::lemma_watch_lists_sound_same_but_lock(before, *formula);
                    }
                    assert forall|i: int| 0 <= i < q0.len() implies (#[trigger] q0[i]).eval_spec(formula.assignment@) == Some(true) by {
                        assert(q0[i].eval_spec(before.assignment@) == Some(true));
                        assert(before.assignment@[q0[i].var() as int] is Some);
                    }
                    assert(extends(formula.assignment@, before.assignment@));
                    if old(self).sound(old(formula)) {
                        assert forall|i: int| 0 <= i < self.propagation@.len() implies
                            (#[trigger] self.propagation@[i]).eval_spec(formula.assignment@) == Some(true) by {
                            let x = self.propagation@[i];
                            assert(x.eval_spec(before.assignment@) == Some(true));
                            assert(before.assignment@[x.var() as int] is Some);
                        }
                    }
                    assert forall|j: int| 0 <= j < idx && (#[trigger] old(formula).clauses@[j])@.len() == 1
                        implies old(formula).clauses@[j]@[0].eval_spec(formula.assignment@) == Some(true) by {
                        let x = old(formula).clauses@[j]@[0];
                        assert(x.eval_spec(before.assignment@) == Some(true));
                        assert(before.assignment@[x.var() as int] is Some);
                    }
                    assert forall|i: int| 0 <= i < old(formula).clauses@.len() implies (#[trigger] formula.clauses@[i])@ == old(formula).clauses@[i]@ by {
                        assert(same_but_lock(formula.clauses@[i], before.clauses@[i]));
                    }
                    if !(res is Conflict) {
                        assert(formula.clauses@[idx as int]@ == old(formula).clauses@[idx as int]@);
                        assert(lit.eval_spec(formula.assignment@) == Some(true));
                    }
                }
                match res {
                    AssignResult::Conflict => {
                        proof {
                            assert(same_but_lock(formula.clauses@[idx as int], before.clauses@[idx as int]));
                            assert(formula.clauses@[idx as int]@[0] == lit);
                            assert(clause_falsified(formula.clauses@[idx as int]@, formula.assignment@));
                        }
                        unsat(logger);
                        return false;
                    },
                    AssignResult::AlreadyAssigned => {},
                    AssignResult::Assigned(l) => {
                        initial_propagation.push(l);
                        proof {
                            assert forall|i: int| 0 <= i < initial_propagation@.len() implies
                                (#[trigger] initial_propagation@[i]).eval_spec(formula.assignment@) == Some(true) by {
                                if i < q0.len() {
                                    assert(initial_propagation@[i] == q0[i]);
                                }
                            }
                        }
                    },
                }
            }
        }
        let ghost before_prop = *formula;
        let conflict = propagate_from(formula, &mut self.history, initial_propagation);
        proof {
            assert forall|j: int| 0 <= j < m && (#[trigger] old(formula).clauses@[j])@.len() == 1
                implies old(formula).clauses@[j]@[0].eval_spec(formula.assignment@) == Some(true) by {
                let x = old(formula).clauses@[j]@[0];
                assert(x.eval_spec(before_prop.assignment@) == Some(true));
                assert(before_prop.assignment@[x.var() as int] is Some);
            }
            assert forall|i: int| 0 <= i < old(formula).clauses@.len() implies (#[trigger] formula.clauses@[i])@ == old(formula).clauses@[i]@ by {
                assert(formula.clauses@[i]@ == before_prop.clauses@[i]@);
            }
            assert forall|v: int| 0 <= v < old(formula).assignment@.len() && #[trigger] old(formula).assignment@[v] is Some
                implies formula.assignment@[v] == old(formula).assignment@[v] by {
                assert(before_prop.assignment@[v] == old(formula).assignment@[v]);
            }
            if old(self).sound(old(formula)) {
                assert forall|i: int| 0 <= i < self.propagation@.len() implies
                    (#[trigger] self.propagation@[i]).eval_spec(formula.assignment@) == Some(true) by {
                    let x = self.propagation@[i];
                    assert(x.eval_spec(before_prop.assignment@) == Some(true));
                    assert(before_prop.assignment@[x.var() as int] is Some);
                }
            }
        }
        if let Some(c) = conflict {
            proof {
                if old(formula).watch_lists_sound() {
                    assert(clause_falsified(formula.clauses@[c as int]@, formula.assignment@));
                    lemma_falsified_unsat(formula.clauses@, formula.assignment@, c as int);
                    if satisfiable_from(old(formula).clauses@, old(formula).assignment@) {
                        assert(satisfiable_from(old(formula).clauses@, before_prop.assignment@));
                        assert forall|i: int| 0 <= i < old(formula).clauses@.len() implies
                            (#[trigger] old(formula).clauses@[i])@ == before_prop.clauses@[i]@ by {
                            assert(before_prop.clauses@[i]@ == old(formula).clauses@[i]@);
                        }
                        lemma_satisfiable_same_views(old(formula).clauses@, before_prop.clauses@, before_prop.assignment@);
                    }
                }
            }
            unsat(logger);
            return false;
        }
        true
    }

    /// Takes the driver's decision: `None` means every variable is assigned and the stored
    /// values are the model (returned); otherwise `decision` opens a new level and is queued.
    pub fn decide(&mut self, formula: &mut Formula, decision: Option<Literal>) -> (r: Option<Vec<bool>>)
        requires
            old(self).inv(old(formula)),
            decision matches Some(l) ==> l.wf() && l.var() < old(formula).n_vars(),
        ensures
            final(self).inv(final(formula)),
            decision is None <==> r is Some,
            r matches Some(m) ==> m@ == old(formula).assignment.raw_values(),
            decision matches Some(l) ==> final(self).propagation@ == old(self).propagation@.push(l)
                && final(self).history.decision_levels@.len() == old(self).history.decision_levels@.len() + 1
                && final(formula).assignment@ == old(formula).assignment@.update(l.var() as int, Some(!l.neg_spec())),
            decision is None ==> *final(self) == *old(self) && *final(formula) == *old(formula),
            (r is Some && (forall|v: int| 1 <= v < old(formula).n_vars() ==> #[trigger] old(formula).assignment@[v] is Some)
                && !exists|c: int| 0 <= c < old(formula).clauses@.len()
                    && clause_falsified(#[trigger] old(formula).clauses@[c]@, old(formula).assignment@))
                ==> old(formula).satisfied_spec(),
            old(self).sound(old(formula)) && (decision matches Some(l) ==> old(formula).assignment@[l.var() as int] is None)
                ==> final(self).sound(final(formula)),
    {
        match decision {
            None => {
                proof {
                    if (forall|v: int| 1 <= v < formula.n_vars() ==> #[trigger] formula.assignment@[v] is Some)
                        && !exists|c: int| 0 <= c < formula.clauses@.len()
                            && clause_falsified(#[trigger] formula.clauses@[c]@, formula.assignment@) {
                        formula.lemma_complete_unfalsified_satisfied();
                    }
                }
                Some(formula.get_model())
            },
            Some(lit) => {
                let ghost q0 = self.propagation@;
                let ghost a0 = formula.assignment@;
                formula.add_decision(&lit, &mut self.history);
                self.propagation.push(lit);
                proof {
                    if old(self).sound(old(formula)) && a0[lit.var() as int] is None {
                        assert forall|i: int| 0 <= i < self.propagation@.len() implies
                            (#[trigger] self.propagation@[i]).eval_spec(formula.assignment@) == Some(true) by {
                            if i < q0.len() {
                                let x = q0[i];
                                assert(self.propagation@[i] == x);
                                assert(x.eval_spec(a0) == Some(true));
                                assert(a0[x.var() as int] is Some);
                            }
                        }
                    }
                }
                None
            },
        }
    }

    /// One round of the search: propagates the queued literals; on a conflict above level 0,
    /// learns from it (first UIP or DIP), then reduces the clause database every
    /// `DB_REDUCTION_CONFLICT_INTERVAL` conflicts (conservatively) and restarts on the Luby
    /// schedule (running the inprocessing passes every `INPROCESSING_RESTART_INTERVAL` restarts).
    #[verifier::spinoff_prover]
    #[verifier::rlimit(60)]
    pub fn step<W: Write>(&mut self, formula: &mut Formula, logger: &mut Option<DratLogger<W>>)
        -> (r: Result<CdclStep, CdclError>)
        requires
            old(self).inv(old(formula)),
        ensures
            final(self).inv(final(formula)),
            r matches Ok(CdclStep::Decide) ==> final(self).propagation@.len() == 0
                && final(self).history.decision_levels@.len() == old(self).history.decision_levels@.len(),
            r matches Ok(CdclStep::Learned(_, restarted)) && restarted ==> final(self).propagation@.len() == 0
                && final(self).history.decision_levels@.len() == 1,
            final(self).implication_point == old(self).implication_point,
            r matches Ok(CdclStep::Unsat) ==> (*final(logger) matches Some(l) ==> l.ends_with_empty_clause()),
            r matches Ok(CdclStep::Unsat) ==> final(self).history.decision_levels@.len() == 1
                || exists|i: int| 0 <= i < final(formula).clauses@.len()
                    && clause_falsified(#[trigger] final(formula).clauses@[i]@, final(formula).assignment@),
            r matches Ok(CdclStep::Unsat) ==> final(self).history.decision_levels@.len() == 1
                || (old(formula).self_subsuming && exists|i: int| 0 <= i < final(formula).clauses@.len()
                    && clause_falsified(#[trigger] final(formula).clauses@[i]@, final(formula).assignment@)),
            (r matches Ok(CdclStep::Unsat) && old(self).history.decision_levels@.len() > 1) ==>
                exists|f: Formula, h: History, ci: int| #[trigger] propagated_conflict(*old(formula), old(self).history,
                    old(self).propagation@, f, h, ci)
                    && (!walk_ready(h, f, ci) || (old(formula).self_subsuming && subsumed_learning_false(h, f, *final(formula)))
                        || (final(self).history.decision_levels@.len() == 1 && dip_post_false(h, f, *final(formula)))),
            old(self).sound(old(formula)) ==> {
                &&& final(self).sound(final(formula))
                &&& r matches Ok(CdclStep::Decide) ==> forall|i: int| 0 <= i < old(self).propagation@.len() ==>
                        watchers_satisfied(*final(formula), unsigned_index_of(-(#[trigger] old(self).propagation@[i])@) as int)
                &&& r matches Ok(CdclStep::Decide) ==> forall|v: int| 0 <= v < final(formula).assignment@.len()
                    && old(formula).assignment@[v] is None && (#[trigger] final(formula).assignment@[v]) is Some
                    ==> exists|l: Literal| l.var() == v && l.eval_spec(final(formula).assignment@) == Some(true)
                        && #[trigger] watchers_satisfied(*final(formula), unsigned_index_of(-l@) as int)
                &&& (r matches Ok(CdclStep::Unsat) && old(self).history.decision_levels@.len() == 1) ==>
                    exists|i: int| 0 <= i < final(formula).clauses@.len()
                        && clause_falsified(#[trigger] final(formula).clauses@[i]@, final(formula).assignment@)
                &&& (r matches Ok(CdclStep::Unsat) && old(self).history.decision_levels@.len() == 1) ==>
                    !satisfiable_from(old(formula).clauses@, old(formula).assignment@)
                &&& r matches Ok(CdclStep::Decide) ==> (satisfiable_from(old(formula).clauses@, old(formula).assignment@)
                    ==> satisfiable_from(final(formula).clauses@, final(formula).assignment@))
            },
            (r matches Err(e) && e == CdclError::DatabaseFull) ==> old(formula).clauses@.len() >= usize::MAX - 5
                || old(formula).n_vars() >= 0x7fff_ffff,
            (r matches Err(e) && e != CdclError::DatabaseFull) ==> old(self).implication_point == ImplicationPoint::DIP,
            !(r matches Err(e) && e == CdclError::DipPostClauseConflicting),
            !(r matches Err(e) && e == CdclError::DipPostUnitConflict),
            (r matches Err(e) && e == CdclError::DipPostClauseNotAsserting) ==> exists|k: (int, int), nz: Literal, post: Seq<Literal>|
                #![trigger final(formula).extensions@[k], clause_sat(seq![nz] + post, final(formula).assignment@)]
                final(formula).extensions@.contains_key(k) && nz@ == -final(formula).extensions@[k]
                && !clause_sat(seq![nz] + post, final(formula).assignment@)
                && !clause_unit(seq![nz] + post, final(formula).assignment@)
                && !clause_falsified(seq![nz] + post, final(formula).assignment@),
            (r matches Err(e) && e == CdclError::DipPreClauseConflicting) ==> exists|k: (int, int), z: Literal, pre: Seq<Literal>|
                #![trigger final(formula).extensions@[k], clause_falsified(seq![z] + pre, final(formula).assignment@)]
                final(formula).extensions@.contains_key(k) && z@ == final(formula).extensions@[k]
                && clause_falsified(seq![z] + pre, final(formula).assignment@),
    {
        let mut lits: Vec<Literal> = Vec::new();
        std::mem::swap(&mut lits, &mut self.propagation);
        let ghost lits0 = lits@;
        let conflict = propagate_from(formula, &mut self.history, lits);
        let ghost mid_f = *formula;
        let ghost mid_h = self.history;
        let conflict_idx = match conflict {
            None => {
                return Ok(CdclStep::Decide);
            },
            Some(c) => c,
        };
        proof {
            assert(lits0 == old(self).propagation@);
            assert(propagated_conflict(*old(formula), old(self).history, old(self).propagation@, mid_f, mid_h, conflict_idx as int));
        }
        let level = self.history.get_decision_level();
        if level == 0 {
            proof {
                if old(formula).watch_lists_sound() && queue_true(old(self).propagation@, old(formula).assignment@) {
                    assert(clause_falsified(formula.clauses@[conflict_idx as int]@, formula.assignment@));
                    lemma_falsified_unsat(formula.clauses@, formula.assignment@, conflict_idx as int);
                }
            }
            unsat(logger);
            return Ok(CdclStep::Unsat);
        }
        formula.stats.add_conflict();
        let result = self.history.analyze_conflict(formula, conflict_idx, self.implication_point);
        let ghost res = result;
        let ghost an_f = *formula;
        proof {
            assert(an_f.clauses@ == mid_f.clauses@);
            if walk_ready(mid_h, mid_f, conflict_idx as int) {
                lemma_walk_ready_same_clauses(mid_h, mid_f, an_f, conflict_idx as int);
            }
        }
        let learned = match result {
            ConflictLearnResult::Uip { clause, backtrack_level, minimized_literals } => {
                formula.stats.add_minimized_literals(minimized_literals as u64);
                let bt = if backtrack_level < level { backtrack_level } else { level };
                proof {
                    assert(formula.clause_fits(clause));
                }
                let ghost h_learn = self.history;
                let ghost c_learn = clause@;
                let ghost cl_ghost = clause;
                let lr = learn_uip_clause(formula, &mut self.history, logger, &mut self.propagation, clause, bt)?;
                proof {
                    if lr is None && walk_ready(mid_h, an_f, conflict_idx as int) {
                        assert(h_learn == mid_h);
                        assert(!is_empty_result(res));
                        let a = choose|a: ConflictAnalysis| #[trigger] a.wf(&mid_h, an_f.n_vars())
                            && (uip_result_of(res, a, mid_h) || crate::history::dip::dip_result_of(res, a, mid_h, an_f.n_vars()))
                            && (walk_ready(mid_h, an_f, conflict_idx as int)
                                ==> first_uip_analysis(mid_h, an_f, conflict_idx as int, a.first_uip_pos as int, a.uip_clause_literals@));
                        assert(uip_result_of(res, a, mid_h));
                        if !clause_falsified(c_learn, formula.assignment@) {
                        } else {
                            lemma_root_unassigns_uip_head(mid_h, a, an_f.n_vars(), c_learn, formula.assignment@);
                        }
                        assert(old(formula).self_subsuming);
                        let i = choose|i: int| 0 <= i < formula.clauses@.len() && subset_lits(#[trigger] formula.clauses@[i], cl_ghost)
                            && clause_falsified(formula.clauses@[i]@, formula.assignment@);
                        let e = formula.clauses@[i]@;
                        assert forall|k: int| 0 <= k < e.len() implies a.uip_clause_literals@.contains(#[trigger] e[k]) by {
                            assert(cl_ghost@.contains(e[k]));
                            let j = choose|j: int| 0 <= j < cl_ghost@.len() && cl_ghost@[j] == e[k];
                            assert(a.uip_clause_literals@.contains(cl_ghost@[j]));
                        }
                        assert(a.wf(&mid_h, mid_f.n_vars()));
                        assert(subsumed_learning_false(mid_h, mid_f, *formula));
                    }
                }
                lr
            },
            ConflictLearnResult::Dip {
                dip_a,
                dip_b,
                pre_clause_without_z,
                post_clause_without_z,
                pre_lbd,
                post_lbd,
                backtrack_level,
            } => {
                if formula.assignment.len() >= 0x7fff_ffff {
                    return Err(CdclError::DatabaseFull);
                }
                let bt = if backtrack_level < level { backtrack_level } else { level };
                let ghost post_v = post_clause_without_z@;
                let ghost pre_v = pre_clause_without_z@;
                let ghost key = crate::formula::extension::ordered_pair(dip_a@, dip_b@);
                match learn_dip_clauses(formula, &mut self.history, logger, &mut self.propagation, dip_a, dip_b,
                    pre_clause_without_z, post_clause_without_z, pre_lbd, post_lbd, bt) {
                    Ok(x) => {
                        proof {
                            if x is None {
                                let a = choose|a: ConflictAnalysis| #[trigger] a.wf(&mid_h, an_f.n_vars())
                                    && (uip_result_of(res, a, mid_h) || crate::history::dip::dip_result_of(res, a, mid_h, an_f.n_vars()))
                                    && (walk_ready(mid_h, an_f, conflict_idx as int)
                                        ==> first_uip_analysis(mid_h, an_f, conflict_idx as int, a.first_uip_pos as int, a.uip_clause_literals@));
                                assert(crate::history::dip::dip_result_of(res, a, mid_h, mid_f.n_vars()));
                                let nz = choose|nz: Literal| nz@ == -formula.extensions@[key]
                                    && #[trigger] clause_falsified(seq![nz] + post_v, formula.assignment@);
                                assert(res->dip_a == dip_a && res->dip_b == dip_b);
                                assert(res->post_clause_without_z@ == post_v);
                                assert(a.wf(&mid_h, mid_f.n_vars()));
                                assert(dip_result_of(res, a, mid_h, mid_f.n_vars()));
                                assert(key == crate::formula::extension::ordered_pair(res->dip_a@, res->dip_b@));
                                assert(nz.var() == nz.var());
                                assert(seq![nz] + res->post_clause_without_z@ == seq![nz] + post_v);
                                assert(clause_falsified(seq![nz] + res->post_clause_without_z@, formula.assignment@));
                                assert(dip_post_false_at(mid_h, mid_f, *formula, a, res, nz));
                                assert(dip_post_false(mid_h, mid_f, *formula));
                            }
                        }
                        x
                    },
                    Err(e) => {
                        proof {
                            if e == CdclError::DipPostClauseNotAsserting {
                                let nz = choose|nz: Literal| nz@ == -formula.extensions@[key]
                                    && !clause_sat(#[trigger] (seq![nz] + post_v), formula.assignment@)
                                    && !clause_unit(seq![nz] + post_v, formula.assignment@)
                                    && !clause_falsified(seq![nz] + post_v, formula.assignment@);
                                assert(formula.extensions@.contains_key(key));
                                assert(clause_sat(seq![nz] + post_v, formula.assignment@) == clause_sat(seq![nz] + post_v, formula.assignment@));
                            }
                            if e == CdclError::DipPreClauseConflicting {
                                let z = choose|z: Literal| z@ == formula.extensions@[key]
                                    && #[trigger] clause_falsified(seq![z] + pre_v, formula.assignment@);
                                assert(formula.extensions@.contains_key(key));
                            }
                        }
                        return Err(e);
                    },
                }
            },
        };
        let learned = match learned {
            None => {
                unsat(logger);
                return Ok(CdclStep::Unsat);
            },
            Some(c) => c,
        };
        if formula.stats.conflicts >= self.next_db_reduction_conflicts {
            formula.reduce_db(&mut self.history, logger, true);
            proof {
                assert forall|i: int| 0 <= i < self.propagation@.len() implies (#[trigger] self.propagation@[i]).wf()
                    && self.propagation@[i].var() < formula.n_vars() by {
                }
            }
            self.next_db_reduction_conflicts = self.next_db_reduction_conflicts.saturating_add(DB_REDUCTION_CONFLICT_INTERVAL);
        }
        if formula.stats.conflicts.saturating_sub(self.conflicts_at_last_restart) >= self.next_restart_conflicts {
            if self.restart_count < u64::MAX {
                self.restart_count = self.restart_count + 1;
            }
            self.conflicts_at_last_restart = formula.stats.conflicts;
            let index = if self.restart_count < 0x7fff_ffff_ffff_ffff { self.restart_count + 1 } else { 0x7fff_ffff_ffff_ffff };
            self.next_restart_conflicts = mul_capped(RESTART_CONFLICT_SCALE, luby(index));
            let run_inprocessing = self.restart_count % INPROCESSING_RESTART_INTERVAL == 0;
            restart(formula, &mut self.history, &self.inprocessing, run_inprocessing, logger);
            self.propagation.clear();
            return Ok(CdclStep::Learned(learned.literals, true));
        }
        Ok(CdclStep::Learned(learned.literals, false))
    }
}

} // verus!
