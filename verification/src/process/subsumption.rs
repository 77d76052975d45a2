use vstd::prelude::*;
use crate::drat::DratLogger;
use crate::formula::{Formula, occurs};
use crate::two_watched::Watched;
use crate::formula::database::{listed, kept_count, same_clause};
use crate::stats::sat_add;
use crate::formula::clause::Clause;
use crate::sorting::{sort_dedup, strictly_increasing};

verus! {

/// `c`'s literals all occur in `d`.
pub open spec fn subset_lits(c: Clause, d: Clause) -> bool {
    forall|i: int| 0 <= i < c@.len() ==> d@.contains(#[trigger] c@[i])
}

/// Literal inclusion is transitive.
pub proof fn lemma_subset_trans(a: Clause, b: Clause, c: Clause)
    requires
        subset_lits(a, b),
        subset_lits(b, c),
    ensures
        subset_lits(a, c),
{
    assert forall|i: int| 0 <= i < a@.len() implies c@.contains(#[trigger] a@[i]) by {
        assert(b@.contains(a@[i]));
        let k = choose|k: int| 0 <= k < b@.len() && #[trigger] b@[k] == a@[i];
        assert(c@.contains(b@[k]));
    }
}

/// Every index listed in `del` names a clause of `cs` whose literals all occur in some clause of
/// `cs` that is not listed.
pub open spec fn subsumed_by_kept(cs: Seq<Clause>, del: Seq<usize>) -> bool {
    forall|k: int| 0 <= k < del.len() ==> has_kept_subsumer(cs, del, #[trigger] del[k] as int)
}

/// Some clause of `cs` not listed in `del` has all its literals in clause `c`.
pub open spec fn has_kept_subsumer(cs: Seq<Clause>, del: Seq<usize>, c: int) -> bool {
    exists|s: int| 0 <= s < cs.len() && !del.contains(s as usize) && #[trigger] subset_lits(cs[s], cs[c])
}

/// Clause `s` may remove clause `d` in forward subsumption: both unlocked, `s` watched, `d` at
/// least as long (and after `s` when equally long), and every literal of `s` in `d`.
pub open spec fn may_subsume(cs: Seq<Clause>, s: int, d: int) -> bool {
    &&& s != d
    &&& cs[s].lock_count == 0
    &&& cs[d].lock_count == 0
    &&& !(cs[s].watched is Unwatched)
    &&& (cs[d]@.len() > cs[s]@.len() || (cs[d]@.len() == cs[s]@.len() && d > s))
    &&& subset_lits(cs[s], cs[d])
}

/// The clauses found subsumed by `find_subsumed_clauses`, and how many subset tests were made.
pub struct SubsumptionResult {
    pub to_delete: Vec<usize>,
    pub subset_checks: usize,
}

/// Forward subsumption over the whole database: each unlocked clause, in index order and unless
/// already removed, removes every unlocked, not yet removed clause holding its watched literals
/// that is at least as long and contains all its literals (of two equal-length clauses, the one
/// with the higher index goes).
pub fn find_subsumed_clauses(formula: &Formula) -> (r: SubsumptionResult)
    requires
        formula.wf(),
    ensures
        strictly_increasing(r.to_delete@),
        forall|k: int| 0 <= k < r.to_delete@.len() ==> #[trigger] r.to_delete@[k] < formula.clauses@.len()
            && formula.clauses@[r.to_delete@[k] as int].lock_count == 0,
        subsumed_by_kept(formula.clauses@, r.to_delete@),
        formula.occurrences_exact() ==> forall|a: int, b: int| 0 <= a < formula.clauses@.len() && 0 <= b < formula.clauses@.len()
            && !r.to_delete@.contains(a as usize) && !r.to_delete@.contains(b as usize)
            ==> !#[trigger] may_subsume(formula.clauses@, a, b),
{
    let n = formula.clauses.len();
    let ghost cs = formula.clauses@;
    let mut deleted: Vec<bool> = Vec::new();
    for _i in 0..n
        invariant
            deleted@.len() == _i,
            forall|j: int| 0 <= j < deleted@.len() ==> !(#[trigger] deleted@[j]),
    {
        deleted.push(false);
    }
    let mut to_delete: Vec<usize> = Vec::new();
    let mut subset_checks: usize = 0;
    for subsumer_idx in 0..n
        invariant
            formula.wf(),
            cs == formula.clauses@,
            n == cs.len(),
            deleted@.len() == n,
            forall|x: usize| #[trigger] to_delete@.contains(x) <==> (x < n && deleted@[x as int]),
            forall|k: int| 0 <= k < to_delete@.len() ==> #[trigger] to_delete@[k] < n
                && cs[to_delete@[k] as int].lock_count == 0,
            subsumed_by_kept(cs, to_delete@),
            formula.occurrences_exact() ==> forall|a: int, b: int| 0 <= a < subsumer_idx && 0 <= b < n
                && !deleted@[a] && !deleted@[b] ==> !#[trigger] may_subsume(cs, a, b),
    {
        let ghost deleted0 = deleted@;
        if !(deleted[subsumer_idx] || formula.clauses[subsumer_idx].lock_count > 0) {
            proof {
                assert(formula.clause_fits(cs[subsumer_idx as int]));
            }
            match formula.clauses[subsumer_idx].watched_literals() {
                None => {},
                Some((watch_a, watch_b)) => {
                    let inter = formula.occurrence_intersection(watch_a, watch_b);
                    proof {
                        let la = if watch_a.uidx() < formula.occ().len() { formula.occ()[watch_a.uidx() as int] } else { Seq::empty() };
                        assert forall|k: int| 0 <= k < inter@.len() implies #[trigger] inter@[k] < n by {
                            assert(inter@.contains(inter@[k]));
                            assert(la.contains(inter@[k]));
                            let j = choose|j: int| 0 <= j < la.len() && #[trigger] la[j] == inter@[k];
                        }
                    }
                    for k in 0..inter.len()
                        invariant
                            formula.wf(),
                            cs == formula.clauses@,
                            n == cs.len(),
                            subsumer_idx < n,
                            forall|j: int| 0 <= j < inter@.len() ==> #[trigger] inter@[j] < n,
                            deleted@.len() == n,
                            !deleted@[subsumer_idx as int],
                            forall|x: usize| #[trigger] to_delete@.contains(x) <==> (x < n && deleted@[x as int]),
                            forall|kk: int| 0 <= kk < to_delete@.len() ==> #[trigger] to_delete@[kk] < n
                                && cs[to_delete@[kk] as int].lock_count == 0,
                            subsumed_by_kept(cs, to_delete@),
                            formula.occurrences_exact() ==> forall|a: int, b: int| 0 <= a < subsumer_idx && 0 <= b < n
                                && !deleted@[a] && !deleted@[b] ==> !#[trigger] may_subsume(cs, a, b),
                            forall|kk: int| 0 <= kk < k ==> deleted@[#[trigger] inter@[kk] as int]
                                || !may_subsume(cs, subsumer_idx as int, inter@[kk] as int),
                            forall|x: int| 0 <= x < n && #[trigger] deleted0[x] ==> deleted@[x],
                    {
                        let candidate_idx = inter[k];
                        let skip = candidate_idx == subsumer_idx
                            || deleted[candidate_idx]
                            || formula.clauses[candidate_idx].lock_count > 0
                            || formula.clauses[candidate_idx].len() < formula.clauses[subsumer_idx].len()
                            || (formula.clauses[candidate_idx].len() == formula.clauses[subsumer_idx].len()
                                && candidate_idx < subsumer_idx);
                        if !skip {
                            subset_checks = subset_checks.saturating_add(1);
                            if formula.clauses[subsumer_idx].is_subset_of(&formula.clauses[candidate_idx]) {
                                let ghost old_del = to_delete@;
                                let ghost old_deleted = deleted@;
                                deleted.set(candidate_idx, true);
                                to_delete.push(candidate_idx);
                                proof {
                                    assert forall|x: usize| #[trigger] to_delete@.contains(x) <==> (x < n && deleted@[x as int]) by {
                                        if to_delete@.contains(x) && x != candidate_idx {
                                            let j = choose|j: int| 0 <= j < to_delete@.len() && #[trigger] to_delete@[j] == x;
                                            assert(old_del[j] == x);
                                            assert(old_del.contains(x));
                                            assert(old_deleted[x as int]);
                                            assert(deleted@[x as int]);
                                        }
                                        if x < n && deleted@[x as int] && x != candidate_idx {
                                            assert(old_deleted[x as int]);
                                            assert(old_del.contains(x));
                                            let j = choose|j: int| 0 <= j < old_del.len() && #[trigger] old_del[j] == x;
                                            assert(to_delete@[j] == x);
                                        }
                                        if x == candidate_idx {
                                            assert(to_delete@[old_del.len() as int] == x);
                                        }
                                    }
                                    assert(!to_delete@.contains(subsumer_idx));
                                    assert forall|kk: int| 0 <= kk < to_delete@.len() implies has_kept_subsumer(cs, to_delete@, #[trigger] to_delete@[kk] as int) by {
                                        if kk == old_del.len() {
                                            assert(subset_lits(cs[subsumer_idx as int], cs[to_delete@[kk] as int]));
                                        } else {
                                            assert(has_kept_subsumer(cs, old_del, old_del[kk] as int));
                                            assert(to_delete@[kk] == old_del[kk]);
                                            let s0 = choose|s: int| 0 <= s < cs.len() && !old_del.contains(s as usize)
                                                && #[trigger] subset_lits(cs[s], cs[old_del[kk] as int]);
                                            if s0 == candidate_idx as int {
                                                lemma_subset_trans(cs[subsumer_idx as int], cs[s0], cs[old_del[kk] as int]);
                                                assert(subset_lits(cs[subsumer_idx as int], cs[to_delete@[kk] as int]));
                                            } else {
                                                assert(!to_delete@.contains(s0 as usize)) by {
                                                    if to_delete@.contains(s0 as usize) {
                                                        let j = choose|j: int| 0 <= j < to_delete@.len() && #[trigger] to_delete@[j] == s0 as usize;
                                                        if j < old_del.len() {
                                                            assert(old_del[j] == s0 as usize);
                                                        }
                                                    }
                                                }
                                                assert(subset_lits(cs[s0], cs[to_delete@[kk] as int]));
                                            }
                                        }
                                    }
                                }
                            }
                        }
                    }
                    proof {
                        if formula.occurrences_exact() {
                            let cl = cs[subsumer_idx as int];
                            assert forall|b: int| 0 <= b < n && !deleted@[b] implies !may_subsume(cs, subsumer_idx as int, b) by {
                                if may_subsume(cs, subsumer_idx as int, b) {
                                    let ia: int = match cl.watched { Watched::One(i) => i as int, Watched::Two(i, _) => i as int, Watched::Unwatched => 0 };
                                    assert(*watch_a == cl@[ia]);
                                    assert(cs[b]@.contains(cl@[ia]));
                                    let ja = choose|j: int| 0 <= j < cs[b]@.len() && cs[b]@[j] == cl@[ia];
                                    assert(cs[b]@[ja].uidx() == watch_a.uidx());
                                    assert(occurs(cs[b], watch_a.uidx()));
                                    assert(formula.clause_fits(cl));
                                    assert(cl@[ia].var() < formula.n_vars());
                                    assert(formula.occ()[watch_a.uidx() as int].contains(b as usize));
                                    match watch_b {
                                        Some(wb) => {
                                            let ib: int = match cl.watched { Watched::Two(_, j) => j as int, _ => 0 };
                                            assert(*wb == cl@[ib]);
                                            assert(cs[b]@.contains(cl@[ib]));
                                            let jb = choose|j: int| 0 <= j < cs[b]@.len() && cs[b]@[j] == cl@[ib];
                                            assert(cs[b]@[jb].uidx() == wb.uidx());
                                            assert(occurs(cs[b], wb.uidx()));
                                            assert(cl@[ib].var() < formula.n_vars());
                                            assert(formula.occ()[wb.uidx() as int].contains(b as usize));
                                            assert(inter@.contains(b as usize));
                                        },
                                        None => {
                                            assert(inter@.contains(b as usize));
                                        },
                                    }
                                    let kk = choose|kk: int| 0 <= kk < inter@.len() && inter@[kk] == b as usize;
                                    assert(deleted@[inter@[kk] as int] || !may_subsume(cs, subsumer_idx as int, inter@[kk] as int));
                                }
                            }
                        }
                    }
                },
            }
        }
        proof {
            if formula.occurrences_exact() {
                assert forall|a: int, b: int| 0 <= a < subsumer_idx + 1 && 0 <= b < n
                    && !deleted@[a] && !deleted@[b] implies !#[trigger] may_subsume(cs, a, b) by {
                    if a == subsumer_idx as int && may_subsume(cs, a, b) {
                        assert(!deleted0[a]);
                        assert(!(cs[a].watched is Unwatched));
                    }
                }
            }
        }
    }
    let sorted = sort_dedup(&to_delete);
    proof {
        assert forall|k: int| 0 <= k < sorted@.len() implies #[trigger] sorted@[k] < formula.clauses@.len()
            && formula.clauses@[sorted@[k] as int].lock_count == 0 by {
            assert(sorted@.contains(sorted@[k]));
            let j = choose|j: int| 0 <= j < to_delete@.len() && #[trigger] to_delete@[j] == sorted@[k];
        }
        assert forall|k: int| 0 <= k < sorted@.len() implies has_kept_subsumer(cs, sorted@, #[trigger] sorted@[k] as int) by {
            assert(sorted@.contains(sorted@[k]));
            let j = choose|j: int| 0 <= j < to_delete@.len() && #[trigger] to_delete@[j] == sorted@[k];
            assert(has_kept_subsumer(cs, to_delete@, to_delete@[j] as int));
            let s0 = choose|s: int| 0 <= s < cs.len() && !to_delete@.contains(s as usize)
                && #[trigger] subset_lits(cs[s], cs[to_delete@[j] as int]);
            assert(!sorted@.contains(s0 as usize));
        }
    }
    SubsumptionResult { to_delete: sorted, subset_checks }
}

/// Removes every clause found subsumed by `find_subsumed_clauses`, counting the subset tests and
/// the removed clauses in the statistics.
pub fn preprocess(formula: &mut Formula)
    requires
        old(formula).wf(),
    ensures
        final(formula).wf(),
        exists|del: Seq<usize>| {
            &&& strictly_increasing(del)
            &&& subsumed_by_kept(old(formula).clauses@, del)
            &&& final(formula).clauses@.len() == kept_count(del, old(formula).clauses@.len() as int)
            &&& (forall|i: int| 0 <= i < old(formula).clauses@.len() && !listed(del, i) ==>
                same_clause(final(formula).clauses@[kept_count(del, i) as int], #[trigger] old(formula).clauses@[i]))
            &&& final(formula).stats.clauses_subsumed == sat_add(old(formula).stats.clauses_subsumed, del.len() as int)
            &&& old(formula).occurrences_exact() ==> forall|a: int, b: int| 0 <= a < old(formula).clauses@.len()
                && 0 <= b < old(formula).clauses@.len() && !del.contains(a as usize) && !del.contains(b as usize)
                ==> !#[trigger] may_subsume(old(formula).clauses@, a, b)
        },
        final(formula).assignment == old(formula).assignment,
        final(formula).extensions == old(formula).extensions,
        final(formula).self_subsuming == old(formula).self_subsuming,
{
    let result = find_subsumed_clauses(formula);
    formula.stats.add_subsumption_checks(result.subset_checks as u64);
    formula.stats.add_subsumed_clauses(result.to_delete.len() as u64);
    if result.to_delete.len() > 0 {
        let mut logger: Option<DratLogger<Vec<u8>>> = None;
        formula.delete_clauses(result.to_delete.as_slice(), &mut logger);
    } else {
        proof {
            assert forall|i: int| 0 <= i <= old(formula).clauses@.len() implies kept_count(result.to_delete@, i) == i by {
                crate::formula::database::lemma_kept_count_none(result.to_delete@, i);
            }
        }
    }
}

/// Clause `x` of `f` may subsume `c`: unlocked, no longer, and all its literals in `c`.
pub open spec fn may_subsume_new(f: Formula, c: Clause, x: int) -> bool {
    &&& 0 <= x < f.clauses@.len()
    &&& f.clauses@[x].lock_count == 0
    &&& f.clauses@[x]@.len() <= c@.len()
    &&& subset_lits(f.clauses@[x], c)
}

/// `c` may subsume clause `x` of `f`: `x` unlocked, no shorter, and holding all of `c`.
pub open spec fn may_be_subsumed_by_new(f: Formula, c: Clause, x: int) -> bool {
    &&& 0 <= x < f.clauses@.len()
    &&& f.clauses@[x].lock_count == 0
    &&& f.clauses@[x]@.len() >= c@.len()
    &&& subset_lits(c, f.clauses@[x])
}

/// The outcome of checking a new clause against the database: an existing clause that
/// subsumes it, or the existing clauses it subsumes, and how many subset tests were made.
pub struct IncrementalSubsumption {
    pub subsumed_by_existing: Option<usize>,
    pub subsumed_existing: Vec<usize>,
    pub subset_checks: usize,
}

/// Checks `new_clause` against the clauses sharing a literal with it. First, among the clauses
/// listed for its literal with the fewest occurrences, an unlocked clause no longer than it whose
/// literals all occur in it; failing that, the unlocked clauses at least as long as it that hold
/// both its watched literals and all its literals.
pub fn check_new_clause(formula: &Formula, new_clause: &Clause) -> (r: IncrementalSubsumption)
    requires
        formula.wf(),
        new_clause.wf(),
    ensures
        r.subsumed_by_existing matches Some(i) ==> i < formula.clauses@.len()
            && formula.clauses@[i as int].lock_count == 0
            && formula.clauses@[i as int]@.len() <= new_clause@.len()
            && subset_lits(formula.clauses@[i as int], *new_clause)
            && r.subsumed_existing@.len() == 0,
        strictly_increasing(r.subsumed_existing@),
        forall|k: int| 0 <= k < r.subsumed_existing@.len() ==> {
            let i = #[trigger] r.subsumed_existing@[k];
            &&& i < formula.clauses@.len()
            &&& formula.clauses@[i as int].lock_count == 0
            &&& formula.clauses@[i as int]@.len() >= new_clause@.len()
            &&& subset_lits(*new_clause, formula.clauses@[i as int])
        },
        new_clause.watched is Unwatched ==> r.subsumed_existing@.len() == 0,
        r.subsumed_by_existing is None ==> (forall|i: int| 0 <= i < new_clause@.len() ==>
            !((#[trigger] new_clause@[i]).uidx() < formula.occ().len() && formula.occ()[new_clause@[i].uidx() as int].len() > 0))
            || exists|i: int| 0 <= i < new_clause@.len() && (#[trigger] new_clause@[i]).uidx() < formula.occ().len()
                && formula.occ()[new_clause@[i].uidx() as int].len() > 0
                && (forall|j: int| 0 <= j < new_clause@.len() && new_clause@[j].uidx() < formula.occ().len()
                    && formula.occ()[new_clause@[j].uidx() as int].len() > 0
                    ==> formula.occ()[new_clause@[i].uidx() as int].len() <= #[trigger] formula.occ()[new_clause@[j].uidx() as int].len())
                && forall|k: int| 0 <= k < formula.occ()[new_clause@[i].uidx() as int].len()
                    ==> !may_subsume_new(*formula, *new_clause, #[trigger] formula.occ()[new_clause@[i].uidx() as int][k] as int),
        r.subsumed_by_existing is None && formula.occurrences_exact() && !(new_clause.watched is Unwatched) ==>
            forall|x: usize| #[trigger] may_be_subsumed_by_new(*formula, *new_clause, x as int) ==> r.subsumed_existing@.contains(x),
{
    let mut subset_checks: usize = 0;
    let candidates = formula.candidate_indices_for_clause(new_clause);
    let existing_subsumers = sort_dedup(&candidates);
    for k in 0..existing_subsumers.len()
        invariant
            formula.wf(),
            forall|x: usize| #[trigger] existing_subsumers@.contains(x) <==> candidates@.contains(x),
            forall|j: int| 0 <= j < candidates@.len() ==> #[trigger] candidates@[j] < formula.clauses@.len(),
            subset_checks <= k,
            forall|kk: int| 0 <= kk < k ==> !may_subsume_new(*formula, *new_clause, #[trigger] existing_subsumers@[kk] as int),
    {
        let idx = existing_subsumers[k];
        proof {
            assert(existing_subsumers@.contains(idx));
            let j = choose|j: int| 0 <= j < candidates@.len() && #[trigger] candidates@[j] == idx;
        }
        let existing = &formula.clauses[idx];
        if !(existing.lock_count > 0 || existing.len() > new_clause.len()) {
            subset_checks = subset_checks + 1;
            if existing.is_subset_of(new_clause) {
                return IncrementalSubsumption {
                    subsumed_by_existing: Some(idx),
                    subsumed_existing: Vec::new(),
                    subset_checks,
                };
            }
        }
    }
    proof {
        assert forall|j: int| 0 <= j < candidates@.len() implies !may_subsume_new(*formula, *new_clause, #[trigger] candidates@[j] as int) by {
            assert(existing_subsumers@.contains(candidates@[j]));
            let kk = choose|kk: int| 0 <= kk < existing_subsumers@.len() && existing_subsumers@[kk] == candidates@[j];
        }
        if candidates@.len() > 0 {
            let i = choose|i: int| 0 <= i < new_clause@.len() && (#[trigger] new_clause@[i]).uidx() < formula.occ().len()
                && candidates@ == formula.occ()[new_clause@[i].uidx() as int]
                && forall|j: int| 0 <= j < new_clause@.len() && new_clause@[j].uidx() < formula.occ().len()
                    && formula.occ()[new_clause@[j].uidx() as int].len() > 0 ==> candidates@.len() <= #[trigger] formula.occ()[new_clause@[j].uidx() as int].len();
            assert forall|k: int| 0 <= k < formula.occ()[new_clause@[i].uidx() as int].len() implies
                !may_subsume_new(*formula, *new_clause, #[trigger] formula.occ()[new_clause@[i].uidx() as int][k] as int) by {
                assert(candidates@[k] == formula.occ()[new_clause@[i].uidx() as int][k]);
            }
        }
    }
    let mut subsumed_existing: Vec<usize> = Vec::new();
    let (watch_a, watch_b) = match new_clause.watched_literals() {
        Some(w) => w,
        None => {
            return IncrementalSubsumption { subsumed_by_existing: None, subsumed_existing, subset_checks };
        },
    };
    proof {
        assert(new_clause@[0].wf());
    }
    let inter = formula.occurrence_intersection(watch_a, watch_b);
    for k in 0..inter.len()
        invariant
            formula.wf(),
            forall|j: int| 0 <= j < subsumed_existing@.len() ==> {
                let i = #[trigger] subsumed_existing@[j];
                &&& i < formula.clauses@.len()
                &&& formula.clauses@[i as int].lock_count == 0
                &&& formula.clauses@[i as int]@.len() >= new_clause@.len()
                &&& subset_lits(*new_clause, formula.clauses@[i as int])
            },
            forall|kk: int| 0 <= kk < k && #[trigger] may_be_subsumed_by_new(*formula, *new_clause, inter@[kk] as int)
                ==> subsumed_existing@.contains(inter@[kk]),
    {
        let idx = inter[k];
        let ghost se0 = subsumed_existing@;
        if idx < formula.clauses.len() {
            let existing = &formula.clauses[idx];
            if !(existing.lock_count > 0 || existing.len() < new_clause.len()) {
                subset_checks = subset_checks.saturating_add(1);
                if new_clause.is_subset_of(existing) {
                    subsumed_existing.push(idx);
                }
            }
        }
        proof {
            assert forall|kk: int| 0 <= kk < k + 1 && #[trigger] may_be_subsumed_by_new(*formula, *new_clause, inter@[kk] as int)
                implies subsumed_existing@.contains(inter@[kk]) by {
                if kk < k {
                    let q = choose|q: int| 0 <= q < se0.len() && se0[q] == inter@[kk];
                    assert(subsumed_existing@[q] == inter@[kk]);
                } else {
                    assert(subsumed_existing@[subsumed_existing@.len() - 1] == idx);
                }
            }
        }
    }
    proof {
        if formula.occurrences_exact() {
            let cl = *new_clause;
            assert forall|xu: usize| #[trigger] may_be_subsumed_by_new(*formula, *new_clause, xu as int) implies subsumed_existing@.contains(xu) by {
                let x = xu as int;
                let ia: int = match cl.watched { Watched::One(i) => i as int, Watched::Two(i, _) => i as int, Watched::Unwatched => 0 };
                assert(*watch_a == cl@[ia]);
                assert(formula.clauses@[x]@.contains(cl@[ia]));
                let ja = choose|j: int| 0 <= j < formula.clauses@[x]@.len() && formula.clauses@[x]@[j] == cl@[ia];
                assert(formula.clauses@[x]@[ja].uidx() == watch_a.uidx());
                assert(occurs(formula.clauses@[x], watch_a.uidx()));
                assert(formula.clause_fits(formula.clauses@[x]));
                assert(formula.clauses@[x]@[ja].wf() && formula.clauses@[x]@[ja].var() < formula.n_vars());
                assert(formula.occ()[watch_a.uidx() as int].contains(x as usize));
                match watch_b {
                    Some(wb) => {
                        let ib: int = match cl.watched { Watched::Two(_, j) => j as int, _ => 0 };
                        assert(*wb == cl@[ib]);
                        assert(formula.clauses@[x]@.contains(cl@[ib]));
                        let jb = choose|j: int| 0 <= j < formula.clauses@[x]@.len() && formula.clauses@[x]@[j] == cl@[ib];
                        assert(formula.clauses@[x]@[jb].uidx() == wb.uidx());
                        assert(occurs(formula.clauses@[x], wb.uidx()));
                        assert(formula.clauses@[x]@[jb].wf() && formula.clauses@[x]@[jb].var() < formula.n_vars());
                        assert(formula.occ()[wb.uidx() as int].contains(x as usize));
                        assert(inter@.contains(x as usize));
                    },
                    None => {
                        assert(inter@.contains(x as usize));
                    },
                }
                let kk = choose|kk: int| 0 <= kk < inter@.len() && inter@[kk] == x as usize;
                assert(may_be_subsumed_by_new(*formula, *new_clause, inter@[kk] as int));
            }
        }
    }
    let sorted = sort_dedup(&subsumed_existing);
    proof {
        assert forall|k: int| 0 <= k < sorted@.len() implies {
            let i = #[trigger] sorted@[k];
            &&& i < formula.clauses@.len()
            &&& formula.clauses@[i as int].lock_count == 0
            &&& formula.clauses@[i as int]@.len() >= new_clause@.len()
            &&& subset_lits(*new_clause, formula.clauses@[i as int])
        } by {
            assert(sorted@.contains(sorted@[k]));
            let j = choose|j: int| 0 <= j < subsumed_existing@.len() && #[trigger] subsumed_existing@[j] == sorted@[k];
        }
    }
    IncrementalSubsumption { subsumed_by_existing: None, subsumed_existing: sorted, subset_checks }
}

} // verus!
