use vstd::prelude::*;
use std::io::Write;
use crate::drat::DratLogger;
use crate::formula::Formula;
use crate::formula::clause::{Clause, lits_below, resolvent_lits, lemma_append_new_below, tautology, lits_as_i32, sorted_i32};
use crate::formula::database::{listed, kept_count, same_clause, lemma_kept_index_below, lemma_kept_count_le};
use crate::formula::literal::Literal;
use crate::history::History;
use crate::history::decision_level::remap_reason;
use crate::sorting::{sort_dedup, strictly_increasing};
use crate::process::{process_step, processed, lemma_processed_refl, lemma_processed_push};

verus! {

/// The clauses to replace by resolvents to eliminate a variable, and the literals saved.
pub struct EliminationCandidate {
    pub to_delete: Vec<usize>,
    pub resolvents: Vec<Clause>,
    pub saving: i128,
}

/// Whether two integer sequences are equal.
pub fn same_key(a: &Vec<i32>, b: &Vec<i32>) -> (r: bool)
    ensures
        r == (a@ == b@),
{
    if a.len() != b.len() {
        return false;
    }
    for i in 0..a.len()
        invariant
            a@.len() == b@.len(),
            forall|j: int| 0 <= j < i ==> a@[j] == b@[j],
    {
        if a[i] != b[i] {
            return false;
        }
    }
    assert(a@ =~= b@);
    true
}

/// Whether `keys` holds `key`.
fn has_key(keys: &Vec<Vec<i32>>, key: &Vec<i32>) -> (r: bool)
    ensures
        r == exists|j: int| 0 <= j < keys@.len() && (#[trigger] keys@[j])@ == key@,
{
    for j in 0..keys.len()
        invariant
            forall|k: int| 0 <= k < j ==> (#[trigger] keys@[k])@ != key@,
    {
        if same_key(&keys[j], key) {
            return true;
        }
    }
    false
}

/// `a` and `b` hold the same literals, counted with multiplicity.
pub open spec fn same_literals(a: Seq<Literal>, b: Seq<Literal>) -> bool {
    lits_as_i32(a).to_multiset() == lits_as_i32(b).to_multiset()
}

/// `acc` after meeting the resolvent `r`: `r` is kept unless it is a tautology or a kept
/// resolvent has the same literals.
pub open spec fn add_resolvent(acc: Seq<Seq<Literal>>, r: Seq<Literal>) -> Seq<Seq<Literal>> {
    if tautology(r) || exists|k: int| 0 <= k < acc.len() && same_literals(#[trigger] acc[k], r) {
        acc
    } else {
        acc.push(r)
    }
}

/// The kept resolvents once clause `a` has met the first `nq` clauses listed in `neg`.
pub open spec fn resolvents_with(cs: Seq<Clause>, acc: Seq<Seq<Literal>>, a: Seq<Literal>, neg: Seq<usize>, var: int,
    nq: nat) -> Seq<Seq<Literal>>
    decreases nq,
{
    if nq == 0 {
        acc
    } else {
        add_resolvent(resolvents_with(cs, acc, a, neg, var, (nq - 1) as nat),
            resolvent_lits(a, cs[neg[nq - 1] as int]@, var))
    }
}

/// The kept resolvents once the first `np` clauses listed in `pos` have met every clause
/// listed in `neg`, in that order.
pub open spec fn resolvents_upto(cs: Seq<Clause>, pos: Seq<usize>, neg: Seq<usize>, var: int, np: nat) -> Seq<Seq<Literal>>
    decreases np,
{
    if np == 0 {
        Seq::empty()
    } else {
        resolvents_with(cs, resolvents_upto(cs, pos, neg, var, (np - 1) as nat), cs[pos[np - 1] as int]@, neg, var, neg.len())
    }
}

/// The indices below `m` listed in `pos` or `neg`, increasing.
pub open spec fn listed_below(pos: Seq<usize>, neg: Seq<usize>, m: nat) -> Seq<usize>
    decreases m,
{
    if m == 0 {
        Seq::empty()
    } else {
        let prev = listed_below(pos, neg, (m - 1) as nat);
        if pos.contains((m - 1) as usize) || neg.contains((m - 1) as usize) { prev.push((m - 1) as usize) } else { prev }
    }
}

/// `a + b`, capped at `usize::MAX`.
pub open spec fn sat_add_usize(a: usize, b: int) -> usize {
    if a + b > usize::MAX { usize::MAX } else { (a + b) as usize }
}

/// The (capped) number of literals of the clauses of `cs` listed in `d`.
pub open spec fn listed_literals(cs: Seq<Clause>, d: Seq<usize>) -> usize
    decreases d.len(),
{
    if d.len() == 0 { 0 } else { sat_add_usize(listed_literals(cs, d.drop_last()), cs[d.last() as int]@.len() as int) }
}

/// The (capped) number of literals of the clauses `rs`.
pub open spec fn total_literals(rs: Seq<Seq<Literal>>) -> usize
    decreases rs.len(),
{
    if rs.len() == 0 { 0 } else { sat_add_usize(total_literals(rs.drop_last()), rs.last().len() as int) }
}

/// The literals of each clause.
pub open spec fn clause_views(cs: Seq<Clause>) -> Seq<Seq<Literal>> {
    cs.map_values(|c: Clause| c@)
}

/// The clauses holding `var` and `-var` in `f`, as listed in its occurrence lists.
pub open spec fn pos_of(f: Formula, var: int) -> Seq<usize> {
    f.occ()[2 * var - 1]
}

pub open spec fn neg_of(f: Formula, var: int) -> Seq<usize> {
    f.occ()[2 * var]
}

/// The clauses that eliminating `var` in `f` replaces, increasing.
pub open spec fn bve_deleted(f: Formula, var: int) -> Seq<usize> {
    listed_below(pos_of(f, var), neg_of(f, var), f.clauses@.len())
}

/// The resolvents that eliminating `var` in `f` adds.
pub open spec fn bve_resolvents(f: Formula, var: int) -> Seq<Seq<Literal>> {
    resolvents_upto(f.clauses@, pos_of(f, var), neg_of(f, var), var, pos_of(f, var).len())
}

/// The literals saved by eliminating `var` in `f`.
pub open spec fn bve_saving(f: Formula, var: int) -> int {
    listed_literals(f.clauses@, bve_deleted(f, var)) - total_literals(bve_resolvents(f, var))
}

/// Eliminating `var` in `f` is offered: both polarities occur, no replaced clause is locked or an
/// extension definition, there are resolvents but no more than replaced clauses, and literals
/// are saved.
pub open spec fn bve_ok(f: Formula, var: int) -> bool {
    let d = bve_deleted(f, var);
    let rs = bve_resolvents(f, var);
    &&& pos_of(f, var).len() > 0
    &&& neg_of(f, var).len() > 0
    &&& forall|k: int| 0 <= k < d.len() ==> f.clauses@[#[trigger] d[k] as int].lock_count == 0
        && f.clauses@[d[k] as int].lbd != 0
    &&& 0 < rs.len() <= d.len()
    &&& bve_saving(f, var) > 0
}

/// `var` is an offered elimination with the largest saving in `f`, and the first such variable.
pub open spec fn best_elimination(f: Formula, var: int) -> bool {
    &&& 1 <= var < f.n_vars()
    &&& bve_ok(f, var)
    &&& forall|w: int| 1 <= w < f.n_vars() && #[trigger] bve_ok(f, w) ==> bve_saving(f, w) <= bve_saving(f, var)
        && (w < var ==> bve_saving(f, w) < bve_saving(f, var))
}

/// Sorted sequences with the same elements are equal.
proof fn lemma_sorted_keys_equal(x: Seq<i32>, y: Seq<i32>)
    requires
        sorted_i32(x),
        sorted_i32(y),
        x.to_multiset() == y.to_multiset(),
    ensures
        x == y,
{
    let leq = |a: i32, b: i32| a <= b;
    assert(vstd::relations::total_ordering(leq)) by {
        assert(vstd::relations::reflexive(leq));
        assert(vstd::relations::antisymmetric(leq));
        assert(vstd::relations::transitive(leq));
        assert(vstd::relations::strongly_connected(leq));
    }
    assert(vstd::relations::sorted_by(x, leq));
    assert(vstd::relations::sorted_by(y, leq));
    vstd::seq_lib::lemma_sorted_unique(x, y, leq);
}

/// The increasing sequence of the indices below `m` listed in `pos` or `neg` is unique.
proof fn lemma_listing_unique(s: Seq<usize>, pos: Seq<usize>, neg: Seq<usize>, m: nat)
    requires
        m <= usize::MAX,
        strictly_increasing(s),
        forall|k: int| 0 <= k < s.len() ==> s[k] < m,
        forall|x: usize| x < m ==> (#[trigger] s.contains(x) <==> (pos.contains(x) || neg.contains(x))),
    ensures
        s == listed_below(pos, neg, m),
    decreases m,
{
    if m == 0 {
        if s.len() > 0 {
            assert(s[0] < 0);
        }
        assert(s =~= Seq::<usize>::empty());
    } else {
        let x = (m - 1) as usize;
        if s.len() > 0 && s.last() == x {
            let t = s.drop_last();
            assert forall|k: int| 0 <= k < t.len() implies t[k] < (m - 1) as nat by {
                assert(s[k] < s[s.len() - 1]);
            }
            assert forall|y: usize| y < (m - 1) as nat implies (#[trigger] t.contains(y) <==> (pos.contains(y) || neg.contains(y))) by {
                if s.contains(y) {
                    let k = choose|k: int| 0 <= k < s.len() && s[k] == y;
                    assert(k != s.len() - 1);
                    assert(t[k] == y);
                }
                if t.contains(y) {
                    let k = choose|k: int| 0 <= k < t.len() && t[k] == y;
                    assert(s[k] == y);
                }
            }
            lemma_listing_unique(t, pos, neg, (m - 1) as nat);
            assert(s.contains(x));
            assert(s =~= t.push(x));
        } else {
            assert(!s.contains(x)) by {
                if s.contains(x) {
                    let k = choose|k: int| 0 <= k < s.len() && s[k] == x;
                    if k < s.len() - 1 {
                        assert(s[k] < s[s.len() - 1]);
                    }
                }
            }
            assert forall|k: int| 0 <= k < s.len() implies s[k] < (m - 1) as nat by {
                if k < s.len() - 1 {
                    assert(s[k] < s[s.len() - 1]);
                }
                assert(s[s.len() - 1] != x);
            }
            lemma_listing_unique(s, pos, neg, (m - 1) as nat);
        }
    }
}

/// `d` and `rs` describe an elimination of `var` in `f`: `d` lists, increasing, exactly the
/// clauses in the occurrence lists of `var` and `-var` (both non-empty), none locked or an
/// extension definition; each of the (at most `d.len()`, at least one) clauses of `rs` is the
/// non-tautological resolvent on `var` of a clause holding `var` and one holding `-var`.
pub open spec fn bve_replacement(f: Formula, var: int, d: Seq<usize>, rs: Seq<Clause>) -> bool {
    let pos = f.occ()[2 * var - 1];
    let neg = f.occ()[2 * var];
    &&& 1 <= var < f.n_vars()
    &&& pos.len() > 0 && neg.len() > 0
    &&& strictly_increasing(d)
    &&& d.len() > 0
    &&& forall|x: usize| #[trigger] d.contains(x) <==> (pos.contains(x) || neg.contains(x))
    &&& forall|k: int| 0 <= k < d.len() ==> #[trigger] d[k] < f.clauses@.len()
        && f.clauses@[d[k] as int].lock_count == 0 && f.clauses@[d[k] as int].lbd != 0
    &&& 0 < rs.len() <= d.len()
    &&& forall|k: int| 0 <= k < rs.len() ==> f.clause_fits(#[trigger] rs[k]) && rs[k].lbd == -1 && rs[k].lock_count == 0
        && !rs[k].bva_generated && !tautology(rs[k]@)
        && exists|p: int, q: int| 0 <= p < pos.len() && 0 <= q < neg.len()
            && rs[k]@ == resolvent_lits(f.clauses@[pos[p] as int]@, f.clauses@[neg[q] as int]@, var)
}

/// `new` is `old` after the elimination `(d, rs)`: the clauses not listed in `d`, in their order,
/// then the clauses of `rs`.
pub open spec fn bve_applied(old: Formula, new: Formula, d: Seq<usize>, rs: Seq<Clause>) -> bool {
    let m = old.clauses@.len() as int;
    &&& new.clauses@.len() == kept_count(d, m + rs.len())
    &&& forall|i: int| 0 <= i < m && !listed(d, i) ==> same_clause(new.clauses@[kept_count(d, i) as int], #[trigger] old.clauses@[i])
    &&& forall|j: int| 0 <= j < rs.len() ==> same_clause(new.clauses@[kept_count(d, m + j) as int], #[trigger] rs[j])
}

/// The elimination of `var` by clause distribution: the clauses holding `var` or `-var` are
/// replaced by their non-tautological resolvents on `var` (duplicates, as literal multisets,
/// dropped). Offered exactly when both polarities occur, no such clause is locked or an
/// extension definition, there are resolvents but no more than replaced clauses, and literals
/// are saved.
pub fn elimination_candidate(formula: &Formula, var: usize) -> (r: Option<EliminationCandidate>)
    requires
        formula.wf(),
        1 <= var < formula.n_vars(),
    ensures
        r is Some <==> bve_ok(*formula, var as int),
        r matches Some(c) ==> c.to_delete@ == bve_deleted(*formula, var as int)
            && clause_views(c.resolvents@) == bve_resolvents(*formula, var as int)
            && c.saving == bve_saving(*formula, var as int),
        r matches Some(c) ==> bve_replacement(*formula, var as int, c.to_delete@, c.resolvents@) && c.saving > 0,
{
    let ghost cs = formula.clauses@;
    let n_clauses = formula.clauses.len();
    let ghost m = cs.len();
    assert(m == n_clauses);
    let pos_lit = Literal::new(var as i32);
    let neg_lit = Literal::new(-(var as i32));
    let pos = formula.occurrence_indices(&pos_lit);
    let neg = formula.occurrence_indices(&neg_lit);
    proof {
        assert(pos@ == pos_of(*formula, var as int));
        assert(neg@ == neg_of(*formula, var as int));
    }
    if pos.len() == 0 || neg.len() == 0 {
        return None;
    }
    proof {
        assert forall|k: int| 0 <= k < pos@.len() implies #[trigger] pos@[k] < formula.clauses@.len() by {
            assert(formula.occ()[pos_lit.uidx() as int][k] < formula.clauses@.len());
        }
        assert forall|k: int| 0 <= k < neg@.len() implies #[trigger] neg@[k] < formula.clauses@.len() by {
            assert(formula.occ()[neg_lit.uidx() as int][k] < formula.clauses@.len());
        }
    }
    let mut all: Vec<usize> = Vec::new();
    for i in 0..pos.len()
        invariant
            forall|k: int| 0 <= k < pos@.len() ==> #[trigger] pos@[k] < formula.clauses@.len(),
            forall|k: int| 0 <= k < all@.len() ==> #[trigger] all@[k] < formula.clauses@.len(),
            all@ == pos@.subrange(0, i as int),
    {
        all.push(pos[i]);
        assert(all@ =~= pos@.subrange(0, i + 1));
    }
    assert(all@ =~= pos@);
    for i in 0..neg.len()
        invariant
            forall|k: int| 0 <= k < neg@.len() ==> #[trigger] neg@[k] < formula.clauses@.len(),
            forall|k: int| 0 <= k < all@.len() ==> #[trigger] all@[k] < formula.clauses@.len(),
            all@.len() > 0 || pos@.len() > 0,
            all@ == pos@ + neg@.subrange(0, i as int),
    {
        all.push(neg[i]);
        assert(all@ =~= pos@ + neg@.subrange(0, i + 1));
    }
    assert(all@ =~= pos@ + neg@);
    proof {
        assert forall|x: usize| #[trigger] all@.contains(x) <==> (pos@.contains(x) || neg@.contains(x)) by {
            if all@.contains(x) {
                let k = choose|k: int| 0 <= k < all@.len() && all@[k] == x;
                if k < pos@.len() {
                    assert(pos@[k] == x);
                } else {
                    assert(neg@[k - pos@.len()] == x);
                }
            }
            if pos@.contains(x) {
                let k = choose|k: int| 0 <= k < pos@.len() && pos@[k] == x;
                assert(all@[k] == x);
            }
            if neg@.contains(x) {
                let k = choose|k: int| 0 <= k < neg@.len() && neg@[k] == x;
                assert(all@[pos@.len() + k] == x);
            }
        }
    }
    let to_delete = sort_dedup(&all);
    proof {
        assert(all@.len() > 0 ==> all@.contains(all@[0]));
        assert forall|k: int| 0 <= k < to_delete@.len() implies #[trigger] to_delete@[k] < formula.clauses@.len() by {
            assert(to_delete@.contains(to_delete@[k]));
            let j = choose|j: int| 0 <= j < all@.len() && #[trigger] all@[j] == to_delete@[k];
        }
        lemma_listing_unique(to_delete@, pos@, neg@, m);
        assert(to_delete@ == bve_deleted(*formula, var as int));
    }
    let mut deleted_literals: usize = 0;
    for k in 0..to_delete.len()
        invariant
            cs == formula.clauses@,
            forall|q: int| 0 <= q < to_delete@.len() ==> #[trigger] to_delete@[q] < formula.clauses@.len(),
            forall|q: int| 0 <= q < k ==> formula.clauses@[#[trigger] to_delete@[q] as int].lock_count == 0
                && formula.clauses@[to_delete@[q] as int].lbd != 0,
            deleted_literals == listed_literals(cs, to_delete@.subrange(0, k as int)),
            to_delete@ == bve_deleted(*formula, var as int),
    {
        let c = &formula.clauses[to_delete[k]];
        if c.lock_count > 0 || c.lbd == 0 {
            proof {
                let d = bve_deleted(*formula, var as int);
                assert(!(formula.clauses@[d[k as int] as int].lock_count == 0 && formula.clauses@[d[k as int] as int].lbd != 0));
            }
            return None;
        }
        proof {
            assert(to_delete@.subrange(0, k + 1).drop_last() =~= to_delete@.subrange(0, k as int));
        }
        deleted_literals = deleted_literals.saturating_add(c.len());
    }
    proof {
        assert(to_delete@.subrange(0, to_delete@.len() as int) =~= to_delete@);
    }
    let mut resolvents: Vec<Clause> = Vec::new();
    let mut seen: Vec<Vec<i32>> = Vec::new();
    proof {
        assert(clause_views(resolvents@) =~= Seq::<Seq<Literal>>::empty());
    }
    for pi in 0..pos.len()
        invariant
            formula.wf(),
            cs == formula.clauses@,
            1 <= var < formula.n_vars(),
            pos@ == formula.occ()[2 * var - 1],
            neg@ == formula.occ()[2 * var],
            forall|k: int| 0 <= k < pos@.len() ==> #[trigger] pos@[k] < formula.clauses@.len(),
            forall|k: int| 0 <= k < neg@.len() ==> #[trigger] neg@[k] < formula.clauses@.len(),
            forall|k: int| 0 <= k < resolvents@.len() ==> formula.clause_fits(#[trigger] resolvents@[k])
                && resolvents@[k].lbd == -1 && resolvents@[k].lock_count == 0
                && !resolvents@[k].bva_generated && !tautology(resolvents@[k]@)
                && exists|p: int, q: int| 0 <= p < pos@.len() && 0 <= q < neg@.len()
                    && resolvents@[k]@ == resolvent_lits(formula.clauses@[pos@[p] as int]@, formula.clauses@[neg@[q] as int]@, var as int),
            clause_views(resolvents@) == resolvents_upto(cs, pos@, neg@, var as int, pi as nat),
            seen@.len() == resolvents@.len(),
            forall|k: int| 0 <= k < seen@.len() ==> sorted_i32(#[trigger] seen@[k]@)
                && seen@[k]@.to_multiset() == lits_as_i32(resolvents@[k]@).to_multiset(),
    {
        let ghost acc0 = clause_views(resolvents@);
        let ghost a_lits = cs[pos@[pi as int] as int]@;
        for ni in 0..neg.len()
            invariant
                formula.wf(),
                cs == formula.clauses@,
                1 <= var < formula.n_vars(),
                pi < pos@.len(),
                pos@ == formula.occ()[2 * var - 1],
                neg@ == formula.occ()[2 * var],
                forall|k: int| 0 <= k < pos@.len() ==> #[trigger] pos@[k] < formula.clauses@.len(),
                forall|k: int| 0 <= k < neg@.len() ==> #[trigger] neg@[k] < formula.clauses@.len(),
                forall|k: int| 0 <= k < resolvents@.len() ==> formula.clause_fits(#[trigger] resolvents@[k])
                    && resolvents@[k].lbd == -1 && resolvents@[k].lock_count == 0
                    && !resolvents@[k].bva_generated && !tautology(resolvents@[k]@)
                    && exists|p: int, q: int| 0 <= p < pos@.len() && 0 <= q < neg@.len()
                        && resolvents@[k]@ == resolvent_lits(formula.clauses@[pos@[p] as int]@, formula.clauses@[neg@[q] as int]@, var as int),
                a_lits == cs[pos@[pi as int] as int]@,
                acc0 == resolvents_upto(cs, pos@, neg@, var as int, pi as nat),
                clause_views(resolvents@) == resolvents_with(cs, acc0, a_lits, neg@, var as int, ni as nat),
                seen@.len() == resolvents@.len(),
                forall|k: int| 0 <= k < seen@.len() ==> sorted_i32(#[trigger] seen@[k]@)
                    && seen@[k]@.to_multiset() == lits_as_i32(resolvents@[k]@).to_multiset(),
        {
            let a = &formula.clauses[pos[pi]];
            let b = &formula.clauses[neg[ni]];
            let ghost prev = clause_views(resolvents@);
            let ghost rl = resolvent_lits(a@, b@, var as int);
            proof {
                assert(formula.clause_fits(*a));
                assert(formula.clause_fits(*b));
                assert(resolvents_with(cs, acc0, a_lits, neg@, var as int, (ni + 1) as nat) == add_resolvent(prev, rl));
            }
            match a.resolve_on(b, var as i32) {
                None => {},
                Some(resolvent) => {
                    let key = resolvent.sorted_literal_indices();
                    if !has_key(&seen, &key) {
                        proof {
                            assert forall|k: int| 0 <= k < prev.len() implies !same_literals(#[trigger] prev[k], rl) by {
                                if same_literals(prev[k], rl) {
                                    assert(prev[k] == resolvents@[k]@);
                                    lemma_sorted_keys_equal(seen@[k]@, key@);
                                }
                            }
                        }
                        seen.push(key);
                        proof {
                            lemma_append_new_below(Seq::empty(), a@, var as int, formula.n_vars());
                            lemma_append_new_below(crate::formula::clause::append_new(Seq::empty(), a@, var as int), b@, -(var as int), formula.n_vars());
                            assert(formula.clause_fits(resolvent));
                        }
                        let ghost before = resolvents@;
                        resolvents.push(resolvent);
                        proof {
                            assert(clause_views(resolvents@) =~= prev.push(rl));
                            assert forall|k: int| 0 <= k < resolvents@.len() implies formula.clause_fits(#[trigger] resolvents@[k])
                                && resolvents@[k].lbd == -1 && resolvents@[k].lock_count == 0
                                && !resolvents@[k].bva_generated && !tautology(resolvents@[k]@)
                                && exists|p: int, q: int| 0 <= p < pos@.len() && 0 <= q < neg@.len()
                                    && resolvents@[k]@ == resolvent_lits(formula.clauses@[pos@[p] as int]@, formula.clauses@[neg@[q] as int]@, var as int) by {
                                if k < before.len() {
                                    assert(resolvents@[k] == before[k]);
                                } else {
                                    assert(resolvents@[k]@ == resolvent_lits(formula.clauses@[pos@[pi as int] as int]@, formula.clauses@[neg@[ni as int] as int]@, var as int));
                                }
                            }
                            assert forall|k: int| 0 <= k < seen@.len() implies sorted_i32(#[trigger] seen@[k]@)
                                && seen@[k]@.to_multiset() == lits_as_i32(resolvents@[k]@).to_multiset() by {
                                if k < before.len() {
                                    assert(resolvents@[k] == before[k]);
                                }
                            }
                        }
                    } else {
                        proof {
                            let j = choose|j: int| 0 <= j < seen@.len() && (#[trigger] seen@[j])@ == key@;
                            assert(prev[j] == resolvents@[j]@);
                            assert(same_literals(prev[j], rl));
                        }
                    }
                },
            }
        }
        proof {
            assert(resolvents_upto(cs, pos@, neg@, var as int, (pi + 1) as nat)
                == resolvents_with(cs, resolvents_upto(cs, pos@, neg@, var as int, pi as nat), a_lits, neg@, var as int, neg@.len()));
        }
    }
    proof {
        assert(clause_views(resolvents@) == bve_resolvents(*formula, var as int));
    }
    if resolvents.len() == 0 {
        return None;
    }
    let mut added_literals: usize = 0;
    for k in 0..resolvents.len()
        invariant
            added_literals == total_literals(clause_views(resolvents@).subrange(0, k as int)),
    {
        proof {
            assert(clause_views(resolvents@).subrange(0, k + 1).drop_last() =~= clause_views(resolvents@).subrange(0, k as int));
        }
        added_literals = added_literals.saturating_add(resolvents[k].len());
    }
    proof {
        assert(clause_views(resolvents@).subrange(0, resolvents@.len() as int) =~= clause_views(resolvents@));
    }
    let saving: i128 = deleted_literals as i128 - added_literals as i128;
    if resolvents.len() <= to_delete.len() && saving > 0 {
        Some(EliminationCandidate { to_delete, resolvents, saving })
    } else {
        None
    }
}

/// Performs the elimination that saves the most literals (the first variable among equals), if
/// any: adds its resolvents, deletes the replaced clauses and renumbers `history`'s reasons.
pub fn apply_best_bve_step<W: Write>(formula: &mut Formula, logger: &mut Option<DratLogger<W>>, history: Option<&mut History>)
    -> (r: bool)
    requires
        old(formula).wf(),
        history matches Some(h) ==> old(formula).tracks(h),
    ensures
        final(formula).wf(),
        history matches Some(h) ==> final(formula).tracks(final(h))
            && final(h).decision_levels@.len() == h.decision_levels@.len(),
        !r ==> *final(formula) == *old(formula),
        r ==> exists|var: int, d: Seq<usize>, rs: Seq<Clause>| #[trigger] bve_replacement(*old(formula), var, d, rs)
            && bve_applied(*old(formula), *final(formula), d, rs) && best_elimination(*old(formula), var)
            && d == bve_deleted(*old(formula), var) && clause_views(rs) == bve_resolvents(*old(formula), var)
            && final(formula).stats.bve_resolvents == crate::stats::sat_add(old(formula).stats.bve_resolvents, rs.len() as int)
            && final(formula).stats.clauses_deleted == crate::stats::sat_add(old(formula).stats.clauses_deleted, d.len() as int),
        !r ==> (forall|w: int| 1 <= w < old(formula).n_vars() ==> !#[trigger] bve_ok(*old(formula), w))
            || exists|w: int| #[trigger] best_elimination(*old(formula), w)
                && bve_resolvents(*old(formula), w).len() > usize::MAX - old(formula).clauses@.len(),
        r ==> final(formula).stats.bve_eliminated_variables == crate::stats::sat_add(old(formula).stats.bve_eliminated_variables, 1),
        final(formula).n_vars() == old(formula).n_vars(),
        final(formula).extensions == old(formula).extensions,
        final(formula).self_subsuming == old(formula).self_subsuming,
        old(formula).watch_lists_sound() ==> final(formula).watch_lists_sound(),
{
    let mut best: Option<EliminationCandidate> = None;
    let mut best_saving: i128 = 0;
    let ghost best_var: int = 0;
    let n = formula.assignment.len();
    for var in 1..n
        invariant
            formula.wf(),
            n == formula.n_vars(),
            best matches Some(c) ==> bve_replacement(*formula, best_var, c.to_delete@, c.resolvents@),
            best matches Some(c) ==> {
                &&& strictly_increasing(c.to_delete@)
                &&& c.to_delete@.len() > 0
                &&& (forall|k: int| 0 <= k < c.to_delete@.len() ==> #[trigger] c.to_delete@[k] < formula.clauses@.len()
                    && formula.clauses@[c.to_delete@[k] as int].lock_count == 0
                    && formula.clauses@[c.to_delete@[k] as int].lbd != 0)
                &&& (forall|k: int| 0 <= k < c.resolvents@.len() ==> formula.clause_fits(#[trigger] c.resolvents@[k])
                    && c.resolvents@[k].lbd == -1 && c.resolvents@[k].lock_count == 0)
                &&& c.resolvents@.len() <= c.to_delete@.len()
            },
            best is None <==> forall|w: int| 1 <= w < var ==> !#[trigger] bve_ok(*formula, w),
            best is None ==> best_saving == 0,
            best matches Some(c) ==> {
                &&& 1 <= best_var < var
                &&& bve_ok(*formula, best_var)
                &&& best_saving == bve_saving(*formula, best_var)
                &&& c.to_delete@ == bve_deleted(*formula, best_var)
                &&& clause_views(c.resolvents@) == bve_resolvents(*formula, best_var)
                &&& forall|w: int| 1 <= w < var && #[trigger] bve_ok(*formula, w) ==> bve_saving(*formula, w) <= best_saving
                    && (w < best_var ==> bve_saving(*formula, w) < best_saving)
            },
    {
        match elimination_candidate(formula, var) {
            None => {},
            Some(candidate) => {
                if candidate.saving > best_saving {
                    best_saving = candidate.saving;
                    best = Some(candidate);
                    proof { best_var = var as int; }
                }
            },
        }
    }
    let candidate = match best {
        None => {
            return false;
        },
        Some(c) => c,
    };
    let ghost start = *formula;
    let ghost d = candidate.to_delete@;
    let ghost rs = candidate.resolvents@;
    let m = formula.clauses.len();
    proof {
        assert(best_elimination(start, best_var));
    }
    if candidate.resolvents.len() > usize::MAX - m {
        return false;
    }
    for k in 0..candidate.resolvents.len()
        invariant
            formula.wf(),
            formula.n_vars() == start.n_vars(),
            formula.clauses@.len() == m + k,
            start.clauses@.is_prefix_of(formula.clauses@),
            m == start.clauses@.len(),
            m + candidate.resolvents@.len() <= usize::MAX,
            formula.extensions == start.extensions,
            formula.self_subsuming == start.self_subsuming,
            formula.assignment == start.assignment,
            formula.stats.bve_eliminated_variables == start.stats.bve_eliminated_variables,
            formula.stats.bve_resolvents == crate::stats::sat_add(start.stats.bve_resolvents, k as int),
            formula.stats.clauses_deleted == start.stats.clauses_deleted,
            forall|q: int| 0 <= q < candidate.resolvents@.len() ==> start.clause_fits(#[trigger] candidate.resolvents@[q]),
            forall|j: int| 0 <= j < k ==> same_clause(formula.clauses@[m + j], #[trigger] candidate.resolvents@[j]),
    {
        let ghost before_add = formula.clauses@;
        let copy = candidate.resolvents[k].clone();
        proof {
            assert(start.clause_fits(candidate.resolvents@[k as int]));
            assert(formula.clause_fits(copy));
        }
        formula.add_clause_unchecked(copy, logger);
        formula.stats.add_bve_resolvent();
        proof {
            assert forall|j: int| 0 <= j < k + 1 implies same_clause(formula.clauses@[m + j], #[trigger] candidate.resolvents@[j]) by {
                if j < k {
                    assert(formula.clauses@[m + j] == before_add[m + j]);
                }
            }
        }
    }
    let ghost c1 = formula.clauses@;
    proof {
        assert forall|q: int| 0 <= q < candidate.to_delete@.len() implies #[trigger] candidate.to_delete@[q] < formula.clauses@.len()
            && formula.clauses@[candidate.to_delete@[q] as int].lock_count == 0 by {
            assert(formula.clauses@[candidate.to_delete@[q] as int] == start.clauses@[candidate.to_delete@[q] as int]);
        }
    }
    for k in 0..candidate.to_delete.len()
        invariant
            formula.wf(),
            formula.n_vars() == start.n_vars(),
            forall|q: int| 0 <= q < candidate.to_delete@.len() ==> #[trigger] candidate.to_delete@[q] < formula.clauses@.len()
                && formula.clauses@[candidate.to_delete@[q] as int].lock_count == 0,
            formula.extensions == start.extensions,
            formula.self_subsuming == start.self_subsuming,
            formula.assignment == start.assignment,
            formula.stats.bve_eliminated_variables == start.stats.bve_eliminated_variables,
            formula.stats.bve_resolvents == crate::stats::sat_add(start.stats.bve_resolvents, candidate.resolvents@.len() as int),
            formula.stats.clauses_deleted == crate::stats::sat_add(start.stats.clauses_deleted, k as int),
            formula.clauses@.len() >= m,
            formula.clauses@ == c1,
    {
        let idx = candidate.to_delete[k];
        formula.stats.remove_clause(&formula.clauses[idx]);
    }
    let ghost before = *formula;
    let old_to_new = formula.delete_clauses(candidate.to_delete.as_slice(), logger);
    let ghost d = candidate.to_delete@;
    proof {
        lemma_kept_count_le(d, before.clauses@.len() as int);
        assert forall|q: int| 0 <= q < old_to_new@.len() implies (#[trigger] old_to_new@[q] matches Some(x) ==> x < formula.clauses@.len()) by {
            if !listed(d, q) {
                lemma_kept_index_below(d, q, before.clauses@.len() as int);
            }
        }
    }
    if let Some(h) = history {
        let ghost hb = *h;
        h.remap_clause_indices(old_to_new.as_slice());
        proof {
            assert forall|k: int| 0 <= k < h.decision_levels@.len() implies
                (#[trigger] h.decision_levels@[k]).below(formula.n_vars()) && h.decision_levels@[k].reasons_below(formula.clauses@.len()) by {
                let o = hb.decision_levels@[k];
                let f = h.decision_levels@[k];
                assert(o.below(formula.n_vars()));
                assert forall|i: int| 0 <= i < f.implied_literals@.len() implies (#[trigger] f.implied_literals@[i]).0.var() < formula.n_vars()
                    && (f.implied_literals@[i].1 matches Some(x) ==> x < formula.clauses@.len()) by {
                    assert(f.implied_literals@[i] == (o.implied_literals@[i].0, remap_reason(o.implied_literals@[i].1, old_to_new@)));
                }
                assert forall|i: int| 0 <= i < f.reason_by_unsigned@.len() implies
                    (#[trigger] f.reason_by_unsigned@[i] matches Some(x) ==> x < formula.clauses@.len()) by {
                    assert(f.reason_by_unsigned@[i] == remap_reason(o.reason_by_unsigned@[i], old_to_new@));
                }
            }
        }
    }
    formula.stats.add_bve_eliminated_variable();
    proof {
        let mm = m as int;
        assert forall|i: int| 0 <= i < mm && !listed(d, i) implies
            same_clause(formula.clauses@[kept_count(d, i) as int], #[trigger] start.clauses@[i]) by {
            assert(c1[i] == start.clauses@[i]);
        }
        assert forall|j: int| 0 <= j < rs.len() implies
            same_clause(formula.clauses@[kept_count(d, mm + j) as int], #[trigger] rs[j]) by {
            assert(!listed(d, mm + j));
            assert(same_clause(c1[mm + j], rs[j]));
        }
        assert(bve_replacement(start, best_var, d, rs));
        assert(best_elimination(start, best_var));
    }
    true
}


/// `b` is `a` after eliminating its best variable (see `best_elimination`) by clause
/// distribution: its clauses are replaced by their resolvents, and the counts of resolvents,
/// deleted clauses and eliminated variables grow by as many.
pub open spec fn best_bve_step(a: Formula, b: Formula) -> bool {
    exists|var: int, d: Seq<usize>, rs: Seq<Clause>| #[trigger] bve_replacement(a, var, d, rs)
        && bve_applied(a, b, d, rs) && best_elimination(a, var)
        && d == bve_deleted(a, var) && clause_views(rs) == bve_resolvents(a, var)
        && b.stats.bve_resolvents == crate::stats::sat_add(a.stats.bve_resolvents, rs.len() as int)
        && b.stats.clauses_deleted == crate::stats::sat_add(a.stats.clauses_deleted, d.len() as int)
        && b.stats.bve_eliminated_variables == crate::stats::sat_add(a.stats.bve_eliminated_variables, 1)
}

/// `b` is reached from `a` by successive best eliminations (possibly none).
pub open spec fn bve_run(a: Formula, b: Formula) -> bool {
    exists|fs: Seq<Formula>| fs.len() >= 1 && fs[0] == a && fs.last() == b
        && forall|i: int| 0 <= i < fs.len() - 1 ==> #[trigger] best_bve_step(fs[i], fs[i + 1])
}

/// No elimination at all.
pub proof fn lemma_bve_run_refl(a: Formula)
    ensures
        bve_run(a, a),
{
    let fs = seq![a];
    assert(fs.last() == a);
}

/// One more elimination.
pub proof fn lemma_bve_run_push(a: Formula, m: Formula, b: Formula)
    requires
        bve_run(a, m),
        best_bve_step(m, b),
    ensures
        bve_run(a, b),
{
    let fs = choose|fs: Seq<Formula>| fs.len() >= 1 && fs[0] == a && fs.last() == m
        && forall|i: int| 0 <= i < fs.len() - 1 ==> #[trigger] best_bve_step(fs[i], fs[i + 1]);
    let gs = fs.push(b);
    assert forall|i: int| 0 <= i < gs.len() - 1 implies #[trigger] best_bve_step(gs[i], gs[i + 1]) by {
        if i < fs.len() - 1 {
            assert(gs[i] == fs[i] && gs[i + 1] == fs[i + 1]);
        } else {
            assert(gs[i] == m && gs[i + 1] == b);
        }
    }
    assert(gs[0] == a && gs.last() == b);
}

/// No elimination is left to do: no variable can be eliminated with a saving, or the best one
/// would add more resolvents than the clause database can index.
pub open spec fn bve_done(f: Formula) -> bool {
    ||| forall|w: int| 1 <= w < f.n_vars() ==> !#[trigger] bve_ok(f, w)
    ||| exists|w: int| #[trigger] best_elimination(f, w) && bve_resolvents(f, w).len() > usize::MAX - f.clauses@.len()
}

/// Eliminates variables while an elimination saves literals. Each elimination removes every
/// clause of its variable and adds none with it, so at most one per variable slot is tried.
pub fn process<W: Write>(formula: &mut Formula, logger: &mut Option<DratLogger<W>>, history: Option<&mut History>)
    requires
        old(formula).wf(),
        history matches Some(h) ==> old(formula).tracks(h),
    ensures
        final(formula).wf(),
        history matches Some(h) ==> final(formula).tracks(final(h))
            && final(h).decision_levels@.len() == h.decision_levels@.len(),
        final(formula).n_vars() == old(formula).n_vars(),
        final(formula).extensions == old(formula).extensions,
        final(formula).self_subsuming == old(formula).self_subsuming,
        processed(*old(formula), *final(formula)),
        bve_run(*old(formula), *final(formula)),
        old(formula).watch_lists_sound() ==> final(formula).watch_lists_sound(),
        bve_done(*final(formula)) || final(formula).stats.bve_eliminated_variables
            == crate::stats::sat_add(old(formula).stats.bve_eliminated_variables, old(formula).n_vars() as int),
{
    match history {
        Some(h) => process_tracking(formula, logger, h),
        None => {
            proof {
                lemma_processed_refl(*formula, *formula);
                lemma_bve_run_refl(*formula);
            }
            let mut fuel = formula.assignment.len();
            while fuel > 0
                invariant
                    formula.wf(),
                    formula.n_vars() == old(formula).n_vars(),
                    formula.extensions == old(formula).extensions,
                    formula.self_subsuming == old(formula).self_subsuming,
                    processed(*old(formula), *formula),
                    bve_run(*old(formula), *formula),
                    old(formula).watch_lists_sound() ==> formula.watch_lists_sound(),
                    fuel <= old(formula).n_vars(),
                    formula.stats.bve_eliminated_variables == crate::stats::sat_add(old(formula).stats.bve_eliminated_variables,
                        old(formula).n_vars() - fuel),
                ensures
                    bve_done(*formula) || formula.stats.bve_eliminated_variables
                        == crate::stats::sat_add(old(formula).stats.bve_eliminated_variables, old(formula).n_vars() as int),
                decreases fuel,
            {
                let ghost before = *formula;
                if !apply_best_bve_step(formula, logger, None) {
                    break;
                }
                proof {
                    assert(process_step(before, *formula));
                    lemma_processed_push(*old(formula), before, *formula);
                    lemma_bve_run_push(*old(formula), before, *formula);
                }
                fuel = fuel - 1;
            }
        },
    }
}

/// `process` with a history whose reasons follow the clause renumbering.
fn process_tracking<W: Write>(formula: &mut Formula, logger: &mut Option<DratLogger<W>>, history: &mut History)
    requires
        old(formula).wf(),
        old(formula).tracks(old(history)),
    ensures
        final(formula).wf(),
        final(formula).tracks(final(history)),
        final(history).decision_levels@.len() == old(history).decision_levels@.len(),
        final(formula).n_vars() == old(formula).n_vars(),
        final(formula).extensions == old(formula).extensions,
        final(formula).self_subsuming == old(formula).self_subsuming,
        processed(*old(formula), *final(formula)),
        bve_run(*old(formula), *final(formula)),
        old(formula).watch_lists_sound() ==> final(formula).watch_lists_sound(),
        bve_done(*final(formula)) || final(formula).stats.bve_eliminated_variables
            == crate::stats::sat_add(old(formula).stats.bve_eliminated_variables, old(formula).n_vars() as int),
{
    proof {
        lemma_processed_refl(*formula, *formula);
        lemma_bve_run_refl(*formula);
    }
    let mut fuel = formula.assignment.len();
    while fuel > 0
        invariant
            formula.wf(),
            formula.tracks(history),
            history.decision_levels@.len() == old(history).decision_levels@.len(),
            formula.n_vars() == old(formula).n_vars(),
            formula.extensions == old(formula).extensions,
            formula.self_subsuming == old(formula).self_subsuming,
            processed(*old(formula), *formula),
            bve_run(*old(formula), *formula),
                    old(formula).watch_lists_sound() ==> formula.watch_lists_sound(),
            fuel <= old(formula).n_vars(),
            formula.stats.bve_eliminated_variables == crate::stats::sat_add(old(formula).stats.bve_eliminated_variables,
                old(formula).n_vars() - fuel),
        ensures
            bve_done(*formula) || formula.stats.bve_eliminated_variables
                == crate::stats::sat_add(old(formula).stats.bve_eliminated_variables, old(formula).n_vars() as int),
        decreases fuel,
    {
        let ghost before = *formula;
        if !apply_best_bve_step(formula, logger, Some(&mut *history)) {
            break;
        }
        proof {
            assert(process_step(before, *formula));
            lemma_processed_push(*old(formula), before, *formula);
            lemma_bve_run_push(*old(formula), before, *formula);
        }
        fuel = fuel - 1;
    }
}

} // verus!
