use vstd::prelude::*;
use std::io::Write;
use crate::drat::DratLogger;
use crate::formula::Formula;
use crate::formula::clause::Clause;
use crate::formula::database::{listed, kept_count, same_clause, lemma_kept_index_below, lemma_kept_count_le};
use crate::history::History;
use crate::history::decision_level::remap_reason;
use crate::sorting::{sort_descending, non_increasing};

verus! {

/// A learnt clause that database reduction may delete, as `(index, lbd, length)`.
pub type ReduceCandidate = (usize, i64, usize);

/// `a` goes before `b`: higher LBD first, then longer, then lower index.
pub open spec fn cand_before(a: ReduceCandidate, b: ReduceCandidate) -> bool {
    ||| a.1 > b.1
    ||| (a.1 == b.1 && a.2 > b.2)
    ||| (a.1 == b.1 && a.2 == b.2 && a.0 < b.0)
}

/// Candidates in deletion order.
pub open spec fn cands_sorted(s: Seq<ReduceCandidate>) -> bool {
    forall|i: int, j: int| 0 <= i < j < s.len() ==> cand_before(s[i], s[j])
}

/// The first index after the last original clause (`lbd == -1`), `0` when there is none.
pub open spec fn learnt_start(cs: Seq<Clause>) -> int
    decreases cs.len(),
{
    if cs.len() == 0 {
        0
    } else if cs.last().lbd == -1 {
        cs.len() as int
    } else {
        learnt_start(cs.drop_last())
    }
}

/// Whether clause `i` of `cs` may be deleted: it follows the last original clause, is not an
/// extension definition (`lbd == 0`) nor the reason of an active implication, and, when
/// `conservative`, is neither binary nor a short clause of LBD at most 2.
pub open spec fn reducible(cs: Seq<Clause>, i: int, conservative: bool) -> bool {
    let c = cs[i];
    &&& learnt_start(cs) <= i < cs.len()
    &&& c.lbd != 0
    &&& c.lock_count == 0
    &&& !(conservative && c@.len() <= 2)
    &&& !(conservative && c.lbd <= 2 && c@.len() <= 8)
}

proof fn lemma_learnt_start(cs: Seq<Clause>)
    ensures
        0 <= learnt_start(cs) <= cs.len(),
        forall|i: int| learnt_start(cs) <= i < cs.len() ==> #[trigger] cs[i].lbd != -1,
        learnt_start(cs) > 0 ==> cs[learnt_start(cs) - 1].lbd == -1,
    decreases cs.len(),
{
    if cs.len() > 0 && cs.last().lbd != -1 {
        lemma_learnt_start(cs.drop_last());
        assert forall|i: int| learnt_start(cs) <= i < cs.len() implies #[trigger] cs[i].lbd != -1 by {
            if i < cs.len() - 1 {
                assert(cs[i] == cs.drop_last()[i]);
            }
        }
    }
}

/// Sorts the candidates into deletion order.
fn sort_candidates(v: Vec<ReduceCandidate>) -> (r: Vec<ReduceCandidate>)
    requires
        forall|i: int, j: int| 0 <= i < j < v@.len() ==> v@[i].0 != v@[j].0,
    ensures
        cands_sorted(r@),
        r@.to_multiset() == v@.to_multiset(),
        r@.len() == v@.len(),
{
    let mut r: Vec<ReduceCandidate> = Vec::new();
    assert(r@ =~= v@.subrange(0, 0));
    for i in 0..v.len()
        invariant
            forall|a: int, b: int| 0 <= a < b < v@.len() ==> v@[a].0 != v@[b].0,
            cands_sorted(r@),
            r@.to_multiset() == v@.subrange(0, i as int).to_multiset(),
            r@.len() == i,
            forall|k: int| 0 <= k < r@.len() ==> v@.subrange(0, i as int).contains(#[trigger] r@[k]),
    {
        let x = v[i];
        let mut pos: usize = 0;
        while pos < r.len() && (r[pos].1 > x.1 || (r[pos].1 == x.1 && (r[pos].2 > x.2 || (r[pos].2 == x.2 && r[pos].0 < x.0))))
            invariant
                pos <= r@.len(),
                cands_sorted(r@),
                forall|k: int| 0 <= k < pos ==> cand_before(r@[k], x),
            decreases r@.len() - pos,
        {
            pos = pos + 1;
        }
        let ghost old_r = r@;
        proof {
            assert forall|k: int| 0 <= k < old_r.len() implies (#[trigger] old_r[k]).0 != x.0 by {
                assert(v@.subrange(0, i as int).contains(old_r[k]));
                let j = choose|j: int| 0 <= j < i && #[trigger] v@.subrange(0, i as int)[j] == old_r[k];
                assert(v@[j] == old_r[k]);
            }
        }
        r.insert(pos, x);
        proof {
            vstd::seq_lib::to_multiset_insert(old_r, pos as int, x);
            vstd::seq_lib::to_multiset_build(v@.subrange(0, i as int), x);
            assert(v@.subrange(0, i + 1) =~= v@.subrange(0, i as int).push(x));
            assert forall|a: int, b: int| 0 <= a < b < r@.len() implies cand_before(r@[a], r@[b]) by {
                if b < pos {
                } else if b == pos {
                } else if a < pos {
                    assert(r@[b] == old_r[b - 1]);
                    assert(cand_before(old_r[a], old_r[b - 1]));
                } else if a == pos {
                    assert(r@[b] == old_r[b - 1]);
                    assert(old_r[pos as int].0 != x.0);
                    assert(!cand_before(old_r[pos as int], x));
                    if b - 1 > pos {
                        assert(cand_before(old_r[pos as int], old_r[b - 1]));
                    }
                } else {
                    assert(r@[a] == old_r[a - 1]);
                    assert(r@[b] == old_r[b - 1]);
                }
            }
            assert forall|k: int| 0 <= k < r@.len() implies v@.subrange(0, i + 1).contains(#[trigger] r@[k]) by {
                if k == pos {
                    assert(v@.subrange(0, i + 1)[i as int] == x);
                } else {
                    let kk = if k < pos { k } else { k - 1 };
                    assert(r@[k] == old_r[kk]);
                    assert(v@.subrange(0, i as int).contains(old_r[kk]));
                    let j = choose|j: int| 0 <= j < i && #[trigger] v@.subrange(0, i as int)[j] == old_r[kk];
                    assert(v@.subrange(0, i + 1)[j] == old_r[kk]);
                }
            }
        }
    }
    assert(v@.subrange(0, v@.len() as int) =~= v@);
    r
}


/// Clause `i` of `cs` passes the per-clause tests of `reducible`.
pub open spec fn reducible_at(cs: Seq<Clause>, i: int, conservative: bool) -> bool {
    let c = cs[i];
    &&& c.lbd != 0
    &&& c.lock_count == 0
    &&& !(conservative && c@.len() <= 2)
    &&& !(conservative && c.lbd <= 2 && c@.len() <= 8)
}

/// Number of indices in `[lo, hi)` passing `reducible_at`.
pub open spec fn count_reducible(cs: Seq<Clause>, lo: int, hi: int, conservative: bool) -> nat
    decreases hi - lo,
{
    if lo >= hi {
        0
    } else {
        count_reducible(cs, lo + 1, hi, conservative) + if reducible_at(cs, lo, conservative) { 1nat } else { 0nat }
    }
}

/// How many of `m` candidates a reduction deletes.
pub open spec fn deletion_count(m: nat, conservative: bool) -> nat {
    if conservative {
        if m < 1000 { 0 } else { m / 4 }
    } else {
        m / 2
    }
}

/// The candidate record of clause `i`.
pub open spec fn cand_of(cs: Seq<Clause>, i: int) -> ReduceCandidate {
    (i as usize, cs[i].lbd, cs[i]@.len() as usize)
}

/// `d` lists the clauses a reduction of `cs` deletes: as many as `deletion_count` says, all
/// reducible, and each going before every reducible clause that stays.
pub open spec fn reduce_choice(cs: Seq<Clause>, d: Seq<usize>, conservative: bool) -> bool {
    &&& d.len() == deletion_count(count_reducible(cs, learnt_start(cs), cs.len() as int, conservative), conservative)
    &&& forall|k: int| 0 <= k < d.len() ==> reducible(cs, #[trigger] d[k] as int, conservative)
    &&& forall|a: int, b: int| 0 <= a < b < d.len() ==> d[a] != d[b]
    &&& forall|k: int, j: int| 0 <= k < d.len() && reducible(cs, j, conservative) && !d.contains(j as usize)
        ==> cand_before(cand_of(cs, #[trigger] d[k] as int), #[trigger] cand_of(cs, j))
}

proof fn lemma_learnt_start_at(cs: Seq<Clause>, i: int)
    requires
        0 <= i <= cs.len(),
        forall|k: int| i <= k < cs.len() ==> #[trigger] cs[k].lbd != -1,
        i == 0 || cs[i - 1].lbd == -1,
    ensures
        learnt_start(cs) == i,
    decreases cs.len(),
{
    if cs.len() > i {
        assert(cs.last().lbd != -1);
        assert forall|k: int| i <= k < cs.drop_last().len() implies #[trigger] cs.drop_last()[k].lbd != -1 by {
            assert(cs.drop_last()[k] == cs[k]);
        }
        if i > 0 {
            assert(cs.drop_last()[i - 1] == cs[i - 1]);
        }
        lemma_learnt_start_at(cs.drop_last(), i);
    }
}

impl Formula {
    /// Deletes the worst learnt clauses: among the reducible ones (see `reducible`) it deletes
    /// half (a quarter when `conservative`, and nothing when fewer than 1000 qualify) in the order
    /// of `cand_before`, counts them in the statistics and renumbers `history`'s reasons.
    pub fn reduce_db<W: Write>(&mut self, history: &mut History, logger: &mut Option<DratLogger<W>>, conservative: bool)
        requires
            old(self).wf(),
            old(self).tracks(old(history)),
        ensures
            final(self).wf(),
            final(self).tracks(final(history)),
            exists|d: Seq<usize>| {
                &&& reduce_choice(old(self).clauses@, d, conservative)
                &&& final(self).clauses@.len() == kept_count(d, old(self).clauses@.len() as int)
                &&& forall|i: int| 0 <= i < old(self).clauses@.len() && !listed(d, i) ==>
                    same_clause(final(self).clauses@[kept_count(d, i) as int], #[trigger] old(self).clauses@[i])
            },
            final(self).assignment == old(self).assignment,
            final(self).extensions == old(self).extensions,
            final(self).self_subsuming == old(self).self_subsuming,
            final(history).decision_levels@.len() == old(history).decision_levels@.len(),
            old(self).watches_exact() && old(self).occurrences_exact() ==> final(self).watches_exact()
                && final(self).occurrences_exact(),
            old(self).watch_lists_sound() ==> final(self).watch_lists_sound(),
    {
        let ghost cs = self.clauses@;
        let n = self.clauses.len();
        let mut candidates: Vec<ReduceCandidate> = Vec::new();
        let mut i: usize = n;
        let mut stop = false;
        while i > 0 && !stop
            invariant
                cs == self.clauses@,
                n == cs.len(),
                i <= n,
                forall|k: int| i <= k < n ==> #[trigger] cs[k].lbd != -1,
                stop ==> i > 0 && cs[i - 1].lbd == -1,
                candidates@.len() == count_reducible(cs, i as int, n as int, conservative),
                forall|k: int| 0 <= k < candidates@.len() ==> i <= (#[trigger] candidates@[k]).0 < n
                    && candidates@[k] == cand_of(cs, candidates@[k].0 as int)
                    && reducible_at(cs, candidates@[k].0 as int, conservative),
                forall|a: int, b: int| 0 <= a < b < candidates@.len() ==> candidates@[a].0 > candidates@[b].0,
                forall|j: int| i <= j < n && reducible_at(cs, j, conservative) ==>
                    exists|k: int| 0 <= k < candidates@.len() && (#[trigger] candidates@[k]).0 == j,
            decreases i + (if stop { 0int } else { 1int }),
        {
            let j = i - 1;
            let c = &self.clauses[j];
            if c.lbd == -1 {
                stop = true;
            } else {
                let ghost old_c = candidates@;
                if c.lbd != 0 && c.lock_count == 0 && !(conservative && c.len() <= 2)
                    && !(conservative && c.lbd <= 2 && c.len() <= 8) {
                    candidates.push((j, c.lbd, c.len()));
                    proof {
                        assert forall|jj: int| j <= jj < n && reducible_at(cs, jj, conservative) implies
                            exists|k: int| 0 <= k < candidates@.len() && (#[trigger] candidates@[k]).0 == jj by {
                            if jj == j {
                                assert(candidates@[old_c.len() as int].0 == jj);
                            } else {
                                let k = choose|k: int| 0 <= k < old_c.len() && (#[trigger] old_c[k]).0 == jj;
                                assert(candidates@[k].0 == jj);
                            }
                        }
                    }
                }
                i = j;
            }
        }
        proof {
            lemma_learnt_start_at(cs, i as int);
        }
        let m = candidates.len();
        if conservative && m < 1000 {
            proof {
                let d = Seq::<usize>::empty();
                assert(reduce_choice(cs, d, conservative));
                assert forall|k: int| 0 <= k <= n implies kept_count(d, k) == k by {
                    crate::formula::database::lemma_kept_count_none(d, k);
                }
            }
            return;
        }
        let delete_count = if conservative { m / 4 } else { m / 2 };
        if delete_count == 0 {
            proof {
                let d = Seq::<usize>::empty();
                assert(reduce_choice(cs, d, conservative));
                assert forall|k: int| 0 <= k <= n implies kept_count(d, k) == k by {
                    crate::formula::database::lemma_kept_count_none(d, k);
                }
            }
            return;
        }
        let sorted = sort_candidates(candidates);
        let ghost cands = candidates@;
        let mut chosen: Vec<usize> = Vec::new();
        for k in 0..delete_count
            invariant
                delete_count <= sorted@.len(),
                chosen@.len() == k,
                forall|q: int| 0 <= q < k ==> #[trigger] chosen@[q] == sorted@[q].0,
        {
            chosen.push(sorted[k].0);
        }
        let to_delete = sort_descending(&chosen);
        proof {
            // every sorted entry is a candidate and every candidate is in sorted
            assert forall|q: int| 0 <= q < sorted@.len() implies cands.contains(#[trigger] sorted@[q]) by {
                vstd::seq_lib::to_multiset_contains(sorted@, sorted@[q]);
                vstd::seq_lib::to_multiset_contains(cands, sorted@[q]);
                assert(sorted@.contains(sorted@[q]));
            }
            assert forall|x: usize| #[trigger] to_delete@.contains(x) <==> chosen@.contains(x) by {
                vstd::seq_lib::to_multiset_contains(to_delete@, x);
                vstd::seq_lib::to_multiset_contains(chosen@, x);
            }
            // distinct indices in sorted
            assert forall|a: int, b: int| 0 <= a < b < sorted@.len() implies sorted@[a].0 != sorted@[b].0 by {
                assert(cand_before(sorted@[a], sorted@[b]));
                assert(cands.contains(sorted@[a]));
                assert(cands.contains(sorted@[b]));
                let ka = choose|ka: int| 0 <= ka < cands.len() && cands[ka] == sorted@[a];
                let kb = choose|kb: int| 0 <= kb < cands.len() && cands[kb] == sorted@[b];
                if sorted@[a].0 == sorted@[b].0 {
                    assert(sorted@[a] == cand_of(cs, sorted@[a].0 as int));
                    assert(sorted@[b] == cand_of(cs, sorted@[b].0 as int));
                }
            }
            let d = to_delete@;
            assert forall|k: int| 0 <= k < d.len() implies reducible(cs, #[trigger] d[k] as int, conservative) by {
                assert(d.contains(d[k]));
                assert(chosen@.contains(d[k]));
                let q = choose|q: int| 0 <= q < chosen@.len() && chosen@[q] == d[k];
                assert(cands.contains(sorted@[q]));
                let kk = choose|kk: int| 0 <= kk < cands.len() && cands[kk] == sorted@[q];
            }
            assert forall|a: int, b: int| 0 <= a < b < d.len() implies d[a] != d[b] by {
                if d[a] == d[b] {
                    // the descending sort keeps the multiset of `chosen`, whose entries are distinct
                    let x = d[a];
                    assert(d.to_multiset().count(x) >= 2) by {
                        let s1 = d.subrange(0, b);
                        assert(d =~= s1 + d.subrange(b, d.len() as int));
                        vstd::seq_lib::lemma_multiset_commutative(s1, d.subrange(b, d.len() as int));
                        vstd::seq_lib::to_multiset_contains(s1, x);
                        assert(s1[a] == x);
                        assert(s1.contains(x));
                        vstd::seq_lib::to_multiset_contains(d.subrange(b, d.len() as int), x);
                        assert(d.subrange(b, d.len() as int)[0] == x);
                        assert(d.subrange(b, d.len() as int).contains(x));
                    }
                    lemma_distinct_count_le_one(chosen@, x);
                }
            }
            assert forall|k: int, j: int| 0 <= k < d.len() && reducible(cs, j, conservative) && !d.contains(j as usize)
                implies cand_before(cand_of(cs, #[trigger] d[k] as int), #[trigger] cand_of(cs, j)) by {
                assert(d.contains(d[k]));
                assert(chosen@.contains(d[k]));
                let p = choose|p: int| 0 <= p < chosen@.len() && chosen@[p] == d[k];
                assert(reducible_at(cs, j, conservative));
                let kc = choose|kc: int| 0 <= kc < cands.len() && (#[trigger] cands[kc]).0 == j;
                vstd::seq_lib::to_multiset_contains(cands, cands[kc]);
                vstd::seq_lib::to_multiset_contains(sorted@, cands[kc]);
                assert(cands.contains(cands[kc]));
                let q = choose|q: int| 0 <= q < sorted@.len() && sorted@[q] == cands[kc];
                if q < delete_count {
                    assert(chosen@[q] == j as usize);
                    assert(chosen@.contains(j as usize));
                }
                assert(sorted@[p] == cand_of(cs, sorted@[p].0 as int)) by {
                    assert(cands.contains(sorted@[p]));
                    let kk = choose|kk: int| 0 <= kk < cands.len() && cands[kk] == sorted@[p];
                }
                assert(cand_before(sorted@[p], sorted@[q]));
            }
            assert(reduce_choice(cs, d, conservative));
        }
        let ghost hist0 = *history;
        for k in 0..to_delete.len()
            invariant
                self.wf(),
                cs == self.clauses@,
                forall|q: int| 0 <= q < to_delete@.len() ==> reducible(cs, #[trigger] to_delete@[q] as int, conservative),
                self.assignment == old(self).assignment,
                self.extensions == old(self).extensions,
                self.self_subsuming == old(self).self_subsuming,
                self.watch == old(self).watch,
                self.occurrence == old(self).occurrence,
        {
            let idx = to_delete[k];
            proof { assert(reducible(cs, idx as int, conservative)); }
            self.stats.remove_clause(&self.clauses[idx]);
        }
        let ghost before = *self;
        let old_to_new = self.delete_clauses(to_delete.as_slice(), logger);
        let ghost d = to_delete@;
        proof {
            lemma_kept_count_le(d, n as int);
            assert forall|q: int| 0 <= q < old_to_new@.len() implies (#[trigger] old_to_new@[q] matches Some(x) ==> x < self.clauses@.len()) by {
                if !listed(d, q) {
                    lemma_kept_index_below(d, q, n as int);
                }
            }
        }
        let ghost hb = *history;
        history.remap_clause_indices(old_to_new.as_slice());
        proof {
            assert forall|k: int| 0 <= k < history.decision_levels@.len() implies
                (#[trigger] history.decision_levels@[k]).below(self.n_vars()) && history.decision_levels@[k].reasons_below(self.clauses@.len()) by {
                let o = hb.decision_levels@[k];
                let f = history.decision_levels@[k];
                assert(o.below(self.n_vars()));
                assert forall|i: int| 0 <= i < f.implied_literals@.len() implies (#[trigger] f.implied_literals@[i]).0.var() < self.n_vars()
                    && (f.implied_literals@[i].1 matches Some(x) ==> x < self.clauses@.len()) by {
                    assert(f.implied_literals@[i] == (o.implied_literals@[i].0, remap_reason(o.implied_literals@[i].1, old_to_new@)));
                }
                assert forall|i: int| 0 <= i < f.reason_by_unsigned@.len() implies
                    (#[trigger] f.reason_by_unsigned@[i] matches Some(x) ==> x < self.clauses@.len()) by {
                    assert(f.reason_by_unsigned@[i] == remap_reason(o.reason_by_unsigned@[i], old_to_new@));
                }
            }
        }
    }
}

/// A sequence whose entries are distinct holds each value at most once.
proof fn lemma_distinct_count_le_one(s: Seq<usize>, x: usize)
    requires
        forall|a: int, b: int| 0 <= a < b < s.len() ==> s[a] != s[b],
    ensures
        s.to_multiset().count(x) <= 1,
    decreases s.len(),
{
    broadcast use vstd::seq_lib::group_to_multiset_ensures, vstd::multiset::group_multiset_axioms;
    if s.len() > 0 {
        let t = s.drop_last();
        assert(s =~= t.push(s.last()));
        vstd::seq_lib::to_multiset_build(t, s.last());
        lemma_distinct_count_le_one(t, x);
        if s.last() == x {
            vstd::seq_lib::to_multiset_contains(t, x);
            if t.contains(x) {
                let k = choose|k: int| 0 <= k < t.len() && t[k] == x;
                assert(s[k] == s[s.len() - 1]);
            }
        }
    }
}

} // verus!
