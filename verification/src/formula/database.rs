use vstd::prelude::*;
use std::io::Write;
use crate::drat::{DratLogger, drat_line};
use crate::formula::{Formula, sorted_usize, watches, occurs, count_in, lemma_count_in_above};
use crate::formula::propagation::{watch_count, single_watch_ok};
use crate::two_watched::Watched;
use crate::formula::assignment::AssignResult;
use crate::formula::clause::{Clause, clause_sat, clause_falsified};
use crate::formula::literal::Literal;
use crate::history::{History, levels_reasons};
use crate::stats::Stats;

verus! {

/// Whether index `i` is listed in `d`.
pub open spec fn listed(d: Seq<usize>, i: int) -> bool {
    exists|k: int| 0 <= k < d.len() && #[trigger] d[k] as int == i
}

/// The DRAT deletion lines of the clauses among the first `m` of `cs` that are listed in `d`, in
/// index order.
pub open spec fn deletion_text(cs: Seq<Clause>, d: Seq<usize>, m: int) -> Seq<u8>
    decreases m,
{
    if m <= 0 {
        Seq::empty()
    } else {
        deletion_text(cs, d, m - 1) + if listed(d, m - 1) { drat_line(cs[m - 1]@, true) } else { Seq::empty() }
    }
}

/// The DRAT addition lines of the clauses `from..to` of `cs`, in index order.
pub open spec fn addition_text(cs: Seq<Clause>, from: int, to: int) -> Seq<u8>
    decreases to - from,
{
    if to <= from {
        Seq::empty()
    } else {
        addition_text(cs, from, to - 1) + drat_line(cs[to - 1]@, false)
    }
}

/// Only the literals of the clauses in the range matter.
pub proof fn lemma_addition_text_same(cs: Seq<Clause>, ds: Seq<Clause>, from: int, to: int)
    requires
        forall|i: int| from <= i < to ==> (#[trigger] cs[i])@ == ds[i]@,
    ensures
        addition_text(cs, from, to) == addition_text(ds, from, to),
    decreases to - from,
{
    if to > from {
        lemma_addition_text_same(cs, ds, from, to - 1);
        assert(cs[to - 1]@ == ds[to - 1]@);
    }
}

/// Appending a clause appends its addition line.
pub proof fn lemma_addition_text_push(cs: Seq<Clause>, c: Clause, from: int)
    requires
        0 <= from <= cs.len(),
    ensures
        addition_text(cs.push(c), from, (cs.len() + 1) as int) == addition_text(cs, from, cs.len() as int) + drat_line(c@, false),
{
    assert forall|i: int| from <= i < cs.len() implies (#[trigger] cs.push(c)[i])@ == cs[i]@ by {}
    lemma_addition_text_same(cs.push(c), cs, from, cs.len() as int);
    assert(cs.push(c)[cs.len() as int] == c);
}

/// The empty range has no lines.
pub proof fn lemma_addition_text_empty(cs: Seq<Clause>, from: int)
    ensures
        addition_text(cs, from, from) == Seq::<u8>::empty(),
{
}

/// Nothing is logged when no index is listed.
proof fn lemma_deletion_text_none(cs: Seq<Clause>, d: Seq<usize>, m: int)
    requires
        d.len() == 0,
    ensures
        deletion_text(cs, d, m) == Seq::<u8>::empty(),
    decreases m,
{
    if m > 0 {
        lemma_deletion_text_none(cs, d, m - 1);
        assert(!listed(d, m - 1));
        assert(deletion_text(cs, d, m - 1) + Seq::<u8>::empty() =~= Seq::<u8>::empty());
    }
}

/// With a single listed index, the deletion text holds that clause's line once it is passed.
proof fn lemma_deletion_text_single(cs: Seq<Clause>, d: Seq<usize>, x: int, m: int)
    requires
        d.len() == 1,
        d[0] as int == x,
    ensures
        deletion_text(cs, d, m) == if m > x { drat_line(cs[x]@, true) } else { Seq::<u8>::empty() },
    decreases m,
{
    if m > 0 {
        lemma_deletion_text_single(cs, d, x, m - 1);
        if m - 1 == x {
            assert(listed(d, x)) by { assert(d[0] as int == x); }
            assert(Seq::<u8>::empty() + drat_line(cs[x]@, true) =~= drat_line(cs[x]@, true));
        } else {
            assert(!listed(d, m - 1));
            assert(deletion_text(cs, d, m - 1) + Seq::<u8>::empty() =~= deletion_text(cs, d, m - 1));
        }
    }
}

/// Number of indices `j < m` that are not listed in `deleted`.
pub open spec fn kept_count(deleted: Seq<usize>, m: int) -> nat
    decreases m,
{
    if m <= 0 {
        0
    } else {
        kept_count(deleted, m - 1) + if listed(deleted, m - 1) { 0nat } else { 1nat }
    }
}

/// `x - k`, floored at 0.
pub open spec fn sat_sub_usize(x: usize, k: nat) -> usize {
    if x >= k { (x - k) as usize } else { 0 }
}

/// The clause is the same as `d` except for its lock count.
pub open spec fn same_but_lock(c: Clause, d: Clause) -> bool {
    c@ == d@ && c.watched == d.watched && c.lbd == d.lbd && c.bva_generated == d.bva_generated
}

/// The clause is the same as `d` in every field.
pub open spec fn same_clause(c: Clause, d: Clause) -> bool {
    same_but_lock(c, d) && c.lock_count == d.lock_count
}

impl Formula {
    pub fn get_clauses(&self) -> (r: &Vec<Clause>)
        ensures
            r == &self.clauses,
    {
        &self.clauses
    }

    /// The clause at `index`, which must exist.
    pub fn get_clause_at_idx(&self, index: usize) -> (r: &Clause)
        requires
            index < self.clauses@.len(),
        ensures
            *r == self.clauses@[index as int],
    {
        &self.clauses[index]
    }

    /// Mutable access to the clause at `index`, which must exist.
    pub fn get_clause_at_idx_mut(&mut self, index: usize) -> (r: &mut Clause)
        requires
            index < old(self).clauses@.len(),
        ensures
            *r == old(self).clauses@[index as int],
            final(self).clauses@ == old(self).clauses@.update(index as int, *final(r)),
            final(self).assignment == old(self).assignment,
            final(self).watch == old(self).watch,
            final(self).occurrence == old(self).occurrence,
            final(self).stats == old(self).stats,
            final(self).self_subsuming == old(self).self_subsuming,
    {
        &mut self.clauses[index]
    }

    pub fn get_stats(&self) -> (r: Stats)
        ensures
            r == self.stats,
    {
        self.stats
    }

    pub fn self_subsuming_enabled(&self) -> (r: bool)
        ensures
            r == self.self_subsuming,
    {
        self.self_subsuming
    }

    /// Appends `clause_idx` to the occurrence list of `lit`, growing the lists if needed.
    pub fn add_to_occurrence(&mut self, clause_idx: usize, lit: &Literal)
        requires
            lit.wf(),
        ensures
            final(self).occ().len() == if lit.uidx() < old(self).occ().len() { old(self).occ().len() } else { lit.uidx() + 1 },
            final(self).occ()[lit.uidx() as int] == (if lit.uidx() < old(self).occ().len() {
                old(self).occ()[lit.uidx() as int] } else { Seq::empty() }).push(clause_idx),
            forall|u: int| 0 <= u < final(self).occ().len() && u != lit.uidx() ==> #[trigger] final(self).occ()[u]
                == if u < old(self).occ().len() { old(self).occ()[u] } else { Seq::empty() },
            final(self).clauses == old(self).clauses,
            final(self).assignment == old(self).assignment,
            final(self).watch == old(self).watch,
            final(self).stats == old(self).stats,
            final(self).extensions == old(self).extensions,
            final(self).self_subsuming == old(self).self_subsuming,
    {
        let idx = lit.get_unsigned_index() as usize;
        while self.occurrence.len() <= idx
            invariant
                idx == lit.uidx(),
                self.occ().len() >= old(self).occ().len(),
                self.occ().len() == old(self).occ().len() || self.occ().len() <= idx + 1,
                forall|u: int| 0 <= u < self.occ().len() ==> #[trigger] self.occ()[u]
                    == if u < old(self).occ().len() { old(self).occ()[u] } else { Seq::empty() },
                self.clauses == old(self).clauses,
                self.assignment == old(self).assignment,
                self.watch == old(self).watch,
                self.stats == old(self).stats,
                self.extensions == old(self).extensions,
                self.self_subsuming == old(self).self_subsuming,
            decreases idx + 1 - self.occ().len(),
        {
            let ghost b0 = self.occ();
            self.occurrence.push(Vec::new());
            assert(self.occ() =~= b0.push(Seq::empty()));
        }
        let ghost before = self.occ();
        let mut list: Vec<usize> = Vec::new();
        std::mem::swap(&mut list, &mut self.occurrence[idx]);
        list.push(clause_idx);
        self.occurrence.set(idx, list);
        assert(self.occ() =~= before.update(idx as int, before[idx as int].push(clause_idx)));
    }

    /// The clauses listed for `lit` (empty when it has no list).
    pub fn occurrence_of(&self, lit: &Literal) -> (r: &[usize])
        requires
            lit.wf(),
        ensures
            r@ == if lit.uidx() < self.occ().len() { self.occ()[lit.uidx() as int] } else { Seq::empty() },
    {
        let idx = lit.get_unsigned_index() as usize;
        if idx < self.occurrence.len() {
            self.occurrence[idx].as_slice()
        } else {
            &[]
        }
    }

    /// The listed clauses of `lit` that exist, in list order.
    pub fn occurrence_indices(&self, lit: &Literal) -> (r: Vec<usize>)
        requires
            self.wf(),
            lit.wf(),
        ensures
            r@ == if lit.uidx() < self.occ().len() { self.occ()[lit.uidx() as int] } else { Seq::empty() },
    {
        let occ = self.occurrence_of(lit);
        let mut out: Vec<usize> = Vec::new();
        for i in 0..occ.len()
            invariant
                self.wf(),
                occ@ == if lit.uidx() < self.occ().len() { self.occ()[lit.uidx() as int] } else { Seq::empty() },
                out@ == occ@.subrange(0, i as int),
        {
            if occ[i] < self.clauses.len() {
                out.push(occ[i]);
            }
            assert(out@ =~= occ@.subrange(0, i + 1));
        }
        assert(out@ =~= occ@);
        out
    }

    /// The occurrence list of the literal of `clause` with the fewest (but some) listed
    /// clauses, the earliest such literal on ties; empty when no literal has a list entry.
    pub fn candidate_indices_for_clause(&self, clause: &Clause) -> (r: Vec<usize>)
        requires
            self.wf(),
            clause.wf(),
        ensures
            r@.len() == 0 ==> forall|i: int| 0 <= i < clause@.len() ==>
                !((#[trigger] clause@[i]).uidx() < self.occ().len() && self.occ()[clause@[i].uidx() as int].len() > 0),
            r@.len() > 0 ==> exists|i: int| 0 <= i < clause@.len() && (#[trigger] clause@[i]).uidx() < self.occ().len()
                && r@ == self.occ()[clause@[i].uidx() as int]
                && forall|j: int| 0 <= j < clause@.len() && clause@[j].uidx() < self.occ().len()
                    && self.occ()[clause@[j].uidx() as int].len() > 0 ==> r@.len() <= #[trigger] self.occ()[clause@[j].uidx() as int].len(),
    {
        let mut best: Option<usize> = None;
        let mut best_len: usize = 0;
        for i in 0..clause.literals.len()
            invariant
                clause.wf(),
                best is None ==> forall|j: int| 0 <= j < i ==>
                    !((#[trigger] clause@[j]).uidx() < self.occ().len() && self.occ()[clause@[j].uidx() as int].len() > 0),
                best matches Some(b) ==> b < i && clause@[b as int].uidx() < self.occ().len()
                    && best_len == self.occ()[clause@[b as int].uidx() as int].len() && best_len > 0
                    && forall|j: int| 0 <= j < i && clause@[j].uidx() < self.occ().len()
                        && self.occ()[clause@[j].uidx() as int].len() > 0 ==> best_len <= #[trigger] self.occ()[clause@[j].uidx() as int].len(),
        {
            let occ = self.occurrence_of(&clause.literals[i]);
            let l = occ.len();
            if l > 0 {
                match best {
                    None => {
                        best = Some(i);
                        best_len = l;
                    },
                    Some(_) => {
                        if l < best_len {
                            best = Some(i);
                            best_len = l;
                        }
                    },
                }
            }
        }
        match best {
            None => Vec::new(),
            Some(b) => {
                let occ = self.occurrence_of(&clause.literals[b]);
                let mut out: Vec<usize> = Vec::new();
                for i in 0..occ.len()
                    invariant
                        out@ == occ@.subrange(0, i as int),
                {
                    out.push(occ[i]);
                    assert(out@ =~= occ@.subrange(0, i + 1));
                }
                assert(out@ =~= occ@);
                out
            },
        }
    }

    /// The clauses listed for both `watch_a` and `watch_b` (all of `watch_a`'s when there is
    /// no `watch_b`), computed by merging the two sorted lists.
    pub fn occurrence_intersection(&self, watch_a: &Literal, watch_b: Option<&Literal>) -> (r: Vec<usize>)
        requires
            self.wf(),
            watch_a.wf(),
            watch_b matches Some(b) ==> b.wf(),
        ensures
            ({
                let la = if watch_a.uidx() < self.occ().len() { self.occ()[watch_a.uidx() as int] } else { Seq::empty() };
                match watch_b {
                    None => r@ == la,
                    Some(b) => {
                        let lb = if b.uidx() < self.occ().len() { self.occ()[b.uidx() as int] } else { Seq::empty() };
                        &&& sorted_usize(r@)
                        &&& forall|x: usize| #[trigger] r@.contains(x) <==> (la.contains(x) && lb.contains(x))
                    }
                }
            }),
    {
        match watch_b {
            None => {
                let a = self.occurrence_of(watch_a);
                let mut out: Vec<usize> = Vec::new();
                for i in 0..a.len()
                    invariant
                        out@ == a@.subrange(0, i as int),
                {
                    out.push(a[i]);
                    assert(out@ =~= a@.subrange(0, i + 1));
                }
                assert(out@ =~= a@);
                out
            },
            Some(wb) => {
                let a0 = self.occurrence_of(watch_a);
                let b0 = self.occurrence_of(wb);
                proof {
                    if watch_a.uidx() < self.occ().len() { assert(sorted_usize(self.occ()[watch_a.uidx() as int])); }
                    if wb.uidx() < self.occ().len() { assert(sorted_usize(self.occ()[wb.uidx() as int])); }
                }
                let (a, b) = if a0.len() > b0.len() { (b0, a0) } else { (a0, b0) };
                let mut out: Vec<usize> = Vec::new();
                let mut b_pos: usize = 0;
                for i in 0..a.len()
                    invariant
                        sorted_usize(a@),
                        sorted_usize(b@),
                        b_pos <= b@.len(),
                        forall|k: int, j: int| 0 <= k < b_pos && i <= j < a@.len() ==> #[trigger] b@[k] < #[trigger] a@[j],
                        sorted_usize(out@),
                        forall|x: usize| #[trigger] out@.contains(x) <==> (a@.subrange(0, i as int).contains(x) && b@.contains(x)),
                        out@.len() > 0 ==> i > 0 && out@.last() <= a@[i - 1],
                {
                    let idx = a[i];
                    while b_pos < b.len() && b[b_pos] < idx
                        invariant
                            sorted_usize(a@),
                            sorted_usize(b@),
                            i < a@.len(),
                            idx == a@[i as int],
                            b_pos <= b@.len(),
                            forall|k: int| 0 <= k < b_pos ==> b@[k] < idx,
                        decreases b@.len() - b_pos,
                    {
                        b_pos = b_pos + 1;
                    }
                    let ghost found = b_pos < b@.len() && b@[b_pos as int] == idx;
                    proof {
                        if b@.contains(idx) {
                            let k = choose|k: int| 0 <= k < b@.len() && b@[k] == idx;
                            assert(k >= b_pos);
                            assert(b@[b_pos as int] <= b@[k]);
                        }
                    }
                    let ghost out0 = out@;
                    if b_pos < b.len() && b[b_pos] == idx {
                        out.push(idx);
                    }
                    proof {
                        let pa = a@.subrange(0, i as int);
                        let pa1 = a@.subrange(0, i + 1);
                        assert(pa1 =~= pa.push(idx));
                        assert forall|x: usize| #[trigger] out@.contains(x) <==> (pa1.contains(x) && b@.contains(x)) by {
                            assert(pa1.contains(x) <==> (pa.contains(x) || x == idx)) by {
                                if pa1.contains(x) {
                                    let kk = choose|kk: int| 0 <= kk < pa1.len() && pa1[kk] == x;
                                    if kk < pa.len() { assert(pa[kk] == x); }
                                }
                                if pa.contains(x) {
                                    let kk = choose|kk: int| 0 <= kk < pa.len() && pa[kk] == x;
                                    assert(pa1[kk] == x);
                                }
                                if x == idx { assert(pa1[i as int] == x); }
                            }
                            if found {
                                assert(out@ == out0.push(idx));
                                assert(out@.contains(x) <==> (out0.contains(x) || x == idx)) by {
                                    if out@.contains(x) {
                                        let kk = choose|kk: int| 0 <= kk < out@.len() && out@[kk] == x;
                                        if kk < out0.len() { assert(out0[kk] == x); }
                                    }
                                    if out0.contains(x) {
                                        let kk = choose|kk: int| 0 <= kk < out0.len() && out0[kk] == x;
                                        assert(out@[kk] == x);
                                    }
                                    if x == idx { assert(out@[out0.len() as int] == x); }
                                }
                                assert(b@[b_pos as int] == idx);
                            } else {
                                assert(out@ == out0);
                                assert(!b@.contains(idx));
                            }
                        }
                        assert forall|k: int, j: int| 0 <= k < b_pos && i + 1 <= j < a@.len() implies #[trigger] b@[k] < #[trigger] a@[j] by {
                            assert(a@[i as int] <= a@[j]);
                        }
                    }
                }
                assert(a@.subrange(0, a@.len() as int) =~= a@);
                out
            },
        }
    }

    /// Appends `clause` as a new clause (logging it as added) and indexes it; returns its index.
    pub fn add_clause_unchecked<W: Write>(&mut self, clause: Clause, logger: &mut Option<DratLogger<W>>) -> (r: usize)
        requires
            old(self).wf(),
            old(self).clause_fits(clause),
            old(self).clauses@.len() < usize::MAX,
        ensures
            final(self).wf(),
            r == old(self).clauses@.len(),
            final(self).clauses@ == old(self).clauses@.push(clause),
            final(self).assignment == old(self).assignment,
            final(self).stats == old(self).stats,
            final(self).extensions == old(self).extensions,
            final(self).self_subsuming == old(self).self_subsuming,
            old(self).watches_exact() ==> final(self).watches_exact(),
            old(self).occurrences_exact() ==> final(self).occurrences_exact(),
            old(self).watch_lists_sound() ==> final(self).watch_lists_sound(),
            *old(logger) matches Some(l) ==> (*final(logger) matches Some(l2)
                && l2.logged() == l.logged() + drat_line(clause@, false)),
            *old(logger) is None ==> *final(logger) is None,
    {
        let clause_idx = self.clauses.len();
        match logger {
            Some(log) => {
                let _ = log.log_add(clause.literals.as_slice());
            },
            None => {},
        }
        let ghost before = *self;
        self.clauses.push(clause);
        proof {
            assert forall|c: int| 0 <= c < self.clauses@.len() implies self.clause_fits(#[trigger] self.clauses@[c]) by {
                if c < clause_idx { assert(self.clauses@[c] == before.clauses@[c]); }
            }
        }
        let ghost pre_index = *self;
        self.index_clause(clause_idx);
        proof {
            assert forall|u: int, k: int| 0 <= u < self.watch@.len() && 0 <= k < self.watch@[u].len()
                implies #[trigger] self.watch@[u][k] < self.clauses@.len() by {}
            if before.watch_lists_sound() {
                assert forall|u: int, c: int| #![trigger count_in(self.watch@[u], c)]
                    0 <= u < self.watch@.len() && 0 <= c < self.clauses@.len() implies
                    count_in(self.watch@[u], c) <= watch_count(self.clauses@[c], u as nat) by {
                    if c == clause_idx {
                        lemma_count_in_above(pre_index.watch@[u], c);
                    } else {
                        assert(self.clauses@[c] == before.clauses@[c]);
                        assert(count_in(before.watch@[u], c) <= watch_count(before.clauses@[c], u as nat));
                    }
                }
                assert forall|c: int| 0 <= c < self.clauses@.len() implies single_watch_ok(#[trigger] self.clauses@[c]) by {
                    assert(self.clause_fits(self.clauses@[c]));
                }
            }
            if before.watches_exact() {
                assert forall|u: int, c: usize| 0 <= u < self.watch@.len() implies
                    (#[trigger] self.watch@[u].contains(c) <==> (c < self.clauses@.len() && watches(self.clauses@[c as int], u as nat))) by {
                    if c < clause_idx {
                        assert(self.clauses@[c as int] == before.clauses@[c as int]);
                    }
                }
            }
            if before.occurrences_exact() {
                assert forall|u: int, c: usize| 0 <= u < self.occ().len() implies
                    (#[trigger] self.occ()[u].contains(c) <==> (c < self.clauses@.len() && occurs(self.clauses@[c as int], u as nat))) by {
                    if c < clause_idx {
                        assert(self.clauses@[c as int] == before.clauses@[c as int]);
                    }
                }
            }
        }
        clause_idx
    }

    /// Deletes the clause at `clause_index` (see `delete_clauses`).
    pub fn delete_clause<W: Write>(&mut self, clause_index: usize, logger: &mut Option<DratLogger<W>>)
        requires
            old(self).wf(),
            clause_index < old(self).clauses@.len(),
            old(self).clauses@[clause_index as int].lock_count == 0,
        ensures
            final(self).wf(),
            final(self).watches_exact(),
            final(self).occurrences_exact(),
            final(self).clauses@.len() == old(self).clauses@.len() - 1,
            forall|i: int| 0 <= i < final(self).clauses@.len() ==> same_clause(#[trigger] final(self).clauses@[i],
                old(self).clauses@[if i < clause_index { i } else { i + 1 }]),
            final(self).assignment == old(self).assignment,
            final(self).stats == old(self).stats,
            final(self).extensions == old(self).extensions,
            final(self).self_subsuming == old(self).self_subsuming,
            *old(logger) matches Some(l) ==> (*final(logger) matches Some(l2)
                && l2.logged() == l.logged() + drat_line(old(self).clauses@[clause_index as int]@, true)),
            *old(logger) is None ==> *final(logger) is None,
    {
        let indices = [clause_index];
        let old_to_new = self.delete_clauses(&indices, logger);
        proof {
            let d = indices@;
            lemma_deletion_text_single(old(self).clauses@, d, clause_index as int, old(self).clauses@.len() as int);
            assert(d.len() == 1 && d[0] == clause_index);
            assert forall|k: int| 0 <= k < d.len() implies d[k] == clause_index by {}
            assert(listed(d, clause_index as int)) by { assert(d[0] as int == clause_index); }
            assert forall|m: int| 0 <= m <= clause_index implies kept_count(d, m) == m by {
                lemma_kept_count_prefix(d, clause_index, m);
            }
            assert forall|m: int| clause_index < m <= old(self).clauses@.len() implies kept_count(d, m) == m - 1 by {
                lemma_kept_count_after(d, clause_index, m);
            }
            assert forall|i: int| 0 <= i < final(self).clauses@.len() implies same_clause(#[trigger] final(self).clauses@[i],
                old(self).clauses@[if i < clause_index { i } else { i + 1 }]) by {
                let o = if i < clause_index { i } else { i + 1 };
                assert(o != clause_index);
                assert(!listed(d, o));
                assert(kept_count(d, o) == i);
            }
        }
    }

    /// Deletes the clauses listed in `clause_indices` (duplicates allowed; none may be locked).
    /// Each deleted clause is logged, in increasing index order. Returns, for every old index,
    /// the new index of the clause (`None` when deleted). The watch and occurrence lists are
    /// rebuilt unless nothing is deleted.
    pub fn delete_clauses<W: Write>(&mut self, clause_indices: &[usize], logger: &mut Option<DratLogger<W>>) -> (r: Vec<Option<usize>>)
        requires
            old(self).wf(),
            forall|k: int| 0 <= k < clause_indices@.len() ==> #[trigger] clause_indices@[k] < old(self).clauses@.len()
                && old(self).clauses@[clause_indices@[k] as int].lock_count == 0,
        ensures
            final(self).wf(),
            (clause_indices@.len() > 0 || (old(self).watches_exact() && old(self).occurrences_exact()))
                ==> final(self).watches_exact() && final(self).occurrences_exact(),
            r@.len() == old(self).clauses@.len(),
            forall|i: int| 0 <= i < old(self).clauses@.len() ==> #[trigger] r@[i] == if listed(clause_indices@, i) {
                None } else { Some(kept_count(clause_indices@, i) as usize) },
            final(self).clauses@.len() == kept_count(clause_indices@, old(self).clauses@.len() as int),
            forall|i: int| 0 <= i < old(self).clauses@.len() && !listed(clause_indices@, i) ==>
                same_clause(final(self).clauses@[kept_count(clause_indices@, i) as int], #[trigger] old(self).clauses@[i]),
            final(self).assignment == old(self).assignment,
            final(self).stats == old(self).stats,
            final(self).extensions == old(self).extensions,
            final(self).self_subsuming == old(self).self_subsuming,
            *old(logger) matches Some(l) ==> (*final(logger) matches Some(l2)
                && l2.logged() == l.logged() + deletion_text(old(self).clauses@, clause_indices@, old(self).clauses@.len() as int)),
            *old(logger) is None ==> *final(logger) is None,
            clause_indices@.len() == 0 ==> *final(self) == *old(self) && *final(logger) == *old(logger),
            (clause_indices@.len() > 0 || old(self).watch_lists_sound()) ==> final(self).watch_lists_sound(),
    {
        let n = self.clauses.len();
        let ghost d = clause_indices@;
        if clause_indices.len() == 0 {
            proof {
                lemma_deletion_text_none(self.clauses@, d, n as int);
                assert(forall|x: Seq<u8>| x + Seq::<u8>::empty() =~= x);
            }
            let mut old_to_new: Vec<Option<usize>> = Vec::new();
            for idx in 0..n
                invariant
                    n == old(self).clauses@.len(),
                    d.len() == 0,
                    old_to_new@.len() == idx,
                    forall|i: int| 0 <= i < idx ==> #[trigger] old_to_new@[i] == Some(kept_count(d, i) as usize),
            {
                proof { lemma_kept_count_none(d, idx as int); }
                old_to_new.push(Some(idx));
            }
            proof {
                lemma_kept_count_none(d, n as int);
                assert forall|i: int| 0 <= i < n implies same_clause(self.clauses@[kept_count(d, i) as int], #[trigger] old(self).clauses@[i]) by {
                    lemma_kept_count_none(d, i);
                }
            }
            return old_to_new;
        }
        let mut deleted: Vec<bool> = Vec::new();
        for _i in 0..n
            invariant
                deleted@.len() == _i,
                forall|j: int| 0 <= j < _i ==> !(#[trigger] deleted@[j]),
        {
            deleted.push(false);
        }
        for k in 0..clause_indices.len()
            invariant
                n == old(self).clauses@.len(),
                d == clause_indices@,
                forall|k: int| 0 <= k < d.len() ==> #[trigger] d[k] < n,
                deleted@.len() == n,
                forall|j: int| 0 <= j < n ==> (#[trigger] deleted@[j] <==> d.subrange(0, k as int).contains(j as usize)),
        {
            let idx = clause_indices[k];
            deleted.set(idx, true);
            proof {
                let sub0 = d.subrange(0, k as int);
                let sub1 = d.subrange(0, k + 1);
                assert(sub1 =~= sub0.push(idx));
                assert forall|j: int| 0 <= j < n implies (#[trigger] deleted@[j] <==> sub1.contains(j as usize)) by {
                    if sub1.contains(j as usize) && j != idx {
                        let kk = choose|kk: int| 0 <= kk < sub1.len() && #[trigger] sub1[kk] == j as usize;
                        assert(sub0[kk] == j as usize);
                    }
                    if sub0.contains(j as usize) {
                        let kk = choose|kk: int| 0 <= kk < sub0.len() && #[trigger] sub0[kk] == j as usize;
                        assert(sub1[kk] == j as usize);
                    }
                    if j == idx { assert(sub1[k as int] == j as usize); }
                }
            }
        }
        assert(d.subrange(0, d.len() as int) =~= d);
        match logger {
            Some(log) => {
                let ghost h0 = log.logged();
                for idx in 0..n
                    invariant
                        n == self.clauses@.len(),
                        *self == *old(self),
                        deleted@.len() == n,
                        forall|j: int| 0 <= j < n ==> (#[trigger] deleted@[j] <==> listed(d, j)),
                        self.wf(),
                        log.logged() == h0 + deletion_text(self.clauses@, d, idx as int),
                {
                    proof {
                        assert(deletion_text(self.clauses@, d, idx + 1) == deletion_text(self.clauses@, d, idx as int)
                            + if listed(d, idx as int) { drat_line(self.clauses@[idx as int]@, true) } else { Seq::empty() });
                    }
                    if deleted[idx] {
                        proof { assert(self.clause_fits(self.clauses@[idx as int])); }
                        let _ = log.log_delete(self.clauses[idx].literals.as_slice());
                        proof {
                            assert(h0 + deletion_text(self.clauses@, d, idx + 1) =~= h0 + deletion_text(self.clauses@, d, idx as int)
                                + drat_line(self.clauses@[idx as int]@, true));
                        }
                    } else {
                        proof {
                            assert(deletion_text(self.clauses@, d, idx + 1) =~= deletion_text(self.clauses@, d, idx as int));
                        }
                    }
                }
            },
            None => {},
        }
        let mut old_to_new: Vec<Option<usize>> = Vec::new();
        let mut kept: Vec<Clause> = Vec::new();
        for idx in 0..n
            invariant
                n == old(self).clauses@.len(),
                *self == *old(self),
                old(self).wf(),
                deleted@.len() == n,
                forall|j: int| 0 <= j < n ==> (#[trigger] deleted@[j] <==> listed(d, j)),
                old_to_new@.len() == idx,
                kept@.len() == kept_count(d, idx as int),
                forall|i: int| 0 <= i < idx ==> #[trigger] old_to_new@[i] == if listed(d, i) {
                    None } else { Some(kept_count(d, i) as usize) },
                forall|i: int| 0 <= i < idx && !listed(d, i) ==>
                    same_clause(kept@[kept_count(d, i) as int], #[trigger] old(self).clauses@[i]),
                forall|i: int| 0 <= i < kept@.len() ==> old(self).clause_fits(#[trigger] kept@[i]),
        {
            proof {
                assert forall|i: int| 0 <= i < idx && !listed(d, i) implies kept_count(d, i) < kept_count(d, idx as int) by {
                    lemma_kept_count_mono(d, i + 1, idx as int);
                }
            }
            if !deleted[idx] {
                old_to_new.push(Some(kept.len()));
                let c = self.clauses[idx].clone();
                kept.push(c);
                assert(same_clause(kept@[kept@.len() - 1], old(self).clauses@[idx as int]));
                assert(old(self).clause_fits(old(self).clauses@[idx as int]));
            } else {
                old_to_new.push(None);
            }
        }
        self.clauses = kept;
        proof {
            assert forall|c: int| 0 <= c < self.clauses@.len() implies self.clause_fits(#[trigger] self.clauses@[c]) by {
                assert(old(self).clause_fits(self.clauses@[c]));
            }
        }
        self.rebuild_clause_indices();
        proof {
            assert forall|c: int| 0 <= c < self.clauses@.len() implies single_watch_ok(#[trigger] self.clauses@[c]) by {
                assert(self.clause_fits(self.clauses@[c]));
            }
        }
        old_to_new
    }

    /// Adds a fresh variable (with empty watch and occurrence lists) and returns its
    /// positive literal.
    pub fn add_literal(&mut self) -> (r: Literal)
        requires
            old(self).wf(),
            old(self).n_vars() < i32::MAX,
        ensures
            final(self).wf(),
            r@ == old(self).n_vars(),
            r.wf(),
            final(self).n_vars() == old(self).n_vars() + 1,
            final(self).assignment@ == old(self).assignment@.push(None),
            final(self).clauses == old(self).clauses,
            final(self).stats == old(self).stats,
            final(self).extensions == old(self).extensions,
            final(self).self_subsuming == old(self).self_subsuming,
            old(self).watches_exact() ==> final(self).watches_exact(),
            old(self).occurrences_exact() ==> final(self).occurrences_exact(),
            old(self).watch_lists_sound() ==> final(self).watch_lists_sound(),
    {
        let index = self.assignment.add_variable();
        self.watch.add_literal();
        let ghost before = self.occ();
        self.occurrence.push(Vec::new());
        self.occurrence.push(Vec::new());
        proof {
            if old(self).watch_lists_sound() {
                assert forall|u: int, c: int| #![trigger count_in(self.watch@[u], c)]
                    0 <= u < self.watch@.len() && 0 <= c < self.clauses@.len() implies
                    count_in(self.watch@[u], c) <= watch_count(self.clauses@[c], u as nat) by {
                    if u >= old(self).watch@.len() {
                        assert(self.watch@[u].len() == 0);
                        assert(self.watch@[u] =~= Seq::<usize>::empty());
                    } else {
                        assert(self.watch@[u] == old(self).watch@[u]);
                    }
                }
            }
            assert(self.occ() =~= before.push(Seq::empty()).push(Seq::empty()));
            assert forall|c: int| 0 <= c < self.clauses@.len() implies self.clause_fits(#[trigger] self.clauses@[c]) by {
                assert(old(self).clause_fits(old(self).clauses@[c]));
            }
            if old(self).watches_exact() {
                assert forall|u: int, c: usize| 0 <= u < self.watch@.len() implies
                    (#[trigger] self.watch@[u].contains(c) <==> (c < self.clauses@.len() && watches(self.clauses@[c as int], u as nat))) by {
                    if u >= old(self).watch@.len() {
                        assert(self.watch@[u].len() == 0);
                        if c < self.clauses@.len() && watches(self.clauses@[c as int], u as nat) {
                            let cl = self.clauses@[c as int];
                            assert(old(self).clause_fits(cl));
                            match cl.watched {
                                Watched::Unwatched => {},
                                Watched::One(i) => { assert(cl@[i as int].var() < old(self).n_vars()); },
                                Watched::Two(i, j) => {
                                    assert(cl@[i as int].var() < old(self).n_vars());
                                    assert(cl@[j as int].var() < old(self).n_vars());
                                },
                            }
                        }
                    }
                }
            }
            if old(self).occurrences_exact() {
                assert forall|u: int, c: usize| 0 <= u < self.occ().len() implies
                    (#[trigger] self.occ()[u].contains(c) <==> (c < self.clauses@.len() && occurs(self.clauses@[c as int], u as nat))) by {
                    if u >= old(self).occ().len() {
                        assert(self.occ()[u].len() == 0);
                        if c < self.clauses@.len() && occurs(self.clauses@[c as int], u as nat) {
                            let cl = self.clauses@[c as int];
                            let i = choose|i: int| 0 <= i < cl@.len() && (#[trigger] cl@[i]).uidx() == u;
                            assert(old(self).clause_fits(cl));
                            assert(cl@[i].var() < old(self).n_vars());
                        }
                    }
                }
            }
        }
        Literal::new(index as i32)
    }

}

pub proof fn lemma_kept_count_mono(d: Seq<usize>, i: int, j: int)
    requires
        i <= j,
    ensures
        kept_count(d, i) <= kept_count(d, j),
    decreases j - i,
{
    if i < j {
        lemma_kept_count_mono(d, i, j - 1);
    }
}

/// At most `m` of the first `m` indices are kept.
pub proof fn lemma_kept_count_le(d: Seq<usize>, m: int)
    requires
        m >= 0,
    ensures
        kept_count(d, m) <= m,
    decreases m,
{
    if m > 0 {
        lemma_kept_count_le(d, m - 1);
    }
}

/// A kept index keeps its place below the number of kept indices.
pub proof fn lemma_kept_index_below(d: Seq<usize>, i: int, n: int)
    requires
        0 <= i < n,
        !listed(d, i),
    ensures
        kept_count(d, i) < kept_count(d, n),
{
    assert(kept_count(d, i + 1) == kept_count(d, i) + 1);
    lemma_kept_count_mono(d, i + 1, n);
}

/// The new index of a clause, after the deletions `d` among `n` clauses, if it stays.
pub open spec fn renumbered(d: Seq<usize>, n: int, i: int) -> Option<usize> {
    if 0 <= i < n && !listed(d, i) { Some(kept_count(d, i) as usize) } else { None }
}

pub proof fn lemma_kept_count_none(d: Seq<usize>, m: int)
    requires
        d.len() == 0,
        m >= 0,
    ensures
        kept_count(d, m) == m,
    decreases m,
{
    if m > 0 {
        lemma_kept_count_none(d, m - 1);
    }
}

proof fn lemma_kept_count_prefix(d: Seq<usize>, x: usize, m: int)
    requires
        forall|k: int| 0 <= k < d.len() ==> d[k] == x,
        0 <= m <= x,
    ensures
        kept_count(d, m) == m,
    decreases m,
{
    if m > 0 {
        lemma_kept_count_prefix(d, x, m - 1);
        assert(!listed(d, m - 1));
    }
}

proof fn lemma_kept_count_after(d: Seq<usize>, x: usize, m: int)
    requires
        forall|k: int| 0 <= k < d.len() ==> d[k] == x,
        listed(d, x as int),
        x < m,
    ensures
        kept_count(d, m) == m - 1,
    decreases m,
{
    if m - 1 == x {
        lemma_kept_count_prefix(d, x, x as int);
    } else {
        lemma_kept_count_after(d, x, m - 1);
        assert(!listed(d, m - 1));
    }
}


impl Formula {
    /// Adds `clause` to the database. With self-subsumption enabled and a clause that is not an
    /// extension definition (`lbd != 0`): when an existing unlocked clause subsumes it, nothing is
    /// added and that clause's index is returned; otherwise the unlocked clauses it subsumes are
    /// deleted first (renumbering `history`'s reasons). Returns the index of the clause.
    pub fn add_clause<W: Write>(&mut self, clause: Clause, logger: &mut Option<DratLogger<W>>, history: Option<&mut History>) -> (r: usize)
        requires
            old(self).wf(),
            old(self).clause_fits(clause),
            old(self).clauses@.len() < usize::MAX,
            history matches Some(h) ==> old(self).tracks(h),
        ensures
            final(self).wf(),
            history matches Some(h) ==> final(self).tracks(final(h))
                && final(h).decision_levels@.len() == h.decision_levels@.len(),
            r < final(self).clauses@.len(),
            final(self).clauses@[r as int]@ == clause@ || (old(self).self_subsuming && clause.lbd != 0
                && final(self).clauses@ == old(self).clauses@
                && crate::process::subsumption::subset_lits(final(self).clauses@[r as int], clause)),
            !old(self).self_subsuming || clause.lbd == 0 ==> final(self).clauses@ == old(self).clauses@.push(clause)
                && r == old(self).clauses@.len(),
            final(self).clauses@.len() <= old(self).clauses@.len() + 1,
            final(self).assignment == old(self).assignment,
            final(self).extensions == old(self).extensions,
            final(self).self_subsuming == old(self).self_subsuming,
            old(self).watch_lists_sound() ==> final(self).watch_lists_sound(),
            old(self).watches_exact() ==> final(self).watches_exact(),
            old(self).occurrences_exact() ==> final(self).occurrences_exact(),
            *old(logger) is None ==> *final(logger) is None,
            *old(logger) matches Some(l) ==> *final(logger) matches Some(l2) && (
                (final(self).clauses@ == old(self).clauses@ && l2.logged() == l.logged())
                || exists|d: Seq<usize>| #![trigger deletion_text(old(self).clauses@, d, old(self).clauses@.len() as int)]
                    final(self).clauses@.len() == kept_count(d, old(self).clauses@.len() as int) + 1
                    && final(self).clauses@.last()@ == clause@
                    && l2.logged() == l.logged() + deletion_text(old(self).clauses@, d, old(self).clauses@.len() as int)
                        + drat_line(clause@, false)),
            (!old(self).self_subsuming || clause.lbd == 0) ==> (*old(logger) matches Some(l) ==>
                *final(logger) matches Some(l2) && l2.logged() == l.logged() + drat_line(clause@, false)),
    {
        let ghost mut dels: Seq<usize> = Seq::empty();
        if self.self_subsuming && clause.lbd != 0 {
            let result = crate::process::subsumption::check_new_clause(self, &clause);
            self.stats.add_subsumption_checks(result.subset_checks as u64);
            if let Some(existing_idx) = result.subsumed_by_existing {
                self.stats.add_subsumed_clauses(1);
                return existing_idx;
            }
            if result.subsumed_existing.len() > 0 {
                self.stats.add_subsumed_clauses(result.subsumed_existing.len() as u64);
                let ghost before = *self;
                let old_to_new = self.delete_clauses(result.subsumed_existing.as_slice(), logger);
                let ghost d = result.subsumed_existing@;
                proof {
                    dels = d;
                    lemma_kept_count_le(d, before.clauses@.len() as int);
                    assert forall|i: int| 0 <= i < old_to_new@.len() implies (#[trigger] old_to_new@[i] matches Some(x) ==> x < self.clauses@.len()) by {
                        if !listed(d, i) {
                            lemma_kept_index_below(d, i, before.clauses@.len() as int);
                        }
                    }
                }
                if let Some(h) = history {
                    let ghost hb = *h;
                    h.remap_clause_indices(old_to_new.as_slice());
                    proof {
                        assert forall|k: int| 0 <= k < h.decision_levels@.len() implies
                            (#[trigger] h.decision_levels@[k]).below(self.n_vars()) && h.decision_levels@[k].reasons_below(self.clauses@.len()) by {
                            let o = hb.decision_levels@[k];
                            let f = h.decision_levels@[k];
                            assert(o.below(self.n_vars()));
                            assert forall|i: int| 0 <= i < f.implied_literals@.len() implies (#[trigger] f.implied_literals@[i]).0.var() < self.n_vars()
                                && (f.implied_literals@[i].1 matches Some(x) ==> x < self.clauses@.len()) by {
                                assert(f.implied_literals@[i] == (o.implied_literals@[i].0, crate::history::decision_level::remap_reason(o.implied_literals@[i].1, old_to_new@)));
                            }
                            assert forall|i: int| 0 <= i < f.reason_by_unsigned@.len() implies
                                (#[trigger] f.reason_by_unsigned@[i] matches Some(x) ==> x < self.clauses@.len()) by {
                                assert(f.reason_by_unsigned@[i] == crate::history::decision_level::remap_reason(o.reason_by_unsigned@[i], old_to_new@));
                            }
                        }
                    }
                }
            }
        }
        let ghost before_add = *self;
        let ghost log_before = *logger;
        proof {
            assert(self.clause_fits(clause));
            assert(self.clauses@.len() < usize::MAX);
        }
        let r = self.add_clause_unchecked(clause, logger);
        proof {
            let n = old(self).clauses@.len() as int;
            if dels.len() == 0 {
                lemma_deletion_text_none(old(self).clauses@, dels, n);
                lemma_kept_count_none(dels, n);
                assert(before_add.clauses@ == old(self).clauses@);
                assert(log_before == *old(logger));
            }
            assert(before_add.clauses@.len() == kept_count(dels, n));
            if *old(logger) is Some {
                assert(log_before->0.logged() == (*old(logger))->0.logged() + deletion_text(old(self).clauses@, dels, n));
                assert((*logger)->0.logged() == (*old(logger))->0.logged() + deletion_text(old(self).clauses@, dels, n)
                    + drat_line(clause@, false));
            }
        }
        r
    }
}
} // verus!
