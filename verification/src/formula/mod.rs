pub mod assignment;
pub mod clause;
pub mod database;
pub mod extension;
pub mod literal;
pub mod propagation;
pub mod reduce;
pub mod search;
pub mod simplify;
pub mod variable;

use vstd::prelude::*;
use std::io::Write;
use crate::drat::DratLogger;
use crate::formula::assignment::{AssignResult, Assignment};
use crate::formula::clause::{Clause, lits_wf, lits_below, clause_sat, clause_falsified, watched_for_len_spec};
use crate::formula::extension::ExtensionMap;
use crate::formula::literal::{Literal, valid_lit_value};
use crate::history::History;
use crate::stats::Stats;
use crate::two_watched::{Watch, Watched};
use crate::formula::propagation::{watch_count, single_watch_ok};

verus! {

/// Entries are non-decreasing.
pub open spec fn sorted_usize(s: Seq<usize>) -> bool {
    forall|i: int, j: int| 0 <= i <= j < s.len() ==> s[i] <= s[j]
}

/// Whether clause `c` watches a literal with dense index `u`.
pub open spec fn watches(c: Clause, u: nat) -> bool {
    match c.watched {
        Watched::Unwatched => false,
        Watched::One(i) => c@[i as int].uidx() == u,
        Watched::Two(i, j) => c@[i as int].uidx() == u || c@[j as int].uidx() == u,
    }
}

/// Whether clause `c` holds a literal with dense index `u`.
pub open spec fn occurs(c: Clause, u: nat) -> bool {
    exists|i: int| 0 <= i < c@.len() && (#[trigger] c@[i]).uidx() == u
}

/// Number of occurrences of `x` in `s`.
pub open spec fn count_in(s: Seq<usize>, x: int) -> nat
    decreases s.len(),
{
    if s.len() == 0 {
        0
    } else {
        count_in(s.drop_last(), x) + if s.last() as int == x { 1nat } else { 0nat }
    }
}

/// Appending `y` adds one occurrence of `y`.
pub proof fn lemma_count_in_push(s: Seq<usize>, y: usize, x: int)
    ensures
        count_in(s.push(y), x) == count_in(s, x) + if y as int == x { 1nat } else { 0nat },
{
    assert(s.push(y).drop_last() =~= s);
}

/// A value above every entry does not occur.
pub proof fn lemma_count_in_above(s: Seq<usize>, x: int)
    requires
        forall|k: int| 0 <= k < s.len() ==> s[k] < x,
    ensures
        count_in(s, x) == 0,
    decreases s.len(),
{
    if s.len() > 0 {
        lemma_count_in_above(s.drop_last(), x);
    }
}

/// A lock count after one more lock when `add` holds (saturating).
pub open spec fn bump_lock(x: usize, add: bool) -> usize {
    if add && x < usize::MAX { (x + 1) as usize } else { x }
}

/// A CNF formula with its assignment, watch lists and occurrence lists.
///
/// Variables are `1..n` where `n` is the assignment length (variable 0 is unused).
pub struct Formula {
    pub clauses: Vec<Clause>,
    pub assignment: Assignment,
    pub watch: Watch,
    pub occurrence: Vec<Vec<usize>>,
    pub stats: Stats,
    pub extensions: ExtensionMap,
    pub self_subsuming: bool,
}

impl Formula {
    /// Number of variable slots (one more than the largest variable).
    pub open spec fn n_vars(&self) -> nat {
        self.assignment@.len()
    }

    pub open spec fn occ(&self) -> Seq<Seq<usize>> {
        Seq::new(self.occurrence@.len(), |i: int| self.occurrence@[i]@)
    }

    /// A clause that fits this formula: well formed, variables in range.
    pub open spec fn clause_fits(&self, c: Clause) -> bool {
        c.wf() && lits_below(c@, self.n_vars())
    }

    /// Structural invariant: the watch and occurrence lists only name existing clauses,
    /// occurrence lists are sorted and every clause fits.
    pub open spec fn wf(&self) -> bool {
        let n = self.n_vars();
        &&& self.assignment.wf()
        &&& 1 <= n <= i32::MAX
        &&& self.watch@.len() == 2 * n
        &&& self.occ().len() >= 2 * n
        &&& forall|c: int| 0 <= c < self.clauses@.len() ==> self.clause_fits(#[trigger] self.clauses@[c])
        &&& forall|u: int, k: int| 0 <= u < self.watch@.len() && 0 <= k < self.watch@[u].len()
            ==> #[trigger] self.watch@[u][k] < self.clauses@.len()
        &&& forall|u: int| 0 <= u < self.occ().len() ==> sorted_usize(#[trigger] self.occ()[u])
        &&& forall|u: int, k: int| 0 <= u < self.occ().len() && 0 <= k < self.occ()[u].len()
            ==> #[trigger] self.occ()[u][k] < self.clauses@.len()
        &&& self.extensions.wf()
    }

    /// The watch lists name exactly the clauses watching each literal.
    pub open spec fn watches_exact(&self) -> bool {
        forall|u: int, c: usize| 0 <= u < self.watch@.len() ==>
            (#[trigger] self.watch@[u].contains(c) <==> (c < self.clauses@.len() && watches(self.clauses@[c as int], u as nat)))
    }

    /// The occurrence lists name exactly the clauses holding each literal.
    pub open spec fn occurrences_exact(&self) -> bool {
        forall|u: int, c: usize| 0 <= u < self.occ().len() ==>
            (#[trigger] self.occ()[u].contains(c) <==> (c < self.clauses@.len() && occurs(self.clauses@[c as int], u as nat)))
    }

    /// An empty formula over variables `1..=size`.
    pub fn new(size: usize) -> (r: Self)
        requires
            size < i32::MAX,
        ensures
            r.wf(),
            r.watches_exact(),
            r.occurrences_exact(),
            r.watch_lists_sound(),
            r.clauses@.len() == 0,
            r.n_vars() == size + 1,
            r.assignment@ == Seq::new((size + 1) as nat, |i: int| None::<bool>),
            r.stats == Stats::zero(),
            r.extensions@ == Map::<(int, int), int>::empty(),
            !r.self_subsuming,
    {
        let storage = size + 1;
        let mut occurrence: Vec<Vec<usize>> = Vec::new();
        for _i in 0..storage * 2
            invariant
                occurrence@.len() == _i,
                forall|j: int| 0 <= j < occurrence@.len() ==> (#[trigger] occurrence@[j])@.len() == 0,
        {
            occurrence.push(Vec::new());
        }
        let r = Formula {
            clauses: vec![],
            assignment: Assignment::new(storage),
            watch: Watch::new(storage),
            occurrence,
            stats: Stats::new(),
            extensions: ExtensionMap::new(),
            self_subsuming: false,
        };
        r
    }

    /// The formula over `clauses`; variables range up to the largest one that occurs.
    pub fn from_clauses(clauses: &Vec<Clause>) -> (r: Self)
        requires
            forall|c: int| 0 <= c < clauses@.len() ==> (#[trigger] clauses@[c]).wf(),
            forall|c: int, i: int| 0 <= c < clauses@.len() && 0 <= i < clauses@[c]@.len()
                ==> (#[trigger] clauses@[c]@[i]).var() < i32::MAX,
            exists|c: int| 0 <= c < clauses@.len() && (#[trigger] clauses@[c])@.len() > 0,
        ensures
            r.wf(),
            r.watches_exact(),
            r.occurrences_exact(),
            (forall|c: int| 0 <= c < clauses@.len() ==> single_watch_ok(#[trigger] clauses@[c])) ==> r.watch_lists_sound(),
            r.clauses@.len() == clauses@.len(),
            forall|c: int| 0 <= c < clauses@.len() ==> {
                &&& (#[trigger] r.clauses@[c])@ == clauses@[c]@
                &&& r.clauses@[c].watched == clauses@[c].watched
                &&& r.clauses@[c].lbd == clauses@[c].lbd
                &&& r.clauses@[c].lock_count == clauses@[c].lock_count
                &&& r.clauses@[c].bva_generated == clauses@[c].bva_generated
            },
            forall|c: int, i: int| 0 <= c < clauses@.len() && 0 <= i < clauses@[c]@.len()
                ==> (#[trigger] clauses@[c]@[i]).var() < r.n_vars(),
            exists|c: int, i: int| 0 <= c < clauses@.len() && 0 <= i < clauses@[c]@.len()
                && (#[trigger] clauses@[c]@[i]).var() + 1 == r.n_vars(),
            r.assignment@ == Seq::new(r.n_vars(), |i: int| None::<bool>),
            r.stats == Stats::zero(),
            r.extensions@ == Map::<(int, int), int>::empty(),
            !r.self_subsuming,
    {
        let mut max_index: usize = 0;
        let mut owned: Vec<Clause> = Vec::new();
        for c in 0..clauses.len()
            invariant
                forall|c: int| 0 <= c < clauses@.len() ==> (#[trigger] clauses@[c]).wf(),
                forall|c: int, i: int| 0 <= c < clauses@.len() && 0 <= i < clauses@[c]@.len()
                    ==> (#[trigger] clauses@[c]@[i]).var() < i32::MAX,
                max_index < i32::MAX,
                owned@.len() == c,
                forall|k: int| 0 <= k < c ==> {
                    &&& (#[trigger] owned@[k])@ == clauses@[k]@
                    &&& owned@[k].watched == clauses@[k].watched
                    &&& owned@[k].lbd == clauses@[k].lbd
                    &&& owned@[k].lock_count == clauses@[k].lock_count
                    &&& owned@[k].bva_generated == clauses@[k].bva_generated
                },
                forall|k: int, i: int| 0 <= k < c && 0 <= i < clauses@[k]@.len()
                    ==> (#[trigger] clauses@[k]@[i]).var() <= max_index,
                max_index == 0 || exists|k: int, i: int| 0 <= k < c && 0 <= i < clauses@[k]@.len()
                    && (#[trigger] clauses@[k]@[i]).var() == max_index,
        {
            let clause = &clauses[c];
            let clen = clause.len();
            for i in 0..clen
                invariant
                    clause == clauses@[c as int],
                    clen == clause@.len(),
                    clause.wf(),
                    forall|c: int, i: int| 0 <= c < clauses@.len() && 0 <= i < clauses@[c]@.len()
                        ==> (#[trigger] clauses@[c]@[i]).var() < i32::MAX,
                    c < clauses@.len(),
                    max_index < i32::MAX,
                    forall|k: int, i: int| 0 <= k < c && 0 <= i < clauses@[k]@.len()
                        ==> (#[trigger] clauses@[k]@[i]).var() <= max_index,
                    forall|j: int| 0 <= j < i ==> (#[trigger] clauses@[c as int]@[j]).var() <= max_index,
                    max_index == 0 || exists|k: int, j: int| 0 <= k < c + 1 && 0 <= j < clauses@[k]@.len()
                        && (#[trigger] clauses@[k]@[j]).var() == max_index,
            {
                let v = clause.literals[i].get_variable();
                if v > max_index {
                    max_index = v;
                }
            }
            owned.push(clause.clone());
        }
        proof {
            let c0 = choose|c: int| 0 <= c < clauses@.len() && (#[trigger] clauses@[c])@.len() > 0; let i0 = 0int;
            assert(clauses@[c0]@[i0].var() <= max_index);
            assert(clauses@[c0]@[i0].var() >= 1);
        }
        let n = max_index + 1;
        let mut formula = Formula {
            clauses: owned,
            assignment: Assignment::new(n),
            watch: Watch::new(n),
            occurrence: Vec::new(),
            stats: Stats::new(),
            extensions: ExtensionMap::new(),
            self_subsuming: false,
        };
        proof {
            assert forall|c: int| 0 <= c < formula.clauses@.len() implies formula.clause_fits(#[trigger] formula.clauses@[c]) by {
                assert(formula.clauses@[c]@ == clauses@[c]@);
                assert forall|i: int| 0 <= i < formula.clauses@[c]@.len() implies (#[trigger] formula.clauses@[c]@[i]).var() < n by {
                    assert(clauses@[c]@[i].var() <= max_index);
                }
            }
        }
        formula.rebuild_clause_indices();
        proof {
            if forall|c: int| 0 <= c < clauses@.len() ==> single_watch_ok(#[trigger] clauses@[c]) {
                assert forall|c: int| 0 <= c < formula.clauses@.len() implies single_watch_ok(#[trigger] formula.clauses@[c]) by {
                    assert(single_watch_ok(clauses@[c]));
                }
            }
        }
        formula
    }

    /// The formula over the DIMACS-style clauses `raw_clauses`.
    pub fn from_vec(raw_clauses: Vec<Vec<i32>>) -> (r: Self)
        requires
            forall|c: int, i: int| 0 <= c < raw_clauses@.len() && 0 <= i < raw_clauses@[c]@.len()
                ==> valid_lit_value(#[trigger] raw_clauses@[c]@[i] as int) && raw_clauses@[c]@[i] != i32::MAX
                    && raw_clauses@[c]@[i] != -i32::MAX,
            forall|c: int, i: int, j: int| 0 <= c < raw_clauses@.len() && 0 <= i < j < raw_clauses@[c]@.len()
                ==> #[trigger] raw_clauses@[c]@[i] != #[trigger] raw_clauses@[c]@[j],
            exists|c: int| 0 <= c < raw_clauses@.len() && (#[trigger] raw_clauses@[c])@.len() > 0,
        ensures
            r.wf(),
            r.watches_exact(),
            r.occurrences_exact(),
            r.watch_lists_sound(),
            r.clauses@.len() == raw_clauses@.len(),
            forall|c: int| 0 <= c < raw_clauses@.len() ==> {
                &&& (#[trigger] r.clauses@[c])@.len() == raw_clauses@[c]@.len()
                &&& (forall|i: int| 0 <= i < raw_clauses@[c]@.len() ==> (#[trigger] r.clauses@[c]@[i])@ == raw_clauses@[c]@[i])
                &&& r.clauses@[c].watched == watched_for_len_spec(raw_clauses@[c]@.len())
                &&& r.clauses@[c].lbd == -1
                &&& r.clauses@[c].lock_count == 0
                &&& !r.clauses@[c].bva_generated
            },
            r.assignment@ == Seq::new(r.n_vars(), |i: int| None::<bool>),
            r.stats == Stats::zero(),
            !r.self_subsuming,
    {
        let mut clauses: Vec<Clause> = Vec::new();
        for c in 0..raw_clauses.len()
            invariant
                forall|c: int, i: int| 0 <= c < raw_clauses@.len() && 0 <= i < raw_clauses@[c]@.len()
                    ==> valid_lit_value(#[trigger] raw_clauses@[c]@[i] as int) && raw_clauses@[c]@[i] != i32::MAX
                        && raw_clauses@[c]@[i] != -i32::MAX,
                forall|c: int, i: int, j: int| 0 <= c < raw_clauses@.len() && 0 <= i < j < raw_clauses@[c]@.len()
                    ==> #[trigger] raw_clauses@[c]@[i] != #[trigger] raw_clauses@[c]@[j],
                clauses@.len() == c,
                forall|k: int| 0 <= k < c ==> {
                    &&& (#[trigger] clauses@[k]).wf()
                    &&& clauses@[k]@.len() == raw_clauses@[k]@.len()
                    &&& (forall|i: int| 0 <= i < raw_clauses@[k]@.len() ==> (#[trigger] clauses@[k]@[i])@ == raw_clauses@[k]@[i])
                    &&& clauses@[k].watched == watched_for_len_spec(raw_clauses@[k]@.len())
                    &&& clauses@[k].lbd == -1
                    &&& clauses@[k].lock_count == 0
                    &&& !clauses@[k].bva_generated
                },
        {
            let raw_clause = &raw_clauses[c];
            let mut clause = Clause::new();
            for i in 0..raw_clause.len()
                invariant
                    raw_clause == raw_clauses@[c as int],
                    c < raw_clauses@.len(),
                    forall|c: int, i: int| 0 <= c < raw_clauses@.len() && 0 <= i < raw_clauses@[c]@.len()
                        ==> valid_lit_value(#[trigger] raw_clauses@[c]@[i] as int),
                    forall|c: int, i: int, j: int| 0 <= c < raw_clauses@.len() && 0 <= i < j < raw_clauses@[c]@.len()
                        ==> #[trigger] raw_clauses@[c]@[i] != #[trigger] raw_clauses@[c]@[j],
                    clause.wf(),
                    clause@.len() == i,
                    forall|j: int| 0 <= j < i ==> (#[trigger] clause@[j])@ == raw_clause@[j],
                    clause.watched == watched_for_len_spec(i as nat),
                    clause.lbd == -1,
                    clause.lock_count == 0,
                    !clause.bva_generated,
            {
                let lit = Literal::new(raw_clause[i]);
                proof {
                    if clause@.contains(lit) {
                        let j = choose|j: int| 0 <= j < clause@.len() && clause@[j] == lit;
                        assert(raw_clause@[j] == raw_clause@[i as int]);
                    }
                }
                let _ = clause.add_literal(&lit);
            }
            clauses.push(clause);
        }
        proof {
            let c0 = choose|c: int| 0 <= c < raw_clauses@.len() && (#[trigger] raw_clauses@[c])@.len() > 0; let i0 = 0int;
            assert(clauses@[c0]@.len() > i0);
            assert forall|c: int, i: int| 0 <= c < clauses@.len() && 0 <= i < clauses@[c]@.len()
                implies (#[trigger] clauses@[c]@[i]).var() < i32::MAX by {
                assert(clauses@[c]@[i]@ == raw_clauses@[c]@[i]);
            }
        }
        proof {
            assert forall|c: int| 0 <= c < clauses@.len() implies single_watch_ok(#[trigger] clauses@[c]) by {}
        }
        Formula::from_clauses(&clauses)
    }

    /// Recomputes the watch and occurrence lists from the clauses.
    pub fn rebuild_clause_indices(&mut self)
        requires
            old(self).assignment.wf(),
            1 <= old(self).n_vars() <= i32::MAX,
            forall|c: int| 0 <= c < old(self).clauses@.len() ==> old(self).clause_fits(#[trigger] old(self).clauses@[c]),
            old(self).extensions.wf(),
        ensures
            final(self).wf(),
            final(self).watches_exact(),
            final(self).occurrences_exact(),
            forall|u: int, c: int| #![trigger count_in(final(self).watch@[u], c)]
                0 <= u < final(self).watch@.len() && 0 <= c < final(self).clauses@.len() ==>
                count_in(final(self).watch@[u], c) == watch_count(final(self).clauses@[c], u as nat),
            final(self).clauses == old(self).clauses,
            final(self).assignment == old(self).assignment,
            final(self).stats == old(self).stats,
            final(self).extensions == old(self).extensions,
            final(self).self_subsuming == old(self).self_subsuming,
    {
        let n = self.assignment.len();
        self.watch = Watch::new(n);
        let mut occurrence: Vec<Vec<usize>> = Vec::new();
        for _i in 0..n * 2
            invariant
                occurrence@.len() == _i,
                forall|j: int| 0 <= j < occurrence@.len() ==> (#[trigger] occurrence@[j])@.len() == 0,
        {
            occurrence.push(Vec::new());
        }
        self.occurrence = occurrence;
        proof {
            assert forall|u: int, c: int| #![trigger count_in(self.watch@[u], c)] 0 <= u < self.watch@.len() implies
                count_in(self.watch@[u], c) == 0 by {
                assert(self.watch@[u].len() == 0);
            }
        }
        let m = self.clauses.len();
        for clause_idx in 0..m
            invariant
                m == self.clauses@.len(),
                n == self.n_vars(),
                self.clauses == old(self).clauses,
                self.assignment == old(self).assignment,
                self.stats == old(self).stats,
                self.extensions == old(self).extensions,
                self.self_subsuming == old(self).self_subsuming,
                self.assignment.wf(),
                1 <= n <= i32::MAX,
                forall|c: int| 0 <= c < self.clauses@.len() ==> self.clause_fits(#[trigger] self.clauses@[c]),
                self.watch@.len() == 2 * n,
                self.occ().len() == 2 * n,
                forall|u: int, k: int| 0 <= u < self.watch@.len() && 0 <= k < self.watch@[u].len()
                    ==> #[trigger] self.watch@[u][k] < clause_idx,
                forall|u: int| 0 <= u < self.occ().len() ==> sorted_usize(#[trigger] self.occ()[u]),
                forall|u: int, k: int| 0 <= u < self.occ().len() && 0 <= k < self.occ()[u].len()
                    ==> #[trigger] self.occ()[u][k] < clause_idx,
                forall|u: int, c: usize| 0 <= u < self.watch@.len() ==>
                    (#[trigger] self.watch@[u].contains(c) <==> (c < clause_idx && watches(self.clauses@[c as int], u as nat))),
                forall|u: int, c: usize| 0 <= u < self.occ().len() ==>
                    (#[trigger] self.occ()[u].contains(c) <==> (c < clause_idx && occurs(self.clauses@[c as int], u as nat))),
                forall|u: int, c: int| #![trigger count_in(self.watch@[u], c)] 0 <= u < self.watch@.len() ==>
                    count_in(self.watch@[u], c) == if 0 <= c < clause_idx { watch_count(self.clauses@[c], u as nat) } else { 0 },
        {
            let ghost w0 = self.watch@;
            proof {
                assert forall|u: int| 0 <= u < w0.len() implies count_in(w0[u], clause_idx as int) == 0 by {
                    assert forall|k: int| 0 <= k < w0[u].len() implies w0[u][k] < clause_idx as int by {}
                    lemma_count_in_above(w0[u], clause_idx as int);
                }
            }
            self.index_clause(clause_idx);
        }
    }

    /// Adds clause `clause_idx`, which is above every index already listed, to the watch
    /// lists of its watched literals and the occurrence lists of its literals.
    pub(crate) fn index_clause(&mut self, clause_idx: usize)
        requires
            clause_idx < old(self).clauses@.len(),
            old(self).assignment.wf(),
            1 <= old(self).n_vars() <= i32::MAX,
            old(self).clause_fits(old(self).clauses@[clause_idx as int]),
            old(self).watch@.len() == 2 * old(self).n_vars(),
            old(self).occ().len() >= 2 * old(self).n_vars(),
            forall|u: int, k: int| 0 <= u < old(self).watch@.len() && 0 <= k < old(self).watch@[u].len()
                ==> #[trigger] old(self).watch@[u][k] < clause_idx,
            forall|u: int| 0 <= u < old(self).occ().len() ==> sorted_usize(#[trigger] old(self).occ()[u]),
            forall|u: int, k: int| 0 <= u < old(self).occ().len() && 0 <= k < old(self).occ()[u].len()
                ==> #[trigger] old(self).occ()[u][k] < clause_idx,
        ensures
            final(self).clauses == old(self).clauses,
            final(self).assignment == old(self).assignment,
            final(self).stats == old(self).stats,
            final(self).extensions == old(self).extensions,
            final(self).self_subsuming == old(self).self_subsuming,
            final(self).watch@.len() == old(self).watch@.len(),
            final(self).occ().len() == old(self).occ().len(),
            forall|u: int, k: int| 0 <= u < final(self).watch@.len() && 0 <= k < final(self).watch@[u].len()
                ==> #[trigger] final(self).watch@[u][k] <= clause_idx,
            forall|u: int| 0 <= u < final(self).occ().len() ==> sorted_usize(#[trigger] final(self).occ()[u]),
            forall|u: int, k: int| 0 <= u < final(self).occ().len() && 0 <= k < final(self).occ()[u].len()
                ==> #[trigger] final(self).occ()[u][k] <= clause_idx,
            forall|u: int, c: usize| 0 <= u < final(self).watch@.len() ==>
                (#[trigger] final(self).watch@[u].contains(c) <==> (old(self).watch@[u].contains(c)
                    || (c == clause_idx && watches(final(self).clauses@[c as int], u as nat)))),
            forall|u: int, c: int| #![trigger count_in(final(self).watch@[u], c)] 0 <= u < final(self).watch@.len() ==>
                count_in(final(self).watch@[u], c) == count_in(old(self).watch@[u], c)
                    + (if c == clause_idx { watch_count(final(self).clauses@[c], u as nat) } else { 0 }),
            forall|u: int, c: usize| 0 <= u < final(self).occ().len() ==>
                (#[trigger] final(self).occ()[u].contains(c) <==> (old(self).occ()[u].contains(c)
                    || (c == clause_idx && occurs(final(self).clauses@[c as int], u as nat)))),
    {
        let ghost cl = self.clauses@[clause_idx as int];
        let len = self.clauses[clause_idx].len();
        for i in 0..len
            invariant
                len == cl@.len(),
                cl == self.clauses@[clause_idx as int],
                clause_idx < self.clauses@.len(),
                self.clauses == old(self).clauses,
                self.assignment == old(self).assignment,
                self.stats == old(self).stats,
                self.extensions == old(self).extensions,
                self.self_subsuming == old(self).self_subsuming,
                self.watch == old(self).watch,
                self.assignment.wf(),
                1 <= self.n_vars() <= i32::MAX,
                old(self).clause_fits(cl),
                self.occ().len() == old(self).occ().len(),
                self.occ().len() >= 2 * self.n_vars(),
                forall|u: int| 0 <= u < self.occ().len() ==> sorted_usize(#[trigger] self.occ()[u]),
                forall|u: int, k: int| 0 <= u < self.occ().len() && 0 <= k < self.occ()[u].len()
                    ==> #[trigger] self.occ()[u][k] <= clause_idx,
                forall|u: int, c: usize| 0 <= u < self.occ().len() ==>
                    (#[trigger] self.occ()[u].contains(c) <==> (old(self).occ()[u].contains(c)
                        || (c == clause_idx && exists|j: int| 0 <= j < i && (#[trigger] cl@[j]).uidx() == u))),
        {
            let lit = self.clauses[clause_idx].literals[i];
            assert(lit == cl@[i as int]);
            let u = lit.get_unsigned_index() as usize;
            let ghost before = self.occ();
            let mut list: Vec<usize> = Vec::new();
            std::mem::swap(&mut list, &mut self.occurrence[u]);
            list.push(clause_idx);
            self.occurrence.set(u, list);
            proof {
                assert(self.occ() =~= before.update(u as int, before[u as int].push(clause_idx)));
                assert forall|uu: int, c: usize| 0 <= uu < self.occ().len() implies
                    (#[trigger] self.occ()[uu].contains(c) <==> (old(self).occ()[uu].contains(c)
                        || (c == clause_idx && exists|j: int| 0 <= j < i + 1 && (#[trigger] cl@[j]).uidx() == uu))) by {
                    if uu == u as int {
                        if c == clause_idx {
                            assert(self.occ()[uu][self.occ()[uu].len() - 1] == clause_idx);
                        }
                        if self.occ()[uu].contains(c) {
                            let k = choose|k: int| 0 <= k < self.occ()[uu].len() && self.occ()[uu][k] == c;
                            if k < before[uu].len() {
                                assert(before[uu].contains(c));
                            }
                        }
                        if before[uu].contains(c) {
                            let k = choose|k: int| 0 <= k < before[uu].len() && before[uu][k] == c;
                            assert(self.occ()[uu][k] == c);
                        }
                    }
                    if c == clause_idx && exists|j: int| 0 <= j < i + 1 && (#[trigger] cl@[j]).uidx() == uu {
                        let j = choose|j: int| 0 <= j < i + 1 && (#[trigger] cl@[j]).uidx() == uu;
                        if j < i {
                        } else {
                            assert(uu == u as int);
                        }
                    }
                }
            }
        }
        proof {
            assert forall|u: int, c: usize| 0 <= u < self.occ().len() implies
                (#[trigger] self.occ()[u].contains(c) <==> (old(self).occ()[u].contains(c)
                    || (c == clause_idx && occurs(self.clauses@[c as int], u as nat)))) by {
                if c == clause_idx && occurs(self.clauses@[c as int], u as nat) {
                    let j = choose|j: int| 0 <= j < cl@.len() && (#[trigger] cl@[j]).uidx() == u;
                }
            }
        }
        let ghost w0 = self.watch@;
        match self.clauses[clause_idx].watched {
            Watched::Unwatched => {},
            Watched::One(idx) => {
                let lit = self.clauses[clause_idx].literals[idx];
                self.watch.add_to_watchlist(clause_idx, &lit);
                proof {
                    assert forall|u: int, c: int| #![trigger count_in(self.watch@[u], c)] 0 <= u < self.watch@.len() implies
                        count_in(self.watch@[u], c) == count_in(w0[u], c)
                            + (if c == clause_idx { watch_count(self.clauses@[c], u as nat) } else { 0 }) by {
                        if u == lit.uidx() {
                            lemma_count_in_push(w0[u], clause_idx, c);
                        }
                    }
                }
            },
            Watched::Two(idx1, idx2) => {
                let lit1 = self.clauses[clause_idx].literals[idx1];
                let lit2 = self.clauses[clause_idx].literals[idx2];
                self.watch.add_to_watchlist(clause_idx, &lit1);
                let ghost w1 = self.watch@;
                self.watch.add_to_watchlist(clause_idx, &lit2);
                proof {
                    assert forall|u: int, c: int| #![trigger count_in(self.watch@[u], c)] 0 <= u < self.watch@.len() implies
                        count_in(self.watch@[u], c) == count_in(w0[u], c)
                            + (if c == clause_idx { watch_count(self.clauses@[c], u as nat) } else { 0 }) by {
                        if u == lit1.uidx() {
                            lemma_count_in_push(w0[u], clause_idx, c);
                        }
                        if u == lit2.uidx() {
                            lemma_count_in_push(w1[u], clause_idx, c);
                        }
                    }
                }
            },
        }
        proof {
            assert forall|u: int, c: usize| 0 <= u < self.watch@.len() implies
                (#[trigger] self.watch@[u].contains(c) <==> (old(self).watch@[u].contains(c)
                    || (c == clause_idx && watches(self.clauses@[c as int], u as nat)))) by {
                let w0 = old(self).watch@[u];
                if self.watch@[u].contains(c) {
                    let k = choose|k: int| 0 <= k < self.watch@[u].len() && self.watch@[u][k] == c;
                    if k < w0.len() {
                        assert(w0.contains(c));
                    }
                }
                if w0.contains(c) {
                    let k = choose|k: int| 0 <= k < w0.len() && w0[k] == c;
                    assert(self.watch@[u][k] == c);
                }
                if c == clause_idx && watches(self.clauses@[c as int], u as nat) {
                    assert(self.watch@[u][self.watch@[u].len() - 1] == clause_idx);
                }
            }
        }
    }
}

} // verus!
