use vstd::prelude::*;
use std::io::Write;
use crate::drat::{DratLogger, values_lines, values_line, lemma_drat_line_values};
use crate::formula::Formula;
use crate::formula::clause::{Clause, lits_as_i32};
use crate::formula::database::{listed, kept_count, same_clause, lemma_kept_index_below, lemma_kept_count_le, deletion_text};
use crate::formula::literal::{Literal, valid_lit_value, var_of, unsigned_index_of, lemma_unsigned_index_injective};
use crate::history::History;
use crate::history::decision_level::remap_reason;
use crate::sorting::{contains_usize, sort_dedup, strictly_increasing};
use crate::process::{process_step, processed, lemma_processed_refl, lemma_processed_push};

verus! {

/// A literal value usable in a formula with `n` variable slots.
pub open spec fn lit_ok(x: i32, n: nat) -> bool {
    valid_lit_value(x as int) && var_of(x as int) < n
}

/// Every literal value of `s` is usable with `n` variable slots.
pub open spec fn lits_ok(s: Seq<i32>, n: nat) -> bool {
    forall|i: int| 0 <= i < s.len() ==> lit_ok(#[trigger] s[i], n)
}

/// As a set of literal values, clause `c` is the literal `l` joined to the partial `p`.
pub open spec fn grid_clause(c: Clause, p: Seq<i32>, l: i32) -> bool {
    forall|x: i32| #[trigger] lits_as_i32(c@).contains(x) <==> (x == l || p.contains(x))
}

/// The recorded lists `ci` (by literal index) are non-empty and name clauses of `cs` that are,
/// as sets of literals, the list's literal joined to its partial in `partials`.
pub open spec fn index_exact(ci: Seq<Vec<(usize, Vec<usize>)>>, partials: Seq<Vec<i32>>, cs: Seq<Clause>) -> bool {
    &&& forall|u: int, k: int| 0 <= u < ci.len() && 0 <= k < ci[u]@.len() ==> (#[trigger] ci[u]@[k]).1@.len() > 0
    &&& forall|u: int, k: int, q: int, x: i32|
        #![trigger ci[u]@[k].1@[q], unsigned_index_of(x as int)]
        0 <= u < ci.len() && 0 <= k < ci[u]@.len() && 0 <= q < ci[u]@[k].1@.len()
        && valid_lit_value(x as int) && unsigned_index_of(x as int) == u
        ==> grid_clause(cs[ci[u]@[k].1@[q] as int], partials[ci[u]@[k].0 as int]@, x)
}

/// A clause whose sorted literal values hold `lit` is `lit` joined to those values without it.
proof fn lemma_grid_of_split(c: Clause, sorted: Seq<i32>, lit: i32)
    requires
        sorted.to_multiset() == lits_as_i32(c@).to_multiset(),
        sorted.contains(lit),
    ensures
        grid_clause(c, without(sorted, lit), lit),
{
    assert forall|x: i32| #[trigger] lits_as_i32(c@).contains(x) <==> (x == lit || without(sorted, lit).contains(x)) by {
        vstd::seq_lib::to_multiset_contains(sorted, x);
        vstd::seq_lib::to_multiset_contains(lits_as_i32(c@), x);
        lemma_without_contains(sorted, lit, x);
        assert(sorted.contains(x) <==> sorted.to_multiset().contains(x));
        assert(lits_as_i32(c@).contains(x) <==> lits_as_i32(c@).to_multiset().contains(x));
    }
}

/// The dense index of a literal value.
fn key_of(x: i32) -> (r: usize)
    requires
        valid_lit_value(x as int),
    ensures
        r == unsigned_index_of(x as int),
{
    let l = Literal::new(x);
    l.get_unsigned_index() as usize
}

/// `s` without the entries equal to `x`, in order.
pub open spec fn without(s: Seq<i32>, x: i32) -> Seq<i32>
    decreases s.len(),
{
    if s.len() == 0 {
        s
    } else {
        let p = without(s.drop_last(), x);
        if s.last() != x { p.push(s.last()) } else { p }
    }
}

/// What `without` keeps.
proof fn lemma_without_contains(s: Seq<i32>, x: i32, y: i32)
    ensures
        without(s, x).contains(y) <==> (s.contains(y) && y != x),
    decreases s.len(),
{
    if s.len() > 0 {
        let p = without(s.drop_last(), x);
        lemma_without_contains(s.drop_last(), x, y);
        if s.contains(y) && y != x {
            let k = choose|k: int| 0 <= k < s.len() && s[k] == y;
            if k < s.len() - 1 {
                assert(s.drop_last()[k] == y);
            }
        }
        if s.drop_last().contains(y) {
            let k = choose|k: int| 0 <= k < s.drop_last().len() && s.drop_last()[k] == y;
            assert(s[k] == y);
        }
        if s.last() != x {
            vstd::seq_lib::lemma_seq_contains_after_push(p, s.last(), y);
        }
    }
}

/// The literals of `sorted_clause` other than `lit`.
pub fn sorted_without(sorted_clause: &Vec<i32>, lit_to_remove: i32) -> (r: Vec<i32>)
    ensures
        r@ == without(sorted_clause@, lit_to_remove),
{
    let mut out: Vec<i32> = Vec::new();
    for i in 0..sorted_clause.len()
        invariant
            out@ == without(sorted_clause@.subrange(0, i as int), lit_to_remove),
    {
        proof {
            assert(sorted_clause@.subrange(0, i + 1).drop_last() =~= sorted_clause@.subrange(0, i as int));
        }
        if sorted_clause[i] != lit_to_remove {
            out.push(sorted_clause[i]);
        }
    }
    assert(sorted_clause@.subrange(0, sorted_clause@.len() as int) =~= sorted_clause@);
    out
}

/// The distinct variables of `clause`, increasing.
pub fn sorted_variables(clause: &Clause) -> (r: Vec<usize>)
    requires
        crate::formula::clause::lits_wf(clause@),
    ensures
        strictly_increasing(r@),
        forall|x: usize| #[trigger] r@.contains(x) <==> exists|i: int| 0 <= i < clause@.len() && (#[trigger] clause@[i]).var() == x,
{
    let mut vars: Vec<usize> = Vec::new();
    for i in 0..clause.literals.len()
        invariant
            crate::formula::clause::lits_wf(clause@),
            vars@.len() == i,
            forall|k: int| 0 <= k < i ==> #[trigger] vars@[k] == clause@[k].var(),
    {
        vars.push(clause.literals[i].get_variable());
    }
    let r = sort_dedup(&vars);
    proof {
        assert forall|x: usize| #[trigger] r@.contains(x) <==> exists|i: int| 0 <= i < clause@.len() && (#[trigger] clause@[i]).var() == x by {
            if vars@.contains(x) {
                let k = choose|k: int| 0 <= k < vars@.len() && vars@[k] == x;
                assert(clause@[k].var() == x);
            }
            if exists|i: int| 0 <= i < clause@.len() && (#[trigger] clause@[i]).var() == x {
                let i = choose|i: int| 0 <= i < clause@.len() && (#[trigger] clause@[i]).var() == x;
                assert(vars@[i] == x);
                assert(vars@.contains(x));
            }
        }
    }
    r
}

/// Whether `s` holds `x`.
fn contains_i32(s: &Vec<i32>, x: i32) -> (r: bool)
    ensures
        r == s@.contains(x),
{
    for i in 0..s.len()
        invariant
            forall|k: int| 0 <= k < i ==> s@[k] != x,
    {
        if s[i] == x {
            assert(s@[i as int] == x);
            return true;
        }
    }
    false
}

/// Whether a clause (as literal values) holds a literal and its negation.
pub fn is_tautological(sorted_clause: &Vec<i32>) -> (r: bool)
    requires
        forall|i: int| 0 <= i < sorted_clause@.len() ==> valid_lit_value(#[trigger] sorted_clause@[i] as int),
    ensures
        r == exists|i: int| 0 <= i < sorted_clause@.len() && sorted_clause@.contains((-(#[trigger] sorted_clause@[i])) as i32),
{
    for i in 0..sorted_clause.len()
        invariant
            forall|i: int| 0 <= i < sorted_clause@.len() ==> valid_lit_value(#[trigger] sorted_clause@[i] as int),
            forall|k: int| 0 <= k < i ==> !sorted_clause@.contains((-(#[trigger] sorted_clause@[k])) as i32),
    {
        if contains_i32(sorted_clause, -sorted_clause[i]) {
            return true;
        }
    }
    false
}

/// A clause that bounded variable addition may rewrite: unlocked, at least binary, and not an
/// extension definition (unless it came from an earlier rewrite).
pub open spec fn bva_eligible(c: Clause) -> bool {
    c.lock_count == 0 && c@.len() >= 2 && (c.lbd != 0 || c.bva_generated)
}

pub fn bva_eligible_clause(clause: &Clause) -> (r: bool)
    ensures
        r == bva_eligible(*clause),
{
    clause.lock_count == 0 && clause.len() >= 2 && (clause.lbd != 0 || clause.bva_generated)
}

/// `literals * partials - literals - partials`: the clauses a grid of that size saves.
pub fn clause_saving(literals: usize, partials: usize) -> (r: i128)
    requires
        literals <= 0x1_0000_0000,
    ensures
        r == literals * partials - literals - partials,
{
    assert(literals * partials <= 0x1_0000_0000 * 0xffff_ffff_ffff_ffff) by (nonlinear_arith)
        requires
            literals <= 0x1_0000_0000,
            partials <= 0xffff_ffff_ffff_ffff,
    ;
    (literals as i128) * (partials as i128) - literals as i128 - partials as i128
}

/// Literal values ordered by variable, the positive literal first.
pub open spec fn tie_less(a: i32, b: i32) -> bool {
    var_of(a as int) < var_of(b as int) || (var_of(a as int) == var_of(b as int) && a > 0 && b < 0)
}

fn tie_less_exec(a: i32, b: i32) -> (r: bool)
    requires
        valid_lit_value(a as int),
        valid_lit_value(b as int),
    ensures
        r == tie_less(a, b),
{
    let va: i64 = if a < 0 { -(a as i64) } else { a as i64 };
    let vb: i64 = if b < 0 { -(b as i64) } else { b as i64 };
    va < vb || (va == vb && a > 0 && b < 0)
}

/// Occurrence structure of the eligible clauses for bounded variable addition.
///
/// A partial is an eligible non-tautological clause with one literal `l` removed (as sorted
/// literal values, without `-l`); the clause is then `l` joined to the partial.
pub struct BvaIndex {
    pub partials: Vec<Vec<i32>>,
    pub partial_to_literals: Vec<Vec<i32>>,
    pub literal_to_partials: Vec<Vec<usize>>,
    pub clause_indices: Vec<Vec<(usize, Vec<usize>)>>,
    pub literal_occurrences: Vec<usize>,
    pub variable_adjacency: Vec<Vec<(usize, u64)>>,
    pub n_vars: usize,
    pub n_clauses: usize,
}

impl BvaIndex {
    /// Shape of an index over a formula with `n_vars` variable slots and `n_clauses` clauses.
    pub open spec fn wf(&self) -> bool {
        let p = self.partials@.len();
        let n = self.n_vars as nat;
        let m = self.n_clauses as nat;
        &&& self.partial_to_literals@.len() == p
        &&& self.literal_to_partials@.len() == 2 * n
        &&& self.clause_indices@.len() == 2 * n
        &&& self.literal_occurrences@.len() == 2 * n
        &&& self.variable_adjacency@.len() == n
        &&& forall|i: int| 0 <= i < p ==> lits_ok(#[trigger] self.partials@[i]@, n)
        &&& forall|i: int| 0 <= i < p ==> lits_ok(#[trigger] self.partial_to_literals@[i]@, n)
        &&& forall|u: int, k: int| 0 <= u < 2 * n && 0 <= k < self.literal_to_partials@[u]@.len()
            ==> #[trigger] self.literal_to_partials@[u]@[k] < p
        &&& forall|u: int, k: int| 0 <= u < 2 * n && 0 <= k < self.clause_indices@[u]@.len()
            ==> (#[trigger] self.clause_indices@[u]@[k]).0 < p
                && forall|q: int| 0 <= q < self.clause_indices@[u]@[k].1@.len() ==> #[trigger] self.clause_indices@[u]@[k].1@[q] < m
        &&& forall|a: int, k: int| 0 <= a < n && 0 <= k < self.variable_adjacency@[a]@.len()
            ==> (#[trigger] self.variable_adjacency@[a]@[k]).0 < n
    }

    /// Every recorded clause of `cs` is, as a set of literals, its literal joined to its partial,
    /// and no recorded list is empty.
    pub open spec fn records_exact(&self, cs: Seq<Clause>) -> bool {
        index_exact(self.clause_indices@, self.partials@, cs)
    }

    /// Every recorded clause is unlocked in `cs`.
    pub open spec fn records_unlocked(&self, cs: Seq<Clause>) -> bool {
        forall|u: int, k: int, q: int| 0 <= u < self.clause_indices@.len() && 0 <= k < self.clause_indices@[u]@.len()
            && 0 <= q < self.clause_indices@[u]@[k].1@.len() ==> cs[#[trigger] self.clause_indices@[u]@[k].1@[q] as int].lock_count == 0
    }

    /// Whether some record of literal `lit` is for partial `partial_id`.
    pub open spec fn has_record(&self, lit: i32, partial_id: usize) -> bool {
        exists|k: int| 0 <= k < self.clause_indices@[unsigned_index_of(lit as int) as int]@.len()
            && (#[trigger] self.clause_indices@[unsigned_index_of(lit as int) as int]@[k]).0 == partial_id
    }

    /// The clause indices of the first record of literal `lit` for partial `partial_id`, if any.
    pub fn clauses_for(&self, lit: i32, partial_id: usize) -> (r: Option<&Vec<usize>>)
        requires
            self.wf(),
            lit_ok(lit, self.n_vars as nat),
        ensures
            r is Some <==> self.has_record(lit, partial_id),
            r matches Some(v) ==> forall|q: int| 0 <= q < v@.len() ==> #[trigger] v@[q] < self.n_clauses,
            r matches Some(v) ==> exists|k: int| 0 <= k < self.clause_indices@[unsigned_index_of(lit as int) as int]@.len()
                && #[trigger] self.clause_indices@[unsigned_index_of(lit as int) as int]@[k].1 == *v
                && self.clause_indices@[unsigned_index_of(lit as int) as int]@[k].0 == partial_id
                && forall|j: int| 0 <= j < k ==> (#[trigger] self.clause_indices@[unsigned_index_of(lit as int) as int]@[j]).0 != partial_id,
    {
        let u = key_of(lit);
        let list = &self.clause_indices[u];
        for k in 0..list.len()
            invariant
                self.wf(),
                u < 2 * self.n_vars,
                u == unsigned_index_of(lit as int),
                *list == self.clause_indices@[u as int],
                forall|j: int| 0 <= j < k ==> (#[trigger] list@[j]).0 != partial_id,
        {
            if list[k].0 == partial_id {
                proof {
                    assert((self.clause_indices@[u as int]@[k as int]).0 < self.partials@.len());
                    assert(unsigned_index_of(lit as int) == u);
                    assert(self.clause_indices@[unsigned_index_of(lit as int) as int]@[k as int].1 == list@[k as int].1);
                    assert forall|j: int| 0 <= j < k implies (#[trigger] self.clause_indices@[unsigned_index_of(lit as int) as int]@[j]).0 != partial_id by {
                        assert(list@[j].0 != partial_id);
                    }
                }
                return Some(&list[k].1);
            }
        }
        proof {
            assert forall|k: int| 0 <= k < self.clause_indices@[unsigned_index_of(lit as int) as int]@.len() implies
                (#[trigger] self.clause_indices@[unsigned_index_of(lit as int) as int]@[k]).0 != partial_id by {
                assert(list@[k].0 != partial_id);
            }
        }
        None
    }

    /// Whether some clause is `lit` joined to partial `partial_id`.
    pub fn has_clause_for(&self, lit: i32, partial_id: usize) -> (r: bool)
        requires
            self.wf(),
            lit_ok(lit, self.n_vars as nat),
        ensures
            r == self.has_record(lit, partial_id),
    {
        self.clauses_for(lit, partial_id).is_some()
    }
}


pub proof fn lemma_without_ok(s: Seq<i32>, x: i32, n: nat)
    requires
        lits_ok(s, n),
    ensures
        lits_ok(without(s, x), n),
        without(s, x).len() <= s.len(),
    decreases s.len(),
{
    if s.len() > 0 {
        assert(lits_ok(s.drop_last(), n)) by {
            assert forall|i: int| 0 <= i < s.drop_last().len() implies lit_ok(#[trigger] s.drop_last()[i], n) by {
                assert(s.drop_last()[i] == s[i]);
            }
        }
        lemma_without_ok(s.drop_last(), x, n);
        assert(lit_ok(s[s.len() - 1], n));
    }
}

/// The count of the first entry for `b` in an adjacency list, `0` without one.
pub open spec fn adj_count(l: Seq<(usize, u64)>, b: usize) -> u64
    decreases l.len(),
{
    if l.len() == 0 { 0 } else if l[0].0 == b { l[0].1 } else { adj_count(l.subrange(1, l.len() as int), b) }
}

/// Clause `c` has a literal on variable `x`.
pub open spec fn has_var(c: Clause, x: usize) -> bool {
    exists|i: int| 0 <= i < c@.len() && (#[trigger] c@[i]).var() == x
}

/// The number of clauses among the first `upto` of `cs` in which the distinct variables `a` and
/// `b` both occur.
pub open spec fn cooccur(cs: Seq<Clause>, upto: int, a: usize, b: usize) -> nat
    decreases upto,
{
    if upto <= 0 {
        0
    } else {
        cooccur(cs, upto - 1, a, b) + (if a != b && has_var(cs[upto - 1], a) && has_var(cs[upto - 1], b) { 1nat } else { 0nat })
    }
}

/// `x`, capped at `u64::MAX`.
pub open spec fn cap_u64(x: nat) -> u64 {
    if x > u64::MAX { u64::MAX } else { x as u64 }
}

/// Changing the first entry for `b` changes only the count of `b`.
proof fn lemma_adj_count_update(l: Seq<(usize, u64)>, k: int, b: usize, v: u64, c: usize)
    requires
        0 <= k < l.len(),
        l[k].0 == b,
        forall|j: int| 0 <= j < k ==> (#[trigger] l[j]).0 != b,
    ensures
        adj_count(l, b) == l[k].1,
        adj_count(l.update(k, (b, v)), c) == if c == b { v } else { adj_count(l, c) },
    decreases k,
{
    let l2 = l.update(k, (b, v));
    if k > 0 {
        let t = l.subrange(1, l.len() as int);
        assert forall|j: int| 0 <= j < k - 1 implies (#[trigger] t[j]).0 != b by {
            assert(t[j] == l[j + 1]);
        }
        lemma_adj_count_update(t, k - 1, b, v, c);
        assert(l2.subrange(1, l2.len() as int) =~= t.update(k - 1, (b, v)));
        assert(l2[0] == l[0]);
    } else {
        assert(l2.subrange(1, l2.len() as int) =~= l.subrange(1, l.len() as int));
        assert(l2[0] == (b, v));
    }
}

/// Appending an entry for a new key `b` gives `b` the count `1` and changes nothing else.
proof fn lemma_adj_count_push(l: Seq<(usize, u64)>, b: usize, c: usize)
    requires
        forall|j: int| 0 <= j < l.len() ==> (#[trigger] l[j]).0 != b,
    ensures
        adj_count(l, b) == 0,
        adj_count(l.push((b, 1u64)), c) == if c == b { 1u64 } else { adj_count(l, c) },
    decreases l.len(),
{
    if l.len() > 0 {
        let t = l.subrange(1, l.len() as int);
        assert forall|j: int| 0 <= j < t.len() implies (#[trigger] t[j]).0 != b by {
            assert(t[j] == l[j + 1]);
        }
        lemma_adj_count_push(t, b, c);
        assert(l.push((b, 1u64)).subrange(1, l.len() as int + 1) =~= t.push((b, 1u64)));
        assert(l.push((b, 1u64))[0] == l[0]);
    } else {
        let l1 = l.push((b, 1u64));
        assert(l1[0] == (b, 1u64));
        assert(l1.subrange(1, l1.len() as int) =~= Seq::<(usize, u64)>::empty());
        assert(adj_count(Seq::<(usize, u64)>::empty(), c) == 0);
    }
}

/// `bump_adjacency` adds one (capped) to the count of `b` and leaves the other counts.
proof fn lemma_bump_counts(l0: Seq<(usize, u64)>, l1: Seq<(usize, u64)>, b: usize)
    requires
        (exists|k: int| 0 <= k < l0.len() && (#[trigger] l0[k]).0 == b) ==> exists|k: int|
            0 <= k < l0.len() && (#[trigger] l0[k]).0 == b
            && (forall|j: int| 0 <= j < k ==> (#[trigger] l0[j]).0 != b)
            && l1 == l0.update(k, (b, crate::stats::sat_add(l0[k].1, 1))),
        (forall|k: int| 0 <= k < l0.len() ==> (#[trigger] l0[k]).0 != b) ==> l1 == l0.push((b, 1u64)),
    ensures
        forall|c: usize| #[trigger] adj_count(l1, c) == if c == b { crate::stats::sat_add(adj_count(l0, b), 1) } else { adj_count(l0, c) },
{
    assert forall|c: usize| #[trigger] adj_count(l1, c) == if c == b { crate::stats::sat_add(adj_count(l0, b), 1) } else { adj_count(l0, c) } by {
        if exists|k: int| 0 <= k < l0.len() && (#[trigger] l0[k]).0 == b {
            let k = choose|k: int| 0 <= k < l0.len() && (#[trigger] l0[k]).0 == b
                && (forall|j: int| 0 <= j < k ==> (#[trigger] l0[j]).0 != b)
                && l1 == l0.update(k, (b, crate::stats::sat_add(l0[k].1, 1)));
            lemma_adj_count_update(l0, k, b, crate::stats::sat_add(l0[k].1, 1), c);
        } else {
            lemma_adj_count_push(l0, b, c);
        }
    }
}

/// The pair of positions `p < q` of `vs` holding `a` and `b` (in either order) comes before
/// `(i, j)`.
pub open spec fn pair_done(vs: Seq<usize>, i: int, j: int, a: usize, b: usize) -> bool {
    exists|p: int, q: int| 0 <= p < q < vs.len() && (p < i || (p == i && q < j))
        && ((#[trigger] vs[p] == a && #[trigger] vs[q] == b) || (vs[p] == b && vs[q] == a))
}

/// Position pair `(i, j)` is the next pair done: it adds exactly its own two values.
proof fn lemma_pair_done_step(vs: Seq<usize>, i: int, j: int, x: usize, y: usize)
    requires
        strictly_increasing(vs),
        0 <= i < j < vs.len(),
    ensures
        pair_done(vs, i, j + 1, x, y) == (pair_done(vs, i, j, x, y)
            || (x == vs[i] && y == vs[j]) || (x == vs[j] && y == vs[i])),
        ((x == vs[i] && y == vs[j]) || (x == vs[j] && y == vs[i])) ==> !pair_done(vs, i, j, x, y),
{
    if (x == vs[i] && y == vs[j]) || (x == vs[j] && y == vs[i]) {
        assert(pair_done(vs, i, j + 1, x, y)) by {
            assert(vs[i] == vs[i] && vs[j] == vs[j]);
        }
        if pair_done(vs, i, j, x, y) {
            let (p, q) = choose|p: int, q: int| 0 <= p < q < vs.len() && (p < i || (p == i && q < j))
                && ((#[trigger] vs[p] == x && #[trigger] vs[q] == y) || (vs[p] == y && vs[q] == x));
            if vs[p] == x && vs[q] == y {
                if x == vs[i] {
                    assert(p == i);
                    assert(q == j);
                } else {
                    assert(p == j);
                }
            } else {
                if y == vs[i] {
                    assert(p == i);
                    assert(q == j);
                } else {
                    assert(p == j);
                }
            }
        }
    }
    if pair_done(vs, i, j + 1, x, y) && !pair_done(vs, i, j, x, y) {
        let (p, q) = choose|p: int, q: int| 0 <= p < q < vs.len() && (p < i || (p == i && q < j + 1))
            && ((#[trigger] vs[p] == x && #[trigger] vs[q] == y) || (vs[p] == y && vs[q] == x));
        assert(p == i && q == j);
    }
}

/// Finishing row `i` is starting row `i + 1`.
proof fn lemma_pair_done_row(vs: Seq<usize>, i: int, x: usize, y: usize)
    requires
        0 <= i < vs.len(),
    ensures
        pair_done(vs, i, vs.len() as int, x, y) == pair_done(vs, i + 1, i + 2, x, y),
{
    if pair_done(vs, i + 1, i + 2, x, y) {
        let (p, q) = choose|p: int, q: int| 0 <= p < q < vs.len() && (p < i + 1 || (p == i + 1 && q < i + 2))
            && ((#[trigger] vs[p] == x && #[trigger] vs[q] == y) || (vs[p] == y && vs[q] == x));
        assert(p <= i);
    }
}

/// Once every row is done, exactly the pairs of distinct values of `vs` are done.
proof fn lemma_pair_done_all(vs: Seq<usize>, x: usize, y: usize)
    requires
        strictly_increasing(vs),
    ensures
        pair_done(vs, vs.len() as int, vs.len() as int + 1, x, y) == (x != y && vs.contains(x) && vs.contains(y)),
{
    if x != y && vs.contains(x) && vs.contains(y) {
        let px = choose|p: int| 0 <= p < vs.len() && vs[p] == x;
        let py = choose|p: int| 0 <= p < vs.len() && vs[p] == y;
        if px < py {
            assert(vs[px] == x && vs[py] == y);
        } else {
            assert(px != py);
            assert(vs[py] == y && vs[px] == x);
        }
    }
    if pair_done(vs, vs.len() as int, vs.len() as int + 1, x, y) {
        let (p, q) = choose|p: int, q: int| 0 <= p < q < vs.len() && (p < vs.len() || (p == vs.len() && q < vs.len() + 1))
            && ((#[trigger] vs[p] == x && #[trigger] vs[q] == y) || (vs[p] == y && vs[q] == x));
        assert(vs.contains(vs[p]) && vs.contains(vs[q]));
    }
}

/// Adds one to the count of `b` in an adjacency list (a new entry starts at 1).
fn bump_adjacency(list: &mut Vec<(usize, u64)>, b: usize)
    ensures
        forall|k: int| 0 <= k < final(list)@.len() ==> (#[trigger] final(list)@[k]).0 == b
            || (k < old(list)@.len() && final(list)@[k].0 == old(list)@[k].0),
        final(list)@.len() >= old(list)@.len(),
        (exists|k: int| 0 <= k < old(list)@.len() && (#[trigger] old(list)@[k]).0 == b) ==> exists|k: int|
            0 <= k < old(list)@.len() && (#[trigger] old(list)@[k]).0 == b
            && (forall|j: int| 0 <= j < k ==> (#[trigger] old(list)@[j]).0 != b)
            && final(list)@ == old(list)@.update(k, (b, crate::stats::sat_add(old(list)@[k].1, 1))),
        (forall|k: int| 0 <= k < old(list)@.len() ==> (#[trigger] old(list)@[k]).0 != b)
            ==> final(list)@ == old(list)@.push((b, 1u64)),
{
    let len = list.len();
    for k in 0..len
        invariant
            len == old(list)@.len(),
            list@ == old(list)@,
            forall|q: int| 0 <= q < k ==> (#[trigger] old(list)@[q]).0 != b,
    {
        if list[k].0 == b {
            let w = list[k].1;
            list.set(k, (b, w.saturating_add(1)));
            return;
        }
    }
    list.push((b, 1));
}

/// Adds `x` to `list` unless it is already there.
fn insert_usize(list: &mut Vec<usize>, x: usize)
    ensures
        final(list)@ == if old(list)@.contains(x) { old(list)@ } else { old(list)@.push(x) },
{
    if !contains_usize(list, x) {
        list.push(x);
    }
}

/// Adds `x` to `list` unless it is already there.
fn insert_i32(list: &mut Vec<i32>, x: i32)
    ensures
        final(list)@ == if old(list)@.contains(x) { old(list)@ } else { old(list)@.push(x) },
{
    if !contains_i32(list, x) {
        list.push(x);
    }
}

/// Records clause `clause_idx` under `(partial_id)` in a literal's list.
fn add_clause_index(list: &mut Vec<(usize, Vec<usize>)>, partial_id: usize, clause_idx: usize)
    ensures
        final(list)@.len() >= old(list)@.len(),
        forall|k: int| 0 <= k < old(list)@.len() ==> (#[trigger] final(list)@[k]).0 == old(list)@[k].0
            && old(list)@[k].1@.is_prefix_of(final(list)@[k].1@),
        forall|k: int| old(list)@.len() <= k < final(list)@.len() ==> (#[trigger] final(list)@[k]).0 == partial_id,
        forall|k: int, q: int| 0 <= k < final(list)@.len() && 0 <= q < final(list)@[k].1@.len()
            && !(k < old(list)@.len() && q < old(list)@[k].1@.len())
            ==> #[trigger] final(list)@[k].1@[q] == clause_idx && final(list)@[k].0 == partial_id,
        (forall|k: int| 0 <= k < old(list)@.len() ==> (#[trigger] old(list)@[k]).1@.len() > 0)
            ==> forall|k: int| 0 <= k < final(list)@.len() ==> (#[trigger] final(list)@[k]).1@.len() > 0,
        (exists|k: int| 0 <= k < old(list)@.len() && (#[trigger] old(list)@[k]).0 == partial_id) ==> exists|k: int|
            0 <= k < old(list)@.len() && (#[trigger] old(list)@[k]).0 == partial_id
            && (forall|j: int| 0 <= j < k ==> (#[trigger] old(list)@[j]).0 != partial_id)
            && final(list)@.len() == old(list)@.len()
            && final(list)@[k].1@ == old(list)@[k].1@.push(clause_idx)
            && (forall|j: int| 0 <= j < old(list)@.len() && j != k ==> #[trigger] final(list)@[j] == old(list)@[j]),
        (forall|k: int| 0 <= k < old(list)@.len() ==> (#[trigger] old(list)@[k]).0 != partial_id) ==> {
            &&& final(list)@.len() == old(list)@.len() + 1
            &&& forall|j: int| 0 <= j < old(list)@.len() ==> #[trigger] final(list)@[j] == old(list)@[j]
            &&& final(list)@[old(list)@.len() as int].0 == partial_id
            &&& final(list)@[old(list)@.len() as int].1@ == seq![clause_idx]
        },
{
    let len = list.len();
    for k in 0..len
        invariant
            len == old(list)@.len(),
            list@ == old(list)@,
            forall|q: int| 0 <= q < k ==> (#[trigger] old(list)@[q]).0 != partial_id,
    {
        if list[k].0 == partial_id {
            let mut v = list[k].1.clone();
            proof { assert(v@ == old(list)@[k as int].1@); }
            v.push(clause_idx);
            list.set(k, (partial_id, v));
            proof {
                assert forall|j: int| 0 <= j < old(list)@.len() implies (#[trigger] list@[j]).0 == old(list)@[j].0
                    && old(list)@[j].1@.is_prefix_of(list@[j].1@) by {
                    if j == k as int {
                        assert(old(list)@[j].1@.is_prefix_of(old(list)@[j].1@.push(clause_idx)));
                    }
                }
            }
            return;
        }
    }
    let mut v: Vec<usize> = Vec::new();
    v.push(clause_idx);
    list.push((partial_id, v));
    proof {
        assert forall|j: int| 0 <= j < old(list)@.len() implies (#[trigger] list@[j]).0 == old(list)@[j].0
            && old(list)@[j].1@.is_prefix_of(list@[j].1@) by {
            assert(list@[j] == old(list)@[j]);
        }
    }
}

/// Clause `c` is listed in some record of the literal `x`.
pub open spec fn listed_under(ci: Seq<Vec<(usize, Vec<usize>)>>, x: i32, c: usize) -> bool {
    let u = unsigned_index_of(x as int) as int;
    exists|k: int| 0 <= k < ci[u]@.len() && (#[trigger] ci[u]@[k]).1@.contains(c)
}

/// The clause holds a literal and its negation.
pub open spec fn clause_tautological(c: Clause) -> bool {
    exists|i: int, j: int| 0 <= i < c@.len() && 0 <= j < c@.len() && (#[trigger] c@[i])@ == -(#[trigger] c@[j])@
}

/// Every list of `ci1` extends the list of `ci0` at the same place: the records keep their
/// places and their clause lists only grow.
pub open spec fn records_grow(ci0: Seq<Vec<(usize, Vec<usize>)>>, ci1: Seq<Vec<(usize, Vec<usize>)>>) -> bool {
    &&& ci1.len() == ci0.len()
    &&& forall|u: int| 0 <= u < ci0.len() ==> (#[trigger] ci1[u])@.len() >= ci0[u]@.len()
    &&& forall|u: int, k: int| 0 <= u < ci0.len() && 0 <= k < ci0[u]@.len() ==> (#[trigger] ci0[u]@[k]).1@.is_prefix_of(ci1[u]@[k].1@)
}

/// A listed clause stays listed as the records grow.
proof fn lemma_listed_grow(ci0: Seq<Vec<(usize, Vec<usize>)>>, ci1: Seq<Vec<(usize, Vec<usize>)>>, x: i32, c: usize)
    requires
        listed_under(ci0, x, c),
        records_grow(ci0, ci1),
        0 <= unsigned_index_of(x as int) < ci0.len(),
    ensures
        listed_under(ci1, x, c),
{
    let u = unsigned_index_of(x as int) as int;
    let k = choose|k: int| 0 <= k < ci0[u]@.len() && (#[trigger] ci0[u]@[k]).1@.contains(c);
    let q = choose|q: int| 0 <= q < ci0[u]@[k].1@.len() && ci0[u]@[k].1@[q] == c;
    assert(ci0[u]@[k].1@.is_prefix_of(ci1[u]@[k].1@));
    assert(ci1[u]@[k].1@[q] == c);
    assert(ci1[u]@[k].1@.contains(c));
}

/// Growing twice is growing.
proof fn lemma_records_grow_trans(a: Seq<Vec<(usize, Vec<usize>)>>, b: Seq<Vec<(usize, Vec<usize>)>>, c: Seq<Vec<(usize, Vec<usize>)>>)
    requires
        records_grow(a, b),
        records_grow(b, c),
    ensures
        records_grow(a, c),
{
    assert forall|u: int, k: int| 0 <= u < a.len() && 0 <= k < a[u]@.len() implies (#[trigger] a[u]@[k]).1@.is_prefix_of(c[u]@[k].1@) by {
        let x = a[u]@[k].1@;
        let y = b[u]@[k].1@;
        let z = c[u]@[k].1@;
        assert(x.is_prefix_of(y));
        assert(y.is_prefix_of(z));
        assert forall|q: int| 0 <= q < x.len() implies x[q] == z[q] by {
            assert(x[q] == y.subrange(0, x.len() as int)[q]);
            assert(y[q] == z.subrange(0, y.len() as int)[q]);
        }
        assert(x =~= z.subrange(0, x.len() as int));
    }
}

/// A literal value of a clause of a well-formed formula has its dense index in range.
proof fn lemma_lits_as_i32_ok(f: &Formula, c: int, x: i32)
    requires
        f.wf(),
        0 <= c < f.clauses@.len(),
        lits_as_i32(f.clauses@[c]@).contains(x),
    ensures
        0 <= unsigned_index_of(x as int) < 2 * f.n_vars(),
{
    let s = lits_as_i32(f.clauses@[c]@);
    let j = choose|j: int| 0 <= j < s.len() && s[j] == x;
    assert(f.clause_fits(f.clauses@[c]));
    assert(f.clauses@[c]@[j].wf());
    assert(f.clauses@[c]@[j].var() < f.n_vars());
    assert(x as int == f.clauses@[c]@[j]@);
}

/// A sorted copy of a clause that holds a literal and its negation comes from a tautological clause.
proof fn lemma_taut_sorted(c: Clause, sorted: Seq<i32>)
    requires
        sorted.to_multiset() == lits_as_i32(c@).to_multiset(),
        exists|i: int| 0 <= i < sorted.len() && sorted.contains((-(#[trigger] sorted[i])) as i32),
        crate::formula::clause::lits_wf(c@),
    ensures
        clause_tautological(c),
{
    let i = choose|i: int| 0 <= i < sorted.len() && sorted.contains((-(#[trigger] sorted[i])) as i32);
    let a = sorted[i];
    let b = (-a) as i32;
    vstd::seq_lib::to_multiset_contains(sorted, a);
    vstd::seq_lib::to_multiset_contains(sorted, b);
    vstd::seq_lib::to_multiset_contains(lits_as_i32(c@), a);
    vstd::seq_lib::to_multiset_contains(lits_as_i32(c@), b);
    let ia = choose|k: int| 0 <= k < c@.len() && lits_as_i32(c@)[k] == a;
    let ib = choose|k: int| 0 <= k < c@.len() && lits_as_i32(c@)[k] == b;
    assert(c@[ia].wf() && c@[ib].wf());
    assert(c@[ia]@ == a as int);
    assert(c@[ib]@ == b as int);
    assert(c@[ia]@ == -c@[ib]@);
}

impl BvaIndex {
    /// Indexes the eligible clauses of `formula` (see `bva_eligible`): every way of writing one
    /// as a literal joined to a partial, and the variable co-occurrence counts of all clauses.
    pub fn new(formula: &Formula) -> (r: Self)
        requires
            formula.wf(),
        ensures
            r.wf(),
            r.n_vars == formula.n_vars(),
            r.n_clauses == formula.clauses@.len(),
            r.records_unlocked(formula.clauses@),
            r.records_exact(formula.clauses@),
            forall|c: usize, x: i32| c < formula.clauses@.len() && bva_eligible(formula.clauses@[c as int])
                && !clause_tautological(formula.clauses@[c as int]) && lits_as_i32(formula.clauses@[c as int]@).contains(x)
                ==> #[trigger] listed_under(r.clause_indices@, x, c),
            forall|a: usize, b: usize| a < formula.n_vars() ==> #[trigger] adj_count(r.variable_adjacency@[a as int]@, b)
                == cap_u64(cooccur(formula.clauses@, formula.clauses@.len() as int, a, b)),
    {
        let n = formula.assignment.len();
        let m = formula.clauses.len();
        let mut variable_adjacency: Vec<Vec<(usize, u64)>> = Vec::new();
        for _i in 0..n
            invariant
                variable_adjacency@.len() == _i,
                forall|a: int| 0 <= a < variable_adjacency@.len() ==> (#[trigger] variable_adjacency@[a])@.len() == 0,
        {
            variable_adjacency.push(Vec::new());
        }
        let ghost cs = formula.clauses@;
        proof {
            assert forall|x: usize, y: usize| x < n implies #[trigger] adj_count(variable_adjacency@[x as int]@, y)
                == cap_u64(cooccur(cs, 0, x, y)) by {
                assert(variable_adjacency@[x as int]@.len() == 0);
            }
        }
        for ci in 0..m
            invariant
                formula.wf(),
                n == formula.n_vars(),
                m == formula.clauses@.len(),
                cs == formula.clauses@,
                variable_adjacency@.len() == n,
                forall|a: int, k: int| 0 <= a < n && 0 <= k < variable_adjacency@[a]@.len()
                    ==> (#[trigger] variable_adjacency@[a]@[k]).0 < n,
                forall|x: usize, y: usize| x < n ==> #[trigger] adj_count(variable_adjacency@[x as int]@, y)
                    == cap_u64(cooccur(cs, ci as int, x, y)),
        {
            proof { assert(formula.clause_fits(formula.clauses@[ci as int])); }
            let variables = sorted_variables(&formula.clauses[ci]);
            let ghost vs = variables@;
            let ghost cl = cs[ci as int];
            proof {
                assert forall|k: int| 0 <= k < vs.len() implies #[trigger] vs[k] < n by {
                    assert(vs.contains(vs[k]));
                    let i = choose|i: int| 0 <= i < cl@.len() && (#[trigger] cl@[i]).var() == vs[k];
                    assert(formula.clause_fits(cl));
                    assert(cl@[i].wf());
                }
            }
            for i in 0..variables.len()
                invariant
                    variable_adjacency@.len() == n,
                    vs == variables@,
                    strictly_increasing(vs),
                    forall|k: int| 0 <= k < vs.len() ==> #[trigger] vs[k] < n,
                    forall|a: int, k: int| 0 <= a < n && 0 <= k < variable_adjacency@[a]@.len()
                        ==> (#[trigger] variable_adjacency@[a]@[k]).0 < n,
                    forall|x: usize, y: usize| x < n ==> #[trigger] adj_count(variable_adjacency@[x as int]@, y)
                        == cap_u64(cooccur(cs, ci as int, x, y) + if pair_done(vs, i as int, i + 1, x, y) { 1nat } else { 0nat }),
            {
                for j in i + 1..variables.len()
                    invariant
                        i < variables@.len(),
                        variable_adjacency@.len() == n,
                        vs == variables@,
                        strictly_increasing(vs),
                        forall|k: int| 0 <= k < vs.len() ==> #[trigger] vs[k] < n,
                        forall|a: int, k: int| 0 <= a < n && 0 <= k < variable_adjacency@[a]@.len()
                            ==> (#[trigger] variable_adjacency@[a]@[k]).0 < n,
                        forall|x: usize, y: usize| x < n ==> #[trigger] adj_count(variable_adjacency@[x as int]@, y)
                            == cap_u64(cooccur(cs, ci as int, x, y) + if pair_done(vs, i as int, j as int, x, y) { 1nat } else { 0nat }),
                {
                    let a = variables[i];
                    let b = variables[j];
                    proof { assert(a < n && b < n); assert(a < b); }
                    if a < n && b < n {
                        let ghost before = variable_adjacency@;
                        bump_adjacency(&mut variable_adjacency[a], b);
                        proof {
                            lemma_bump_counts(before[a as int]@, variable_adjacency@[a as int]@, b);
                            assert forall|x: int, k: int| 0 <= x < n && 0 <= k < variable_adjacency@[x]@.len()
                                implies (#[trigger] variable_adjacency@[x]@[k]).0 < n by {
                                if x != a as int {
                                    assert(variable_adjacency@[x] == before[x]);
                                }
                            }
                        }
                        let ghost before2 = variable_adjacency@;
                        bump_adjacency(&mut variable_adjacency[b], a);
                        proof {
                            lemma_bump_counts(before2[b as int]@, variable_adjacency@[b as int]@, a);
                            assert forall|x: int, k: int| 0 <= x < n && 0 <= k < variable_adjacency@[x]@.len()
                                implies (#[trigger] variable_adjacency@[x]@[k]).0 < n by {
                                if x != b as int {
                                    assert(variable_adjacency@[x] == before2[x]);
                                }
                            }
                            assert forall|x: usize, y: usize| x < n implies #[trigger] adj_count(variable_adjacency@[x as int]@, y)
                                == cap_u64(cooccur(cs, ci as int, x, y) + if pair_done(vs, i as int, j + 1, x, y) { 1nat } else { 0nat }) by {
                                lemma_pair_done_step(vs, i as int, j as int, x, y);
                                let base = cooccur(cs, ci as int, x, y);
                                assert(adj_count(before[x as int]@, y) == cap_u64(base + if pair_done(vs, i as int, j as int, x, y) { 1nat } else { 0nat }));
                                if x == a {
                                    assert(before2[x as int] == variable_adjacency@[x as int]);
                                } else if x == b {
                                    assert(before2[x as int] == before[x as int]);
                                } else {
                                    assert(variable_adjacency@[x as int] == before[x as int]);
                                }
                            }
                        }
                    }
                }
                proof {
                    assert forall|x: usize, y: usize| x < n implies #[trigger] adj_count(variable_adjacency@[x as int]@, y)
                        == cap_u64(cooccur(cs, ci as int, x, y) + if pair_done(vs, i + 1, i + 2, x, y) { 1nat } else { 0nat }) by {
                        lemma_pair_done_row(vs, i as int, x, y);
                    }
                }
            }
            proof {
                assert forall|x: usize, y: usize| x < n implies #[trigger] adj_count(variable_adjacency@[x as int]@, y)
                    == cap_u64(cooccur(cs, ci + 1, x, y)) by {
                    lemma_pair_done_all(vs, x, y);
                    assert(vs.contains(x) == has_var(cl, x));
                    assert(vs.contains(y) == has_var(cl, y));
                }
            }
        }
        let mut partials: Vec<Vec<i32>> = Vec::new();
        let mut partial_to_literals: Vec<Vec<i32>> = Vec::new();
        let mut literal_to_partials: Vec<Vec<usize>> = Vec::new();
        let mut clause_indices: Vec<Vec<(usize, Vec<usize>)>> = Vec::new();
        let mut literal_occurrences: Vec<usize> = Vec::new();
        for _u in 0..2 * n
            invariant
                literal_to_partials@.len() == _u,
                clause_indices@.len() == _u,
                literal_occurrences@.len() == _u,
                forall|u: int| 0 <= u < _u ==> (#[trigger] literal_to_partials@[u])@.len() == 0,
                forall|u: int| 0 <= u < _u ==> (#[trigger] clause_indices@[u])@.len() == 0,
        {
            literal_to_partials.push(Vec::new());
            clause_indices.push(Vec::new());
            literal_occurrences.push(0);
        }
        let ghost nn = n as nat;
        for clause_idx in 0..m
            invariant
                formula.wf(),
                n == formula.n_vars(),
                nn == n,
                m == formula.clauses@.len(),
                partial_to_literals@.len() == partials@.len(),
                literal_to_partials@.len() == 2 * n,
                clause_indices@.len() == 2 * n,
                literal_occurrences@.len() == 2 * n,
                forall|i: int| 0 <= i < partials@.len() ==> lits_ok(#[trigger] partials@[i]@, nn),
                forall|i: int| 0 <= i < partials@.len() ==> lits_ok(#[trigger] partial_to_literals@[i]@, nn),
                forall|u: int, k: int| 0 <= u < 2 * n && 0 <= k < literal_to_partials@[u]@.len()
                    ==> #[trigger] literal_to_partials@[u]@[k] < partials@.len(),
                forall|u: int, k: int| 0 <= u < 2 * n && 0 <= k < clause_indices@[u]@.len()
                    ==> (#[trigger] clause_indices@[u]@[k]).0 < partials@.len()
                        && forall|q: int| 0 <= q < clause_indices@[u]@[k].1@.len() ==> #[trigger] clause_indices@[u]@[k].1@[q] < m,
                forall|u: int, k: int, q: int| 0 <= u < clause_indices@.len() && 0 <= k < clause_indices@[u]@.len()
                    && 0 <= q < clause_indices@[u]@[k].1@.len() ==> formula.clauses@[#[trigger] clause_indices@[u]@[k].1@[q] as int].lock_count == 0,
                index_exact(clause_indices@, partials@, formula.clauses@),
                forall|c: usize, x: i32| c < clause_idx && bva_eligible(formula.clauses@[c as int])
                    && !clause_tautological(formula.clauses@[c as int]) && lits_as_i32(formula.clauses@[c as int]@).contains(x)
                    ==> #[trigger] listed_under(clause_indices@, x, c),
        {
            let clause = &formula.clauses[clause_idx];
            let ghost ci_start = clause_indices@;
            if bva_eligible_clause(clause) {
                proof { assert(formula.clause_fits(*clause)); }
                let sorted_clause = clause.sorted_literal_indices();
                proof {
                    assert forall|i: int| 0 <= i < sorted_clause@.len() implies lit_ok(#[trigger] sorted_clause@[i], nn) by {
                        let x = sorted_clause@[i];
                        vstd::seq_lib::to_multiset_contains(sorted_clause@, x);
                        vstd::seq_lib::to_multiset_contains(crate::formula::clause::lits_as_i32(clause@), x);
                        assert(sorted_clause@.contains(x));
                        let j = choose|j: int| 0 <= j < crate::formula::clause::lits_as_i32(clause@).len()
                            && crate::formula::clause::lits_as_i32(clause@)[j] == x;
                        assert(clause@[j].wf());
                        assert(clause@[j].var() < nn);
                    }
                }
                if !is_tautological(&sorted_clause) {
                    for li in 0..sorted_clause.len()
                        invariant
                            nn == n,
                            lits_ok(sorted_clause@, nn),
                            clause_idx < m,
                            partial_to_literals@.len() == partials@.len(),
                            literal_to_partials@.len() == 2 * n,
                            clause_indices@.len() == 2 * n,
                            literal_occurrences@.len() == 2 * n,
                            forall|i: int| 0 <= i < partials@.len() ==> lits_ok(#[trigger] partials@[i]@, nn),
                            forall|i: int| 0 <= i < partials@.len() ==> lits_ok(#[trigger] partial_to_literals@[i]@, nn),
                            forall|u: int, k: int| 0 <= u < 2 * n && 0 <= k < literal_to_partials@[u]@.len()
                                ==> #[trigger] literal_to_partials@[u]@[k] < partials@.len(),
                            forall|u: int, k: int| 0 <= u < 2 * n && 0 <= k < clause_indices@[u]@.len()
                                ==> (#[trigger] clause_indices@[u]@[k]).0 < partials@.len()
                                    && forall|q: int| 0 <= q < clause_indices@[u]@[k].1@.len() ==> #[trigger] clause_indices@[u]@[k].1@[q] < m,
                            formula.clauses@[clause_idx as int].lock_count == 0,
                            forall|u: int, k: int, q: int| 0 <= u < clause_indices@.len() && 0 <= k < clause_indices@[u]@.len()
                                && 0 <= q < clause_indices@[u]@[k].1@.len() ==> formula.clauses@[#[trigger] clause_indices@[u]@[k].1@[q] as int].lock_count == 0,
                            index_exact(clause_indices@, partials@, formula.clauses@),
                            sorted_clause@.to_multiset() == lits_as_i32(formula.clauses@[clause_idx as int]@).to_multiset(),
                            m == formula.clauses@.len(),
                            !(exists|i: int| 0 <= i < sorted_clause@.len() && sorted_clause@.contains((-(#[trigger] sorted_clause@[i])) as i32)),
                            records_grow(ci_start, clause_indices@),
                            forall|c: usize, x: i32| c < clause_idx && bva_eligible(formula.clauses@[c as int])
                                && !clause_tautological(formula.clauses@[c as int]) && lits_as_i32(formula.clauses@[c as int]@).contains(x)
                                ==> #[trigger] listed_under(ci_start, x, c),
                            forall|j: int| 0 <= j < li ==> #[trigger] listed_under(clause_indices@, sorted_clause@[j], clause_idx),
                    {
                        let lit = sorted_clause[li];
                        proof { assert(lit_ok(sorted_clause@[li as int], nn)); }
                        let partial = sorted_without(&sorted_clause, lit);
                        proof { lemma_without_ok(sorted_clause@, lit, nn); }
                        if !contains_i32(&partial, -lit) {
                            let mut found: Option<usize> = None;
                            for pi in 0..partials.len()
                                invariant
                                    found matches Some(f) ==> f < partials@.len() && partials@[f as int]@ == partial@,
                            {
                                if found.is_none() && crate::process::bve::same_key(&partials[pi], &partial) {
                                    found = Some(pi);
                                }
                            }
                            let partial_id = match found {
                                Some(f) => f,
                                None => {
                                    let id = partials.len();
                                    partials.push(partial);
                                    partial_to_literals.push(Vec::new());
                                    id
                                },
                            };
                            let u = key_of(lit);
                            let ghost p2l = partial_to_literals@;
                            insert_i32(&mut partial_to_literals[partial_id], lit);
                            proof {
                                assert forall|i: int| 0 <= i < partials@.len() implies lits_ok(#[trigger] partial_to_literals@[i]@, nn) by {
                                    if i != partial_id as int {
                                        assert(partial_to_literals@[i] == p2l[i]);
                                    } else {
                                        assert forall|q: int| 0 <= q < partial_to_literals@[i]@.len() implies lit_ok(#[trigger] partial_to_literals@[i]@[q], nn) by {
                                            if q < p2l[i]@.len() {
                                                assert(partial_to_literals@[i]@[q] == p2l[i]@[q]);
                                            }
                                        }
                                    }
                                }
                            }
                            let ghost l2p = literal_to_partials@;
                            insert_usize(&mut literal_to_partials[u], partial_id);
                            proof {
                                assert forall|uu: int, k: int| 0 <= uu < 2 * n && 0 <= k < literal_to_partials@[uu]@.len()
                                    implies #[trigger] literal_to_partials@[uu]@[k] < partials@.len() by {
                                    if uu != u as int {
                                        assert(literal_to_partials@[uu] == l2p[uu]);
                                    } else if k < l2p[uu]@.len() {
                                        assert(literal_to_partials@[uu]@[k] == l2p[uu]@[k]);
                                    }
                                }
                            }
                            let ghost ci = clause_indices@;
                            proof {
                                assert(sorted_clause@.contains(lit)) by { assert(sorted_clause@[li as int] == lit); }
                                lemma_grid_of_split(formula.clauses@[clause_idx as int], sorted_clause@, lit);
                                assert(partials@[partial_id as int]@ == partial@);
                            }
                            add_clause_index(&mut clause_indices[u], partial_id, clause_idx);
                            proof {
                                assert forall|uu: int, k: int| 0 <= uu < 2 * n && 0 <= k < clause_indices@[uu]@.len()
                                    implies (#[trigger] clause_indices@[uu]@[k]).0 < partials@.len()
                                        && forall|q: int| 0 <= q < clause_indices@[uu]@[k].1@.len() ==> #[trigger] clause_indices@[uu]@[k].1@[q] < m by {
                                    if uu != u as int {
                                        assert(clause_indices@[uu] == ci[uu]);
                                    } else {
                                        if k < ci[uu]@.len() {
                                            assert(clause_indices@[uu]@[k].0 == ci[uu]@[k].0);
                                        }
                                        assert forall|q: int| 0 <= q < clause_indices@[uu]@[k].1@.len() implies #[trigger] clause_indices@[uu]@[k].1@[q] < m by {
                                            if k < ci[uu]@.len() && q < ci[uu]@[k].1@.len() {
                                                assert(clause_indices@[uu]@[k].1@[q] == ci[uu]@[k].1@[q]);
                                            }
                                        }
                                    }
                                }
                                assert forall|uu: int, k: int, q: int| 0 <= uu < clause_indices@.len() && 0 <= k < clause_indices@[uu]@.len()
                                    && 0 <= q < clause_indices@[uu]@[k].1@.len() implies formula.clauses@[#[trigger] clause_indices@[uu]@[k].1@[q] as int].lock_count == 0 by {
                                    if uu != u as int {
                                        assert(clause_indices@[uu] == ci[uu]);
                                    } else if k < ci[uu]@.len() && q < ci[uu]@[k].1@.len() {
                                        assert(clause_indices@[uu]@[k].1@[q] == ci[uu]@[k].1@[q]);
                                    }
                                }
                                assert forall|uu: int, k: int| 0 <= uu < clause_indices@.len() && 0 <= k < clause_indices@[uu]@.len()
                                    implies (#[trigger] clause_indices@[uu]@[k]).1@.len() > 0 by {
                                    if uu != u as int {
                                        assert(clause_indices@[uu] == ci[uu]);
                                    }
                                }
                                assert forall|uu: int, k: int, q: int, x: i32|
                                    #![trigger clause_indices@[uu]@[k].1@[q], unsigned_index_of(x as int)]
                                    0 <= uu < clause_indices@.len() && 0 <= k < clause_indices@[uu]@.len() && 0 <= q < clause_indices@[uu]@[k].1@.len()
                                    && valid_lit_value(x as int) && unsigned_index_of(x as int) == uu
                                    implies grid_clause(formula.clauses@[clause_indices@[uu]@[k].1@[q] as int],
                                        partials@[clause_indices@[uu]@[k].0 as int]@, x) by {
                                    if uu != u as int {
                                        assert(clause_indices@[uu] == ci[uu]);
                                        assert(ci[uu]@[k].1@[q] == clause_indices@[uu]@[k].1@[q]);
                                    } else if k < ci[uu]@.len() && q < ci[uu]@[k].1@.len() {
                                        assert(clause_indices@[uu]@[k].1@[q] == ci[uu]@[k].1@[q]);
                                        assert(clause_indices@[uu]@[k].0 == ci[uu]@[k].0);
                                    } else {
                                        assert(clause_indices@[uu]@[k].1@[q] == clause_idx);
                                        if x != lit {
                                            crate::formula::literal::lemma_unsigned_index_injective(x as int, lit as int);
                                        }
                                    }
                                }
                            }
                            proof {
                                assert(records_grow(ci, clause_indices@)) by {
                                    assert forall|uu: int, k: int| 0 <= uu < ci.len() && 0 <= k < ci[uu]@.len()
                                        implies (#[trigger] ci[uu]@[k]).1@.is_prefix_of(clause_indices@[uu]@[k].1@) by {
                                        if uu != u as int {
                                            assert(clause_indices@[uu] == ci[uu]);
                                        }
                                    }
                                    assert forall|uu: int| 0 <= uu < ci.len() implies (#[trigger] clause_indices@[uu])@.len() >= ci[uu]@.len() by {
                                        if uu != u as int {
                                            assert(clause_indices@[uu] == ci[uu]);
                                        }
                                    }
                                }
                                lemma_records_grow_trans(ci_start, ci, clause_indices@);
                                assert(u as int == unsigned_index_of(lit as int));
                                let ul = clause_indices@[u as int]@;
                                if exists|k: int| 0 <= k < ci[u as int]@.len() && (#[trigger] ci[u as int]@[k]).0 == partial_id {
                                    let k = choose|k: int| 0 <= k < ci[u as int]@.len() && (#[trigger] ci[u as int]@[k]).0 == partial_id
                                        && (forall|j: int| 0 <= j < k ==> (#[trigger] ci[u as int]@[j]).0 != partial_id)
                                        && clause_indices@[u as int]@.len() == ci[u as int]@.len()
                                        && clause_indices@[u as int]@[k].1@ == ci[u as int]@[k].1@.push(clause_idx)
                                        && (forall|j: int| 0 <= j < ci[u as int]@.len() && j != k ==> #[trigger] clause_indices@[u as int]@[j] == ci[u as int]@[j]);
                                    assert(ul[k].1@[ul[k].1@.len() - 1] == clause_idx);
                                    assert(ul[k].1@.contains(clause_idx));
                                } else {
                                    let k = ci[u as int]@.len() as int;
                                    assert(ul[k].1@ == seq![clause_idx]);
                                    assert(ul[k].1@[0] == clause_idx);
                                    assert(ul[k].1@.contains(clause_idx));
                                }
                                assert(listed_under(clause_indices@, lit, clause_idx));
                                assert forall|j: int| 0 <= j < li + 1 implies #[trigger] listed_under(clause_indices@, sorted_clause@[j], clause_idx) by {
                                    if j < li {
                                        assert(listed_under(ci, sorted_clause@[j], clause_idx));
                                        assert(lit_ok(sorted_clause@[j], nn));
                                        lemma_listed_grow(ci, clause_indices@, sorted_clause@[j], clause_idx);
                                    }
                                }
                            }
                            let occ = literal_occurrences[u];
                            literal_occurrences.set(u, occ.saturating_add(1));
                        } else {
                            proof {
                                lemma_without_contains(sorted_clause@, lit, (-lit) as i32);
                                assert(sorted_clause@.contains((-(sorted_clause@[li as int])) as i32));
                                assert(false);
                            }
                        }
                    }
                    proof {
                        assert forall|c: usize, x: i32| c < clause_idx + 1 && bva_eligible(formula.clauses@[c as int])
                            && !clause_tautological(formula.clauses@[c as int]) && lits_as_i32(formula.clauses@[c as int]@).contains(x)
                            implies #[trigger] listed_under(clause_indices@, x, c) by {
                            if c < clause_idx {
                                lemma_lits_as_i32_ok(formula, c as int, x);
                                lemma_listed_grow(ci_start, clause_indices@, x, c);
                            } else {
                                vstd::seq_lib::to_multiset_contains(lits_as_i32(formula.clauses@[clause_idx as int]@), x);
                                vstd::seq_lib::to_multiset_contains(sorted_clause@, x);
                                let j = choose|j: int| 0 <= j < sorted_clause@.len() && sorted_clause@[j] == x;
                                assert(listed_under(clause_indices@, sorted_clause@[j], clause_idx));
                            }
                        }
                    }
                } else {
                    proof { lemma_taut_sorted(formula.clauses@[clause_idx as int], sorted_clause@); }
                }
            }
        }
        BvaIndex {
            partials,
            partial_to_literals,
            literal_to_partials,
            clause_indices,
            literal_occurrences,
            variable_adjacency,
            n_vars: n,
            n_clauses: m,
        }
    }
}


/// `a * b`, capped at `u64::MAX`.
fn sat_mul(a: u64, b: u64) -> (r: u64)
    ensures
        r == if a * b > u64::MAX { u64::MAX as int } else { a * b },
{
    match a.checked_mul(b) {
        Some(x) => x,
        None => u64::MAX,
    }
}

/// `a * b`, capped at `u64::MAX`.
pub open spec fn sat_mul_spec(a: u64, b: u64) -> u64 {
    if a * b > u64::MAX { u64::MAX } else { (a * b) as u64 }
}

/// The weight of the first edge to `b` among `ns`, if any.
pub open spec fn first_weight(ns: Seq<(usize, u64)>, b: usize) -> Option<u64>
    decreases ns.len(),
{
    if ns.len() == 0 {
        None
    } else {
        match first_weight(ns.drop_last(), b) {
            Some(w) => Some(w),
            None => if ns.last().0 == b { Some(ns.last().1) } else { None },
        }
    }
}

/// `score` plus (saturating) the paths `a -wa- m -wm- c -wb- b` over the middle edges `ms`.
pub open spec fn hop_inner(adj: Seq<Vec<(usize, u64)>>, score: u64, wa: u64, ms: Seq<(usize, u64)>, b: usize) -> u64
    decreases ms.len(),
{
    if ms.len() == 0 {
        score
    } else {
        let s = hop_inner(adj, score, wa, ms.drop_last(), b);
        match first_weight(adj[ms.last().0 as int]@, b) {
            Some(wb) => crate::stats::sat_add(s, sat_mul_spec(sat_mul_spec(wa, ms.last().1), wb) as int),
            None => s,
        }
    }
}

/// The saturating weighted count of three-step paths to `b` starting with the edges `ns`.
pub open spec fn hop_outer(adj: Seq<Vec<(usize, u64)>>, ns: Seq<(usize, u64)>, b: usize) -> u64
    decreases ns.len(),
{
    if ns.len() == 0 {
        0
    } else {
        hop_inner(adj, hop_outer(adj, ns.drop_last(), b), ns.last().1, adj[ns.last().0 as int]@, b)
    }
}

/// The three-hop score of variables `a` and `b` in `index`.
pub open spec fn hop_score(index: BvaIndex, a: usize, b: usize) -> u64 {
    if a < index.variable_adjacency@.len() {
        hop_outer(index.variable_adjacency@, index.variable_adjacency@[a as int]@, b)
    } else {
        0
    }
}

/// The weighted number of three-step paths from variable `a` to variable `b` in the
/// co-occurrence graph (products of the edge counts, saturating).
pub fn three_hop_score(index: &BvaIndex, a: usize, b: usize) -> (r: u64)
    requires
        index.wf(),
    ensures
        r == hop_score(*index, a, b),
{
    let mut score: u64 = 0;
    if a >= index.variable_adjacency.len() {
        return 0;
    }
    let ghost adj = index.variable_adjacency@;
    let a_neighbors = &index.variable_adjacency[a];
    for i in 0..a_neighbors.len()
        invariant
            index.wf(),
            adj == index.variable_adjacency@,
            a < index.n_vars,
            *a_neighbors == index.variable_adjacency@[a as int],
            score == hop_outer(adj, a_neighbors@.subrange(0, i as int), b),
    {
        let (mid_a, weight_a) = a_neighbors[i];
        proof { assert(index.variable_adjacency@[a as int]@[i as int].0 < index.n_vars); }
        let ghost score0 = score;
        let mid_a_neighbors = &index.variable_adjacency[mid_a];
        for j in 0..mid_a_neighbors.len()
            invariant
                index.wf(),
                adj == index.variable_adjacency@,
                mid_a < index.n_vars,
                *mid_a_neighbors == index.variable_adjacency@[mid_a as int],
                score == hop_inner(adj, score0, weight_a, mid_a_neighbors@.subrange(0, j as int), b),
        {
            let (mid_b, weight_mid) = mid_a_neighbors[j];
            proof { assert(index.variable_adjacency@[mid_a as int]@[j as int].0 < index.n_vars); }
            let mid_b_neighbors = &index.variable_adjacency[mid_b];
            let mut weight_b: Option<u64> = None;
            for k in 0..mid_b_neighbors.len()
                invariant
                    weight_b == first_weight(mid_b_neighbors@.subrange(0, k as int), b),
            {
                proof {
                    assert(mid_b_neighbors@.subrange(0, k + 1).drop_last() =~= mid_b_neighbors@.subrange(0, k as int));
                }
                if weight_b.is_none() && mid_b_neighbors[k].0 == b {
                    weight_b = Some(mid_b_neighbors[k].1);
                }
            }
            proof {
                assert(mid_b_neighbors@.subrange(0, mid_b_neighbors@.len() as int) =~= mid_b_neighbors@);
                assert(mid_a_neighbors@.subrange(0, j + 1).drop_last() =~= mid_a_neighbors@.subrange(0, j as int));
            }
            if let Some(wb) = weight_b {
                score = score.saturating_add(sat_mul(sat_mul(weight_a, weight_mid), wb));
            }
        }
        proof {
            assert(mid_a_neighbors@.subrange(0, mid_a_neighbors@.len() as int) =~= mid_a_neighbors@);
            assert(a_neighbors@.subrange(0, i + 1).drop_last() =~= a_neighbors@.subrange(0, i as int));
        }
    }
    proof {
        assert(a_neighbors@.subrange(0, a_neighbors@.len() as int) =~= a_neighbors@);
    }
    score
}

/// Candidate `x` (a literal and the number of partials holding it) comes before `y` when
/// choosing the next literal of a grid started at variable `start_var`: more partials, then a
/// higher three-hop score, then `tie_less`.
pub open spec fn next_literal_before(index: BvaIndex, start_var: usize, x: (i32, usize), y: (i32, usize)) -> bool {
    let hx = hop_score(index, start_var, var_of(x.0 as int) as usize);
    let hy = hop_score(index, start_var, var_of(y.0 as int) as usize);
    ||| x.1 > y.1
    ||| (x.1 == y.1 && hx > hy)
    ||| (x.1 == y.1 && hx == hy && tie_less(x.0, y.0))
}

/// The literal to add next to a grid started at `start`: the one in most of the current
/// partials, then with the highest three-hop score to `start`, then the smallest by `tie_less`;
/// with the number of partials holding it. `None` when no literal occurs in a partial.
pub fn choose_next_literal(index: &BvaIndex, start: i32, counts: &Vec<(i32, usize)>) -> (r: Option<(i32, usize)>)
    requires
        index.wf(),
        lit_ok(start, index.n_vars as nat),
        forall|k: int| 0 <= k < counts@.len() ==> lit_ok((#[trigger] counts@[k]).0, index.n_vars as nat),
    ensures
        r is None <==> forall|k: int| 0 <= k < counts@.len() ==> (#[trigger] counts@[k]).1 == 0,
        r matches Some(p) ==> exists|k: int| 0 <= k < counts@.len() && #[trigger] counts@[k] == p && p.1 > 0,
        r matches Some(p) ==> forall|k: int| 0 <= k < counts@.len() && (#[trigger] counts@[k]).1 > 0
            ==> !next_literal_before(*index, var_of(start as int) as usize, counts@[k], p),
{
    let start_var = Literal::new(start).get_variable();
    let mut best: Option<(i32, usize, u64)> = None;
    for k in 0..counts.len()
        invariant
            index.wf(),
            start_var == var_of(start as int),
            forall|q: int| 0 <= q < counts@.len() ==> lit_ok((#[trigger] counts@[q]).0, index.n_vars as nat),
            best matches Some(b) ==> exists|q: int| 0 <= q < counts@.len() && (#[trigger] counts@[q]) == (b.0, b.1) && b.1 > 0,
            best matches Some(b) ==> b.2 == hop_score(*index, start_var, var_of(b.0 as int) as usize),
            best is None <==> forall|q: int| 0 <= q < k ==> (#[trigger] counts@[q]).1 == 0,
            best matches Some(b) ==> forall|q: int| 0 <= q < k && (#[trigger] counts@[q]).1 > 0
                ==> !next_literal_before(*index, start_var, counts@[q], (b.0, b.1)),
    {
        let (lit, count) = counts[k];
        if count != 0 {
            proof { assert(lit_ok(counts@[k as int].0, index.n_vars as nat)); }
            let hop_score_k = three_hop_score(index, start_var, Literal::new(lit).get_variable());
            let replace = match best {
                None => true,
                Some((best_lit, best_count, best_hop_score)) => {
                    count > best_count || (count == best_count && hop_score_k > best_hop_score)
                        || (count == best_count && hop_score_k == best_hop_score && {
                            proof {
                                let q = choose|q: int| 0 <= q < counts@.len() && (#[trigger] counts@[q]) == (best_lit, best_count);
                                assert(lit_ok(counts@[q].0, index.n_vars as nat));
                            }
                            tie_less_exec(lit, best_lit)
                        })
                },
            };
            if replace {
                proof {
                    if best is Some {
                        let b = best->0;
                        let q0 = choose|q: int| 0 <= q < counts@.len() && (#[trigger] counts@[q]) == (b.0, b.1) && b.1 > 0;
                        assert(lit_ok(counts@[q0].0, index.n_vars as nat));
                        assert forall|q: int| 0 <= q < k + 1 && (#[trigger] counts@[q]).1 > 0 implies
                            !next_literal_before(*index, start_var, counts@[q], (lit, count)) by {
                            if q < k {
                                assert(lit_ok(counts@[q].0, index.n_vars as nat));
                                assert(!next_literal_before(*index, start_var, counts@[q], (b.0, b.1)));
                            }
                        }
                    }
                }
                best = Some((lit, count, hop_score_k));
                proof { assert(counts@[k as int] == (lit, count)); }
            } else {
                proof {
                    let b = best->0;
                    let q0 = choose|q: int| 0 <= q < counts@.len() && (#[trigger] counts@[q]) == (b.0, b.1) && b.1 > 0;
                    assert(lit_ok(counts@[q0].0, index.n_vars as nat));
                    assert(!next_literal_before(*index, start_var, counts@[k as int], (b.0, b.1)));
                }
            }
        }
    }
    match best {
        Some((lit, count, _)) => Some((lit, count)),
        None => None,
    }
}

/// Clause `ci` of `cs` is, as a set of literals, one of `lits` joined to one of `parts`.
pub open spec fn in_grid(cs: Seq<Clause>, ci: usize, lits: Seq<i32>, parts: Seq<Seq<i32>>) -> bool {
    exists|i: int, j: int| 0 <= i < lits.len() && 0 <= j < parts.len()
        && #[trigger] grid_clause(cs[ci as int], parts[j], lits[i])
}

/// Some clause of `cs` named in `idx` is `lit` joined to `part`.
pub open spec fn covers(cs: Seq<Clause>, idx: Seq<usize>, lit: i32, part: Seq<i32>) -> bool {
    exists|k: int| 0 <= k < idx.len() && #[trigger] grid_clause(cs[idx[k] as int], part, lit)
}

/// The values of each partial clause.
pub open spec fn partial_seqs(ps: Seq<Vec<i32>>) -> Seq<Seq<i32>> {
    Seq::new(ps.len(), |j: int| ps[j]@)
}

/// The rewrite `c` matches the clauses `cs`: each clause it deletes is one of its literals joined
/// to one of its partials, and each such pair has a clause among those it deletes.
pub open spec fn grid_ok(c: BvaCandidate, cs: Seq<Clause>) -> bool {
    &&& forall|k: int| 0 <= k < c.to_delete@.len() ==> in_grid(cs, #[trigger] c.to_delete@[k], c.literals@, partial_seqs(c.partials@))
    &&& forall|i: int, j: int| 0 <= i < c.literals@.len() && 0 <= j < c.partials@.len()
        ==> #[trigger] covers(cs, c.to_delete@, c.literals@[i], c.partials@[j]@)
}

/// A bounded-variable-addition rewrite: the clauses `l ∨ p` for every literal `l` of `literals`
/// and partial `p` of `partials` (the clauses `to_delete`) become `¬z ∨ l` and `z ∨ p` for a
/// fresh variable `z`.
pub struct BvaCandidate {
    pub start: i32,
    pub start_occurrences: usize,
    pub literals: Vec<i32>,
    pub partials: Vec<Vec<i32>>,
    pub to_delete: Vec<usize>,
    pub added_clauses: usize,
    pub clause_saving: i128,
    pub size_saving: i128,
    pub literal_saving: i128,
}

impl BvaCandidate {
    /// Literals usable with `n` variable slots and clause indices below `m`.
    pub open spec fn wf(&self, n: nat, m: nat) -> bool {
        &&& lit_ok(self.start, n)
        &&& lits_ok(self.literals@, n)
        &&& forall|i: int| 0 <= i < self.partials@.len() ==> lits_ok(#[trigger] self.partials@[i]@, n)
        &&& strictly_increasing(self.to_delete@)
        &&& forall|k: int| 0 <= k < self.to_delete@.len() ==> #[trigger] self.to_delete@[k] < m
    }

    /// The clauses to delete are unlocked in `cs`.
    pub open spec fn unlocked_in(&self, cs: Seq<Clause>) -> bool {
        forall|k: int| 0 <= k < self.to_delete@.len() ==> cs[#[trigger] self.to_delete@[k] as int].lock_count == 0
    }

    /// More clauses saved, then more literals saved, then a more frequent start literal, then
    /// the smaller start literal by `tie_less`.
    pub fn is_better_than(&self, other: &Self) -> (r: bool)
        requires
            valid_lit_value(self.start as int),
            valid_lit_value(other.start as int),
        ensures
            r == (self.clause_saving > other.clause_saving
                || (self.clause_saving == other.clause_saving && self.literal_saving > other.literal_saving)
                || (self.clause_saving == other.clause_saving && self.literal_saving == other.literal_saving
                    && self.start_occurrences > other.start_occurrences)
                || (self.clause_saving == other.clause_saving && self.literal_saving == other.literal_saving
                    && self.start_occurrences == other.start_occurrences && tie_less(self.start, other.start))),
    {
        self.clause_saving > other.clause_saving
            || (self.clause_saving == other.clause_saving && self.literal_saving > other.literal_saving)
            || (self.clause_saving == other.clause_saving && self.literal_saving == other.literal_saving
                && self.start_occurrences > other.start_occurrences)
            || (self.clause_saving == other.clause_saving && self.literal_saving == other.literal_saving
                && self.start_occurrences == other.start_occurrences && tie_less_exec(self.start, other.start))
    }
}

/// Adds one to the count of `lit` (a new entry starts at 1).
fn bump_count(counts: &mut Vec<(i32, usize)>, lit: i32)
    ensures
        forall|k: int| 0 <= k < final(counts)@.len() ==> (#[trigger] final(counts)@[k]).0 == lit
            || (k < old(counts)@.len() && final(counts)@[k].0 == old(counts)@[k].0),
        (exists|k: int| 0 <= k < old(counts)@.len() && (#[trigger] old(counts)@[k]).0 == lit) ==> exists|k: int|
            0 <= k < old(counts)@.len() && (#[trigger] old(counts)@[k]).0 == lit
            && (forall|j: int| 0 <= j < k ==> (#[trigger] old(counts)@[j]).0 != lit)
            && final(counts)@ == old(counts)@.update(k, (lit, crate::process::bve::sat_add_usize(old(counts)@[k].1, 1))),
        (forall|k: int| 0 <= k < old(counts)@.len() ==> (#[trigger] old(counts)@[k]).0 != lit)
            ==> final(counts)@ == old(counts)@.push((lit, 1usize)),
{
    let len = counts.len();
    for k in 0..len
        invariant
            len == old(counts)@.len(),
            counts@ == old(counts)@,
            forall|q: int| 0 <= q < k ==> (#[trigger] old(counts)@[q]).0 != lit,
    {
        if counts[k].0 == lit {
            let c = counts[k].1;
            counts.set(k, (lit, c.saturating_add(1)));
            return;
        }
    }
    counts.push((lit, 1));
}

/// How many times `x` occurs in `s`.
pub open spec fn occ(s: Seq<i32>, x: i32) -> nat
    decreases s.len(),
{
    if s.len() == 0 {
        0
    } else {
        occ(s.drop_last(), x) + if s.last() == x { 1nat } else { 0nat }
    }
}

/// The (capped) number of times `x` is offered by the partials `pids` (each partial offers the
/// literals it was seen with), or 0 when `x` is already in the grid `lits`.
pub open spec fn grid_count(index: BvaIndex, lits: Seq<i32>, pids: Seq<usize>, x: i32) -> usize
    decreases pids.len(),
{
    if lits.contains(x) || pids.len() == 0 {
        0
    } else {
        crate::process::bve::sat_add_usize(grid_count(index, lits, pids.drop_last(), x),
            occ(index.partial_to_literals@[pids.last() as int]@, x) as int)
    }
}

/// The count list `cs` (distinct literals, positive counts) lists exactly the literals whose
/// count `cnt` is positive, with that count.
pub open spec fn counts_exact(cs: Seq<(i32, usize)>, cnt: spec_fn(i32) -> usize) -> bool {
    &&& forall|k: int| 0 <= k < cs.len() ==> (#[trigger] cs[k]).1 == cnt(cs[k].0) && cs[k].1 > 0
    &&& forall|x: i32| #[trigger] cnt(x) > 0 ==> exists|k: int| 0 <= k < cs.len() && (#[trigger] cs[k]).0 == x
    &&& forall|i: int, j: int| 0 <= i < j < cs.len() ==> (#[trigger] cs[i]).0 != (#[trigger] cs[j]).0
}

/// The count of every literal offered by the partials `pids` and not yet in the grid `lits`.
pub fn grid_counts(index: &BvaIndex, lits: &Vec<i32>, pids: &Vec<usize>) -> (r: Vec<(i32, usize)>)
    requires
        index.wf(),
        forall|k: int| 0 <= k < pids@.len() ==> #[trigger] pids@[k] < index.partials@.len(),
    ensures
        counts_exact(r@, |x: i32| grid_count(*index, lits@, pids@, x)),
        forall|k: int| 0 <= k < r@.len() ==> lit_ok((#[trigger] r@[k]).0, index.n_vars as nat),
{
    let ghost n = index.n_vars as nat;
    let mut counts: Vec<(i32, usize)> = Vec::new();
    for pi in 0..pids.len()
        invariant
            index.wf(),
            n == index.n_vars,
            forall|k: int| 0 <= k < pids@.len() ==> #[trigger] pids@[k] < index.partials@.len(),
            forall|k: int| 0 <= k < counts@.len() ==> lit_ok((#[trigger] counts@[k]).0, n),
            counts_exact(counts@, |x: i32| grid_count(*index, lits@, pids@.subrange(0, pi as int), x)),
    {
        let pid = pids[pi];
        let cands = &index.partial_to_literals[pid];
        let ghost before = pids@.subrange(0, pi as int);
        let ghost after = pids@.subrange(0, pi + 1);
        proof {
            assert(lits_ok(index.partial_to_literals@[pid as int]@, n));
            assert(after.drop_last() =~= before);
            assert(after.last() == pid);
            let c0 = |x: i32| grid_count(*index, lits@, before, x);
            let c1 = |x: i32| if lits@.contains(x) { 0usize } else {
                crate::process::bve::sat_add_usize(grid_count(*index, lits@, before, x), occ(cands@.subrange(0, 0), x) as int) };
            assert forall|x: i32| #[trigger] c1(x) == c0(x) by {
                assert(occ(cands@.subrange(0, 0), x) == 0);
            }
            assert forall|kk: int| 0 <= kk < counts@.len() implies (#[trigger] counts@[kk]).1 == c1(counts@[kk].0) && counts@[kk].1 > 0 by {
                assert(c1(counts@[kk].0) == c0(counts@[kk].0));
            }
            assert forall|x: i32| #[trigger] c1(x) > 0 implies exists|kk: int| 0 <= kk < counts@.len() && (#[trigger] counts@[kk]).0 == x by {
                assert(c1(x) == c0(x));
            }
        }
        for ci in 0..cands.len()
            invariant
                *cands == index.partial_to_literals@[pid as int],
                lits_ok(cands@, n),
                forall|k: int| 0 <= k < counts@.len() ==> lit_ok((#[trigger] counts@[k]).0, n),
                counts_exact(counts@, |x: i32| if lits@.contains(x) { 0usize } else {
                    crate::process::bve::sat_add_usize(grid_count(*index, lits@, before, x), occ(cands@.subrange(0, ci as int), x) as int) }),
        {
            let candidate_lit = cands[ci];
            let ghost old_cnt = |x: i32| if lits@.contains(x) { 0usize } else {
                crate::process::bve::sat_add_usize(grid_count(*index, lits@, before, x), occ(cands@.subrange(0, ci as int), x) as int) };
            let ghost new_cnt = |x: i32| if lits@.contains(x) { 0usize } else {
                crate::process::bve::sat_add_usize(grid_count(*index, lits@, before, x), occ(cands@.subrange(0, ci + 1), x) as int) };
            proof {
                assert(cands@.subrange(0, ci + 1).drop_last() =~= cands@.subrange(0, ci as int));
                assert(cands@.subrange(0, ci + 1).last() == candidate_lit);
                assert forall|x: i32| x != candidate_lit implies #[trigger] new_cnt(x) == old_cnt(x) by {
                    assert(occ(cands@.subrange(0, ci + 1), x) == occ(cands@.subrange(0, ci as int), x));
                }
                assert(occ(cands@.subrange(0, ci + 1), candidate_lit) == occ(cands@.subrange(0, ci as int), candidate_lit) + 1);
            }
            let in_grid_already = contains_i32(lits, candidate_lit);
            if !in_grid_already {
                let ghost cb = counts@;
                bump_count(&mut counts, candidate_lit);
                proof {
                    assert(lit_ok(cands@[ci as int], n));
                    assert forall|k: int| 0 <= k < counts@.len() implies lit_ok((#[trigger] counts@[k]).0, n) by {
                        if counts@[k].0 != candidate_lit {
                            assert(lit_ok(cb[k].0, n));
                        }
                    }
                    if exists|k: int| 0 <= k < cb.len() && (#[trigger] cb[k]).0 == candidate_lit {
                        let k = choose|k: int| 0 <= k < cb.len() && (#[trigger] cb[k]).0 == candidate_lit
                            && (forall|j: int| 0 <= j < k ==> (#[trigger] cb[j]).0 != candidate_lit)
                            && counts@ == cb.update(k, (candidate_lit, crate::process::bve::sat_add_usize(cb[k].1, 1)));
                        assert forall|kk: int| 0 <= kk < counts@.len() implies (#[trigger] counts@[kk]).1 == new_cnt(counts@[kk].0) && counts@[kk].1 > 0 by {
                            if kk != k {
                                assert(counts@[kk] == cb[kk]);
                                assert(cb[kk].0 != candidate_lit);
                            }
                        }
                        assert forall|x: i32| #[trigger] new_cnt(x) > 0 implies exists|kk: int| 0 <= kk < counts@.len() && (#[trigger] counts@[kk]).0 == x by {
                            if x != candidate_lit {
                                assert(old_cnt(x) > 0);
                                let kk = choose|kk: int| 0 <= kk < cb.len() && (#[trigger] cb[kk]).0 == x;
                                assert(counts@[kk].0 == x);
                            } else {
                                assert(counts@[k].0 == x);
                            }
                        }
                        assert forall|i: int, j: int| 0 <= i < j < counts@.len() implies (#[trigger] counts@[i]).0 != (#[trigger] counts@[j]).0 by {
                            assert(counts@[i].0 == cb[i].0 && counts@[j].0 == cb[j].0);
                            assert(cb[i].0 != cb[j].0);
                        }
                    } else {
                        assert(counts@ == cb.push((candidate_lit, 1usize)));
                        assert(old_cnt(candidate_lit) == 0) by {
                            if old_cnt(candidate_lit) > 0 {
                                let kk = choose|kk: int| 0 <= kk < cb.len() && (#[trigger] cb[kk]).0 == candidate_lit;
                            }
                        }
                        assert forall|kk: int| 0 <= kk < counts@.len() implies (#[trigger] counts@[kk]).1 == new_cnt(counts@[kk].0) && counts@[kk].1 > 0 by {
                            if kk < cb.len() {
                                assert(counts@[kk] == cb[kk]);
                                assert(cb[kk].0 != candidate_lit);
                            }
                        }
                        assert forall|x: i32| #[trigger] new_cnt(x) > 0 implies exists|kk: int| 0 <= kk < counts@.len() && (#[trigger] counts@[kk]).0 == x by {
                            if x != candidate_lit {
                                assert(old_cnt(x) > 0);
                                let kk = choose|kk: int| 0 <= kk < cb.len() && (#[trigger] cb[kk]).0 == x;
                                assert(counts@[kk].0 == x);
                            } else {
                                assert(counts@[cb.len() as int].0 == x);
                            }
                        }
                        assert forall|i: int, j: int| 0 <= i < j < counts@.len() implies (#[trigger] counts@[i]).0 != (#[trigger] counts@[j]).0 by {
                            if j < cb.len() {
                                assert(counts@[i].0 == cb[i].0 && counts@[j].0 == cb[j].0);
                                assert(cb[i].0 != cb[j].0);
                            } else {
                                assert(counts@[i].0 == cb[i].0);
                            }
                        }
                    }
                }
            } else {
                proof {
                    assert forall|x: i32| #[trigger] new_cnt(x) == old_cnt(x) by {
                        if x == candidate_lit {
                            assert(lits@.contains(x));
                        }
                    }
                    assert(counts_exact(counts@, new_cnt)) by {
                        assert forall|kk: int| 0 <= kk < counts@.len() implies (#[trigger] counts@[kk]).1 == new_cnt(counts@[kk].0) && counts@[kk].1 > 0 by {
                            assert(new_cnt(counts@[kk].0) == old_cnt(counts@[kk].0));
                        }
                        assert forall|x: i32| #[trigger] new_cnt(x) > 0 implies exists|kk: int| 0 <= kk < counts@.len() && (#[trigger] counts@[kk]).0 == x by {
                            assert(new_cnt(x) == old_cnt(x));
                        }
                    }
                }
            }
        }
        proof {
            assert(cands@.subrange(0, cands@.len() as int) =~= cands@);
            let gc_after = |x: i32| grid_count(*index, lits@, after, x);
            let fin = |x: i32| if lits@.contains(x) { 0usize } else {
                crate::process::bve::sat_add_usize(grid_count(*index, lits@, before, x), occ(cands@.subrange(0, cands@.len() as int), x) as int) };
            assert forall|x: i32| #[trigger] gc_after(x) == fin(x) by {
                assert(index.partial_to_literals@[after.last() as int]@ == cands@);
            }
            assert forall|kk: int| 0 <= kk < counts@.len() implies (#[trigger] counts@[kk]).1 == gc_after(counts@[kk].0) && counts@[kk].1 > 0 by {
                assert(gc_after(counts@[kk].0) == fin(counts@[kk].0));
            }
            assert forall|x: i32| #[trigger] gc_after(x) > 0 implies exists|kk: int| 0 <= kk < counts@.len() && (#[trigger] counts@[kk]).0 == x by {
                assert(gc_after(x) == fin(x));
            }
        }
    }
    proof {
        assert(pids@.subrange(0, pids@.len() as int) =~= pids@);
    }
    counts
}

/// `p` (a literal and its count) is the literal the grid `lits` over the partials `pids` grows by
/// next: offered most often, then with the highest three-hop score to `start`, then the
/// smallest by `tie_less` (see `next_literal_before`).
pub open spec fn grid_best(index: BvaIndex, start: i32, lits: Seq<i32>, pids: Seq<usize>, p: (i32, usize)) -> bool {
    &&& valid_lit_value(p.0 as int)
    &&& p.1 == grid_count(index, lits, pids, p.0)
    &&& p.1 > 0
    &&& forall|x: i32| #[trigger] grid_count(index, lits, pids, x) > 0
        ==> !next_literal_before(index, var_of(start as int) as usize, (x, grid_count(index, lits, pids, x)), p)
}

/// The next literal of the greedy grid, if any literal is offered.
pub open spec fn grid_next(index: BvaIndex, start: i32, lits: Seq<i32>, pids: Seq<usize>) -> Option<(i32, usize)> {
    if exists|p: (i32, usize)| #[trigger] grid_best(index, start, lits, pids, p) {
        Some(choose|p: (i32, usize)| #[trigger] grid_best(index, start, lits, pids, p))
    } else {
        None
    }
}

/// At most one literal is the best next one.
pub proof fn lemma_grid_best_unique(index: BvaIndex, start: i32, lits: Seq<i32>, pids: Seq<usize>, p: (i32, usize), q: (i32, usize))
    requires
        grid_best(index, start, lits, pids, p),
        grid_best(index, start, lits, pids, q),
    ensures
        p == q,
{
    assert(grid_count(index, lits, pids, q.0) > 0);
    assert(grid_count(index, lits, pids, p.0) > 0);
    assert(!next_literal_before(index, var_of(start as int) as usize, (q.0, grid_count(index, lits, pids, q.0)), p));
    assert(!next_literal_before(index, var_of(start as int) as usize, (p.0, grid_count(index, lits, pids, p.0)), q));
}

/// The partials of `pids` that have a clause with `lit`, in order.
pub open spec fn keep(index: BvaIndex, pids: Seq<usize>, lit: i32) -> Seq<usize>
    decreases pids.len(),
{
    if pids.len() == 0 {
        Seq::empty()
    } else if index.has_record(lit, pids.last()) {
        keep(index, pids.drop_last(), lit).push(pids.last())
    } else {
        keep(index, pids.drop_last(), lit)
    }
}

/// The clauses a grid of `l` literals and `p` partials saves.
pub open spec fn saving_of(l: int, p: int) -> int {
    l * p - l - p
}

/// The grid grown greedily from `lits` over `pids` (worth `saving`) while the saving grows, for
/// at most `fuel` more literals.
pub open spec fn grow(index: BvaIndex, start: i32, lits: Seq<i32>, pids: Seq<usize>, saving: int, fuel: nat)
    -> (Seq<i32>, Seq<usize>, int)
    decreases fuel,
{
    if fuel == 0 {
        (lits, pids, saving)
    } else {
        match grid_next(index, start, lits, pids) {
            None => (lits, pids, saving),
            Some(p) => if saving_of(lits.len() as int + 1, p.1 as int) <= saving {
                (lits, pids, saving)
            } else {
                grow(index, start, lits.push(p.0), keep(index, pids, p.0), saving_of(lits.len() as int + 1, p.1 as int), (fuel - 1) as nat)
            },
        }
    }
}

/// `ps` lists the partials of the start literal, once each, in increasing order.
pub open spec fn start_pids(index: BvaIndex, start: i32, ps: Seq<usize>) -> bool {
    &&& strictly_increasing(ps)
    &&& forall|x: usize| #[trigger] ps.contains(x)
        <==> index.literal_to_partials@[unsigned_index_of(start as int) as int]@.contains(x)
}

/// The greedy grid from `start` (starting from the partials `ps` of `start`).
pub open spec fn greedy_grid(index: BvaIndex, start: i32, ps: Seq<usize>) -> (Seq<i32>, Seq<usize>, int) {
    grow(index, start, seq![start], ps, saving_of(1, ps.len() as int), 2 * index.n_vars as nat)
}

/// The partials of `pids` that have a clause with `lit`.
pub fn keep_partials(index: &BvaIndex, pids: &Vec<usize>, lit: i32) -> (r: Vec<usize>)
    requires
        index.wf(),
        lit_ok(lit, index.n_vars as nat),
        forall|k: int| 0 <= k < pids@.len() ==> #[trigger] pids@[k] < index.partials@.len(),
    ensures
        r@ == keep(*index, pids@, lit),
        forall|k: int| 0 <= k < r@.len() ==> #[trigger] r@[k] < index.partials@.len(),
{
    let mut kept: Vec<usize> = Vec::new();
    for pi in 0..pids.len()
        invariant
            index.wf(),
            lit_ok(lit, index.n_vars as nat),
            forall|k: int| 0 <= k < pids@.len() ==> #[trigger] pids@[k] < index.partials@.len(),
            forall|k: int| 0 <= k < kept@.len() ==> #[trigger] kept@[k] < index.partials@.len(),
            kept@ == keep(*index, pids@.subrange(0, pi as int), lit),
    {
        proof {
            assert(pids@.subrange(0, pi + 1).drop_last() =~= pids@.subrange(0, pi as int));
            assert(pids@.subrange(0, pi + 1).last() == pids@[pi as int]);
        }
        if index.has_clause_for(lit, pids[pi]) {
            kept.push(pids[pi]);
        }
    }
    proof { assert(pids@.subrange(0, pids@.len() as int) =~= pids@); }
    kept
}

/// Position `k` of the records `l` is the first for partial `pid`.
pub open spec fn first_rec_at(l: Seq<(usize, Vec<usize>)>, pid: usize, k: int) -> bool {
    &&& 0 <= k < l.len()
    &&& l[k].0 == pid
    &&& forall|j: int| 0 <= j < k ==> (#[trigger] l[j]).0 != pid
}

/// The clause indices of the first record of literal `lit` for partial `pid` (none without one).
pub open spec fn first_rec(index: BvaIndex, lit: i32, pid: usize) -> Seq<usize> {
    let l = index.clause_indices@[unsigned_index_of(lit as int) as int]@;
    if exists|k: int| #[trigger] first_rec_at(l, pid, k) {
        l[choose|k: int| #[trigger] first_rec_at(l, pid, k)].1@
    } else {
        Seq::empty()
    }
}

/// Only one record is the first.
pub proof fn lemma_first_rec_at_unique(l: Seq<(usize, Vec<usize>)>, pid: usize, a: int, b: int)
    requires
        first_rec_at(l, pid, a),
        first_rec_at(l, pid, b),
    ensures
        a == b,
{
    if a < b {
        assert(l[a].0 != pid);
    } else if b < a {
        assert(l[b].0 != pid);
    }
}

/// Every literal of the grid has a record for every partial of it.
pub open spec fn all_recorded(index: BvaIndex, lits: Seq<i32>, pids: Seq<usize>) -> bool {
    forall|i: int, j: int| 0 <= i < lits.len() && 0 <= j < pids.len() ==> #[trigger] index.has_record(lits[i], pids[j])
}

/// Clause `c` is recorded for a pair (literal, partial) of the grid before row `li`, or in row `li`
/// before column `pj`.
pub open spec fn in_grid_upto(index: BvaIndex, lits: Seq<i32>, pids: Seq<usize>, li: int, pj: int, c: usize) -> bool {
    exists|i: int, j: int| 0 <= i < lits.len() && 0 <= j < pids.len() && (i < li || (i == li && j < pj))
        && #[trigger] first_rec(index, lits[i], pids[j]).contains(c)
}

/// The pairs before row `li`, or in row `li` before column `pj`, all have records.
pub open spec fn recorded_upto(index: BvaIndex, lits: Seq<i32>, pids: Seq<usize>, li: int, pj: int) -> bool {
    forall|i: int, j: int| 0 <= i < lits.len() && 0 <= j < pids.len() && (i < li || (i == li && j < pj))
        ==> #[trigger] index.has_record(lits[i], pids[j])
}

/// The clauses the grid deletes: those recorded for its (literal, partial) pairs.
pub open spec fn grid_set(index: BvaIndex, lits: Seq<i32>, pids: Seq<usize>) -> Set<usize> {
    Set::new(|c: usize| in_grid_upto(index, lits, pids, lits.len() as int, 0, c))
}

/// The clause saving of rewriting the grid `g` (literals, partials, greedy saving), `None` when the
/// grid is too small, saves fewer than two clauses, lacks a record, or cannot be counted.
pub open spec fn grid_priced(index: BvaIndex, g: (Seq<i32>, Seq<usize>, int)) -> Option<int> {
    let lits = g.0;
    let pids = g.1;
    if lits.len() < 2 || pids.len() == 0 || g.2 <= 1 || !all_recorded(index, lits, pids)
        || lits.len() + pids.len() > usize::MAX {
        None
    } else if grid_set(index, lits, pids).len() - (lits.len() + pids.len()) <= 1 {
        None
    } else {
        Some(grid_set(index, lits, pids).len() - (lits.len() + pids.len()))
    }
}

/// The rewrite `c` is the grid `g`: its literals, its partials, the clauses it deletes and its
/// clause saving.
pub open spec fn candidate_is(c: BvaCandidate, index: BvaIndex, g: (Seq<i32>, Seq<usize>, int)) -> bool {
    &&& c.literals@ == g.0
    &&& c.partials@.len() == g.1.len()
    &&& forall|j: int| 0 <= j < g.1.len() ==> (#[trigger] c.partials@[j])@ == index.partials@[g.1[j] as int]@
    &&& c.to_delete@.to_set() == grid_set(index, g.0, g.1)
    &&& grid_priced(index, g) == Some(c.clause_saving as int)
}

/// Moving one column on within row `li`.
pub proof fn lemma_grid_upto_step(index: BvaIndex, lits: Seq<i32>, pids: Seq<usize>, li: int, pj: int, c: usize)
    requires
        0 <= li < lits.len(),
        0 <= pj < pids.len(),
    ensures
        in_grid_upto(index, lits, pids, li, pj + 1, c)
            <==> (in_grid_upto(index, lits, pids, li, pj, c) || first_rec(index, lits[li], pids[pj]).contains(c)),
{
    if in_grid_upto(index, lits, pids, li, pj + 1, c) {
        let (i, j) = choose|i: int, j: int| 0 <= i < lits.len() && 0 <= j < pids.len() && (i < li || (i == li && j < pj + 1))
            && #[trigger] first_rec(index, lits[i], pids[j]).contains(c);
        if !(i == li && j == pj) {
            assert(in_grid_upto(index, lits, pids, li, pj, c));
        }
    }
    if first_rec(index, lits[li], pids[pj]).contains(c) {
        assert(in_grid_upto(index, lits, pids, li, pj + 1, c));
    }
    if in_grid_upto(index, lits, pids, li, pj, c) {
        let (i, j) = choose|i: int, j: int| 0 <= i < lits.len() && 0 <= j < pids.len() && (i < li || (i == li && j < pj))
            && #[trigger] first_rec(index, lits[i], pids[j]).contains(c);
        assert(in_grid_upto(index, lits, pids, li, pj + 1, c));
    }
}

/// The end of row `li` is the start of row `li + 1`.
pub proof fn lemma_grid_upto_row(index: BvaIndex, lits: Seq<i32>, pids: Seq<usize>, li: int, c: usize)
    ensures
        in_grid_upto(index, lits, pids, li, pids.len() as int, c) <==> in_grid_upto(index, lits, pids, li + 1, 0, c),
        recorded_upto(index, lits, pids, li, pids.len() as int) <==> recorded_upto(index, lits, pids, li + 1, 0),
{
    if in_grid_upto(index, lits, pids, li, pids.len() as int, c) {
        let (i, j) = choose|i: int, j: int| 0 <= i < lits.len() && 0 <= j < pids.len() && (i < li || (i == li && j < pids.len()))
            && #[trigger] first_rec(index, lits[i], pids[j]).contains(c);
        assert(in_grid_upto(index, lits, pids, li + 1, 0, c));
    }
    if in_grid_upto(index, lits, pids, li + 1, 0, c) {
        let (i, j) = choose|i: int, j: int| 0 <= i < lits.len() && 0 <= j < pids.len() && (i < li + 1 || (i == li + 1 && j < 0))
            && #[trigger] first_rec(index, lits[i], pids[j]).contains(c);
        assert(in_grid_upto(index, lits, pids, li, pids.len() as int, c));
    }
}

/// Grows a grid from `start` greedily (see `choose_next_literal`) while the clause saving grows,
/// and prices the resulting rewrite; `None` when it saves fewer than two clauses.
pub fn build_candidate_for_start(formula: &Formula, index: &BvaIndex, start: i32, start_occurrences: usize)
    -> (r: Option<BvaCandidate>)
    requires
        formula.wf(),
        index.wf(),
        index.n_vars == formula.n_vars(),
        index.n_clauses == formula.clauses@.len(),
        index.records_unlocked(formula.clauses@),
        index.records_exact(formula.clauses@),
        lit_ok(start, index.n_vars as nat),
    ensures
        r matches Some(c) ==> c.wf(formula.n_vars(), formula.clauses@.len()) && c.start == start
            && c.clause_saving > 1 && c.unlocked_in(formula.clauses@) && grid_ok(c, formula.clauses@),
        index.literal_to_partials@[unsigned_index_of(start as int) as int]@.len() == 0 ==> r is None,
        index.literal_to_partials@[unsigned_index_of(start as int) as int]@.len() > 0 ==> exists|ps: Seq<usize>|
            #[trigger] start_pids(*index, start, ps)
            && (r is None <==> grid_priced(*index, greedy_grid(*index, start, ps)) is None)
            && (r matches Some(c) ==> candidate_is(c, *index, greedy_grid(*index, start, ps))),
{
    let ghost n = index.n_vars as nat;
    let u = key_of(start);
    let start_partials = &index.literal_to_partials[u];
    if start_partials.len() == 0 {
        return None;
    }
    let mut literals: Vec<i32> = Vec::new();
    literals.push(start);
    let mut partial_ids = sort_dedup(start_partials);
    proof {
        assert forall|k: int| 0 <= k < partial_ids@.len() implies #[trigger] partial_ids@[k] < index.partials@.len() by {
            assert(partial_ids@.contains(partial_ids@[k]));
            let j = choose|j: int| 0 <= j < start_partials@.len() && start_partials@[j] == partial_ids@[k];
            assert(index.literal_to_partials@[u as int]@[j] < index.partials@.len());
        }
    }
    let ghost ps0 = partial_ids@;
    proof {
        assert(start_pids(*index, start, ps0));
    }
    let limit = 2 * index.n_vars;
    let mut current_clause_saving = clause_saving(literals.len(), partial_ids.len());
    proof {
        assert(literals@ =~= seq![start]);
    }
    while literals.len() <= limit
        invariant
            index.wf(),
            limit == 2 * index.n_vars,
            index.n_vars < 0x8000_0000,
            lits_ok(literals@, n),
            n == index.n_vars,
            literals@.len() >= 1,
            literals@.len() <= limit + 1,
            literals@[0] == start,
            forall|k: int| 0 <= k < partial_ids@.len() ==> #[trigger] partial_ids@[k] < index.partials@.len(),
            greedy_grid(*index, start, ps0) == grow(*index, start, literals@, partial_ids@, current_clause_saving as int,
                (limit + 1 - literals@.len()) as nat),
        ensures
            lits_ok(literals@, n),
            literals@.len() >= 1,
            literals@[0] == start,
            forall|k: int| 0 <= k < partial_ids@.len() ==> #[trigger] partial_ids@[k] < index.partials@.len(),
            greedy_grid(*index, start, ps0) == (literals@, partial_ids@, current_clause_saving as int),
        decreases limit + 1 - literals@.len(),
    {
        let counts = grid_counts(index, &literals, &partial_ids);
        let ghost fuel = (limit + 1 - literals@.len()) as nat;
        let choice = choose_next_literal(index, start, &counts);
        let (next_lit, remaining_partials) = match choice {
            None => {
                proof {
                    assert(grid_next(*index, start, literals@, partial_ids@) is None) by {
                        if exists|p: (i32, usize)| #[trigger] grid_best(*index, start, literals@, partial_ids@, p) {
                            let p = choose|p: (i32, usize)| #[trigger] grid_best(*index, start, literals@, partial_ids@, p);
                            let cnt = |x: i32| grid_count(*index, literals@, partial_ids@, x);
                            assert(cnt(p.0) > 0);
                            let k = choose|k: int| 0 <= k < counts@.len() && (#[trigger] counts@[k]).0 == p.0;
                            assert(counts@[k].1 == cnt(counts@[k].0));
                            assert(counts@[k].1 > 0);
                        }
                    }
                }
                break;
            },
            Some(p) => p,
        };
        proof {
            let p = (next_lit, remaining_partials);
            let k = choose|k: int| 0 <= k < counts@.len() && #[trigger] counts@[k] == p && p.1 > 0;
            assert(lit_ok(counts@[k].0, n));
            assert forall|x: i32| #[trigger] grid_count(*index, literals@, partial_ids@, x) > 0 implies
                !next_literal_before(*index, var_of(start as int) as usize, (x, grid_count(*index, literals@, partial_ids@, x)), p) by {
                let cnt = |y: i32| grid_count(*index, literals@, partial_ids@, y);
                assert(cnt(x) > 0);
                let kk = choose|kk: int| 0 <= kk < counts@.len() && (#[trigger] counts@[kk]).0 == x;
                assert(counts@[kk].1 == cnt(counts@[kk].0));
                assert(counts@[kk].1 > 0);
            }
            assert(p.1 == grid_count(*index, literals@, partial_ids@, p.0)) by {
                let cnt = |y: i32| grid_count(*index, literals@, partial_ids@, y);
                assert(counts@[k].1 == cnt(counts@[k].0));
            }
            assert(grid_best(*index, start, literals@, partial_ids@, p));
            let q = choose|q: (i32, usize)| #[trigger] grid_best(*index, start, literals@, partial_ids@, q);
            lemma_grid_best_unique(*index, start, literals@, partial_ids@, p, q);
            assert(grid_next(*index, start, literals@, partial_ids@) == Some(p));
        }
        let next_clause_saving = clause_saving(literals.len() + 1, remaining_partials);
        proof {
            assert(next_clause_saving == saving_of(literals@.len() as int + 1, remaining_partials as int));
        }
        if next_clause_saving <= current_clause_saving {
            break;
        }
        let ghost old_lits = literals@;
        let ghost old_pids = partial_ids@;
        literals.push(next_lit);
        partial_ids = keep_partials(index, &partial_ids, next_lit);
        current_clause_saving = next_clause_saving;
        proof {
            assert(literals@ == old_lits.push(next_lit));
            assert((limit + 1 - literals@.len()) as nat == (fuel - 1) as nat);
            assert(lits_ok(literals@, n)) by {
                assert forall|i: int| 0 <= i < literals@.len() implies lit_ok(#[trigger] literals@[i], n) by {
                    if i < old_lits.len() {
                        assert(literals@[i] == old_lits[i]);
                    }
                }
            }
        }
    }
    if literals.len() < 2 || partial_ids.len() == 0 || current_clause_saving <= 1 {
        return None;
    }
    let ghost cs = formula.clauses@;
    let ghost parts = Seq::new(partial_ids@.len(), |j: int| index.partials@[partial_ids@[j] as int]@);
    let mut all: Vec<usize> = Vec::new();
    for li in 0..literals.len()
        invariant
            index.wf(),
            index.records_unlocked(formula.clauses@),
            index.records_exact(formula.clauses@),
            cs == formula.clauses@,
            lits_ok(literals@, n),
            n == index.n_vars,
            forall|k: int| 0 <= k < partial_ids@.len() ==> #[trigger] partial_ids@[k] < index.partials@.len(),
            parts == Seq::new(partial_ids@.len(), |j: int| index.partials@[partial_ids@[j] as int]@),
            forall|k: int| 0 <= k < all@.len() ==> #[trigger] all@[k] < index.n_clauses
                && formula.clauses@[all@[k] as int].lock_count == 0,
            forall|k: int| 0 <= k < all@.len() ==> in_grid(cs, #[trigger] all@[k], literals@, parts),
            forall|i: int, j: int| 0 <= i < li && 0 <= j < parts.len() ==> #[trigger] covers(cs, all@, literals@[i], parts[j]),
            forall|c: usize| #[trigger] all@.contains(c) <==> in_grid_upto(*index, literals@, partial_ids@, li as int, 0, c),
            recorded_upto(*index, literals@, partial_ids@, li as int, 0),
            start_pids(*index, start, ps0),
            greedy_grid(*index, start, ps0) == (literals@, partial_ids@, current_clause_saving as int),
            literals@.len() >= 2 && partial_ids@.len() > 0 && current_clause_saving > 1,
    {
        for pi in 0..partial_ids.len()
            invariant
                index.wf(),
                index.records_unlocked(formula.clauses@),
                index.records_exact(formula.clauses@),
                cs == formula.clauses@,
                li < literals@.len(),
                lits_ok(literals@, n),
                lit_ok(literals@[li as int], n),
                n == index.n_vars,
                forall|k: int| 0 <= k < partial_ids@.len() ==> #[trigger] partial_ids@[k] < index.partials@.len(),
                parts == Seq::new(partial_ids@.len(), |j: int| index.partials@[partial_ids@[j] as int]@),
                forall|k: int| 0 <= k < all@.len() ==> #[trigger] all@[k] < index.n_clauses
                    && formula.clauses@[all@[k] as int].lock_count == 0,
                forall|k: int| 0 <= k < all@.len() ==> in_grid(cs, #[trigger] all@[k], literals@, parts),
                forall|i: int, j: int| 0 <= i < li && 0 <= j < parts.len() ==> #[trigger] covers(cs, all@, literals@[i], parts[j]),
                forall|j: int| 0 <= j < pi ==> #[trigger] covers(cs, all@, literals@[li as int], parts[j]),
                forall|c: usize| #[trigger] all@.contains(c) <==> in_grid_upto(*index, literals@, partial_ids@, li as int, pi as int, c),
                recorded_upto(*index, literals@, partial_ids@, li as int, pi as int),
                partial_ids@.len() == parts.len(),
                    start_pids(*index, start, ps0),
                greedy_grid(*index, start, ps0) == (literals@, partial_ids@, current_clause_saving as int),
                literals@.len() >= 2 && partial_ids@.len() > 0 && current_clause_saving > 1,
        {
            let indices = match index.clauses_for(literals[li], partial_ids[pi]) {
                None => {
                    proof {
                        assert(!index.has_record(literals@[li as int], partial_ids@[pi as int]));
                        assert(!all_recorded(*index, literals@, partial_ids@));
                    }
                    return None;
                },
                Some(v) => v,
            };
            let ghost key = unsigned_index_of(literals@[li as int] as int) as int;
            let ghost vrec = first_rec(*index, literals@[li as int], partial_ids@[pi as int]);
            proof {
                let l = index.clause_indices@[key]@;
                let k = choose|k: int| 0 <= k < l.len() && #[trigger] l[k].1 == *indices && l[k].0 == partial_ids@[pi as int]
                    && forall|j: int| 0 <= j < k ==> (#[trigger] l[j]).0 != partial_ids@[pi as int];
                assert(first_rec_at(l, partial_ids@[pi as int], k));
                let k2 = choose|k2: int| #[trigger] first_rec_at(l, partial_ids@[pi as int], k2);
                lemma_first_rec_at_unique(l, partial_ids@[pi as int], k, k2);
                assert(indices@ == vrec);
            }
            proof {
                assert(lit_ok(literals@[li as int], n));
                let kk = choose|k: int| 0 <= k < index.clause_indices@[key]@.len()
                    && #[trigger] index.clause_indices@[key]@[k].1 == *indices && index.clause_indices@[key]@[k].0 == partial_ids@[pi as int];
                assert(key < index.clause_indices@.len());
                assert(index.clause_indices@[key]@[kk].1@.len() > 0);
                assert forall|q: int| 0 <= q < indices@.len() implies formula.clauses@[#[trigger] indices@[q] as int].lock_count == 0
                    && grid_clause(cs[indices@[q] as int], parts[pi as int], literals@[li as int]) by {
                    assert(indices@[q] == index.clause_indices@[key]@[kk].1@[q]);
                    assert(unsigned_index_of(literals@[li as int] as int) == key);
                    assert(grid_clause(cs[index.clause_indices@[key]@[kk].1@[q] as int],
                        index.partials@[index.clause_indices@[key]@[kk].0 as int]@, literals@[li as int]));
                }
            }
            let ghost all0 = all@;
            for q in 0..indices.len()
                invariant
                    li < literals@.len(),
                    pi < parts.len(),
                    indices@.len() > 0,
                    forall|k: int| 0 <= k < indices@.len() ==> #[trigger] indices@[k] < index.n_clauses,
                    forall|k: int| 0 <= k < indices@.len() ==> formula.clauses@[#[trigger] indices@[k] as int].lock_count == 0
                        && grid_clause(cs[indices@[k] as int], parts[pi as int], literals@[li as int]),
                    forall|k: int| 0 <= k < all@.len() ==> #[trigger] all@[k] < index.n_clauses
                        && formula.clauses@[all@[k] as int].lock_count == 0,
                    forall|k: int| 0 <= k < all@.len() ==> in_grid(cs, #[trigger] all@[k], literals@, parts),
                    all0.is_prefix_of(all@),
                    q > 0 ==> grid_clause(cs[all@[all0.len() as int] as int], parts[pi as int], literals@[li as int]),
                    all@.len() == all0.len() + q,
                    forall|c: usize| #[trigger] all@.contains(c) <==> (in_grid_upto(*index, literals@, partial_ids@, li as int, pi as int, c)
                        || indices@.subrange(0, q as int).contains(c)),
            {
                let ghost before = all@;
                all.push(indices[q]);
                proof {
                    assert(grid_clause(cs[indices@[q as int] as int], parts[pi as int], literals@[li as int]));
                    assert forall|k: int| 0 <= k < all@.len() implies in_grid(cs, #[trigger] all@[k], literals@, parts) by {
                        if k < before.len() {
                            assert(all@[k] == before[k]);
                        } else {
                            assert(all@[k] == indices@[q as int]);
                            assert(grid_clause(cs[all@[k] as int], parts[pi as int], literals@[li as int]));
                        }
                    }
                    if q > 0 {
                        assert(all@[all0.len() as int] == before[all0.len() as int]);
                    }
                    assert(indices@.subrange(0, q + 1) =~= indices@.subrange(0, q as int).push(indices@[q as int]));
                    assert forall|c: usize| #[trigger] all@.contains(c) <==> (in_grid_upto(*index, literals@, partial_ids@, li as int, pi as int, c)
                        || indices@.subrange(0, q + 1).contains(c)) by {
                        vstd::seq_lib::lemma_seq_contains_after_push(before, indices@[q as int], c);
                        vstd::seq_lib::lemma_seq_contains_after_push(indices@.subrange(0, q as int), indices@[q as int], c);
                    }
                }
            }
            proof {
                assert(indices@.subrange(0, indices@.len() as int) =~= indices@);
                assert forall|c: usize| #[trigger] all@.contains(c) <==> in_grid_upto(*index, literals@, partial_ids@, li as int, pi + 1, c) by {
                    lemma_grid_upto_step(*index, literals@, partial_ids@, li as int, pi as int, c);
                }
                assert(index.has_record(literals@[li as int], partial_ids@[pi as int]));
                assert forall|i: int, j: int| 0 <= i < literals@.len() && 0 <= j < partial_ids@.len() && (i < li || (i == li && j < pi + 1))
                    implies #[trigger] index.has_record(literals@[i], partial_ids@[j]) by {
                    if !(i == li && j == pi) {
                        assert(recorded_upto(*index, literals@, partial_ids@, li as int, pi as int));
                    }
                }
                assert(recorded_upto(*index, literals@, partial_ids@, li as int, pi + 1));
            }
            proof {
                assert(covers(cs, all@, literals@[li as int], parts[pi as int])) by {
                    assert(grid_clause(cs[all@[all0.len() as int] as int], parts[pi as int], literals@[li as int]));
                }
                assert forall|i: int, j: int| 0 <= i < li && 0 <= j < parts.len() implies #[trigger] covers(cs, all@, literals@[i], parts[j]) by {
                    assert(covers(cs, all0, literals@[i], parts[j]));
                    let k = choose|k: int| 0 <= k < all0.len() && #[trigger] grid_clause(cs[all0[k] as int], parts[j], literals@[i]);
                    assert(all@[k] == all0[k]);
                }
                assert forall|j: int| 0 <= j < pi + 1 implies #[trigger] covers(cs, all@, literals@[li as int], parts[j]) by {
                    if j < pi {
                        assert(covers(cs, all0, literals@[li as int], parts[j]));
                        let k = choose|k: int| 0 <= k < all0.len() && #[trigger] grid_clause(cs[all0[k] as int], parts[j], literals@[li as int]);
                        assert(all@[k] == all0[k]);
                    }
                }
            }
        }
        proof {
            assert forall|c: usize| #[trigger] all@.contains(c) <==> in_grid_upto(*index, literals@, partial_ids@, li + 1, 0, c) by {
                lemma_grid_upto_row(*index, literals@, partial_ids@, li as int, c);
            }
            lemma_grid_upto_row(*index, literals@, partial_ids@, li as int, 0);
        }
    }
    let to_delete = sort_dedup(&all);
    proof {
        let gs = grid_set(*index, literals@, partial_ids@);
        assert(to_delete@.to_set() =~= gs) by {
            assert forall|c: usize| to_delete@.to_set().contains(c) <==> gs.contains(c) by {
                assert(to_delete@.contains(c) <==> all@.contains(c));
            }
        }
        assert(to_delete@.no_duplicates()) by {
            assert forall|i: int, j: int| 0 <= i < to_delete@.len() && 0 <= j < to_delete@.len() && i != j
                implies to_delete@[i] != to_delete@[j] by {
                if i < j {
                    assert(to_delete@[i] < to_delete@[j]);
                } else {
                    assert(to_delete@[j] < to_delete@[i]);
                }
            }
        }
        to_delete@.unique_seq_to_set();
        assert(to_delete@.len() == gs.len());
        assert(all_recorded(*index, literals@, partial_ids@)) by {
            assert forall|i: int, j: int| 0 <= i < literals@.len() && 0 <= j < partial_ids@.len()
                implies #[trigger] index.has_record(literals@[i], partial_ids@[j]) by {
                assert(recorded_upto(*index, literals@, partial_ids@, literals@.len() as int, 0));
            }
        }
    }
    proof {
        assert forall|k: int| 0 <= k < to_delete@.len() implies #[trigger] to_delete@[k] < index.n_clauses
            && formula.clauses@[to_delete@[k] as int].lock_count == 0 by {
            assert(to_delete@.contains(to_delete@[k]));
            let j = choose|j: int| 0 <= j < all@.len() && all@[j] == to_delete@[k];
        }
        assert forall|k: int| 0 <= k < to_delete@.len() implies in_grid(cs, #[trigger] to_delete@[k], literals@, parts) by {
            assert(to_delete@.contains(to_delete@[k]));
            let j = choose|j: int| 0 <= j < all@.len() && all@[j] == to_delete@[k];
            assert(in_grid(cs, all@[j], literals@, parts));
        }
        assert forall|i: int, j: int| 0 <= i < literals@.len() && 0 <= j < parts.len() implies
            #[trigger] covers(cs, to_delete@, literals@[i], parts[j]) by {
            assert(covers(cs, all@, literals@[i], parts[j]));
            let k = choose|k: int| 0 <= k < all@.len() && #[trigger] grid_clause(cs[all@[k] as int], parts[j], literals@[i]);
            assert(all@.contains(all@[k]));
            assert(to_delete@.contains(all@[k]));
            let k2 = choose|k2: int| 0 <= k2 < to_delete@.len() && to_delete@[k2] == all@[k];
            assert(grid_clause(cs[to_delete@[k2] as int], parts[j], literals@[i]));
        }
    }
    let added_clauses: usize = if literals.len() <= usize::MAX - partial_ids.len() {
        literals.len() + partial_ids.len()
    } else {
        return None;
    };
    let actual_clause_saving: i128 = to_delete.len() as i128 - added_clauses as i128;
    if actual_clause_saving <= 1 {
        return None;
    }
    let mut deleted_literals: usize = 0;
    for k in 0..to_delete.len()
        invariant
            forall|q: int| 0 <= q < to_delete@.len() ==> #[trigger] to_delete@[q] < index.n_clauses,
            index.n_clauses == formula.clauses@.len(),
    {
        deleted_literals = deleted_literals.saturating_add(formula.clauses[to_delete[k]].len());
    }
    let mut added_literals: usize = 0;
    let mut partials: Vec<Vec<i32>> = Vec::new();
    for pi in 0..partial_ids.len()
        invariant
            index.wf(),
            n == index.n_vars,
            forall|k: int| 0 <= k < partial_ids@.len() ==> #[trigger] partial_ids@[k] < index.partials@.len(),
            forall|i: int| 0 <= i < partials@.len() ==> lits_ok(#[trigger] partials@[i]@, n),
            partials@.len() == pi,
            forall|i: int| 0 <= i < partials@.len() ==> (#[trigger] partials@[i])@ == index.partials@[partial_ids@[i] as int]@,
    {
        let pid = partial_ids[pi];
        added_literals = added_literals.saturating_add(index.partials[pid].len()).saturating_add(1);
        let copy = index.partials[pid].clone();
        proof {
            assert(copy@ == index.partials@[pid as int]@);
            assert(lits_ok(index.partials@[pid as int]@, n));
        }
        partials.push(copy);
    }
    added_literals = added_literals.saturating_add(match literals.len().checked_mul(2) {
        Some(x) => x,
        None => usize::MAX,
    });
    let literal_saving: i128 = deleted_literals as i128 - added_literals as i128;
    proof {
        assert(partial_seqs(partials@) =~= parts);
        assert forall|i: int, j: int| 0 <= i < literals@.len() && 0 <= j < partials@.len() implies
            #[trigger] covers(cs, to_delete@, literals@[i], partials@[j]@) by {
            assert(partials@[j]@ == parts[j]);
            assert(covers(cs, to_delete@, literals@[i], parts[j]));
        }
        assert(greedy_grid(*index, start, ps0) == (literals@, partial_ids@, current_clause_saving as int));
        assert(grid_priced(*index, greedy_grid(*index, start, ps0)) == Some(actual_clause_saving as int));
    }
    Some(BvaCandidate {
        start,
        start_occurrences,
        literals,
        partials,
        to_delete,
        added_clauses,
        clause_saving: actual_clause_saving,
        size_saving: actual_clause_saving - 1,
        literal_saving,
    })
}

/// Strictly increasing sequences with the same elements are equal.
pub proof fn lemma_increasing_same_elements(a: Seq<usize>, b: Seq<usize>)
    requires
        strictly_increasing(a),
        strictly_increasing(b),
        forall|x: usize| #[trigger] a.contains(x) <==> b.contains(x),
    ensures
        a == b,
    decreases a.len() + b.len(),
{
    if a.len() == 0 {
        if b.len() > 0 {
            assert(b.contains(b[0]));
            assert(a.contains(b[0]) <==> b.contains(b[0]));
        }
        assert(a =~= b);
    } else if b.len() == 0 {
        assert(a.contains(a[0]));
        assert(a.contains(a[0]) <==> b.contains(a[0]));
    } else {
        assert(a.contains(a[0]));
        assert(b.contains(b[0]));
        assert(a.contains(a[0]) <==> b.contains(a[0]));
        assert(a.contains(b[0]) <==> b.contains(b[0]));
        let i = choose|i: int| 0 <= i < b.len() && b[i] == a[0];
        let j = choose|j: int| 0 <= j < a.len() && a[j] == b[0];
        if i > 0 {
            assert(b[0] < b[i]);
            if j > 0 {
                assert(a[0] < a[j]);
            }
        }
        if j > 0 {
            assert(a[0] < a[j]);
        }
        assert(a[0] == b[0]);
        let a1 = a.drop_first();
        let b1 = b.drop_first();
        assert(strictly_increasing(a1)) by {
            assert forall|p: int, q: int| 0 <= p < q < a1.len() implies a1[p] < a1[q] by {
                assert(a1[p] == a[p + 1] && a1[q] == a[q + 1]);
            }
        }
        assert(strictly_increasing(b1)) by {
            assert forall|p: int, q: int| 0 <= p < q < b1.len() implies b1[p] < b1[q] by {
                assert(b1[p] == b[p + 1] && b1[q] == b[q + 1]);
            }
        }
        assert forall|x: usize| #[trigger] a1.contains(x) <==> b1.contains(x) by {
            if a1.contains(x) {
                let p = choose|p: int| 0 <= p < a1.len() && a1[p] == x;
                assert(a[p + 1] == x);
                assert(a[0] < x);
                assert(a.contains(x) <==> b.contains(x));
                assert(b.contains(x));
                let q = choose|q: int| 0 <= q < b.len() && b[q] == x;
                assert(q != 0);
                assert(b1[q - 1] == x);
            }
            if b1.contains(x) {
                let p = choose|p: int| 0 <= p < b1.len() && b1[p] == x;
                assert(b[p + 1] == x);
                assert(b[0] < x);
                assert(a.contains(x) <==> b.contains(x));
                assert(a.contains(x));
                let q = choose|q: int| 0 <= q < a.len() && a[q] == x;
                assert(q != 0);
                assert(a1[q - 1] == x);
            }
        }
        lemma_increasing_same_elements(a1, b1);
        assert(a =~= seq![a[0]] + a1);
        assert(b =~= seq![b[0]] + b1);
    }
}

/// The partials of `start`, once each, in increasing order.
pub open spec fn sorted_pids(index: BvaIndex, start: i32) -> Seq<usize> {
    choose|ps: Seq<usize>| #[trigger] start_pids(index, start, ps)
}

/// The rewrite the greedy search from `start` prices, if it saves at least two clauses.
pub open spec fn start_result(index: BvaIndex, start: i32) -> Option<int> {
    if index.literal_to_partials@[unsigned_index_of(start as int) as int]@.len() == 0 {
        None
    } else {
        grid_priced(index, greedy_grid(index, start, sorted_pids(index, start)))
    }
}

/// No start the search tries saves more clauses than `c`.
pub open spec fn saves_most(index: BvaIndex, c: BvaCandidate) -> bool {
    forall|x: i32| #[trigger] search_start(index, x) && start_result(index, x) is Some
        ==> start_result(index, x)->0 <= c.clause_saving
}

/// The literals the search tries as starts: those occurring in an eligible clause.
pub open spec fn search_start(index: BvaIndex, x: i32) -> bool {
    &&& lit_ok(x, index.n_vars as nat)
    &&& index.literal_occurrences@[unsigned_index_of(x as int) as int] > 0
    &&& unsigned_index_of(x as int) < u32::MAX
}

/// An index built from `f` by `BvaIndex::new`.
pub open spec fn index_of(index: BvaIndex, f: Formula) -> bool {
    &&& index.wf()
    &&& index.n_vars == f.n_vars()
    &&& index.n_clauses == f.clauses@.len()
    &&& index.records_unlocked(f.clauses@)
    &&& index.records_exact(f.clauses@)
    &&& forall|c: usize, x: i32| c < f.clauses@.len() && bva_eligible(f.clauses@[c as int])
        && !clause_tautological(f.clauses@[c as int]) && lits_as_i32(f.clauses@[c as int]@).contains(x)
        ==> #[trigger] listed_under(index.clause_indices@, x, c)
    &&& forall|a: usize, b: usize| a < f.n_vars() ==> #[trigger] adj_count(index.variable_adjacency@[a as int]@, b)
        == cap_u64(cooccur(f.clauses@, f.clauses@.len() as int, a, b))
}

/// No start literal of the index gives a rewrite saving at least two clauses.
pub open spec fn search_empty(index: BvaIndex) -> bool {
    forall|x: i32| #[trigger] search_start(index, x) ==> start_result(index, x) is None
}

/// The best rewrite over all start literals (see `BvaCandidate::is_better_than`): `None` exactly
/// when the greedy search from every start literal saves fewer than two clauses; otherwise the
/// greedy grid of one start literal.
pub fn find_best_bva_candidate(formula: &Formula) -> (r: Option<BvaCandidate>)
    requires
        formula.wf(),
    ensures
        r matches Some(c) ==> c.wf(formula.n_vars(), formula.clauses@.len()) && c.clause_saving > 1
            && c.unlocked_in(formula.clauses@) && grid_ok(c, formula.clauses@),
        exists|index: BvaIndex| #[trigger] index_of(index, *formula)
            && (r is None <==> search_empty(index))
            && (r matches Some(c) ==> search_start(index, c.start)
                && candidate_is(c, index, greedy_grid(index, c.start, sorted_pids(index, c.start)))
                && saves_most(index, c)),
{
    let index = BvaIndex::new(formula);
    proof { assert(index_of(index, *formula)); }
    let mut any = false;
    for u in 0..index.literal_to_partials.len()
        invariant
            any <==> exists|w: int| 0 <= w < u && #[trigger] index.literal_to_partials@[w]@.len() > 0,
    {
        if index.literal_to_partials[u].len() > 0 {
            any = true;
        }
    }
    if !any {
        proof {
            assert forall|x: i32| #[trigger] search_start(index, x) implies start_result(index, x) is None by {
                let w = unsigned_index_of(x as int) as int;
                assert(w < index.literal_to_partials@.len());
                if index.literal_to_partials@[w]@.len() > 0 {
                    assert(exists|w2: int| 0 <= w2 < index.literal_to_partials@.len() && #[trigger] index.literal_to_partials@[w2]@.len() > 0);
                }
            }
        }
        return None;
    }
    let mut best: Option<BvaCandidate> = None;
    let nl = index.literal_occurrences.len();
    for u in 0..nl
        invariant
            formula.wf(),
            index.wf(),
            index_of(index, *formula),
            nl == index.literal_occurrences@.len(),
            index.n_vars == formula.n_vars(),
            index.n_clauses == formula.clauses@.len(),
            index.records_unlocked(formula.clauses@),
            index.records_exact(formula.clauses@),
            best matches Some(c) ==> c.wf(formula.n_vars(), formula.clauses@.len()) && c.clause_saving > 1
                && c.unlocked_in(formula.clauses@) && grid_ok(c, formula.clauses@),
            best is None <==> forall|x: i32| #[trigger] search_start(index, x) && unsigned_index_of(x as int) < u
                ==> start_result(index, x) is None,
            best matches Some(c) ==> search_start(index, c.start)
                && candidate_is(c, index, greedy_grid(index, c.start, sorted_pids(index, c.start))),
            best matches Some(c) ==> forall|x: i32| #[trigger] search_start(index, x) && unsigned_index_of(x as int) < u
                && start_result(index, x) is Some ==> start_result(index, x)->0 <= c.clause_saving,
    {
        let ghost best0 = best;
        let occurrences = index.literal_occurrences[u];
        if occurrences > 0 && u >= 1 && u < u32::MAX as usize {
            let start_lit = Literal::from_unsigned_index(u as u32);
            if start_lit.get_variable() < formula.assignment.len() {
                let start = start_lit.get_index();
                let built = build_candidate_for_start(formula, &index, start, occurrences);
                proof {
                    assert(search_start(index, start));
                    let w = unsigned_index_of(start as int) as int;
                    if index.literal_to_partials@[w]@.len() > 0 {
                        let ps = choose|ps: Seq<usize>| #[trigger] start_pids(index, start, ps)
                            && (built is None <==> grid_priced(index, greedy_grid(index, start, ps)) is None)
                            && (built matches Some(c) ==> candidate_is(c, index, greedy_grid(index, start, ps)));
                        let ps2 = sorted_pids(index, start);
                        assert(start_pids(index, start, ps2));
                        lemma_increasing_same_elements(ps, ps2);
                    }
                    assert(built is None <==> start_result(index, start) is None);
                    assert forall|x: i32| #[trigger] search_start(index, x) && unsigned_index_of(x as int) == u implies x == start by {
                        if x != start {
                            lemma_unsigned_index_injective(x as int, start as int);
                        }
                    }
                }
                match built {
                    None => {},
                    Some(candidate) => {
                        let better = match &best {
                            None => true,
                            Some(current) => candidate.is_better_than(current),
                        };
                        if better {
                            best = Some(candidate);
                        }
                    },
                }
            } else {
                proof {
                    assert forall|x: i32| #[trigger] search_start(index, x) && unsigned_index_of(x as int) == u implies false by {
                        if x != start_lit@ {
                            lemma_unsigned_index_injective(x as int, start_lit@ as int);
                        }
                    }
                }
            }
        } else {
            proof {
                assert forall|x: i32| #[trigger] search_start(index, x) && unsigned_index_of(x as int) == u implies false by {
                    assert(unsigned_index_of(x as int) >= 1);
                }
            }
        }
    }
    proof {
        assert forall|x: i32| #[trigger] search_start(index, x) implies unsigned_index_of(x as int) < nl by {
        }
    }
    best
}

/// A clause made by bounded variable addition (LBD 0, marked as such).
pub fn bva_clause(literals: Vec<Literal>) -> (r: Clause)
    ensures
        r@ == literals@,
        r.lbd == 0,
        r.lock_count == 0,
        r.bva_generated,
        crate::formula::clause::lits_wf(literals@) ==> r.wf(),
{
    let mut clause = Clause::from_literals(literals, 0);
    clause.bva_generated = true;
    clause
}


/// The values of the literals of `s`.
pub open spec fn lit_values(s: Seq<Literal>) -> Seq<int> {
    s.map_values(|l: Literal| l@)
}

/// The values of `s` as integers.
pub open spec fn int_values(s: Seq<i32>) -> Seq<int> {
    s.map_values(|x: i32| x as int)
}

/// A clause added by a rewrite: generated, with LBD 0 and no lock.
pub open spec fn bva_added(c: Clause, values: Seq<int>) -> bool {
    lit_values(c@) == values && c.bva_generated && c.lbd == 0 && c.lock_count == 0
}

/// `new` is `old` after the rewrite `c` with the fresh variable `z` (numbered `old.n_vars()`):
/// the clauses not listed in `c.to_delete`, in their order, then `z` with each partial clause,
/// then `-z` with each literal.
pub open spec fn bva_applied(old: Formula, new: Formula, c: BvaCandidate) -> bool {
    let m = old.clauses@.len() as int;
    let d = c.to_delete@;
    let z = old.n_vars() as int;
    let np = c.partials@.len() as int;
    &&& new.n_vars() == old.n_vars() + 1
    &&& new.clauses@.len() == kept_count(d, m + np + c.literals@.len())
    &&& forall|i: int| 0 <= i < m && !listed(d, i) ==> same_clause(new.clauses@[kept_count(d, i) as int], #[trigger] old.clauses@[i])
    &&& forall|j: int| 0 <= j < np ==> bva_added(new.clauses@[kept_count(d, m + j) as int], seq![z] + int_values(#[trigger] c.partials@[j]@))
    &&& forall|j: int| 0 <= j < c.literals@.len() ==>
        bva_added(new.clauses@[kept_count(d, m + np + j) as int], seq![-z, #[trigger] c.literals@[j] as int])
}

/// The literal values of the clauses a rewrite with the fresh variable `z` adds, in the order it
/// adds them: `z` with each partial clause, then `-z` with each literal.
pub open spec fn bva_clause_values(z: int, c: BvaCandidate) -> Seq<Seq<int>> {
    let np = c.partials@.len() as int;
    Seq::new((np + c.literals@.len()) as nat, |j: int|
        if j < np { seq![z] + int_values(c.partials@[j]@) } else { seq![-z, c.literals@[j - np] as int] })
}

/// Clauses with the same literals below `m` give the same deletion lines there.
proof fn lemma_deletion_text_views(cs: Seq<Clause>, ds: Seq<Clause>, d: Seq<usize>, m: int)
    requires
        forall|i: int| 0 <= i < m ==> (#[trigger] cs[i])@ == ds[i]@,
    ensures
        deletion_text(cs, d, m) == deletion_text(ds, d, m),
    decreases m,
{
    if m > 0 {
        lemma_deletion_text_views(cs, ds, d, m - 1);
        assert(cs[m - 1]@ == ds[m - 1]@);
    }
}

/// Indices from `m` on that `d` does not list add no deletion lines.
proof fn lemma_deletion_text_tail(cs: Seq<Clause>, d: Seq<usize>, m: int, k: int)
    requires
        0 <= m <= k,
        forall|q: int| 0 <= q < d.len() ==> (#[trigger] d[q]) < m,
    ensures
        deletion_text(cs, d, k) == deletion_text(cs, d, m),
    decreases k,
{
    if k > m {
        lemma_deletion_text_tail(cs, d, m, k - 1);
        assert(!listed(d, k - 1)) by {
            if listed(d, k - 1) {
                let q = choose|q: int| 0 <= q < d.len() && #[trigger] d[q] as int == k - 1;
                assert(d[q] < m);
            }
        }
        assert(deletion_text(cs, d, k - 1) + Seq::<u8>::empty() =~= deletion_text(cs, d, k - 1));
    }
}

/// One more added clause appends its line.
proof fn lemma_values_lines_take(vs: Seq<Seq<int>>, k: int)
    requires
        0 <= k < vs.len(),
    ensures
        values_lines(vs.take(k + 1)) == values_lines(vs.take(k)) + values_line(vs[k], false),
{
    assert(vs.take(k + 1).drop_last() =~= vs.take(k));
    assert(vs.take(k + 1).last() == vs[k]);
}

/// Counts describing one applied rewrite.
pub struct BvaStepSummary {
    pub new_var: i32,
    pub literals: usize,
    pub partials: usize,
    pub deleted_clauses: usize,
    pub added_clauses: usize,
    pub clause_saving: i128,
    pub size_saving: i128,
    pub literal_saving: i128,
}

/// Applies a rewrite: a fresh variable `z`, the clauses `z ∨ p` for each partial and `¬z ∨ l` for
/// each literal (see `bva_clause`), then the replaced clauses are deleted and `history`'s reasons
/// renumbered. `None` (and nothing changed) when the formula cannot take another variable.
pub fn apply_bva_candidate<W: Write>(formula: &mut Formula, logger: &mut Option<DratLogger<W>>,
    history: Option<&mut History>, candidate: BvaCandidate) -> (r: Option<BvaStepSummary>)
    requires
        old(formula).wf(),
        history matches Some(h) ==> old(formula).tracks(h),
        candidate.wf(old(formula).n_vars(), old(formula).clauses@.len()),
        candidate.unlocked_in(old(formula).clauses@),
    ensures
        final(formula).wf(),
        history matches Some(h) ==> final(formula).tracks(final(h))
            && final(h).decision_levels@.len() == h.decision_levels@.len(),
        r is None ==> *final(formula) == *old(formula),
        r is None <==> old(formula).n_vars() >= 0x7fff_ffff
            || old(formula).clauses@.len() + candidate.partials@.len() + candidate.literals@.len() > usize::MAX,
        r is Some ==> final(formula).stats.bva_literals == crate::stats::sat_add(old(formula).stats.bva_literals, 1)
            && final(formula).stats.clauses_deleted == crate::stats::sat_add(old(formula).stats.clauses_deleted,
                candidate.to_delete@.len() as int),
        r matches Some(s) ==> bva_applied(*old(formula), *final(formula), candidate) && s.new_var == old(formula).n_vars()
            && s.deleted_clauses == candidate.to_delete@.len() && s.partials == candidate.partials@.len()
            && s.literals == candidate.literals@.len(),
        final(formula).extensions == old(formula).extensions,
        final(formula).self_subsuming == old(formula).self_subsuming,
        old(formula).watch_lists_sound() ==> final(formula).watch_lists_sound(),
        *old(logger) is None ==> *final(logger) is None,
        r is None ==> *final(logger) == *old(logger),
        r is Some ==> (*old(logger) matches Some(l) ==> *final(logger) matches Some(l2)
            && l2.logged() == l.logged() + values_lines(bva_clause_values(old(formula).n_vars() as int, candidate))
                + deletion_text(old(formula).clauses@, candidate.to_delete@, old(formula).clauses@.len() as int)),
{
    if formula.assignment.len() >= 0x7fff_ffff {
        return None;
    }
    let m0 = formula.clauses.len();
    if candidate.partials.len() > usize::MAX - m0 || candidate.literals.len() > usize::MAX - m0 - candidate.partials.len() {
        return None;
    }
    let ghost start = *formula;
    let z = formula.add_literal();
    formula.stats.add_bva_literal();
    let ghost s1 = formula.stats;
    let ghost n1 = formula.n_vars();
    let ghost vals = bva_clause_values(start.n_vars() as int, candidate);
    let ghost np = candidate.partials@.len() as int;
    proof {
        assert(vals.take(0) =~= Seq::<Seq<int>>::empty());
        if *old(logger) is Some {
            assert((*old(logger))->0.logged() + values_lines(vals.take(0)) =~= (*old(logger))->0.logged());
        }
    }
    for pi in 0..candidate.partials.len()
        invariant
            vals == bva_clause_values(start.n_vars() as int, candidate),
            np == candidate.partials@.len(),
            *old(logger) is None ==> *logger is None,
            *old(logger) matches Some(l) ==> *logger matches Some(l2)
                && l2.logged() == l.logged() + values_lines(vals.take(pi as int)),
            formula.wf(),
            formula.n_vars() == n1,
            formula.stats == s1,
            n1 == start.n_vars() + 1,
            z.wf() && z.var() < n1,
            forall|i: int| 0 <= i < candidate.partials@.len() ==> lits_ok(#[trigger] candidate.partials@[i]@, start.n_vars()),
            formula.clauses@.len() == m0 + pi,
            m0 == start.clauses@.len(),
            m0 + candidate.partials@.len() + candidate.literals@.len() <= usize::MAX,
            start.clauses@.is_prefix_of(formula.clauses@),
            formula.extensions == start.extensions,
            start.watch_lists_sound() ==> formula.watch_lists_sound(),
            formula.self_subsuming == start.self_subsuming,
            z@ == start.n_vars(),
            forall|j: int| 0 <= j < pi ==> bva_added(formula.clauses@[m0 + j], seq![z@] + int_values(#[trigger] candidate.partials@[j]@)),
    {
        let ghost before_add = formula.clauses@;
        let partial = &candidate.partials[pi];
        proof { assert(lits_ok(candidate.partials@[pi as int]@, start.n_vars())); }
        let mut literals: Vec<Literal> = Vec::new();
        literals.push(z);
        for k in 0..partial.len()
            invariant
                lits_ok(partial@, start.n_vars()),
                z.wf() && z.var() < n1,
                n1 == start.n_vars() + 1,
                forall|q: int| 0 <= q < literals@.len() ==> (#[trigger] literals@[q]).wf() && literals@[q].var() < n1,
                lit_values(literals@) == seq![z@] + int_values(partial@.subrange(0, k as int)),
        {
            proof { assert(lit_ok(partial@[k as int], start.n_vars())); }
            let ghost lv = literals@;
            literals.push(Literal::new(partial[k]));
            proof {
                assert(lit_values(literals@) =~= lit_values(lv).push(partial@[k as int] as int));
                assert(int_values(partial@.subrange(0, k + 1)) =~= int_values(partial@.subrange(0, k as int)).push(partial@[k as int] as int));
                assert(lit_values(literals@) =~= seq![z@] + int_values(partial@.subrange(0, k + 1)));
            }
        }
        proof { assert(partial@.subrange(0, partial@.len() as int) =~= partial@); }
        let c = bva_clause(literals);
        proof { assert(formula.clause_fits(c)); }
        formula.add_clause_unchecked(c, logger);
        proof {
            assert forall|j: int| 0 <= j < pi + 1 implies bva_added(formula.clauses@[m0 + j], seq![z@] + int_values(#[trigger] candidate.partials@[j]@)) by {
                if j < pi {
                    assert(formula.clauses@[m0 + j] == before_add[m0 + j]);
                }
            }
            lemma_values_lines_take(vals, pi as int);
            lemma_drat_line_values(c@, false);
            assert(c@.map_values(|l: Literal| l@) == lit_values(c@));
            assert(vals[pi as int] == seq![z@] + int_values(candidate.partials@[pi as int]@));
        }
    }
    for li in 0..candidate.literals.len()
        invariant
            vals == bva_clause_values(start.n_vars() as int, candidate),
            np == candidate.partials@.len(),
            *old(logger) is None ==> *logger is None,
            *old(logger) matches Some(l) ==> *logger matches Some(l2)
                && l2.logged() == l.logged() + values_lines(vals.take(np + li)),
            formula.wf(),
            formula.n_vars() == n1,
            formula.stats == s1,
            n1 == start.n_vars() + 1,
            z.wf() && z.var() < n1,
            lits_ok(candidate.literals@, start.n_vars()),
            formula.clauses@.len() == m0 + candidate.partials@.len() + li,
            m0 == start.clauses@.len(),
            m0 + candidate.partials@.len() + candidate.literals@.len() <= usize::MAX,
            start.clauses@.is_prefix_of(formula.clauses@),
            formula.extensions == start.extensions,
            start.watch_lists_sound() ==> formula.watch_lists_sound(),
            formula.self_subsuming == start.self_subsuming,
            z@ == start.n_vars(),
            forall|j: int| 0 <= j < candidate.partials@.len() ==> bva_added(formula.clauses@[m0 + j], seq![z@] + int_values(#[trigger] candidate.partials@[j]@)),
            forall|j: int| 0 <= j < li ==> bva_added(formula.clauses@[m0 + candidate.partials@.len() + j], seq![-z@, #[trigger] candidate.literals@[j] as int]),
    {
        proof { assert(lit_ok(candidate.literals@[li as int], start.n_vars())); }
        let ghost before_add = formula.clauses@;
        let mut literals: Vec<Literal> = Vec::new();
        literals.push(z.negated());
        literals.push(Literal::new(candidate.literals[li]));
        proof { assert(lit_values(literals@) =~= seq![-z@, candidate.literals@[li as int] as int]); }
        let c = bva_clause(literals);
        proof { assert(formula.clause_fits(c)); }
        formula.add_clause_unchecked(c, logger);
        proof {
            lemma_values_lines_take(vals, np + li);
            lemma_drat_line_values(c@, false);
            assert(c@.map_values(|l: Literal| l@) == lit_values(c@));
            assert(vals[np + li] == seq![-z@, candidate.literals@[li as int] as int]);
        }
        proof {
            assert forall|j: int| 0 <= j < candidate.partials@.len() implies bva_added(formula.clauses@[m0 + j], seq![z@] + int_values(#[trigger] candidate.partials@[j]@)) by {
                assert(formula.clauses@[m0 + j] == before_add[m0 + j]);
            }
            assert forall|j: int| 0 <= j < li + 1 implies bva_added(formula.clauses@[m0 + candidate.partials@.len() + j], seq![-z@, #[trigger] candidate.literals@[j] as int]) by {
                if j < li {
                    assert(formula.clauses@[m0 + candidate.partials@.len() + j] == before_add[m0 + candidate.partials@.len() + j]);
                }
            }
        }
    }
    let ghost c1 = formula.clauses@;
    let ghost log_added = *logger;
    proof {
        assert(vals.take(vals.len() as int) =~= vals);
    }
    proof {
        assert forall|q: int| 0 <= q < candidate.to_delete@.len() implies #[trigger] candidate.to_delete@[q] < formula.clauses@.len()
            && formula.clauses@[candidate.to_delete@[q] as int].lock_count == 0 by {
            assert(formula.clauses@[candidate.to_delete@[q] as int] == start.clauses@[candidate.to_delete@[q] as int]);
        }
    }
    for k in 0..candidate.to_delete.len()
        invariant
            formula.wf(),
            formula.n_vars() == n1,
            forall|q: int| 0 <= q < candidate.to_delete@.len() ==> #[trigger] candidate.to_delete@[q] < formula.clauses@.len()
                && formula.clauses@[candidate.to_delete@[q] as int].lock_count == 0,
            formula.extensions == start.extensions,
            start.watch_lists_sound() ==> formula.watch_lists_sound(),
            formula.self_subsuming == start.self_subsuming,
            formula.clauses@ == c1,
            *logger == log_added,
            formula.stats.bva_literals == s1.bva_literals,
            formula.stats.clauses_deleted == crate::stats::sat_add(s1.clauses_deleted, k as int),
    {
        let idx = candidate.to_delete[k];
        formula.stats.remove_clause(&formula.clauses[idx]);
    }
    let ghost before = *formula;
    let old_to_new = formula.delete_clauses(candidate.to_delete.as_slice(), logger);
    let ghost d = candidate.to_delete@;
    proof {
        assert forall|i: int| 0 <= i < m0 implies (#[trigger] c1[i])@ == start.clauses@[i]@ by {
            assert(c1[i] == start.clauses@[i]);
        }
        lemma_deletion_text_views(c1, start.clauses@, d, m0 as int);
        lemma_deletion_text_tail(c1, d, m0 as int, c1.len() as int);
    }
    proof {
        lemma_kept_count_le(d, before.clauses@.len() as int);
        assert forall|q: int| 0 <= q < old_to_new@.len() implies (#[trigger] old_to_new@[q] matches Some(x) ==> x < formula.clauses@.len()) by {
            if !listed(d, q) {
                lemma_kept_index_below(d, q, before.clauses@.len() as int);
            }
        }
    }
    if let Some(h) = history {
        let ghost hb = *h;
        h.remap_clause_indices(old_to_new.as_slice());
        proof {
            assert forall|k: int| 0 <= k < h.decision_levels@.len() implies
                (#[trigger] h.decision_levels@[k]).below(formula.n_vars()) && h.decision_levels@[k].reasons_below(formula.clauses@.len()) by {
                let o = hb.decision_levels@[k];
                let f = h.decision_levels@[k];
                assert(o.below(start.n_vars()));
                assert forall|i: int| 0 <= i < f.implied_literals@.len() implies (#[trigger] f.implied_literals@[i]).0.var() < formula.n_vars()
                    && (f.implied_literals@[i].1 matches Some(x) ==> x < formula.clauses@.len()) by {
                    assert(f.implied_literals@[i] == (o.implied_literals@[i].0, remap_reason(o.implied_literals@[i].1, old_to_new@)));
                }
                assert forall|i: int| 0 <= i < f.reason_by_unsigned@.len() implies
                    (#[trigger] f.reason_by_unsigned@[i] matches Some(x) ==> x < formula.clauses@.len()) by {
                    assert(f.reason_by_unsigned@[i] == remap_reason(o.reason_by_unsigned@[i], old_to_new@));
                }
            }
        }
    }
    proof {
        let m = m0 as int;
        let np = candidate.partials@.len() as int;
        assert forall|i: int| 0 <= i < m && !listed(d, i) implies
            same_clause(formula.clauses@[kept_count(d, i) as int], #[trigger] start.clauses@[i]) by {
            assert(c1[i] == start.clauses@[i]);
        }
        assert forall|j: int| 0 <= j < np implies
            bva_added(formula.clauses@[kept_count(d, m + j) as int], seq![z@] + int_values(#[trigger] candidate.partials@[j]@)) by {
            assert(!listed(d, m + j));
            assert(same_clause(formula.clauses@[kept_count(d, m + j) as int], c1[m + j]));
        }
        assert forall|j: int| 0 <= j < candidate.literals@.len() implies
            bva_added(formula.clauses@[kept_count(d, m + np + j) as int], seq![-z@, #[trigger] candidate.literals@[j] as int]) by {
            assert(!listed(d, m + np + j));
            assert(same_clause(formula.clauses@[kept_count(d, m + np + j) as int], c1[m + np + j]));
        }
    }
    Some(BvaStepSummary {
        new_var: z.get_index(),
        literals: candidate.literals.len(),
        partials: candidate.partials.len(),
        deleted_clauses: candidate.to_delete.len(),
        added_clauses: candidate.added_clauses,
        clause_saving: candidate.clause_saving,
        size_saving: candidate.size_saving,
        literal_saving: candidate.literal_saving,
    })
}

/// Growing a grid over no partials keeps no partials.
pub proof fn lemma_grow_no_partials(index: BvaIndex, start: i32, lits: Seq<i32>, pids: Seq<usize>, saving: int, fuel: nat)
    requires
        pids.len() == 0,
    ensures
        grow(index, start, lits, pids, saving, fuel).1.len() == 0,
    decreases fuel,
{
    if fuel > 0 {
        match grid_next(index, start, lits, pids) {
            None => {},
            Some(p) => {
                if saving_of(lits.len() as int + 1, p.1 as int) > saving {
                    assert(keep(index, pids, p.0).len() == 0);
                    lemma_grow_no_partials(index, start, lits.push(p.0), keep(index, pids, p.0),
                        saving_of(lits.len() as int + 1, p.1 as int), (fuel - 1) as nat);
                }
            },
        }
    }
}

/// A start literal whose greedy grid is priced has partials.
pub proof fn lemma_priced_start(index: BvaIndex, x: i32)
    requires
        grid_priced(index, greedy_grid(index, x, sorted_pids(index, x))) is Some,
    ensures
        start_result(index, x) is Some,
{
    let w = unsigned_index_of(x as int) as int;
    if index.literal_to_partials@[w]@.len() == 0 {
        let ps = sorted_pids(index, x);
        if ps.len() > 0 && start_pids(index, x, ps) {
            assert(ps.contains(ps[0]));
        }
        if start_pids(index, x, ps) {
            assert(ps.len() == 0);
            lemma_grow_no_partials(index, x, seq![x], ps, saving_of(1, ps.len() as int), 2 * index.n_vars as nat);
        } else {
            let e: Seq<usize> = Seq::empty();
            assert(start_pids(index, x, e));
        }
    }
}

/// The rewrite the search finds in the index cannot be applied: no variable slot or clause index
/// is left for it.
pub open spec fn bva_limits(index: BvaIndex, f: Formula) -> bool {
    ||| f.n_vars() >= 0x7fff_ffff
    ||| exists|x: i32| #[trigger] search_start(index, x) && start_result(index, x) is Some
        && f.clauses@.len() + greedy_grid(index, x, sorted_pids(index, x)).0.len()
            + greedy_grid(index, x, sorted_pids(index, x)).1.len() > usize::MAX
}

/// The search over `f` finds no rewrite it can apply.
pub open spec fn bva_stopped(f: Formula) -> bool {
    exists|index: BvaIndex| #[trigger] index_of(index, f) && (search_empty(index) || bva_limits(index, f))
}

/// `b` is `a` after the rewrite of the greedy grid of one start literal, with one more variable
/// added by BVA and as many more deleted clauses as the grid deletes.
pub open spec fn bva_step(a: Formula, b: Formula) -> bool {
    exists|index: BvaIndex, c: BvaCandidate| #![trigger index_of(index, a), bva_applied(a, b, c)]
        index_of(index, a) && search_start(index, c.start) && c.wf(a.n_vars(), a.clauses@.len())
        && candidate_is(c, index, greedy_grid(index, c.start, sorted_pids(index, c.start)))
        && saves_most(index, c)
        && bva_applied(a, b, c)
        && b.stats.bva_literals == crate::stats::sat_add(a.stats.bva_literals, 1)
        && b.stats.clauses_deleted == crate::stats::sat_add(a.stats.clauses_deleted, c.to_delete@.len() as int)
}

/// `b` is reached from `a` by successive rewrites (possibly none).
pub open spec fn bva_run(a: Formula, b: Formula) -> bool {
    exists|fs: Seq<Formula>| fs.len() >= 1 && fs[0] == a && fs.last() == b
        && forall|i: int| 0 <= i < fs.len() - 1 ==> #[trigger] bva_step(fs[i], fs[i + 1])
}

/// No rewrite at all.
pub proof fn lemma_bva_run_refl(a: Formula)
    ensures
        bva_run(a, a),
{
    let fs = seq![a];
    assert(fs.last() == a);
}

/// One more rewrite.
pub proof fn lemma_bva_run_push(a: Formula, m: Formula, b: Formula)
    requires
        bva_run(a, m),
        bva_step(m, b),
    ensures
        bva_run(a, b),
{
    let fs = choose|fs: Seq<Formula>| fs.len() >= 1 && fs[0] == a && fs.last() == m
        && forall|i: int| 0 <= i < fs.len() - 1 ==> #[trigger] bva_step(fs[i], fs[i + 1]);
    let gs = fs.push(b);
    assert forall|i: int| 0 <= i < gs.len() - 1 implies #[trigger] bva_step(gs[i], gs[i + 1]) by {
        if i < fs.len() - 1 {
            assert(gs[i] == fs[i] && gs[i + 1] == fs[i + 1]);
        } else {
            assert(gs[i] == m && gs[i + 1] == b);
        }
    }
    assert(gs[0] == a && gs.last() == b);
}

/// Dropping the largest listed index, which lies below `m`, adds one kept clause below `m`.
pub proof fn lemma_kept_count_drop_last(d: Seq<usize>, m: int)
    requires
        d.len() >= 1,
        strictly_increasing(d),
        d.last() < m,
    ensures
        kept_count(d, m) + 1 == kept_count(d.drop_last(), m),
    decreases m,
{
    let e = d.drop_last();
    let top = d.last() as int;
    if m - 1 > top {
        lemma_kept_count_drop_last(d, m - 1);
        assert(listed(d, m - 1) == listed(e, m - 1)) by {
            if listed(d, m - 1) {
                let k = choose|k: int| 0 <= k < d.len() && #[trigger] d[k] as int == m - 1;
                if k == d.len() - 1 {
                    assert(false);
                }
                assert(e[k] == d[k]);
            }
            if listed(e, m - 1) {
                let k = choose|k: int| 0 <= k < e.len() && #[trigger] e[k] as int == m - 1;
                assert(d[k] == e[k]);
            }
        }
    } else {
        assert(m - 1 == top);
        assert(listed(d, top)) by {
            assert(d[d.len() - 1] as int == top);
        }
        assert(!listed(e, top)) by {
            if listed(e, top) {
                let k = choose|k: int| 0 <= k < e.len() && #[trigger] e[k] as int == top;
                assert(d[k] < d[d.len() - 1]);
            }
        }
        assert forall|i: int| 0 <= i < top implies (listed(d, i) <==> listed(e, i)) by {
            if listed(d, i) {
                let k = choose|k: int| 0 <= k < d.len() && #[trigger] d[k] as int == i;
                assert(k != d.len() - 1);
                assert(e[k] == d[k]);
            }
            if listed(e, i) {
                let k = choose|k: int| 0 <= k < e.len() && #[trigger] e[k] as int == i;
                assert(d[k] == e[k]);
            }
        }
        lemma_kept_count_same_below(d, e, top);
    }
}

/// Two lists that agree on the indices below `m` keep as many clauses below `m`.
pub proof fn lemma_kept_count_same_below(d: Seq<usize>, e: Seq<usize>, m: int)
    requires
        forall|i: int| 0 <= i < m ==> (listed(d, i) <==> listed(e, i)),
    ensures
        kept_count(d, m) == kept_count(e, m),
    decreases m,
{
    if m > 0 {
        lemma_kept_count_same_below(d, e, m - 1);
        assert(listed(d, m - 1) <==> listed(e, m - 1));
    }
}

/// Deleting the strictly increasing indices `d`, all below `m`, keeps `m - |d|` clauses.
pub proof fn lemma_kept_count_exact(d: Seq<usize>, m: int)
    requires
        strictly_increasing(d),
        forall|k: int| 0 <= k < d.len() ==> #[trigger] d[k] < m,
        m >= 0,
    ensures
        kept_count(d, m) == m - d.len(),
    decreases d.len(),
{
    if d.len() == 0 {
        crate::formula::database::lemma_kept_count_none(d, m);
    } else {
        let e = d.drop_last();
        assert(strictly_increasing(e)) by {
            assert forall|p: int, q: int| 0 <= p < q < e.len() implies e[p] < e[q] by {
                assert(e[p] == d[p] && e[q] == d[q]);
            }
        }
        assert forall|k: int| 0 <= k < e.len() implies #[trigger] e[k] < m by {
            assert(e[k] == d[k]);
        }
        lemma_kept_count_exact(e, m);
        assert(d.last() == d[d.len() - 1]);
        lemma_kept_count_drop_last(d, m);
    }
}

/// A rewrite found by the search removes at least two clauses.
pub proof fn lemma_bva_step_shrinks(a: Formula, b: Formula)
    requires
        bva_step(a, b),
    ensures
        b.clauses@.len() + 2 <= a.clauses@.len(),
{
    let (index, c) = choose|index: BvaIndex, c: BvaCandidate| #![trigger index_of(index, a), bva_applied(a, b, c)]
        index_of(index, a) && search_start(index, c.start) && c.wf(a.n_vars(), a.clauses@.len())
        && candidate_is(c, index, greedy_grid(index, c.start, sorted_pids(index, c.start)))
        && saves_most(index, c)
        && bva_applied(a, b, c)
        && b.stats.bva_literals == crate::stats::sat_add(a.stats.bva_literals, 1)
        && b.stats.clauses_deleted == crate::stats::sat_add(a.stats.clauses_deleted, c.to_delete@.len() as int);
    let g = greedy_grid(index, c.start, sorted_pids(index, c.start));
    let d = c.to_delete@;
    assert(d.no_duplicates()) by {
        assert forall|i: int, j: int| 0 <= i < d.len() && 0 <= j < d.len() && i != j implies d[i] != d[j] by {
            if i < j {
                assert(d[i] < d[j]);
            } else {
                assert(d[j] < d[i]);
            }
        }
    }
    d.unique_seq_to_set();
    assert(d.len() == grid_set(index, g.0, g.1).len());
    let m = a.clauses@.len() as int;
    let np = c.partials@.len() as int;
    let nl = c.literals@.len() as int;
    assert forall|k: int| 0 <= k < d.len() implies #[trigger] d[k] < m + np + nl by {
        assert(d[k] < m);
    }
    lemma_kept_count_exact(d, m + np + nl);
}

/// Finds and applies the best rewrite, if any.
pub fn apply_best_bva_step<W: Write>(formula: &mut Formula, logger: &mut Option<DratLogger<W>>, history: Option<&mut History>)
    -> (r: Option<BvaStepSummary>)
    requires
        old(formula).wf(),
        history matches Some(h) ==> old(formula).tracks(h),
    ensures
        final(formula).wf(),
        history matches Some(h) ==> final(formula).tracks(final(h))
            && final(h).decision_levels@.len() == h.decision_levels@.len(),
        r is None ==> *final(formula) == *old(formula),
        r is None ==> bva_stopped(*old(formula)),
        r is Some ==> exists|c: BvaCandidate| #[trigger] c.wf(old(formula).n_vars(), old(formula).clauses@.len())
            && c.clause_saving > 1 && c.unlocked_in(old(formula).clauses@) && grid_ok(c, old(formula).clauses@)
            && bva_applied(*old(formula), *final(formula), c),
        r is Some ==> bva_step(*old(formula), *final(formula)),
        final(formula).extensions == old(formula).extensions,
        final(formula).self_subsuming == old(formula).self_subsuming,
        old(formula).watch_lists_sound() ==> final(formula).watch_lists_sound(),
{
    let ghost f0 = *formula;
    let found = find_best_bva_candidate(formula);
    let ghost index = choose|index: BvaIndex| #[trigger] index_of(index, f0)
        && (found is None <==> search_empty(index))
        && (found matches Some(c) ==> search_start(index, c.start)
            && candidate_is(c, index, greedy_grid(index, c.start, sorted_pids(index, c.start)))
            && saves_most(index, c));
    match found {
        None => {
            proof { assert(index_of(index, f0) && search_empty(index)); }
            None
        },
        Some(candidate) => {
            let ghost c = candidate;
            let r = apply_bva_candidate(formula, logger, history, candidate);
            proof {
                if r is None {
                    if f0.n_vars() < 0x7fff_ffff {
                        lemma_priced_start(index, c.start);
                        assert(search_start(index, c.start) && start_result(index, c.start) is Some);
                        assert(bva_limits(index, f0));
                    }
                    assert(index_of(index, f0) && bva_limits(index, f0));
                } else {
                    assert(index_of(index, f0) && bva_applied(f0, *formula, c));
                }
            }
            r
        },
    }
}

/// Applies rewrites while one is found. Every rewrite removes at least two clauses, so at most
/// as many rewrites as there were clauses are tried.
pub fn process<W: Write>(formula: &mut Formula, logger: &mut Option<DratLogger<W>>, history: Option<&mut History>)
    requires
        old(formula).wf(),
        history matches Some(h) ==> old(formula).tracks(h),
    ensures
        final(formula).wf(),
        history matches Some(h) ==> final(formula).tracks(final(h))
            && final(h).decision_levels@.len() == h.decision_levels@.len(),
        final(formula).extensions == old(formula).extensions,
        final(formula).self_subsuming == old(formula).self_subsuming,
        processed(*old(formula), *final(formula)),
        bva_run(*old(formula), *final(formula)),
        bva_stopped(*final(formula)),
        old(formula).watch_lists_sound() ==> final(formula).watch_lists_sound(),
{
    match history {
        Some(h) => process_tracking(formula, logger, h),
        None => {
            proof {
                lemma_processed_refl(*formula, *formula);
                lemma_bva_run_refl(*formula);
            }
            let len0 = formula.clauses.len();
            let mut fuel = if len0 < usize::MAX { len0 + 1 } else { len0 };
            let ghost fuel0: int = fuel as int;
            while fuel > 0
                invariant
                    formula.wf(),
                    formula.extensions == old(formula).extensions,
                    formula.self_subsuming == old(formula).self_subsuming,
                    processed(*old(formula), *formula),
                    bva_run(*old(formula), *formula),
                    len0 == old(formula).clauses@.len(),
                    fuel <= fuel0,
                    2 * fuel0 > len0,
                    formula.clauses@.len() + 2 * (fuel0 - fuel) <= len0,
                    old(formula).watch_lists_sound() ==> formula.watch_lists_sound(),
                ensures
                    bva_stopped(*formula),
                decreases fuel,
            {
                let ghost before = *formula;
                if apply_best_bva_step(formula, logger, None).is_none() {
                    break;
                }
                proof {
                    assert(process_step(before, *formula));
                    lemma_processed_push(*old(formula), before, *formula);
                    lemma_bva_run_push(*old(formula), before, *formula);
                    lemma_bva_step_shrinks(before, *formula);
                }
                fuel = fuel - 1;
            }
        },
    }
}

/// `process` with a history whose reasons follow the clause renumbering.
fn process_tracking<W: Write>(formula: &mut Formula, logger: &mut Option<DratLogger<W>>, history: &mut History)
    requires
        old(formula).wf(),
        old(formula).tracks(old(history)),
    ensures
        final(formula).wf(),
        final(formula).tracks(final(history)),
        final(history).decision_levels@.len() == old(history).decision_levels@.len(),
        final(formula).extensions == old(formula).extensions,
        final(formula).self_subsuming == old(formula).self_subsuming,
        processed(*old(formula), *final(formula)),
        bva_run(*old(formula), *final(formula)),
        bva_stopped(*final(formula)),
        old(formula).watch_lists_sound() ==> final(formula).watch_lists_sound(),
{
    proof {
        lemma_processed_refl(*formula, *formula);
        lemma_bva_run_refl(*formula);
    }
    let len0 = formula.clauses.len();
    let mut fuel = if len0 < usize::MAX { len0 + 1 } else { len0 };
    let ghost fuel0: int = fuel as int;
    while fuel > 0
        invariant
            formula.wf(),
            formula.tracks(history),
            history.decision_levels@.len() == old(history).decision_levels@.len(),
            formula.extensions == old(formula).extensions,
            formula.self_subsuming == old(formula).self_subsuming,
            processed(*old(formula), *formula),
            old(formula).watch_lists_sound() ==> formula.watch_lists_sound(),
            bva_run(*old(formula), *formula),
            len0 == old(formula).clauses@.len(),
            fuel <= fuel0,
            2 * fuel0 > len0,
            formula.clauses@.len() + 2 * (fuel0 - fuel) <= len0,
        ensures
            bva_stopped(*formula),
        decreases fuel,
    {
        let ghost before = *formula;
        if apply_best_bva_step(formula, logger, Some(&mut *history)).is_none() {
            break;
        }
        proof {
            assert(process_step(before, *formula));
            lemma_processed_push(*old(formula), before, *formula);
            lemma_bva_run_push(*old(formula), before, *formula);
            lemma_bva_step_shrinks(before, *formula);
        }
        fuel = fuel - 1;
    }
}

} // verus!
