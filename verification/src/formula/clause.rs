use vstd::prelude::*;
use crate::formula::assignment::Assignment;
use crate::formula::literal::{Literal, valid_lit_value};
use crate::two_watched::Watched;

verus! {

broadcast use vstd::seq_lib::group_to_multiset_ensures;

/// Every literal of the sequence can be negated and indexed.
pub open spec fn lits_wf(s: Seq<Literal>) -> bool {
    forall|i: int| 0 <= i < s.len() ==> (#[trigger] s[i]).wf()
}

/// Every literal of the sequence has a variable below `n`.
pub open spec fn lits_below(s: Seq<Literal>, n: nat) -> bool {
    forall|i: int| 0 <= i < s.len() ==> (#[trigger] s[i]).var() < n
}

/// Some literal is true under `model`.
pub open spec fn clause_sat(s: Seq<Literal>, model: Seq<Option<bool>>) -> bool {
    exists|i: int| 0 <= i < s.len() && (#[trigger] s[i]).eval_spec(model) == Some(true)
}

/// Every literal is false under `model` (an empty clause is falsified).
pub open spec fn clause_falsified(s: Seq<Literal>, model: Seq<Option<bool>>) -> bool {
    forall|i: int| 0 <= i < s.len() ==> (#[trigger] s[i]).eval_spec(model) == Some(false)
}

/// Position `k` holds the only unassigned literal and every other literal is false.
pub open spec fn unit_at(s: Seq<Literal>, model: Seq<Option<bool>>, k: int) -> bool {
    &&& 0 <= k < s.len()
    &&& s[k].eval_spec(model) is None
    &&& forall|j: int| 0 <= j < s.len() && j != k ==> (#[trigger] s[j]).eval_spec(model) == Some(false)
}

/// The clause is unit: no true literal and exactly one unassigned position.
pub open spec fn clause_unit(s: Seq<Literal>, model: Seq<Option<bool>>) -> bool {
    exists|k: int| unit_at(s, model, k)
}

/// The literals of `s` that are unassigned under `model`, in order.
pub open spec fn unassigned_of(s: Seq<Literal>, model: Seq<Option<bool>>) -> Seq<Literal>
    decreases s.len(),
{
    if s.len() == 0 {
        s
    } else if s.last().eval_spec(model) is None {
        unassigned_of(s.drop_last(), model).push(s.last())
    } else {
        unassigned_of(s.drop_last(), model)
    }
}

/// `acc` followed by the literals of `s` whose value is not `skip` and that are not yet present.
pub open spec fn append_new(acc: Seq<Literal>, s: Seq<Literal>, skip: int) -> Seq<Literal>
    decreases s.len(),
{
    if s.len() == 0 {
        acc
    } else {
        let prev = append_new(acc, s.drop_last(), skip);
        if s.last()@ != skip && !prev.contains(s.last()) {
            prev.push(s.last())
        } else {
            prev
        }
    }
}

/// Some literal occurs together with its negation.
pub open spec fn tautology(s: Seq<Literal>) -> bool {
    exists|i: int, j: int| 0 <= i < s.len() && 0 <= j < s.len() && #[trigger] s[i]@ == -(#[trigger] s[j]@)
}

/// Literals gathered by `append_new` keep their variables below `n`.
pub proof fn lemma_append_new_below(acc: Seq<Literal>, s: Seq<Literal>, skip: int, n: nat)
    requires
        lits_below(acc, n),
        lits_below(s, n),
    ensures
        lits_below(append_new(acc, s, skip), n),
    decreases s.len(),
{
    if s.len() > 0 {
        assert forall|i: int| 0 <= i < s.drop_last().len() implies (#[trigger] s.drop_last()[i]).var() < n by {
            assert(s.drop_last()[i] == s[i]);
        }
        lemma_append_new_below(acc, s.drop_last(), skip, n);
        assert(s.last() == s[s.len() - 1]);
    }
}

/// The resolvent of `a` (on `v`) and `b` (on `-v`), duplicates dropped, first-occurrence order.
pub open spec fn resolvent_lits(a: Seq<Literal>, b: Seq<Literal>, v: int) -> Seq<Literal> {
    append_new(append_new(Seq::empty(), a, v), b, -v)
}

/// Number of distinct values in `s`.
pub open spec fn distinct_count(s: Seq<usize>) -> nat
    decreases s.len(),
{
    if s.len() == 0 {
        0
    } else if s.drop_last().contains(s.last()) {
        distinct_count(s.drop_last())
    } else {
        distinct_count(s.drop_last()) + 1
    }
}

/// Negating a clause twice gives back its literals.
pub proof fn lemma_negate_involutive(c: Seq<Literal>, once: Seq<Literal>, twice: Seq<Literal>)
    requires
        lits_wf(c),
        once.len() == c.len(),
        forall|i: int| 0 <= i < c.len() ==> (#[trigger] once[i])@ == -c[i]@,
        twice.len() == once.len(),
        forall|i: int| 0 <= i < once.len() ==> (#[trigger] twice[i])@ == -once[i]@,
    ensures
        twice == c,
{
    assert forall|i: int| 0 <= i < c.len() implies twice[i] == c[i] by {
        assert(once[i]@ == -c[i]@);
        Literal::lemma_view_injective(twice[i], c[i]);
    }
    assert(twice =~= c);
}

/// Literal values as stored integers.
pub open spec fn lits_as_i32(s: Seq<Literal>) -> Seq<i32> {
    s.map_values(|l: Literal| l@ as i32)
}

pub open spec fn sorted_i32(s: Seq<i32>) -> bool {
    forall|i: int, j: int| 0 <= i <= j < s.len() ==> s[i] <= s[j]
}

/// The watch state that a clause of length `len` starts with.
pub open spec fn watched_for_len_spec(len: nat) -> Watched {
    if len == 0 {
        Watched::Unwatched
    } else if len == 1 {
        Watched::One(0)
    } else {
        Watched::Two(0, 1)
    }
}

/// Watched positions lie inside a clause of length `len` and are distinct: none for the empty
/// clause, one for a unit clause, two otherwise.
pub open spec fn watched_ok(w: Watched, len: nat) -> bool {
    match w {
        Watched::Unwatched => len == 0,
        Watched::One(i) => i < len && len == 1,
        Watched::Two(i, j) => i < len && j < len && i != j,
    }
}

/// A disjunction of literals with its watch state and bookkeeping.
///
/// `lbd` is `-1` for original clauses, `0` for extension/BVA definitions and the
/// number of distinct decision levels for learnt clauses; `lock_count` counts the
/// active implications that use the clause as their reason.
#[derive(Debug)]
pub struct Clause {
    pub literals: Vec<Literal>,
    pub watched: Watched,
    pub lbd: i64,
    pub lock_count: usize,
    pub bva_generated: bool,
}

impl Clone for Clause {
    fn clone(&self) -> (r: Self)
        ensures
            r@ == self@,
            r.watched == self.watched,
            r.lbd == self.lbd,
            r.lock_count == self.lock_count,
            r.bva_generated == self.bva_generated,
    {
        let mut literals: Vec<Literal> = Vec::new();
        for i in 0..self.literals.len()
            invariant
                literals@ == self@.subrange(0, i as int),
        {
            literals.push(self.literals[i]);
            assert(literals@ =~= self@.subrange(0, i + 1));
        }
        assert(literals@ =~= self@);
        Clause {
            literals,
            watched: self.watched,
            lbd: self.lbd,
            lock_count: self.lock_count,
            bva_generated: self.bva_generated,
        }
    }
}

impl View for Clause {
    type V = Seq<Literal>;

    open spec fn view(&self) -> Seq<Literal> {
        self.literals@
    }
}

impl Clause {
    /// Literals are well formed and the watched positions are valid.
    pub open spec fn wf(&self) -> bool {
        lits_wf(self@) && watched_ok(self.watched, self@.len())
    }

    /// An empty original clause.
    pub fn new() -> (r: Self)
        ensures
            r@ == Seq::<Literal>::empty(),
            r.watched == Watched::Unwatched,
            r.lbd == -1,
            r.lock_count == 0,
            !r.bva_generated,
            r.wf(),
    {
        Self { literals: vec![], watched: Watched::Unwatched, lbd: -1, lock_count: 0, bva_generated: false }
    }

    fn watched_for_len(len: usize) -> (r: Watched)
        ensures
            r == watched_for_len_spec(len as nat),
    {
        match len {
            0 => Watched::Unwatched,
            1 => Watched::One(0),
            _ => Watched::Two(0, 1),
        }
    }

    /// A clause over `literals` with the given `lbd`, watching its first (up to two) literals.
    pub fn from_literals(literals: Vec<Literal>, lbd: i64) -> (r: Self)
        ensures
            r@ == literals@,
            r.watched == watched_for_len_spec(literals@.len()),
            r.lbd == lbd,
            r.lock_count == 0,
            !r.bva_generated,
            lits_wf(literals@) ==> r.wf(),
    {
        let watched = Self::watched_for_len(literals.len());
        Self { literals, watched, lbd, lock_count: 0, bva_generated: false }
    }

    /// An original clause over `literals` (`lbd == -1`).
    pub fn from_lits(literals: Vec<Literal>) -> (r: Self)
        ensures
            r@ == literals@,
            r.watched == watched_for_len_spec(literals@.len()),
            r.lbd == -1,
            r.lock_count == 0,
            !r.bva_generated,
            lits_wf(literals@) ==> r.wf(),
    {
        Self::from_literals(literals, -1)
    }

    pub fn len(&self) -> (r: usize)
        ensures
            r == self@.len(),
    {
        self.literals.len()
    }

    /// Iterator over the literals in order.
    pub fn iter(&self) -> (r: std::slice::Iter<'_, Literal>)
        ensures
            vstd::std_specs::slice::into_iter_elts(r) == self@,
    {
        let sl = self.literals.as_slice();
        let r = sl.iter();
        proof {
            vstd::std_specs::slice::axiom_spec_slice_iter(sl);
            assert(self@.as_ref().unref() =~= self@);
        }
        r
    }

    /// Appends `literal`; refused when the clause already holds it.
    pub fn add_literal(&mut self, literal: &Literal) -> (r: Result<(), &'static str>)
        requires
            old(self).wf(),
            literal.wf(),
        ensures
            r is Err <==> old(self)@.contains(*literal),
            r matches Err(e) ==> e@ == "Literal already inside clause"@,
            r is Err ==> *final(self) == *old(self),
            r is Ok ==> final(self)@ == old(self)@.push(*literal),
            r is Ok ==> final(self).watched == (match old(self).watched {
                Watched::Unwatched => Watched::One(0),
                Watched::One(_) => Watched::Two(0, 1),
                Watched::Two(i, j) => Watched::Two(i, j),
            }),
            final(self).lbd == old(self).lbd,
            final(self).lock_count == old(self).lock_count,
            final(self).bva_generated == old(self).bva_generated,
            final(self).wf(),
    {
        if self.contains(literal) {
            return Err("Literal already inside clause");
        }
        match self.watched {
            Watched::Unwatched => self.watched = Watched::One(0),
            Watched::One(_) => self.watched = Watched::Two(0, 1),
            Watched::Two(_, _) => {},
        }
        self.literals.push(*literal);
        Ok(())
    }

    /// Whether `literal` occurs in the clause.
    pub fn contains(&self, literal: &Literal) -> (r: bool)
        ensures
            r == self@.contains(*literal),
    {
        for i in 0..self.literals.len()
            invariant
                forall|j: int| 0 <= j < i ==> self@[j] != *literal,
        {
            if self.literals[i] == *literal {
                return true;
            }
        }
        false
    }

    pub fn get_literals(&self) -> (r: &Vec<Literal>)
        ensures
            r@ == self@,
    {
        &self.literals
    }

    /// The unassigned literals, in clause order.
    pub fn get_unassigned_literals(&self, assignment: &Assignment) -> (r: Vec<Literal>)
        requires
            lits_wf(self@),
            assignment.wf(),
        ensures
            r@ == unassigned_of(self@, assignment@),
    {
        let mut out: Vec<Literal> = Vec::new();
        for i in 0..self.literals.len()
            invariant
                lits_wf(self@),
                assignment.wf(),
                out@ == unassigned_of(self@.subrange(0, i as int), assignment@),
        {
            assert(self@.subrange(0, i + 1).drop_last() =~= self@.subrange(0, i as int));
            if assignment.eval(&self.literals[i]).is_none() {
                out.push(self.literals[i]);
            }
        }
        assert(self@.subrange(0, self@.len() as int) =~= self@);
        out
    }

    /// Whether the clause holds `index` or `-index`.
    pub fn contains_literal(&self, index: i32) -> (r: bool)
        requires
            valid_lit_value(index as int),
        ensures
            r == exists|i: int| 0 <= i < self@.len() && (#[trigger] self@[i]@ == index || self@[i]@ == -index),
    {
        let pos = Literal::new(index);
        let neg = Literal::new(-index);
        proof {
            Literal::lemma_view_injective(pos, neg);
        }
        let r = self.contains(&pos) || self.contains(&neg);
        proof {
            if r {
                if self@.contains(pos) {
                    let i = choose|i: int| 0 <= i < self@.len() && self@[i] == pos;
                    assert(self@[i]@ == index);
                } else {
                    let i = choose|i: int| 0 <= i < self@.len() && self@[i] == neg;
                    assert(self@[i]@ == -index);
                }
            } else {
                assert forall|i: int| 0 <= i < self@.len() implies !(#[trigger] self@[i]@ == index
                    || self@[i]@ == -index) by {
                    Literal::lemma_view_injective(self@[i], pos);
                    Literal::lemma_view_injective(self@[i], neg);
                }
            }
        }
        r
    }

    /// Whether some literal is true.
    pub fn is_satisfied(&self, assignment: &Assignment) -> (r: bool)
        requires
            lits_wf(self@),
            assignment.wf(),
        ensures
            r == clause_sat(self@, assignment@),
    {
        for i in 0..self.literals.len()
            invariant
                lits_wf(self@),
                assignment.wf(),
                forall|j: int| 0 <= j < i ==> (#[trigger] self@[j]).eval_spec(assignment@) != Some(true),
        {
            if assignment.eval(&self.literals[i]) == Some(true) {
                return true;
            }
        }
        false
    }

    /// Whether exactly one literal is unassigned and all others are false.
    pub fn is_unit(&self, assignment: &Assignment) -> (r: bool)
        requires
            lits_wf(self@),
            assignment.wf(),
        ensures
            r == clause_unit(self@, assignment@),
    {
        self.get_unit_literal(assignment).is_some()
    }

    /// The clause with every literal negated (an original clause).
    pub fn negate(&self) -> (r: Self)
        requires
            lits_wf(self@),
        ensures
            r@.len() == self@.len(),
            forall|i: int| 0 <= i < self@.len() ==> (#[trigger] r@[i])@ == -self@[i]@,
            r.watched == watched_for_len_spec(self@.len()),
            r.lbd == -1,
            r.lock_count == 0,
            !r.bva_generated,
            r.wf(),
    {
        let mut negated: Vec<Literal> = Vec::new();
        for i in 0..self.literals.len()
            invariant
                lits_wf(self@),
                negated@.len() == i,
                forall|j: int| 0 <= j < i ==> (#[trigger] negated@[j])@ == -self@[j]@ && negated@[j].wf(),
        {
            negated.push(self.literals[i].negated());
        }
        Self::from_lits(negated)
    }

    /// The single unassigned literal of a unit clause, `None` otherwise.
    pub fn get_unit_literal(&self, assignment: &Assignment) -> (r: Option<&Literal>)
        requires
            lits_wf(self@),
            assignment.wf(),
        ensures
            r is Some <==> clause_unit(self@, assignment@),
            r matches Some(l) ==> exists|k: int| unit_at(self@, assignment@, k) && self@[k] == *l,
    {
        let mut unit: Option<usize> = None;
        for i in 0..self.literals.len()
            invariant
                lits_wf(self@),
                assignment.wf(),
                forall|j: int| 0 <= j < i ==> (#[trigger] self@[j]).eval_spec(assignment@) != Some(true),
                match unit {
                    None => forall|j: int| 0 <= j < i ==> (#[trigger] self@[j]).eval_spec(assignment@) == Some(false),
                    Some(k) => k < i && self@[k as int].eval_spec(assignment@) is None
                        && forall|j: int| 0 <= j < i && j != k ==> (#[trigger] self@[j]).eval_spec(assignment@) == Some(false),
                },
        {
            match assignment.eval(&self.literals[i]) {
                Some(true) => {
                    proof {
                        assert forall|k: int| !unit_at(self@, assignment@, k) by {
                            if unit_at(self@, assignment@, k) && k != i {
                                assert(self@[i as int].eval_spec(assignment@) == Some(false));
                            }
                        }
                    }
                    return None;
                },
                Some(false) => {},
                None => {
                    if let Some(k) = unit {
                        proof {
                            assert forall|m: int| !unit_at(self@, assignment@, m) by {
                                if unit_at(self@, assignment@, m) {
                                    if m != i {
                                        assert(self@[i as int].eval_spec(assignment@) == Some(false));
                                    } else {
                                        assert(self@[k as int].eval_spec(assignment@) == Some(false));
                                    }
                                }
                            }
                        }
                        return None;
                    }
                    unit = Some(i);
                },
            }
        }
        match unit {
            Some(k) => {
                assert(unit_at(self@, assignment@, k as int));
                Some(&self.literals[k])
            },
            None => {
                proof {
                    assert forall|m: int| !unit_at(self@, assignment@, m) by {
                        if unit_at(self@, assignment@, m) {
                            assert(self@[m].eval_spec(assignment@) == Some(false));
                        }
                    }
                }
                None
            },
        }
    }

    /// Whether every literal is false.
    pub fn is_empty(&self, assignment: &Assignment) -> (r: bool)
        requires
            lits_wf(self@),
            assignment.wf(),
        ensures
            r == clause_falsified(self@, assignment@),
    {
        for i in 0..self.literals.len()
            invariant
                lits_wf(self@),
                assignment.wf(),
                forall|j: int| 0 <= j < i ==> (#[trigger] self@[j]).eval_spec(assignment@) == Some(false),
        {
            if assignment.eval(&self.literals[i]) != Some(false) {
                return false;
            }
        }
        true
    }

    /// Assigns the unit literal of a unit clause and returns it; `None` (no change) otherwise.
    pub fn unit_propagate(&self, assignment: &mut Assignment) -> (r: Option<Literal>)
        requires
            lits_wf(self@),
            lits_below(self@, old(assignment)@.len()),
            old(assignment).wf(),
        ensures
            final(assignment).wf(),
            r is Some <==> clause_unit(self@, old(assignment)@),
            r is None ==> final(assignment)@ == old(assignment)@,
            r matches Some(l) ==> (exists|k: int| unit_at(self@, old(assignment)@, k) && self@[k] == l)
                && final(assignment)@ == old(assignment)@.update(l.var() as int, Some(!l.neg_spec())),
    {
        match self.get_unit_literal(assignment) {
            Some(lit) => {
                let l = *lit;
                assignment.assign(l.get_variable(), !l.is_negated());
                Some(l)
            },
            None => None,
        }
    }

    /// Number of distinct decision levels among `levels`.
    pub fn calculate_lbd(levels: &[usize]) -> (r: i64)
        requires
            levels@.len() < i64::MAX,
        ensures
            r == distinct_count(levels@),
    {
        let mut count: i64 = 0;
        for i in 0..levels.len()
            invariant
                levels@.len() < i64::MAX,
                count == distinct_count(levels@.subrange(0, i as int)),
                count <= i,
        {
            let ghost pre = levels@.subrange(0, i as int);
            assert(levels@.subrange(0, i + 1).drop_last() =~= pre);
            let mut seen = false;
            for j in 0..i
                invariant
                    i < levels@.len(),
                    pre == levels@.subrange(0, i as int),
                    seen == exists|k: int| 0 <= k < j && pre[k] == levels@[i as int],
            {
                assert(pre[j as int] == levels@[j as int]);
                if levels[j] == levels[i] {
                    seen = true;
                }
            }
            assert(seen == pre.contains(levels@[i as int]));
            if !seen {
                count = count + 1;
            }
        }
        assert(levels@.subrange(0, levels@.len() as int) =~= levels@);
        count
    }

    /// Whether every literal of this clause occurs in `other`.
    pub fn is_subset_of(&self, other: &Clause) -> (r: bool)
        ensures
            r == forall|i: int| 0 <= i < self@.len() ==> other@.contains(#[trigger] self@[i]),
    {
        for i in 0..self.literals.len()
            invariant
                forall|j: int| 0 <= j < i ==> other@.contains(#[trigger] self@[j]),
        {
            if !other.contains(&self.literals[i]) {
                assert(!other@.contains(self@[i as int]));
                return false;
            }
        }
        true
    }

    /// The watched literals: `None` for an unwatched clause.
    pub fn watched_literals(&self) -> (r: Option<(&Literal, Option<&Literal>)>)
        requires
            watched_ok(self.watched, self@.len()),
        ensures
            match self.watched {
                Watched::Unwatched => r is None,
                Watched::One(i) => r == Some((&self@[i as int], None::<&Literal>)),
                Watched::Two(i, j) => r == Some((&self@[i as int], Some(&self@[j as int]))),
            },
    {
        match self.watched {
            Watched::Unwatched => None,
            Watched::One(i) => Some((&self.literals[i], None)),
            Watched::Two(i, j) => Some((&self.literals[i], Some(&self.literals[j]))),
        }
    }

    /// Resolvent of this clause (on `var`) with `other` (on `-var`), or `None` when it is a
    /// tautology. Duplicate literals are dropped; the result is an original clause.
    pub fn resolve_on(&self, other: &Clause, var: i32) -> (r: Option<Clause>)
        requires
            lits_wf(self@),
            lits_wf(other@),
        ensures
            match r {
                Some(c) => c@ == resolvent_lits(self@, other@, var as int) && !tautology(c@)
                    && c.lbd == -1 && c.wf() && c.lock_count == 0 && !c.bva_generated,
                None => tautology(resolvent_lits(self@, other@, var as int)),
            },
    {
        let mut lits: Vec<Literal> = Vec::new();
        for i in 0..self.literals.len()
            invariant
                lits_wf(self@),
                lits@ == append_new(Seq::empty(), self@.subrange(0, i as int), var as int),
                lits_wf(lits@),
        {
            assert(self@.subrange(0, i + 1).drop_last() =~= self@.subrange(0, i as int));
            let l = self.literals[i];
            if l.get_index() != var && !contains_lit(&lits, &l) {
                lits.push(l);
            }
        }
        assert(self@.subrange(0, self@.len() as int) =~= self@);
        let ghost first = lits@;
        let neg_var: i64 = -(var as i64);
        for i in 0..other.literals.len()
            invariant
                lits_wf(other@),
                neg_var == -(var as int),
                lits@ == append_new(first, other@.subrange(0, i as int), -(var as int)),
                lits_wf(lits@),
        {
            assert(other@.subrange(0, i + 1).drop_last() =~= other@.subrange(0, i as int));
            let l = other.literals[i];
            if l.get_index() as i64 != neg_var && !contains_lit(&lits, &l) {
                lits.push(l);
            }
        }
        assert(other@.subrange(0, other@.len() as int) =~= other@);
        for i in 0..lits.len()
            invariant
                lits_wf(lits@),
                lits@ == resolvent_lits(self@, other@, var as int),
                forall|a: int, b: int| 0 <= a < i && 0 <= b < lits@.len() ==> #[trigger] lits@[a]@ != -(#[trigger] lits@[b]@),
        {
            let neg = lits[i].negated();
            if contains_lit(&lits, &neg) {
                proof {
                    let b = choose|b: int| 0 <= b < lits@.len() && lits@[b] == neg;
                    assert(lits@[i as int]@ == -lits@[b]@);
                }
                return None;
            }
            proof {
                assert forall|b: int| 0 <= b < lits@.len() implies lits@[i as int]@ != -(#[trigger] lits@[b]@) by {
                    Literal::lemma_view_injective(lits@[b], neg);
                }
            }
        }
        Some(Clause::from_literals(lits, -1))
    }

    /// The literal values, sorted ascending.
    pub fn sorted_literal_indices(&self) -> (r: Vec<i32>)
        ensures
            sorted_i32(r@),
            r@.to_multiset() == lits_as_i32(self@).to_multiset(),
    {
        let mut out: Vec<i32> = Vec::new();
        for i in 0..self.literals.len()
            invariant
                sorted_i32(out@),
                out@.to_multiset() == lits_as_i32(self@.subrange(0, i as int)).to_multiset(),
        {
            let v = self.literals[i].get_index();
            let mut pos: usize = 0;
            while pos < out.len() && out[pos] <= v
                invariant
                    pos <= out@.len(),
                    sorted_i32(out@),
                    forall|k: int| 0 <= k < pos ==> out@[k] <= v,
                decreases out@.len() - pos,
            {
                pos = pos + 1;
            }
            let ghost before = out@;
            out.insert(pos, v);
            proof {
                vstd::seq_lib::to_multiset_insert(before, pos as int, v);
                assert(out@ == before.insert(pos as int, v));
                assert(lits_as_i32(self@.subrange(0, i + 1)) =~= lits_as_i32(self@.subrange(0, i as int)).push(v));
                assert forall|a: int, b: int| 0 <= a <= b < out@.len() implies out@[a] <= out@[b] by {
                    if b < pos as int {
                    } else if a > pos as int {
                        assert(out@[a] == before[a - 1] && out@[b] == before[b - 1]);
                    } else if a == pos as int {
                        if b > a {
                            assert(out@[b] == before[b - 1]);
                            assert(pos < before.len());
                            assert(!(before[pos as int] <= v));
                        }
                    } else {
                        if b == pos as int {
                        } else {
                            assert(out@[b] == before[b - 1]);
                        }
                    }
                }
            }
        }
        assert(self@.subrange(0, self@.len() as int) =~= self@);
        out
    }
}

/// Whether `lits` holds `lit`.
pub fn contains_lit(lits: &Vec<Literal>, lit: &Literal) -> (r: bool)
    ensures
        r == lits@.contains(*lit),
{
    for i in 0..lits.len()
        invariant
            forall|j: int| 0 <= j < i ==> lits@[j] != *lit,
    {
        if lits[i] == *lit {
            return true;
        }
    }
    false
}

} // verus!
