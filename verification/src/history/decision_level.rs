use vstd::prelude::*;
use crate::formula::literal::Literal;

verus! {

/// Reasons of a trail, in trail order, skipping decisions/pure literals without one.
pub open spec fn trail_reasons(t: Seq<(Literal, Option<usize>)>) -> Seq<usize>
    decreases t.len(),
{
    if t.len() == 0 {
        Seq::empty()
    } else {
        match t.last().1 {
            Some(r) => trail_reasons(t.drop_last()).push(r),
            None => trail_reasons(t.drop_last()),
        }
    }
}

/// A clause index after renumbering with `old_to_new`; indices out of its range vanish.
pub open spec fn remap_reason(r: Option<usize>, old_to_new: Seq<Option<usize>>) -> Option<usize> {
    match r {
        Some(i) => if i < old_to_new.len() { old_to_new[i as int] } else { None },
        None => None,
    }
}

/// One decision level: its decision (none at the root level) and the literals implied
/// at this level, each with the index of its reason clause.
pub struct DecisionLevel {
    pub decision_literal: Option<Literal>,
    pub implied_literals: Vec<(Literal, Option<usize>)>,
    pub reason_by_unsigned: Vec<Option<usize>>,
}

impl DecisionLevel {
    /// The reason recorded for `lit` (by dense index).
    pub open spec fn reason_spec(&self, lit: Literal) -> Option<usize> {
        if lit.uidx() < self.reason_by_unsigned@.len() {
            self.reason_by_unsigned@[lit.uidx() as int]
        } else {
            None
        }
    }

    /// The decision and every implied literal are well formed.
    pub open spec fn wf(&self) -> bool {
        &&& (self.decision_literal matches Some(d) ==> d.wf())
        &&& forall|i: int| 0 <= i < self.implied_literals@.len() ==> (#[trigger] self.implied_literals@[i]).0.wf()
    }

    /// Every literal of the level has a variable below `n`.
    pub open spec fn below(&self, n: nat) -> bool {
        &&& (self.decision_literal matches Some(d) ==> d.var() < n)
        &&& forall|i: int| 0 <= i < self.implied_literals@.len() ==> (#[trigger] self.implied_literals@[i]).0.var() < n
    }

    /// Every reason recorded at this level, in trail or dense-index form, is below `m`.
    pub open spec fn reasons_below(&self, m: nat) -> bool {
        &&& forall|i: int| 0 <= i < self.implied_literals@.len() ==>
            ((#[trigger] self.implied_literals@[i]).1 matches Some(r) ==> r < m)
        &&& forall|i: int| 0 <= i < self.reason_by_unsigned@.len() ==>
            ((#[trigger] self.reason_by_unsigned@[i]) matches Some(r) ==> r < m)
    }

    /// A level opened by `decision_literal`, with nothing implied yet.
    pub fn new(decision_literal: &Literal) -> (r: Self)
        ensures
            r.decision_literal == Some(*decision_literal),
            r.implied_literals@.len() == 0,
            r.reason_by_unsigned@.len() == 0,
    {
        Self {
            decision_literal: Some(*decision_literal),
            implied_literals: Vec::new(),
            reason_by_unsigned: Vec::new(),
        }
    }

    /// The root level, which has no decision.
    pub fn empty() -> (r: Self)
        ensures
            r.decision_literal is None,
            r.implied_literals@.len() == 0,
            r.reason_by_unsigned@.len() == 0,
    {
        Self { decision_literal: None, implied_literals: Vec::new(), reason_by_unsigned: Vec::new() }
    }

    /// Appends `lit` to the trail of this level with reason `clause_index`.
    pub fn add_implied_literal(&mut self, lit: &Literal, clause_index: Option<usize>)
        requires
            lit.wf(),
        ensures
            final(self).decision_literal == old(self).decision_literal,
            final(self).implied_literals@ == old(self).implied_literals@.push((*lit, clause_index)),
            final(self).reason_spec(*lit) == clause_index,
            forall|l: Literal| l.wf() && l != *lit ==> final(self).reason_spec(l) == old(self).reason_spec(l),
            final(self).reason_by_unsigned@.len() >= old(self).reason_by_unsigned@.len(),
            forall|i: int| 0 <= i < final(self).reason_by_unsigned@.len() ==>
                (#[trigger] final(self).reason_by_unsigned@[i] == if i == lit.uidx() { clause_index }
                else if i < old(self).reason_by_unsigned@.len() { old(self).reason_by_unsigned@[i] }
                else { None }),
    {
        let key = lit.get_unsigned_index() as usize;
        while self.reason_by_unsigned.len() <= key
            invariant
                key == lit.uidx(),
                self.reason_by_unsigned@.len() >= old(self).reason_by_unsigned@.len(),
                forall|i: int| 0 <= i < self.reason_by_unsigned@.len() ==>
                    (#[trigger] self.reason_by_unsigned@[i] == if i < old(self).reason_by_unsigned@.len() {
                        old(self).reason_by_unsigned@[i] } else { None }),
                self.decision_literal == old(self).decision_literal,
                self.implied_literals@ == old(self).implied_literals@,
            decreases key + 1 - self.reason_by_unsigned@.len(),
        {
            self.reason_by_unsigned.push(None);
        }
        self.reason_by_unsigned.set(key, clause_index);
        self.implied_literals.push((*lit, clause_index));
        proof {
            assert forall|l: Literal| l.wf() && l != *lit implies final(self).reason_spec(l) == old(self).reason_spec(l) by {
                if l@ == lit@ {
                    Literal::lemma_view_injective(l, *lit);
                } else {
                    crate::formula::literal::lemma_unsigned_index_injective(l@, lit@);
                }
            }
        }
    }

    pub fn get_decision_literal(&self) -> (r: Option<&Literal>)
        ensures
            r == match self.decision_literal { Some(d) => Some(&d), None => None::<&Literal> },
    {
        self.decision_literal.as_ref()
    }

    /// The implied literals, latest first.
    pub fn get_implied_literals_rev(&self) -> (r: Vec<Literal>)
        ensures
            r@.len() == self.implied_literals@.len(),
            forall|i: int| 0 <= i < r@.len() ==> #[trigger] r@[i] == self.implied_literals@[
                self.implied_literals@.len() - 1 - i].0,
    {
        let n = self.implied_literals.len();
        let mut out: Vec<Literal> = Vec::new();
        while out.len() < n
            invariant
                n == self.implied_literals@.len(),
                out@.len() <= n,
                forall|i: int| 0 <= i < out@.len() ==> #[trigger] out@[i] == self.implied_literals@[n - 1 - i].0,
            decreases n - out@.len(),
        {
            let k = n - 1 - out.len();
            out.push(self.implied_literals[k].0);
        }
        out
    }

    /// The reason clause index recorded for `lit`, if any.
    pub fn get_reason(&self, lit: &Literal) -> (r: Option<usize>)
        requires
            lit.wf(),
        ensures
            r == self.reason_spec(*lit),
    {
        let key = lit.get_unsigned_index() as usize;
        if key < self.reason_by_unsigned.len() {
            self.reason_by_unsigned[key]
        } else {
            None
        }
    }

    /// The implied literals in trail order.
    pub fn implied_literals_iter(&self) -> (r: Vec<Literal>)
        ensures
            r@.len() == self.implied_literals@.len(),
            forall|i: int| 0 <= i < r@.len() ==> #[trigger] r@[i] == self.implied_literals@[i].0,
    {
        let mut out: Vec<Literal> = Vec::new();
        for i in 0..self.implied_literals.len()
            invariant
                out@.len() == i,
                forall|j: int| 0 <= j < i ==> #[trigger] out@[j] == self.implied_literals@[j].0,
        {
            out.push(self.implied_literals[i].0);
        }
        out
    }

    /// The reason clause of every implication of this level, in trail order.
    pub fn reason_indices(&self) -> (r: Vec<usize>)
        ensures
            r@ == trail_reasons(self.implied_literals@),
    {
        let mut out: Vec<usize> = Vec::new();
        for i in 0..self.implied_literals.len()
            invariant
                out@ == trail_reasons(self.implied_literals@.subrange(0, i as int)),
        {
            assert(self.implied_literals@.subrange(0, i + 1).drop_last() =~= self.implied_literals@.subrange(0, i as int));
            if let Some(r) = self.implied_literals[i].1 {
                out.push(r);
            }
        }
        assert(self.implied_literals@.subrange(0, self.implied_literals@.len() as int) =~= self.implied_literals@);
        out
    }

    /// Renumbers every recorded reason with `old_to_new`.
    pub fn remap_clause_indices(&mut self, old_to_new: &[Option<usize>])
        ensures
            final(self).decision_literal == old(self).decision_literal,
            final(self).implied_literals@.len() == old(self).implied_literals@.len(),
            forall|i: int| 0 <= i < old(self).implied_literals@.len() ==>
                #[trigger] final(self).implied_literals@[i] == (old(self).implied_literals@[i].0,
                remap_reason(old(self).implied_literals@[i].1, old_to_new@)),
            final(self).reason_by_unsigned@.len() == old(self).reason_by_unsigned@.len(),
            forall|i: int| 0 <= i < old(self).reason_by_unsigned@.len() ==>
                #[trigger] final(self).reason_by_unsigned@[i] == remap_reason(old(self).reason_by_unsigned@[i], old_to_new@),
    {
        let n = self.implied_literals.len();
        for i in 0..n
            invariant
                n == old(self).implied_literals@.len(),
                self.implied_literals@.len() == old(self).implied_literals@.len(),
                forall|j: int| 0 <= j < i ==>
                    #[trigger] self.implied_literals@[j] == (old(self).implied_literals@[j].0,
                    remap_reason(old(self).implied_literals@[j].1, old_to_new@)),
                forall|j: int| i <= j < self.implied_literals@.len() ==>
                    #[trigger] self.implied_literals@[j] == old(self).implied_literals@[j],
                self.reason_by_unsigned@ == old(self).reason_by_unsigned@,
                self.decision_literal == old(self).decision_literal,
        {
            let (lit, reason) = self.implied_literals[i];
            let mapped = remap(reason, old_to_new);
            self.implied_literals.set(i, (lit, mapped));
        }
        let m = self.reason_by_unsigned.len();
        for i in 0..m
            invariant
                m == old(self).reason_by_unsigned@.len(),
                self.reason_by_unsigned@.len() == old(self).reason_by_unsigned@.len(),
                forall|j: int| 0 <= j < i ==>
                    #[trigger] self.reason_by_unsigned@[j] == remap_reason(old(self).reason_by_unsigned@[j], old_to_new@),
                forall|j: int| i <= j < self.reason_by_unsigned@.len() ==>
                    #[trigger] self.reason_by_unsigned@[j] == old(self).reason_by_unsigned@[j],
                self.implied_literals@.len() == old(self).implied_literals@.len(),
                forall|j: int| 0 <= j < old(self).implied_literals@.len() ==>
                    #[trigger] self.implied_literals@[j] == (old(self).implied_literals@[j].0,
                    remap_reason(old(self).implied_literals@[j].1, old_to_new@)),
                self.decision_literal == old(self).decision_literal,
        {
            let mapped = remap(self.reason_by_unsigned[i], old_to_new);
            self.reason_by_unsigned.set(i, mapped);
        }
    }
}

fn remap(r: Option<usize>, old_to_new: &[Option<usize>]) -> (out: Option<usize>)
    ensures
        out == remap_reason(r, old_to_new@),
{
    match r {
        Some(i) => if i < old_to_new.len() { old_to_new[i] } else { None },
        None => None,
    }
}

} // verus!
