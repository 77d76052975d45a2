use vstd::prelude::*;
use crate::bitset::{BitSet, bitset_bits};
use crate::formula::literal::Literal;
use crate::history::History;

verus! {

/// Outcome of assigning a literal.
#[derive(Debug)]
pub enum AssignResult {
    /// The literal is already false.
    Conflict,
    /// The literal is already true.
    AlreadyAssigned,
    /// The literal was unassigned and is now true.
    Assigned(Literal),
}

/// A partial assignment of boolean values to variables `0..len`.
pub struct Assignment {
    assigned: BitSet,
    value: BitSet,
}

impl View for Assignment {
    type V = Seq<Option<bool>>;

    closed spec fn view(&self) -> Seq<Option<bool>> {
        Seq::new(
            bitset_bits(self.assigned).len(),
            |i: int|
                if bitset_bits(self.assigned)[i] {
                    Some(bitset_bits(self.value)[i])
                } else {
                    None
                },
        )
    }
}

impl Assignment {
    /// Both bit vectors have the same length.
    pub closed spec fn wf(&self) -> bool {
        bitset_bits(self.assigned).len() == bitset_bits(self.value).len()
    }

    /// The stored value bit of every variable, assigned or not.
    pub closed spec fn raw_values(&self) -> Seq<bool> {
        bitset_bits(self.value)
    }

    /// An assigned variable reads its stored value bit.
    pub proof fn lemma_raw_values(&self)
        requires
            self.wf(),
        ensures
            self.raw_values().len() == self@.len(),
            forall|i: int|
                0 <= i < self@.len() && #[trigger] self@[i] is Some ==> self@[i]->0
                    == self.raw_values()[i],
    {
    }

    /// An assignment of `length` unassigned variables.
    pub fn new(length: usize) -> (r: Self)
        ensures
            r.wf(),
            r@ == Seq::new(length as nat, |i: int| None::<bool>),
            r.raw_values() == Seq::new(length as nat, |i: int| false),
    {
        let r = Self { assigned: BitSet::new(length), value: BitSet::new(length) };
        assert(r@ =~= Seq::new(length as nat, |i: int| None::<bool>));
        r
    }

    pub fn len(&self) -> (r: usize)
        requires
            self.wf(),
        ensures
            r == self@.len(),
    {
        self.assigned.len()
    }

    /// Assigns `value` to variable `index`, whether or not it was assigned.
    pub fn assign(&mut self, index: usize, value: bool)
        requires
            old(self).wf(),
            index < old(self)@.len(),
        ensures
            final(self).wf(),
            final(self)@ == old(self)@.update(index as int, Some(value)),
            final(self).raw_values() == old(self).raw_values().update(index as int, value),
    {
        self.assigned.set(index);
        if value {
            self.value.set(index);
        } else {
            self.value.reset(index);
        }
        assert(self@ =~= old(self)@.update(index as int, Some(value)));
    }

    /// Makes `literal` true unless its variable is already assigned.
    pub fn assign_literal(&mut self, literal: Literal) -> (r: AssignResult)
        requires
            old(self).wf(),
            literal.wf(),
            literal.var() < old(self)@.len(),
        ensures
            final(self).wf(),
            match literal.eval_spec(old(self)@) {
                Some(false) => r is Conflict && final(self)@ == old(self)@
                    && final(self).raw_values() == old(self).raw_values(),
                Some(true) => r is AlreadyAssigned && final(self)@ == old(self)@
                    && final(self).raw_values() == old(self).raw_values(),
                None => r == AssignResult::Assigned(literal) && final(self)@ == old(
                    self,
                )@.update(literal.var() as int, Some(!literal.neg_spec()))
                    && final(self).raw_values() == old(self).raw_values().update(
                    literal.var() as int,
                    !literal.neg_spec(),
                ),
            },
    {
        match self.eval(&literal) {
            Some(false) => AssignResult::Conflict,
            Some(true) => AssignResult::AlreadyAssigned,
            None => {
                self.assign(literal.get_variable(), !literal.is_negated());
                AssignResult::Assigned(literal)
            },
        }
    }

    /// Value of `literal` under this assignment.
    pub fn eval(&self, literal: &Literal) -> (r: Option<bool>)
        requires
            self.wf(),
            literal.wf(),
        ensures
            r == literal.eval_spec(self@),
    {
        match self.get_value(literal.get_variable()) {
            Some(value) => Some(literal.is_negated() ^ value),
            None => None,
        }
    }

    /// Makes `literal` true and opens a new decision level for it.
    pub fn assign_history(&mut self, literal: &Literal, history: &mut History)
        requires
            old(self).wf(),
            literal.wf(),
            literal.var() < old(self)@.len(),
            old(history).wf(),
        ensures
            final(self).wf(),
            final(self)@ == old(self)@.update(literal.var() as int, Some(!literal.neg_spec())),
            final(self).raw_values() == old(self).raw_values().update(literal.var() as int, !literal.neg_spec()),
            final(history).wf(),
            final(history).decision_levels@.len() == old(history).decision_levels@.len() + 1,
            final(history).decision_levels@.drop_last() == old(history).decision_levels@,
            final(history).decision_levels@.last().decision_literal == Some(*literal),
            final(history).decision_levels@.last().implied_literals@.len() == 0,
            final(history).decision_levels@.last().reason_by_unsigned@.len() == 0,
            forall|v: nat| #[trigger] final(history).implication_levels_indexes.level_of_var(v) == if v
                == literal.var() { Some(old(history).decision_levels@.len() as usize) } else {
                old(history).implication_levels_indexes.level_of_var(v) },
            forall|n: nat| old(history).below(n) && literal.var() < n ==> #[trigger] final(history).below(n),
            forall|m: nat| old(history).reasons_below(m) ==> #[trigger] final(history).reasons_below(m),
    {
        self.assign(literal.get_variable(), !literal.is_negated());
        history.add_decision(literal);
        assert(final(history).decision_levels@.drop_last() =~= old(history).decision_levels@);
    }

    /// `assign_literal`, also recording an actual assignment as an implication with reason
    /// `reason_clause_idx` in `history`.
    pub fn assign_implication(&mut self, literal: Literal, history: &mut History, reason_clause_idx: Option<usize>) -> (r: AssignResult)
        requires
            old(self).wf(),
            literal.wf(),
            literal.var() < old(self)@.len(),
            old(history).wf(),
        ensures
            final(self).wf(),
            final(history).wf(),
            match literal.eval_spec(old(self)@) {
                Some(false) => r is Conflict && final(self)@ == old(self)@ && *final(history) == *old(history),
                Some(true) => r is AlreadyAssigned && final(self)@ == old(self)@ && *final(history) == *old(history),
                None => r == AssignResult::Assigned(literal)
                    && final(self)@ == old(self)@.update(literal.var() as int, Some(!literal.neg_spec())),
            },
            r is Assigned ==> old(history).level_of(literal) is Some ==> *final(history) == *old(history),
            r is Assigned ==> old(history).level_of(literal) is None ==> {
                &&& final(history).decision_levels@.len() == old(history).decision_levels@.len()
                &&& final(history).decision_levels@.drop_last() == old(history).decision_levels@.drop_last()
                &&& final(history).decision_levels@.last().decision_literal == old(history).decision_levels@.last().decision_literal
                &&& final(history).decision_levels@.last().implied_literals@ == old(history).decision_levels@.last().implied_literals@.push((literal, reason_clause_idx))
                &&& final(history).decision_levels@.last().reason_spec(literal) == reason_clause_idx
                &&& forall|v: nat| #[trigger] final(history).implication_levels_indexes.level_of_var(v) == if v
                    == literal.var() { Some((old(history).decision_levels@.len() - 1) as usize) } else {
                    old(history).implication_levels_indexes.level_of_var(v) }
            },
            forall|n: nat| old(history).below(n) && literal.var() < n ==> #[trigger] final(history).below(n),
            forall|m: nat| old(history).reasons_below(m) && (reason_clause_idx matches Some(c) ==> c < m) ==> #[trigger] final(history).reasons_below(m),
    {
        match self.assign_literal(literal) {
            AssignResult::Assigned(lit) => {
                history.add_implication(&lit, reason_clause_idx);
                AssignResult::Assigned(lit)
            },
            other => other,
        }
    }

    /// Unassigns variable `index`; its stored value bit is kept.
    pub fn unset(&mut self, index: usize)
        requires
            old(self).wf(),
            index < old(self)@.len(),
        ensures
            final(self).wf(),
            final(self)@ == old(self)@.update(index as int, None),
            final(self).raw_values() == old(self).raw_values(),
    {
        self.assigned.reset(index);
        assert(self@ =~= old(self)@.update(index as int, None));
    }

    fn is_already_assigned(&self, index: usize) -> (r: bool)
        requires
            self.wf(),
        ensures
            r == (index < self@.len() && self@[index as int] is Some),
    {
        self.assigned.test(index)
    }

    /// The stored value bit of every variable, in order.
    pub fn to_model(&self) -> (r: Vec<bool>)
        requires
            self.wf(),
        ensures
            r@ == self.raw_values(),
            r@.len() == self@.len(),
    {
        let mut result: Vec<bool> = Vec::new();
        let n = self.value.len();
        for i in 0..n
            invariant
                n == self.raw_values().len(),
                result@ == self.raw_values().subrange(0, i as int),
        {
            result.push(self.value.test(i));
            assert(result@ =~= self.raw_values().subrange(0, i + 1));
        }
        assert(result@ =~= self.raw_values());
        result
    }

    /// Value of variable `index`, `None` when unassigned or out of range.
    pub fn get_value(&self, index: usize) -> (r: Option<bool>)
        requires
            self.wf(),
        ensures
            r == (if index < self@.len() { self@[index as int] } else { None }),
    {
        if self.is_already_assigned(index) {
            return Some(self.value.test(index));
        }
        None
    }

    /// Adds an unassigned variable and returns its index, the old length.
    pub fn add_variable(&mut self) -> (r: usize)
        requires
            old(self).wf(),
            old(self)@.len() < usize::MAX,
        ensures
            final(self).wf(),
            r == old(self)@.len(),
            final(self)@ == old(self)@.push(None),
            final(self).raw_values() == old(self).raw_values().push(false),
    {
        let idx = self.value.len();
        self.value.grow(idx + 1);
        self.assigned.grow(idx + 1);
        assert(self@ =~= old(self)@.push(None));
        assert(self.raw_values() =~= old(self).raw_values().push(false));
        idx
    }

    /// A copy with the same assignment and stored values.
    pub fn duplicate(&self) -> (r: Self)
        requires
            self.wf(),
        ensures
            r.wf(),
            r@ == self@,
            r.raw_values() == self.raw_values(),
    {
        let n = self.value.len();
        let mut assigned = BitSet::new(n);
        let mut values = BitSet::new(n);
        for i in 0..n
            invariant
                n == self@.len(),
                self.wf(),
                bitset_bits(assigned).len() == n,
                bitset_bits(values).len() == n,
                forall|j: int|
                    0 <= j < i ==> bitset_bits(assigned)[j] == bitset_bits(self.assigned)[j]
                        && bitset_bits(values)[j] == bitset_bits(self.value)[j],
                forall|j: int|
                    i <= j < n ==> !bitset_bits(assigned)[j] && !bitset_bits(values)[j],
        {
            if self.assigned.test(i) {
                assigned.set(i);
            }
            if self.value.test(i) {
                values.set(i);
            }
        }
        let r = Self { assigned, value: values };
        assert(bitset_bits(r.assigned) =~= bitset_bits(self.assigned));
        assert(bitset_bits(r.value) =~= bitset_bits(self.value));
        r
    }
}

impl Clone for Assignment {
    fn clone(&self) -> (r: Self)
        ensures
            self.wf() ==> r.wf() && r@ == self@ && r.raw_values() == self.raw_values(),
    {
        if self.assigned.len() == self.value.len() {
            self.duplicate()
        } else {
            Self { assigned: BitSet::new(0), value: BitSet::new(0) }
        }
    }
}

} // verus!
