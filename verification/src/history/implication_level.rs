use vstd::prelude::*;
use crate::formula::literal::Literal;

verus! {

/// For every variable, the decision level at which it was assigned, if any.
pub struct ImplicationLevels {
    pub levels_by_var: Vec<Option<usize>>,
}

impl ImplicationLevels {
    /// Level of variable `v`.
    pub open spec fn level_of_var(&self, v: nat) -> Option<usize> {
        if v < self.levels_by_var@.len() { self.levels_by_var@[v as int] } else { None }
    }

    pub fn new() -> (r: Self)
        ensures
            r.levels_by_var@.len() == 0,
    {
        Self { levels_by_var: Vec::new() }
    }

    /// Records that the variable of `lit` was assigned at `level`.
    pub fn set_level(&mut self, lit: &Literal, level: usize)
        requires
            lit.wf(),
        ensures
            forall|v: nat| #[trigger] final(self).level_of_var(v) == if v == lit.var() { Some(level) } else {
                old(self).level_of_var(v) },
            final(self).levels_by_var@.len() >= old(self).levels_by_var@.len(),
    {
        let var = lit.get_variable();
        while self.levels_by_var.len() <= var
            invariant
                var == lit.var(),
                self.levels_by_var@.len() >= old(self).levels_by_var@.len(),
                forall|v: nat| #[trigger] self.level_of_var(v) == old(self).level_of_var(v),
            decreases var + 1 - self.levels_by_var@.len(),
        {
            let ghost before = *self;
            self.levels_by_var.push(None);
            assert forall|v: nat| #[trigger] self.level_of_var(v) == before.level_of_var(v) by {}
        }
        let ghost before = *self;
        self.levels_by_var.set(var, Some(level));
        assert forall|v: nat| #[trigger] self.level_of_var(v) == if v == lit.var() { Some(level) } else {
            before.level_of_var(v) } by {}
    }

    /// Level of the variable of `lit`.
    pub fn get_level(&self, lit: &Literal) -> (r: Option<usize>)
        requires
            lit.wf(),
        ensures
            r == self.level_of_var(lit.var()),
    {
        let var = lit.get_variable();
        if var < self.levels_by_var.len() {
            self.levels_by_var[var]
        } else {
            None
        }
    }

    /// Forgets the level of the variable of `lit`.
    pub fn unset_level(&mut self, lit: &Literal)
        requires
            lit.wf(),
        ensures
            forall|v: nat| #[trigger] final(self).level_of_var(v) == if v == lit.var() { None } else {
                old(self).level_of_var(v) },
            final(self).levels_by_var@.len() == old(self).levels_by_var@.len(),
    {
        let var = lit.get_variable();
        if var < self.levels_by_var.len() {
            self.levels_by_var.set(var, None);
        }
    }
}

} // verus!
