use vstd::prelude::*;

verus! {

/// A variable `x_index` with an optional value.
#[derive(Clone, Debug)]
pub struct Variable {
    index: u64,
    value: Option<bool>,
}

impl Variable {
    pub closed spec fn index_spec(&self) -> u64 {
        self.index
    }

    pub closed spec fn value_spec(&self) -> Option<bool> {
        self.value
    }

    /// Creates the variable `x_index` with the given value (`None` when unassigned).
    pub fn new(index: u64, value: Option<bool>) -> (r: Self)
        ensures
            r.index_spec() == index,
            r.value_spec() == value,
    {
        Self { index, value }
    }

    /// Assigns the value; nothing happens when the variable is already assigned.
    pub fn assign(&mut self, value: bool)
        ensures
            old(self).value_spec() is Some ==> *final(self) == *old(self),
            old(self).value_spec() is None ==> final(self).value_spec() == Some(value),
            final(self).index_spec() == old(self).index_spec(),
    {
        if self.value.is_none() {
            self.value = Some(value);
        }
    }

    pub fn get_value(&self) -> (r: Option<bool>)
        ensures
            r == self.value_spec(),
    {
        self.value
    }

    pub fn already_assigned(&self) -> (r: bool)
        ensures
            r == self.value_spec() is Some,
    {
        if self.value.is_some() {
            return true;
        }
        false
    }

    pub fn get_index(&self) -> (r: u64)
        ensures
            r == self.index_spec(),
    {
        self.index
    }
}

} // verus!
