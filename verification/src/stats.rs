use vstd::prelude::*;
use crate::formula::clause::Clause;

verus! {

/// Solver counters. Every counter saturates at `u64::MAX` instead of overflowing.
#[derive(Clone, Copy, Debug)]
pub struct Stats {
    pub conflicts: u64,
    pub restarts: u64,
    pub clauses_learnt: u64,
    pub clauses_deleted: u64,
    pub clauses_subsumed: u64,
    pub subsumption_checks: u64,
    pub minimized_literals: u64,
    pub clauses_kept: u64,
    pub literals_learnt: u64,
    pub extension_literals: u64,
    pub bva_literals: u64,
    pub bve_eliminated_variables: u64,
    pub bve_resolvents: u64,
    pub learnt_clause_literals_kept: u64,
}

/// `a + b`, capped at `u64::MAX`.
pub open spec fn sat_add(a: u64, b: int) -> u64 {
    if a + b > u64::MAX { u64::MAX } else { (a + b) as u64 }
}

/// `a - b`, floored at 0.
pub open spec fn sat_sub(a: u64, b: int) -> u64 {
    if a - b < 0 { 0 } else { (a - b) as u64 }
}

impl Stats {
    /// All counters at zero.
    pub fn new() -> (r: Self)
        ensures
            r == Self::zero(),
    {
        Self {
            conflicts: 0,
            restarts: 0,
            clauses_learnt: 0,
            clauses_deleted: 0,
            clauses_subsumed: 0,
            subsumption_checks: 0,
            minimized_literals: 0,
            clauses_kept: 0,
            literals_learnt: 0,
            extension_literals: 0,
            bva_literals: 0,
            bve_eliminated_variables: 0,
            bve_resolvents: 0,
            learnt_clause_literals_kept: 0,
        }
    }

    pub open spec fn zero() -> Self {
        Self {
            conflicts: 0,
            restarts: 0,
            clauses_learnt: 0,
            clauses_deleted: 0,
            clauses_subsumed: 0,
            subsumption_checks: 0,
            minimized_literals: 0,
            clauses_kept: 0,
            literals_learnt: 0,
            extension_literals: 0,
            bva_literals: 0,
            bve_eliminated_variables: 0,
            bve_resolvents: 0,
            learnt_clause_literals_kept: 0,
        }
    }

    /// Counts an extension literal (same as `add_extension_literal`).
    pub fn add_literal(&mut self)
        ensures
            *final(self) == (Stats {
                literals_learnt: sat_add(old(self).literals_learnt, 1),
                extension_literals: sat_add(old(self).extension_literals, 1),
                ..*old(self)
            }),
    {
        self.add_extension_literal();
    }

    /// Counts a literal introduced by a DIP extension.
    pub fn add_extension_literal(&mut self)
        ensures
            *final(self) == (Stats {
                literals_learnt: sat_add(old(self).literals_learnt, 1),
                extension_literals: sat_add(old(self).extension_literals, 1),
                ..*old(self)
            }),
    {
        self.literals_learnt = self.literals_learnt.saturating_add(1);
        self.extension_literals = self.extension_literals.saturating_add(1);
    }

    /// Counts a literal introduced by bounded variable addition.
    pub fn add_bva_literal(&mut self)
        ensures
            *final(self) == (Stats {
                literals_learnt: sat_add(old(self).literals_learnt, 1),
                bva_literals: sat_add(old(self).bva_literals, 1),
                ..*old(self)
            }),
    {
        self.literals_learnt = self.literals_learnt.saturating_add(1);
        self.bva_literals = self.bva_literals.saturating_add(1);
    }

    pub fn add_bve_eliminated_variable(&mut self)
        ensures
            *final(self) == (Stats { bve_eliminated_variables: sat_add(old(self).bve_eliminated_variables, 1), ..*old(self) }),
    {
        self.bve_eliminated_variables = self.bve_eliminated_variables.saturating_add(1);
    }

    pub fn add_bve_resolvent(&mut self)
        ensures
            *final(self) == (Stats { bve_resolvents: sat_add(old(self).bve_resolvents, 1), ..*old(self) }),
    {
        self.bve_resolvents = self.bve_resolvents.saturating_add(1);
    }

    pub fn add_conflict(&mut self)
        ensures
            *final(self) == (Stats { conflicts: sat_add(old(self).conflicts, 1), ..*old(self) }),
    {
        self.conflicts = self.conflicts.saturating_add(1);
    }

    pub fn add_restart(&mut self)
        ensures
            *final(self) == (Stats { restarts: sat_add(old(self).restarts, 1), ..*old(self) }),
    {
        self.restarts = self.restarts.saturating_add(1);
    }

    /// Counts a deleted clause; a learnt one (`lbd > 0`) also leaves the kept totals.
    pub fn remove_clause(&mut self, clause: &Clause)
        ensures
            final(self).clauses_deleted == sat_add(old(self).clauses_deleted, 1),
            clause.lbd > 0 ==> final(self).clauses_kept == sat_sub(old(self).clauses_kept, 1)
                && final(self).learnt_clause_literals_kept == sat_sub(old(self).learnt_clause_literals_kept, clause@.len() as int),
            clause.lbd <= 0 ==> final(self).clauses_kept == old(self).clauses_kept
                && final(self).learnt_clause_literals_kept == old(self).learnt_clause_literals_kept,
            *final(self) == (Stats {
                clauses_deleted: final(self).clauses_deleted,
                clauses_kept: final(self).clauses_kept,
                learnt_clause_literals_kept: final(self).learnt_clause_literals_kept,
                ..*old(self)
            }),
    {
        self.clauses_deleted = self.clauses_deleted.saturating_add(1);
        if clause.lbd > 0 {
            self.clauses_kept = self.clauses_kept.saturating_sub(1);
            self.learnt_clause_literals_kept = self.learnt_clause_literals_kept.saturating_sub(clause.len() as u64);
        }
    }

    pub fn add_subsumed_clauses(&mut self, count: u64)
        ensures
            *final(self) == (Stats { clauses_subsumed: sat_add(old(self).clauses_subsumed, count as int), ..*old(self) }),
    {
        self.clauses_subsumed = self.clauses_subsumed.saturating_add(count);
    }

    pub fn add_subsumption_checks(&mut self, count: u64)
        ensures
            *final(self) == (Stats { subsumption_checks: sat_add(old(self).subsumption_checks, count as int), ..*old(self) }),
    {
        self.subsumption_checks = self.subsumption_checks.saturating_add(count);
    }

    pub fn add_minimized_literals(&mut self, count: u64)
        ensures
            *final(self) == (Stats { minimized_literals: sat_add(old(self).minimized_literals, count as int), ..*old(self) }),
    {
        self.minimized_literals = self.minimized_literals.saturating_add(count);
    }

    /// Counts a learnt clause and adds it to the kept totals.
    pub fn add_learnt_clause(&mut self, clause: &Clause)
        ensures
            *final(self) == (Stats {
                clauses_learnt: sat_add(old(self).clauses_learnt, 1),
                clauses_kept: sat_add(old(self).clauses_kept, 1),
                learnt_clause_literals_kept: sat_add(old(self).learnt_clause_literals_kept, clause@.len() as int),
                ..*old(self)
            }),
    {
        self.clauses_learnt = self.clauses_learnt.saturating_add(1);
        self.clauses_kept = self.clauses_kept.saturating_add(1);
        self.learnt_clause_literals_kept = self.learnt_clause_literals_kept.saturating_add(clause.len() as u64);
    }
}

} // verus!
