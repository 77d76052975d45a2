use vstd::prelude::*;
use crate::bitset::{BitSet, bitset_bits};
use crate::formula::Formula;
use crate::formula::clause::{Clause, distinct_count};
use crate::formula::literal::Literal;
use crate::history::History;
use crate::history::conflict_analysis::lits_in_range;

verus! {

/// The recorded levels of the literals of `lits` that have one, in order.
pub open spec fn levels_of(h: History, lits: Seq<Literal>) -> Seq<usize>
    decreases lits.len(),
{
    if lits.len() == 0 {
        Seq::empty()
    } else {
        match h.level_of(lits.last()) {
            Some(l) => levels_of(h, lits.drop_last()).push(l),
            None => levels_of(h, lits.drop_last()),
        }
    }
}

/// Largest entry of `s`, `0` when it is empty.
pub open spec fn max_or_zero(s: Seq<usize>) -> usize
    decreases s.len(),
{
    if s.len() == 0 {
        0
    } else {
        let m = max_or_zero(s.drop_last());
        if s.last() > m { s.last() } else { m }
    }
}

/// The level to backtrack to for a clause whose literals have the levels `levels`:
/// the highest of them after the first, `0` with at most one.
pub open spec fn backtrack_of(levels: Seq<usize>) -> usize {
    if levels.len() <= 1 { 0 } else { max_or_zero(levels.skip(1)) }
}

/// `pos` lists, in increasing order, positions of `b` that hold the entries of `a` in turn.
pub open spec fn positions_pick(pos: Seq<int>, a: Seq<Literal>, b: Seq<Literal>) -> bool {
    &&& pos.len() == a.len()
    &&& forall|i: int| 0 <= i < pos.len() ==> 0 <= #[trigger] pos[i] < b.len() && a[i] == b[pos[i]]
    &&& forall|i: int, j: int| 0 <= i < j < pos.len() ==> #[trigger] pos[i] < #[trigger] pos[j]
}

/// `a` is `b` with some entries left out, the others kept in their order.
pub open spec fn subsequence_of(a: Seq<Literal>, b: Seq<Literal>) -> bool {
    exists|pos: Seq<int>| #[trigger] positions_pick(pos, a, b)
}

pub proof fn lemma_levels_of_len(h: History, lits: Seq<Literal>)
    ensures
        levels_of(h, lits).len() <= lits.len(),
    decreases lits.len(),
{
    if lits.len() > 0 {
        lemma_levels_of_len(h, lits.drop_last());
    }
}

impl History {
    /// The backtrack level of a learnt clause (the highest level among its literals' levels
    /// after the first one) and its LBD (the number of distinct levels).
    pub fn clause_levels(&self, literals: &[Literal]) -> (r: (usize, i64))
        requires
            lits_in_range(literals@, i32::MAX as nat),
            literals@.len() < i64::MAX,
        ensures
            r.0 == backtrack_of(levels_of(*self, literals@)),
            r.1 == distinct_count(levels_of(*self, literals@)),
    {
        let mut levels: Vec<usize> = Vec::new();
        for i in 0..literals.len()
            invariant
                lits_in_range(literals@, i32::MAX as nat),
                levels@ == levels_of(*self, literals@.subrange(0, i as int)),
        {
            proof {
                assert(literals@.subrange(0, i + 1).drop_last() =~= literals@.subrange(0, i as int));
                assert(literals@[i as int].wf());
            }
            match self.get_literal_and_level(&literals[i]) {
                Some((_, level)) => levels.push(level),
                None => {},
            }
        }
        proof {
            assert(literals@.subrange(0, literals@.len() as int) =~= literals@);
            lemma_levels_of_len(*self, literals@);
        }
        let mut backtrack: usize = 0;
        let mut i: usize = 1;
        while i < levels.len()
            invariant
                1 <= i,
                levels@.len() >= 1 ==> i <= levels@.len(),
                levels@.len() >= 1 ==> backtrack == max_or_zero(levels@.subrange(1, i as int)),
                levels@.len() == 0 ==> backtrack == 0,
            decreases levels@.len() - i,
        {
            proof {
                assert(levels@.subrange(1, i + 1).drop_last() =~= levels@.subrange(1, i as int));
            }
            if levels[i] > backtrack {
                backtrack = levels[i];
            }
            i = i + 1;
        }
        proof {
            if levels@.len() >= 1 {
                assert(levels@.subrange(1, levels@.len() as int) =~= levels@.skip(1));
            }
        }
        (backtrack, Clause::calculate_lbd(levels.as_slice()))
    }

    /// Recursive minimization of a learnt clause: a literal after the first is dropped when
    /// every path back from it through reason clauses ends in literals of the clause or of
    /// level 0. Returns the kept literals (the first one always kept, order unchanged) and how
    /// many were dropped.
    ///
    /// Each variable is expanded at most once along the search, so the search takes at most
    /// one step per variable; a search that would need more (a cycle among the recorded
    /// reasons) keeps its literal.
    pub fn minimize_clause_literals(&self, formula: &Formula, learned_lits: Vec<Literal>) -> (r: (Vec<Literal>, usize))
        requires
            formula.wf(),
            formula.tracks(self),
            lits_in_range(learned_lits@, formula.n_vars()),
        ensures
            r.0@.len() <= learned_lits@.len(),
            learned_lits@.len() > 0 ==> r.0@.len() >= 1 && r.0@[0] == learned_lits@[0],
            learned_lits@.len() == 0 ==> r.0@.len() == 0,
            forall|i: int| 0 <= i < r.0@.len() ==> learned_lits@.contains(#[trigger] r.0@[i]),
            forall|i: int| 1 <= i < r.0@.len() ==> learned_lits@.subrange(1, learned_lits@.len() as int).contains(#[trigger] r.0@[i]),
            r.1 == learned_lits@.len() - r.0@.len(),
            forall|i: int| 1 <= i < r.0@.len() ==> (self.level_of(#[trigger] r.0@[i]) matches Some(l) && l != 0),
            subsequence_of(r.0@, learned_lits@),
    {
        let original_len = learned_lits.len();
        if learned_lits.len() == 0 {
            proof {
                let pos = Seq::<int>::empty();
                assert(learned_lits@ =~= Seq::<Literal>::empty());
                assert(positions_pick(pos, learned_lits@, learned_lits@));
            }
            return (learned_lits, 0);
        }
        let ghost n = formula.n_vars();
        let size = formula.assignment.len() + 1;
        let mut min_seen = BitSet::new(size);
        for i in 0..learned_lits.len()
            invariant
                lits_in_range(learned_lits@, n),
                n == formula.n_vars(),
                size == n + 1,
                bitset_bits(min_seen).len() == size,
        {
            proof { assert(learned_lits@[i as int].var() < n); }
            min_seen.set(learned_lits[i].get_variable());
        }
        let mut poisoned = BitSet::new(size);
        let mut minimized_lits: Vec<Literal> = Vec::new();
        minimized_lits.push(learned_lits[0]);
        let ghost mut pos: Seq<int> = seq![0int];
        for li in 1..learned_lits.len()
            invariant
                positions_pick(pos, minimized_lits@, learned_lits@),
                forall|i: int| 0 <= i < pos.len() ==> #[trigger] pos[i] < li,
                formula.wf(),
                formula.tracks(self),
                lits_in_range(learned_lits@, n),
                n == formula.n_vars(),
                size == n + 1,
                bitset_bits(min_seen).len() == size,
                bitset_bits(poisoned).len() == size,
                1 <= minimized_lits@.len() <= li,
                minimized_lits@[0] == learned_lits@[0],
                forall|i: int| 0 <= i < minimized_lits@.len() ==> learned_lits@.contains(#[trigger] minimized_lits@[i]),
                forall|i: int| 1 <= i < minimized_lits@.len() ==> learned_lits@.subrange(1, learned_lits@.len() as int).contains(#[trigger] minimized_lits@[i]),
                forall|i: int| 1 <= i < minimized_lits@.len() ==> (self.level_of(#[trigger] minimized_lits@[i]) matches Some(l) && l != 0),
        {
            let lit = learned_lits[li];
            proof { assert(lit.wf() && lit.var() < n); }
            let var = lit.get_variable();
            let level = match self.get_literal_and_level(&lit) {
                Some((_, l)) => l,
                None => 0,
            };
            if level != 0 {
                let mut stack: Vec<i32> = Vec::new();
                stack.push(lit.get_index());
                let mut local_seen: Vec<usize> = Vec::new();
                let mut failed = false;
                let mut budget: usize = size;
                while stack.len() > 0
                    invariant
                        formula.wf(),
                        formula.tracks(self),
                        n == formula.n_vars(),
                        size == n + 1,
                        bitset_bits(min_seen).len() == size,
                        bitset_bits(poisoned).len() == size,
                        forall|k: int| 0 <= k < stack@.len() ==> crate::formula::literal::valid_lit_value(#[trigger] stack@[k] as int)
                            && crate::formula::literal::var_of(stack@[k] as int) < n,
                        forall|k: int| 0 <= k < local_seen@.len() ==> #[trigger] local_seen@[k] < size,
                    decreases budget, stack@.len(),
                {
                    let current_idx = match stack.pop() {
                        Some(x) => x,
                        None => { break; },
                    };
                    let current = Literal::new(current_idx);
                    let c_var = current.get_variable();
                    if c_var != var && min_seen.test(c_var) {
                        continue;
                    }
                    if poisoned.test(c_var) {
                        failed = true;
                        break;
                    }
                    let c_level = match self.get_literal_and_level(&current) {
                        Some((_, l)) => l,
                        None => 0,
                    };
                    if c_level == 0 {
                        continue;
                    }
                    if c_level >= self.decision_levels.len() {
                        failed = true;
                        break;
                    }
                    let reason = self.decision_levels[c_level].get_reason(&current);
                    let reason_idx = match reason {
                        Some(ri) => ri,
                        None => {
                            failed = true;
                            break;
                        },
                    };
                    if budget == 0 {
                        failed = true;
                        break;
                    }
                    budget = budget - 1;
                    if c_var != var {
                        min_seen.set(c_var);
                        local_seen.push(c_var);
                    }
                    proof {
                        assert(self.decision_levels@[c_level as int].reasons_below(formula.clauses@.len()));
                        assert(formula.clause_fits(formula.clauses@[reason_idx as int]));
                    }
                    let children = &formula.clauses[reason_idx].literals;
                    for ci in 0..children.len()
                        invariant
                            *children == formula.clauses@[reason_idx as int].literals,
                            formula.clause_fits(formula.clauses@[reason_idx as int]),
                            n == formula.n_vars(),
                            forall|k: int| 0 <= k < stack@.len() ==> crate::formula::literal::valid_lit_value(#[trigger] stack@[k] as int)
                                && crate::formula::literal::var_of(stack@[k] as int) < n,
                    {
                        let child = children[ci];
                        proof {
                            assert(formula.clauses@[reason_idx as int]@[ci as int].wf());
                            assert(formula.clauses@[reason_idx as int]@[ci as int].var() < n);
                        }
                        if child.get_variable() != c_var {
                            stack.push(child.get_index());
                        }
                    }
                }
                if failed {
                    for k in 0..local_seen.len()
                        invariant
                            bitset_bits(min_seen).len() == size,
                            bitset_bits(poisoned).len() == size,
                            forall|j: int| 0 <= j < local_seen@.len() ==> #[trigger] local_seen@[j] < size,
                    {
                        min_seen.reset(local_seen[k]);
                        poisoned.set(local_seen[k]);
                    }
                    poisoned.set(var);
                    let ghost before = minimized_lits@;
                    let ghost pos0 = pos;
                    minimized_lits.push(lit);
                    proof {
                        pos = pos.push(li as int);
                        assert(learned_lits@[li as int] == lit);
                        assert(positions_pick(pos, minimized_lits@, learned_lits@)) by {
                            assert forall|i: int| 0 <= i < pos.len() implies 0 <= #[trigger] pos[i] < learned_lits@.len()
                                && minimized_lits@[i] == learned_lits@[pos[i]] by {
                                if i < pos0.len() {
                                    assert(pos[i] == pos0[i]);
                                    assert(minimized_lits@[i] == before[i]);
                                }
                            }
                            assert forall|i: int, j: int| 0 <= i < j < pos.len() implies #[trigger] pos[i] < #[trigger] pos[j] by {
                                if j == pos.len() - 1 {
                                    assert(pos[i] == pos0[i]);
                                    assert(pos0[i] < li);
                                } else {
                                    assert(pos[i] == pos0[i] && pos[j] == pos0[j]);
                                }
                            }
                        }
                        assert forall|i: int| 0 <= i < pos.len() implies #[trigger] pos[i] < li + 1 by {
                            if i < pos0.len() {
                                assert(pos[i] == pos0[i]);
                            }
                        }
                        assert forall|i: int| 1 <= i < minimized_lits@.len() implies
                            (self.level_of(#[trigger] minimized_lits@[i]) matches Some(l) && l != 0) by {
                            if i < before.len() {
                                assert(minimized_lits@[i] == before[i]);
                            }
                        }
                        assert forall|i: int| 1 <= i < minimized_lits@.len() implies
                            learned_lits@.subrange(1, learned_lits@.len() as int).contains(#[trigger] minimized_lits@[i]) by {
                            if i < before.len() {
                                assert(minimized_lits@[i] == before[i]);
                            } else {
                                assert(learned_lits@.subrange(1, learned_lits@.len() as int)[li - 1] == minimized_lits@[i]);
                            }
                        }
                    }
                }
            }
        }
        let removed = original_len - minimized_lits.len();
        proof {
            assert(positions_pick(pos, minimized_lits@, learned_lits@));
        }
        (minimized_lits, removed)
    }
}

} // verus!
