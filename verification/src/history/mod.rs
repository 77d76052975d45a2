pub mod clause_minimization;
pub mod conflict_analysis;
pub mod conflict_graph;
pub mod decision_level;
pub mod dip;
pub mod implication_level;
pub mod uip;

use vstd::prelude::*;
use crate::formula::assignment::Assignment;
use crate::formula::clause::Clause;
use crate::formula::literal::Literal;
use crate::history::decision_level::{DecisionLevel, trail_reasons, remap_reason};
use crate::history::implication_level::ImplicationLevels;

verus! {

/// Which implication point conflict analysis learns from.
#[derive(Clone, Copy, Debug, PartialEq, Eq, Structural)]
pub enum ImplicationPoint {
    UIP,
    DIP,
}

/// The implication point named `name` (`"uip"` or `"dip"`), if any.
pub fn implication_point_from_name(name: &String) -> (r: Option<ImplicationPoint>)
    ensures
        name@ == "uip"@ ==> r == Some(ImplicationPoint::UIP),
        name@ == "dip"@ ==> r == Some(ImplicationPoint::DIP),
        name@ != "uip"@ && name@ != "dip"@ ==> r is None,
{
    proof {
        reveal_strlit("uip");
        reveal_strlit("dip");
        assert("uip"@ != "dip"@) by { assert("uip"@[0] != "dip"@[0]); }
    }
    let uip = "uip".to_owned();
    let dip = "dip".to_owned();
    if name.eq(&uip) {
        Some(ImplicationPoint::UIP)
    } else if name.eq(&dip) {
        Some(ImplicationPoint::DIP)
    } else {
        None
    }
}

/// What conflict analysis learns: an asserting clause at the first UIP, or the two
/// clauses of a dominating implication pair `(dip_a, dip_b)`.
pub enum ConflictLearnResult {
    Uip {
        clause: Clause,
        backtrack_level: usize,
        minimized_literals: usize,
    },
    Dip {
        dip_a: Literal,
        dip_b: Literal,
        pre_clause_without_z: Vec<Literal>,
        post_clause_without_z: Vec<Literal>,
        pre_lbd: i64,
        post_lbd: i64,
        backtrack_level: usize,
    },
}

/// Whether variable `v` is the decision or one of the implications of level `l`.
pub open spec fn in_level(l: DecisionLevel, v: nat) -> bool {
    ||| (l.decision_literal matches Some(d) && d.var() == v)
    ||| exists|j: int| 0 <= j < l.implied_literals@.len() && (#[trigger] l.implied_literals@[j]).0.var() == v
}

/// Whether variable `v` belongs to one of the levels `ls`.
pub open spec fn in_levels(ls: Seq<DecisionLevel>, v: nat) -> bool {
    exists|k: int| 0 <= k < ls.len() && in_level(#[trigger] ls[k], v)
}

/// `m` with the variables of the levels `ls` unassigned.
pub open spec fn unassign_levels(m: Seq<Option<bool>>, ls: Seq<DecisionLevel>) -> Seq<Option<bool>> {
    Seq::new(m.len(), |i: int| if in_levels(ls, i as nat) { None } else { m[i] })
}

/// Deciding a literal on an unassigned variable and then undoing that decision's level (which
/// holds the decision alone) gives back the assignment.
pub proof fn lemma_decide_then_revert(m: Seq<Option<bool>>, level: DecisionLevel, lit: Literal)
    requires
        lit.wf(),
        lit.var() < m.len(),
        m[lit.var() as int] is None,
        level.decision_literal == Some(lit),
        level.implied_literals@.len() == 0,
    ensures
        unassign_levels(m.update(lit.var() as int, Some(!lit.neg_spec())), seq![level]) == m,
{
    let m2 = m.update(lit.var() as int, Some(!lit.neg_spec()));
    let r = unassign_levels(m2, seq![level]);
    assert forall|i: int| 0 <= i < m.len() implies r[i] == m[i] by {
        if in_levels(seq![level], i as nat) {
            let k = choose|k: int| 0 <= k < 1 && in_level(#[trigger] seq![level][k], i as nat);
            assert(seq![level][k] == level);
            assert(i == lit.var());
        } else {
            assert(in_level(seq![level][0], lit.var())) by {
                assert(seq![level][0] == level);
            }
            assert(i != lit.var());
        }
    }
    assert(r =~= m);
}

/// The reasons of the implications of the levels `ls`, level by level in trail order.
pub open spec fn levels_reasons(ls: Seq<DecisionLevel>) -> Seq<usize>
    decreases ls.len(),
{
    if ls.len() == 0 {
        Seq::empty()
    } else {
        levels_reasons(ls.drop_last()) + trail_reasons(ls.last().implied_literals@)
    }
}

/// The stack of decision levels (level 0 first) and the level of each assigned variable.
pub struct History {
    pub decision_levels: Vec<DecisionLevel>,
    pub implication_levels_indexes: ImplicationLevels,
}

impl History {
    /// There is always a root level, and every recorded literal is well formed.
    pub open spec fn wf(&self) -> bool {
        &&& self.decision_levels@.len() >= 1
        &&& forall|k: int| 0 <= k < self.decision_levels@.len() ==> (#[trigger] self.decision_levels@[k]).wf()
    }

    /// Every recorded literal has a variable below `n`.
    pub open spec fn below(&self, n: nat) -> bool {
        forall|k: int| 0 <= k < self.decision_levels@.len() ==> (#[trigger] self.decision_levels@[k]).below(n)
    }

    /// Every recorded reason is a clause index below `m`.
    pub open spec fn reasons_below(&self, m: nat) -> bool {
        forall|k: int| 0 <= k < self.decision_levels@.len() ==> (#[trigger] self.decision_levels@[k]).reasons_below(m)
    }

    pub open spec fn level_spec(&self) -> int {
        self.decision_levels@.len() - 1
    }

    /// Level recorded for the variable of `lit`.
    pub open spec fn level_of(&self, lit: Literal) -> Option<usize> {
        self.implication_levels_indexes.level_of_var(lit.var())
    }

    /// A history with only the (empty) root level.
    pub fn new() -> (r: Self)
        ensures
            r.wf(),
            r.decision_levels@.len() == 1,
            r.decision_levels@[0].decision_literal is None,
            r.decision_levels@[0].implied_literals@.len() == 0,
            r.decision_levels@[0].reason_by_unsigned@.len() == 0,
            forall|v: nat| #[trigger] r.implication_levels_indexes.level_of_var(v) is None,
    {
        let mut decision_levels: Vec<DecisionLevel> = Vec::new();
        decision_levels.push(DecisionLevel::empty());
        Self { decision_levels, implication_levels_indexes: ImplicationLevels::new() }
    }

    /// Opens a new level whose decision is `literal`.
    pub fn add_decision(&mut self, literal: &Literal)
        requires
            old(self).wf(),
            literal.wf(),
        ensures
            final(self).wf(),
            final(self).decision_levels@ == old(self).decision_levels@.push(DecisionLevel {
                decision_literal: Some(*literal),
                implied_literals: final(self).decision_levels@.last().implied_literals,
                reason_by_unsigned: final(self).decision_levels@.last().reason_by_unsigned,
            }),
            final(self).decision_levels@.last().implied_literals@.len() == 0,
            final(self).decision_levels@.last().reason_by_unsigned@.len() == 0,
            forall|v: nat| #[trigger] final(self).implication_levels_indexes.level_of_var(v) == if v
                == literal.var() { Some(old(self).decision_levels@.len() as usize) } else {
                old(self).implication_levels_indexes.level_of_var(v) },
            forall|n: nat| old(self).below(n) && literal.var() < n ==> #[trigger] final(self).below(n),
            forall|m: nat| old(self).reasons_below(m) ==> #[trigger] final(self).reasons_below(m),
    {
        self.decision_levels.push(DecisionLevel::new(literal));
        let level = self.get_decision_level();
        self.implication_levels_indexes.set_level(literal, level);
        proof {
            assert forall|n: nat| old(self).below(n) && literal.var() < n implies #[trigger] self.below(n) by {
                assert forall|k: int| 0 <= k < self.decision_levels@.len() implies (#[trigger] self.decision_levels@[k]).below(n) by {
                    if k < level { assert(self.decision_levels@[k] == old(self).decision_levels@[k]); }
                }
            }
            assert forall|m: nat| old(self).reasons_below(m) implies #[trigger] self.reasons_below(m) by {
                assert forall|k: int| 0 <= k < self.decision_levels@.len() implies (#[trigger] self.decision_levels@[k]).reasons_below(m) by {
                    if k < level { assert(self.decision_levels@[k] == old(self).decision_levels@[k]); }
                }
            }
        }
    }

    /// Records `literal` as implied at the current level by clause `clause_index`.
    /// When its variable already has a level nothing changes and `-literal` is returned.
    pub fn add_implication(&mut self, literal: &Literal, clause_index: Option<usize>) -> (r: Option<Literal>)
        requires
            old(self).wf(),
            literal.wf(),
        ensures
            final(self).wf(),
            old(self).level_of(*literal) is Some ==> (r matches Some(n) && n@ == -literal@ && n.wf())
                && *final(self) == *old(self),
            old(self).level_of(*literal) is None ==> r is None
                && final(self).decision_levels@.len() == old(self).decision_levels@.len()
                && final(self).decision_levels@.drop_last() == old(self).decision_levels@.drop_last()
                && final(self).decision_levels@.last().decision_literal == old(self).decision_levels@.last().decision_literal
                && final(self).decision_levels@.last().implied_literals@ == old(self).decision_levels@.last().implied_literals@.push((*literal, clause_index))
                && final(self).decision_levels@.last().reason_spec(*literal) == clause_index
                && (forall|l: Literal| l.wf() && l != *literal ==> #[trigger] final(self).decision_levels@.last().reason_spec(l)
                    == old(self).decision_levels@.last().reason_spec(l))
                && (forall|v: nat| #[trigger] final(self).implication_levels_indexes.level_of_var(v) == if v
                    == literal.var() { Some((old(self).decision_levels@.len() - 1) as usize) } else {
                    old(self).implication_levels_indexes.level_of_var(v) }),
            forall|n: nat| old(self).below(n) && literal.var() < n ==> #[trigger] final(self).below(n),
            forall|m: nat| old(self).reasons_below(m) && (clause_index matches Some(c) ==> c < m) ==> #[trigger] final(self).reasons_below(m),
    {
        if self.implication_levels_indexes.get_level(literal).is_some() {
            return Some(literal.negated());
        }
        let last = self.decision_levels.len() - 1;
        let mut level = self.decision_levels.pop().unwrap();
        level.add_implied_literal(literal, clause_index);
        self.decision_levels.push(level);
        self.implication_levels_indexes.set_level(literal, last);
        proof {
            assert(self.decision_levels@.drop_last() =~= old(self).decision_levels@.drop_last());
            assert forall|k: int| 0 <= k < self.decision_levels@.len() implies (#[trigger] self.decision_levels@[k]).wf() by {
                if k < last {
                    assert(self.decision_levels@[k] == old(self).decision_levels@[k]);
                }
            }
            assert forall|n: nat| old(self).below(n) && literal.var() < n implies #[trigger] self.below(n) by {
                assert forall|k: int| 0 <= k < self.decision_levels@.len() implies (#[trigger] self.decision_levels@[k]).below(n) by {
                    if k < last {
                        assert(self.decision_levels@[k] == old(self).decision_levels@[k]);
                    } else {
                        assert(old(self).decision_levels@[k].below(n));
                    }
                }
            }
            assert forall|m: nat| old(self).reasons_below(m) && (clause_index matches Some(c) ==> c < m) implies #[trigger] self.reasons_below(m) by {
                assert forall|k: int| 0 <= k < self.decision_levels@.len() implies (#[trigger] self.decision_levels@[k]).reasons_below(m) by {
                    if k < last {
                        assert(self.decision_levels@[k] == old(self).decision_levels@[k]);
                    } else {
                        let o = old(self).decision_levels@[k];
                        let f = self.decision_levels@[k];
                        assert(o.reasons_below(m));
                        assert forall|i: int| 0 <= i < f.reason_by_unsigned@.len() implies
                            ((#[trigger] f.reason_by_unsigned@[i]) matches Some(r) ==> r < m) by {
                            if i < o.reason_by_unsigned@.len() && i != literal.uidx() {
                                assert(f.reason_by_unsigned@[i] == o.reason_by_unsigned@[i]);
                            }
                        }
                        assert forall|i: int| 0 <= i < f.implied_literals@.len() implies
                            ((#[trigger] f.implied_literals@[i]).1 matches Some(r) ==> r < m) by {
                            if i < o.implied_literals@.len() {
                                assert(f.implied_literals@[i] == o.implied_literals@[i]);
                            }
                        }
                    }
                }
            }
        }
        None
    }

    /// Undoes every level from `level` on: their variables become unassigned and lose
    /// their level. The reasons of the undone implications are discarded; the root level
    /// (`level == 0`) is never undone.
    pub fn revert_decision(&mut self, level: usize, assignment: &mut Assignment)
        requires
            old(self).wf(),
            old(self).below(old(assignment)@.len()),
            old(assignment).wf(),
            level <= old(self).decision_levels@.len(),
        ensures
            final(self).wf(),
            final(assignment).wf(),
            level == 0 ==> *final(self) == *old(self) && final(assignment)@ == old(assignment)@,
            level > 0 ==> final(self).decision_levels@ == old(self).decision_levels@.subrange(0, level as int)
                && final(assignment)@ == unassign_levels(old(assignment)@,
                    old(self).decision_levels@.subrange(level as int, old(self).decision_levels@.len() as int)),
    {
        self.revert_decision_collect_reasons(level, assignment);
    }

    /// `revert_decision`, also returning the reason clause of every undone implication
    /// (level by level, in trail order).
    pub fn revert_decision_collect_reasons(&mut self, level: usize, assignment: &mut Assignment) -> (r: Vec<usize>)
        requires
            old(self).wf(),
            old(self).below(old(assignment)@.len()),
            old(assignment).wf(),
            level <= old(self).decision_levels@.len(),
        ensures
            final(self).wf(),
            final(assignment).wf(),
            final(assignment).raw_values() == old(assignment).raw_values(),
            level == 0 ==> *final(self) == *old(self) && final(assignment)@ == old(assignment)@ && r@.len() == 0,
            level > 0 ==> {
                let undone = old(self).decision_levels@.subrange(level as int, old(self).decision_levels@.len() as int);
                &&& final(self).decision_levels@ == old(self).decision_levels@.subrange(0, level as int)
                &&& final(assignment)@ == unassign_levels(old(assignment)@, undone)
                &&& r@ == levels_reasons(undone)
                &&& forall|v: nat| #[trigger] final(self).implication_levels_indexes.level_of_var(v)
                    == if in_levels(undone, v) { None } else { old(self).implication_levels_indexes.level_of_var(v) }
            },
    {
        if level == 0 {
            return Vec::new();
        }
        let to_revert = self.decision_levels.split_off(level);
        let mut removed_reasons: Vec<usize> = Vec::new();
        let ghost undone = to_revert@;
        let ghost old_model = assignment@;
        let ghost n = old_model.len();
        assert(undone == old(self).decision_levels@.subrange(level as int, old(self).decision_levels@.len() as int));
        assert(self.decision_levels@ == old(self).decision_levels@.subrange(0, level as int));
        assert forall|k: int| 0 <= k < undone.len() implies (#[trigger] undone[k]).wf() && undone[k].below(n) by {
            assert(undone[k] == old(self).decision_levels@[level + k]);
        }
        for k in 0..to_revert.len()
            invariant
                undone == to_revert@,
                n == old_model.len(),
                forall|k: int| 0 <= k < undone.len() ==> (#[trigger] undone[k]).wf() && undone[k].below(n),
                assignment.wf(),
                assignment.raw_values() == old(assignment).raw_values(),
                assignment@ == unassign_levels(old_model, undone.subrange(0, k as int)),
                removed_reasons@ == levels_reasons(undone.subrange(0, k as int)),
                forall|v: nat| #[trigger] self.implication_levels_indexes.level_of_var(v)
                    == if in_levels(undone.subrange(0, k as int), v) { None } else { old(self).implication_levels_indexes.level_of_var(v) },
                self.decision_levels@ == old(self).decision_levels@.subrange(0, level as int),
                level <= old(self).decision_levels@.len(),
        {
            let decision = &to_revert[k];
            let ghost pre = undone.subrange(0, k as int);
            let ghost cur = undone[k as int];
            assert(undone.subrange(0, k + 1) =~= pre.push(cur));
            let ghost base_model = assignment@;
            let ghost base_levels = self.implication_levels_indexes;
            let mut dec_var: Option<usize> = None;
            if let Some(lit) = decision.get_decision_literal() {
                assignment.unset(lit.get_variable());
                self.implication_levels_indexes.unset_level(lit);
                dec_var = Some(lit.get_variable());
            }
            let reasons = decision.reason_indices();
            for j in 0..reasons.len()
                invariant
                    removed_reasons@ == levels_reasons(pre) + reasons@.subrange(0, j as int),
            {
                removed_reasons.push(reasons[j]);
                assert(reasons@.subrange(0, j + 1) =~= reasons@.subrange(0, j as int).push(reasons@[j as int]));
            }
            assert(reasons@.subrange(0, reasons@.len() as int) =~= reasons@);
            assert(undone.subrange(0, k + 1).drop_last() =~= pre);
            let implied = decision.implied_literals_iter();
            assert(assignment@ =~= Seq::new(n, |i: int|
                if (dec_var matches Some(d) && d == i) || (exists|j2: int| 0 <= j2 < 0 && (#[trigger] cur.implied_literals@[j2]).0.var() == i)
                { None } else { base_model[i] }));
            assert forall|v: nat| #[trigger] self.implication_levels_indexes.level_of_var(v)
                == if (dec_var matches Some(d) && d == v) || (exists|j2: int| 0 <= j2 < 0 && (#[trigger] cur.implied_literals@[j2]).0.var() == v)
                { None } else { base_levels.level_of_var(v) } by {}
            for j in 0..implied.len()
                invariant
                    n == old_model.len(),
                    cur.wf(),
                    cur.below(n),
                    implied@.len() == cur.implied_literals@.len(),
                    forall|i: int| 0 <= i < implied@.len() ==> #[trigger] implied@[i] == cur.implied_literals@[i].0,
                    assignment.wf(),
                    assignment.raw_values() == old(assignment).raw_values(),
                    assignment@ == Seq::new(n, |i: int|
                        if (dec_var matches Some(d) && d == i) || (exists|j2: int| 0 <= j2 < j && (#[trigger] cur.implied_literals@[j2]).0.var() == i)
                        { None } else { base_model[i] }),
                    forall|v: nat| #[trigger] self.implication_levels_indexes.level_of_var(v)
                        == if (dec_var matches Some(d) && d == v) || (exists|j2: int| 0 <= j2 < j && (#[trigger] cur.implied_literals@[j2]).0.var() == v)
                        { None } else { base_levels.level_of_var(v) },
                    base_model.len() == n,
                    dec_var matches Some(d) ==> cur.decision_literal matches Some(dl) && dl.var() == d,
                    dec_var is None ==> cur.decision_literal is None,
                    level <= old(self).decision_levels@.len(),
                    self.decision_levels@ == old(self).decision_levels@.subrange(0, level as int),
            {
                let lit = implied[j];
                assert(cur.implied_literals@[j as int].0 == lit);
                let ghost prev = assignment@;
                assignment.unset(lit.get_variable());
                self.implication_levels_indexes.unset_level(&lit);
                assert(assignment@ =~= Seq::new(n, |i: int|
                    if (dec_var matches Some(d) && d == i) || (exists|j2: int| 0 <= j2 < j + 1 && (#[trigger] cur.implied_literals@[j2]).0.var() == i)
                    { None } else { base_model[i] }));
            }
            proof {
                assert forall|v: nat|
                    #[trigger] in_levels(undone.subrange(0, k + 1), v) == (in_levels(pre, v) || in_level(cur, v)) by {
                    if in_level(cur, v) {
                        assert(undone.subrange(0, k + 1)[k as int] == cur);
                    }
                    if in_levels(undone.subrange(0, k + 1), v) {
                        let kk = choose|kk: int| 0 <= kk < k + 1 && in_level(#[trigger] undone.subrange(0, k + 1)[kk], v);
                        if kk < k {
                            assert(pre[kk] == undone.subrange(0, k + 1)[kk]);
                        }
                    }
                    if in_levels(pre, v) {
                        let kk = choose|kk: int| 0 <= kk < k && in_level(#[trigger] pre[kk], v);
                        assert(undone.subrange(0, k + 1)[kk] == pre[kk]);
                    }
                }
                assert(assignment@ =~= unassign_levels(old_model, undone.subrange(0, k + 1)));
                assert forall|v: nat| #[trigger] self.implication_levels_indexes.level_of_var(v)
                    == if in_levels(undone.subrange(0, k + 1), v) { None } else { old(self).implication_levels_indexes.level_of_var(v) } by {
                    assert(in_levels(undone.subrange(0, k + 1), v) == (in_levels(pre, v) || in_level(cur, v)));
                }
            }
        }
        assert(undone.subrange(0, undone.len() as int) =~= undone);
        removed_reasons
    }

    /// Undoes the current level.
    pub fn revert_last_decision(&mut self, assignment: &mut Assignment)
        requires
            old(self).wf(),
            old(self).below(old(assignment)@.len()),
            old(assignment).wf(),
        ensures
            final(self).wf(),
            final(assignment).wf(),
            old(self).decision_levels@.len() > 1 ==> final(self).decision_levels@
                == old(self).decision_levels@.subrange(0, old(self).decision_levels@.len() - 1)
                && final(assignment)@ == unassign_levels(old(assignment)@, seq![old(self).decision_levels@.last()]),
            old(self).decision_levels@.len() == 1 ==> *final(self) == *old(self) && final(assignment)@ == old(assignment)@,
    {
        let level = self.get_decision_level();
        self.revert_decision(level, assignment);
        proof {
            let ls = old(self).decision_levels@;
            assert(ls.subrange(level as int, ls.len() as int) =~= seq![ls.last()]);
        }
    }

    /// The current decision level (0 at the root).
    pub fn get_decision_level(&self) -> (r: usize)
        requires
            self.wf(),
        ensures
            r == self.level_spec(),
    {
        self.decision_levels.len() - 1
    }

    /// The level at which the variable of `lit` was assigned.
    pub fn get_literal_level(&self, lit: &Literal) -> (r: Option<usize>)
        requires
            lit.wf(),
        ensures
            r == self.level_of(*lit),
    {
        self.implication_levels_indexes.get_level(lit)
    }

    /// `lit` together with its level, when it has one.
    pub fn get_literal_and_level(&self, lit: &Literal) -> (r: Option<(Literal, usize)>)
        requires
            lit.wf(),
        ensures
            r == match self.level_of(*lit) { Some(l) => Some((*lit, l)), None => None },
    {
        match self.implication_levels_indexes.get_level(lit) {
            Some(level) => Some((*lit, level)),
            None => None,
        }
    }

    /// The decision of the current level (`None` at the root).
    pub fn last_decision_literal(&self) -> (r: Option<&Literal>)
        requires
            self.wf(),
        ensures
            r == match self.decision_levels@.last().decision_literal { Some(d) => Some(&d), None => None::<&Literal> },
    {
        let last = self.decision_levels.len() - 1;
        self.decision_levels[last].get_decision_literal()
    }

    /// The reason clauses of every recorded implication, level by level.
    pub fn active_reason_indices(&self) -> (r: Vec<usize>)
        ensures
            r@ == levels_reasons(self.decision_levels@),
    {
        let mut out: Vec<usize> = Vec::new();
        for k in 0..self.decision_levels.len()
            invariant
                out@ == levels_reasons(self.decision_levels@.subrange(0, k as int)),
        {
            assert(self.decision_levels@.subrange(0, k + 1).drop_last() =~= self.decision_levels@.subrange(0, k as int));
            let reasons = self.decision_levels[k].reason_indices();
            let ghost base = out@;
            for j in 0..reasons.len()
                invariant
                    out@ == base + reasons@.subrange(0, j as int),
            {
                out.push(reasons[j]);
                assert(reasons@.subrange(0, j + 1) =~= reasons@.subrange(0, j as int).push(reasons@[j as int]));
            }
            assert(reasons@.subrange(0, reasons@.len() as int) =~= reasons@);
        }
        assert(self.decision_levels@.subrange(0, self.decision_levels@.len() as int) =~= self.decision_levels@);
        out
    }

    /// Renumbers every recorded reason after clauses were deleted (`old_to_new[i]` is the
    /// new index of old clause `i`, `None` when it was deleted).
    pub fn remap_clause_indices(&mut self, old_to_new: &[Option<usize>])
        requires
            old(self).wf(),
        ensures
            final(self).wf(),
            final(self).implication_levels_indexes == old(self).implication_levels_indexes,
            final(self).decision_levels@.len() == old(self).decision_levels@.len(),
            forall|k: int| 0 <= k < old(self).decision_levels@.len() ==> {
                let o = #[trigger] old(self).decision_levels@[k];
                let f = final(self).decision_levels@[k];
                &&& f.decision_literal == o.decision_literal
                &&& f.implied_literals@.len() == o.implied_literals@.len()
                &&& (forall|i: int| 0 <= i < o.implied_literals@.len() ==> #[trigger] f.implied_literals@[i]
                    == (o.implied_literals@[i].0, remap_reason(o.implied_literals@[i].1, old_to_new@)))
                &&& f.reason_by_unsigned@.len() == o.reason_by_unsigned@.len()
                &&& (forall|i: int| 0 <= i < o.reason_by_unsigned@.len() ==> #[trigger] f.reason_by_unsigned@[i]
                    == remap_reason(o.reason_by_unsigned@[i], old_to_new@))
            },
    {
        let n = self.decision_levels.len();
        for k in 0..n
            invariant
                n == old(self).decision_levels@.len(),
                self.decision_levels@.len() == n,
                self.implication_levels_indexes == old(self).implication_levels_indexes,
                forall|j: int| i_in(j, k as int, n as int) ==> #[trigger] self.decision_levels@[j] == old(self).decision_levels@[j],
                forall|j: int| 0 <= j < k ==> {
                    let o = #[trigger] old(self).decision_levels@[j];
                    let f = self.decision_levels@[j];
                    &&& f.decision_literal == o.decision_literal
                    &&& f.implied_literals@.len() == o.implied_literals@.len()
                    &&& (forall|i: int| 0 <= i < o.implied_literals@.len() ==> #[trigger] f.implied_literals@[i]
                        == (o.implied_literals@[i].0, remap_reason(o.implied_literals@[i].1, old_to_new@)))
                    &&& f.reason_by_unsigned@.len() == o.reason_by_unsigned@.len()
                    &&& (forall|i: int| 0 <= i < o.reason_by_unsigned@.len() ==> #[trigger] f.reason_by_unsigned@[i]
                        == remap_reason(o.reason_by_unsigned@[i], old_to_new@))
                },
        {
            let mut level = DecisionLevel::empty();
            std::mem::swap(&mut level, &mut self.decision_levels[k]);
            level.remap_clause_indices(old_to_new);
            self.decision_levels.set(k, level);
        }
        proof {
            assert forall|k: int| 0 <= k < self.decision_levels@.len() implies (#[trigger] self.decision_levels@[k]).wf() by {
                assert(old(self).decision_levels@[k].wf());
                let f = self.decision_levels@[k];
                let o = old(self).decision_levels@[k];
                assert forall|i: int| 0 <= i < f.implied_literals@.len() implies (#[trigger] f.implied_literals@[i]).0.wf() by {
                    assert(o.implied_literals@[i].0.wf());
                }
            }
        }
    }
}

/// `lo <= j < hi`.
pub open spec fn i_in(j: int, lo: int, hi: int) -> bool {
    lo <= j < hi
}

} // verus!
