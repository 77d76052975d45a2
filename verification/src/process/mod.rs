pub mod bva;
pub mod bve;
pub mod subsumption;

use vstd::prelude::*;
use std::io::Write;
use crate::drat::DratLogger;
use crate::formula::Formula;
use crate::formula::clause::Clause;
use crate::history::History;
use crate::process::bva::{BvaCandidate, grid_ok, bva_applied, bva_stopped, bva_run};
use crate::process::bve::{bve_replacement, bve_applied, bve_done, bve_run};

verus! {

/// `b` is `a` after one variable elimination or one variable addition.
pub open spec fn process_step(a: Formula, b: Formula) -> bool {
    ||| exists|var: int, d: Seq<usize>, rs: Seq<Clause>| #[trigger] bve_replacement(a, var, d, rs) && bve_applied(a, b, d, rs)
    ||| exists|c: BvaCandidate| #[trigger] c.wf(a.n_vars(), a.clauses@.len()) && c.clause_saving > 1
        && c.unlocked_in(a.clauses@) && grid_ok(c, a.clauses@) && bva_applied(a, b, c)
}

/// The two formulas agree on the clauses, the occurrence lists and the variable count.
pub open spec fn same_db(x: Formula, y: Formula) -> bool {
    x.clauses@ == y.clauses@ && x.occ() == y.occ() && x.n_vars() == y.n_vars()
}

/// Each formula of `fs` is the previous one after one step.
pub open spec fn process_chain(fs: Seq<Formula>) -> bool {
    forall|i: int| 0 <= i < fs.len() - 1 ==> #[trigger] process_step(fs[i], fs[i + 1])
}

/// `b` is reached from `a` by a run of variable eliminations and additions (possibly none).
pub open spec fn processed(a: Formula, b: Formula) -> bool {
    exists|fs: Seq<Formula>| fs.len() >= 1 && same_db(fs[0], a) && same_db(fs.last(), b) && #[trigger] process_chain(fs)
}

/// A step depends on its formulas only through their clauses, occurrence lists and variable
/// counts.
proof fn lemma_process_step_same_db(a: Formula, b: Formula, a2: Formula, b2: Formula)
    requires
        process_step(a, b),
        same_db(a, a2),
        same_db(b, b2),
    ensures
        process_step(a2, b2),
{
    if exists|var: int, d: Seq<usize>, rs: Seq<Clause>| #[trigger] bve_replacement(a, var, d, rs) && bve_applied(a, b, d, rs) {
        let (var, d, rs) = choose|var: int, d: Seq<usize>, rs: Seq<Clause>| #[trigger] bve_replacement(a, var, d, rs) && bve_applied(a, b, d, rs);
        assert(bve_replacement(a2, var, d, rs));
        assert(bve_applied(a2, b2, d, rs));
    } else {
        let x = choose|x: BvaCandidate| #[trigger] x.wf(a.n_vars(), a.clauses@.len()) && x.clause_saving > 1
            && x.unlocked_in(a.clauses@) && grid_ok(x, a.clauses@) && bva_applied(a, b, x);
        assert(x.wf(a2.n_vars(), a2.clauses@.len()));
        assert(bva_applied(a2, b2, x));
    }
}

/// No step at all.
pub proof fn lemma_processed_refl(a: Formula, b: Formula)
    requires
        same_db(a, b),
    ensures
        processed(a, b),
{
    let fs = seq![a];
    assert(process_chain(fs));
}

/// One more step.
pub proof fn lemma_processed_push(a: Formula, m: Formula, b: Formula)
    requires
        processed(a, m),
        process_step(m, b),
    ensures
        processed(a, b),
{
    let fs = choose|fs: Seq<Formula>| fs.len() >= 1 && same_db(fs[0], a) && same_db(fs.last(), m) && #[trigger] process_chain(fs);
    lemma_process_step_same_db(m, b, fs.last(), b);
    let gs = fs.push(b);
    assert forall|i: int| 0 <= i < gs.len() - 1 implies #[trigger] process_step(gs[i], gs[i + 1]) by {
        if i < fs.len() - 1 {
            assert(process_step(fs[i], fs[i + 1]));
        }
    }
    assert(process_chain(gs));
}

/// Runs of steps compose.
pub proof fn lemma_processed_trans(a: Formula, b: Formula, c: Formula)
    requires
        processed(a, b),
        processed(b, c),
    ensures
        processed(a, c),
{
    let fs = choose|fs: Seq<Formula>| fs.len() >= 1 && same_db(fs[0], a) && same_db(fs.last(), b) && #[trigger] process_chain(fs);
    let gs = choose|gs: Seq<Formula>| gs.len() >= 1 && same_db(gs[0], b) && same_db(gs.last(), c) && #[trigger] process_chain(gs);
    if gs.len() == 1 {
        assert(process_chain(fs));
    } else {
        let hs = fs + gs.drop_first();
        let i0: int = 0;
        assert(process_step(gs[i0], gs[i0 + 1]));
        assert(gs[i0 + 1] == gs[1]);
        lemma_process_step_same_db(gs[0], gs[1], fs.last(), gs[1]);
        assert forall|i: int| 0 <= i < hs.len() - 1 implies #[trigger] process_step(hs[i], hs[i + 1]) by {
            if i < fs.len() - 1 {
                assert(process_step(fs[i], fs[i + 1]));
            } else if i == fs.len() - 1 {
                assert(hs[i] == fs.last());
                assert(hs[i + 1] == gs[1]);
            } else {
                let j = i - fs.len() + 1;
                assert(hs[i] == gs[j]);
                assert(hs[i + 1] == gs[j + 1]);
                assert(process_step(gs[j], gs[j + 1]));
            }
        }
        assert(process_chain(hs));
        assert(hs.last() == gs.last());
    }
}

/// A clause-database transformation run before or during search.
#[derive(Clone, Copy, Debug, PartialEq, Eq, Structural)]
pub enum Process {
    BVA,
    BVE,
    Subsumption,
    Others,
}

/// Preprocessing uses the same techniques as inprocessing.
pub type Preprocess = Process;

/// The technique named `name` (`"bva"`, `"bve"` or `"subsumption"`), if any.
pub fn process_from_name(name: &String) -> (r: Option<Process>)
    ensures
        name@ == "bva"@ ==> r == Some(Process::BVA),
        name@ == "bve"@ ==> r == Some(Process::BVE),
        name@ == "subsumption"@ ==> r == Some(Process::Subsumption),
        name@ != "bva"@ && name@ != "bve"@ && name@ != "subsumption"@ ==> r is None,
{
    proof {
        reveal_strlit("bva");
        reveal_strlit("bve");
        reveal_strlit("subsumption");
        assert("bva"@ != "bve"@) by { assert("bva"@[2] != "bve"@[2]); }
        assert("bva"@.len() != "subsumption"@.len());
        assert("bve"@.len() != "subsumption"@.len());
    }
    let bva = "bva".to_owned();
    let bve = "bve".to_owned();
    let subsumption = "subsumption".to_owned();
    if name.eq(&bva) {
        Some(Process::BVA)
    } else if name.eq(&bve) {
        Some(Process::BVE)
    } else if name.eq(&subsumption) {
        Some(Process::Subsumption)
    } else {
        None
    }
}

/// Whether `methods` lists `m`.
pub fn contains_process(methods: &Vec<Process>, m: Process) -> (r: bool)
    ensures
        r == methods@.contains(m),
{
    for i in 0..methods.len()
        invariant
            forall|j: int| 0 <= j < i ==> methods@[j] != m,
    {
        if methods[i] == m {
            return true;
        }
    }
    false
}


/// A BVE pass has stopped at its fixpoint, or after one elimination per variable slot.
pub open spec fn bve_pass_ended(f: Formula) -> bool {
    bve_done(f) || f.stats.bve_eliminated_variables >= f.n_vars()
}

/// The last of `methods` is a BVE pass.
pub open spec fn ends_with_bve(methods: Seq<Process>) -> bool {
    methods.len() > 0 && methods.last() == Process::BVE
}

/// The last of `methods` is a BVA pass.
pub open spec fn ends_with_bva(methods: Seq<Process>) -> bool {
    methods.len() > 0 && methods.last() == Process::BVA
}

/// `b` is what the pass `m` leaves of `a`: BVA rewrites until the search finds nothing, BVE
/// eliminates until no variable qualifies (or one elimination per variable slot), and the other
/// techniques leave the formula as it is.
pub open spec fn pass_result(m: Process, a: Formula, b: Formula) -> bool {
    match m {
        Process::BVA => bva_run(a, b) && bva_stopped(b) && b.wf() && b.extensions == a.extensions
            && b.self_subsuming == a.self_subsuming,
        Process::BVE => bve_run(a, b) && b.extensions == a.extensions && b.self_subsuming == a.self_subsuming
            && b.n_vars() == a.n_vars() && b.wf()
            && (bve_done(b) || b.stats.bve_eliminated_variables
                == crate::stats::sat_add(a.stats.bve_eliminated_variables, a.n_vars() as int)),
        _ => b == a,
    }
}

/// `fs` holds the formula before each pass of `methods`, in order, and after the last one.
pub open spec fn passes_in_order(methods: Seq<Process>, fs: Seq<Formula>) -> bool {
    &&& fs.len() == methods.len() + 1
    &&& forall|i: int| 0 <= i < methods.len() ==> #[trigger] pass_result(methods[i], fs[i], fs[i + 1])
}

/// Every listed BVE pass stops at its fixpoint (or after one elimination per variable slot) and
/// every listed BVA pass stops where the search finds no rewrite, whatever passes follow it.
pub proof fn lemma_listed_passes_end(methods: Seq<Process>, fs: Seq<Formula>, i: int)
    requires
        passes_in_order(methods, fs),
        0 <= i < methods.len(),
    ensures
        methods[i] == Process::BVE ==> bve_pass_ended(fs[i + 1]),
        methods[i] == Process::BVA ==> bva_stopped(fs[i + 1]),
{
    assert(pass_result(methods[i], fs[i], fs[i + 1]));
}

/// `a` and `b` differ at most in the self-subsumption switch.
pub open spec fn same_but_switch(a: Formula, b: Formula) -> bool {
    &&& a.clauses == b.clauses
    &&& a.assignment == b.assignment
    &&& a.watch == b.watch
    &&& a.occurrence == b.occurrence
    &&& a.stats == b.stats
    &&& a.extensions == b.extensions
}

impl Formula {
    /// Runs `methods` in order (BVA and BVE; subsumption only sets the self-subsumption flag,
    /// which `replace_subsumption_setting` sets to whether `methods` lists it, and otherwise
    /// only turns on).
    pub fn process<W: Write>(&mut self, methods: Vec<Process>, logger: &mut Option<DratLogger<W>>,
        replace_subsumption_setting: bool, history: Option<&mut History>)
        requires
            old(self).wf(),
            history matches Some(h) ==> old(self).tracks(h),
        ensures
            final(self).wf(),
            history matches Some(h) ==> final(self).tracks(final(h))
                && final(h).decision_levels@.len() == h.decision_levels@.len(),
            final(self).extensions == old(self).extensions,
            replace_subsumption_setting ==> final(self).self_subsuming == methods@.contains(Process::Subsumption),
            !replace_subsumption_setting ==> final(self).self_subsuming
                == (old(self).self_subsuming || methods@.contains(Process::Subsumption)),
            processed(*old(self), *final(self)),
            old(self).watch_lists_sound() ==> final(self).watch_lists_sound(),
            ends_with_bve(methods@) ==> bve_pass_ended(*final(self)),
            ends_with_bva(methods@) ==> bva_stopped(*final(self)),
            exists|fs: Seq<Formula>| #[trigger] passes_in_order(methods@, fs) && same_but_switch(fs[0], *old(self))
                && fs[0].self_subsuming == final(self).self_subsuming && fs.last() == *final(self),
    {
        let has_subsumption = contains_process(&methods, Process::Subsumption);
        if replace_subsumption_setting {
            self.self_subsuming = has_subsumption;
        } else if has_subsumption {
            self.self_subsuming = true;
        }
        proof { lemma_processed_refl(*old(self), *self); }
        let ghost f_start = *self;
        proof { assert(same_but_switch(f_start, *old(self))); }
        match history {
            Some(h) => {
                let ghost before = *self;
                self.run_methods(&methods, logger, h);
                proof { lemma_processed_trans(*old(self), before, *self); }
            },
            None => {
                let ghost flag = self.self_subsuming;
                let ghost mut fs: Seq<Formula> = seq![*self];
                for i in 0..methods.len()
                    invariant
                        fs.len() == i + 1,
                        fs[0] == f_start,
                        fs.last() == *self,
                        forall|j: int| 0 <= j < i ==> #[trigger] pass_result(methods@[j], fs[j], fs[j + 1]),
                        self.wf(),
                        self.extensions == old(self).extensions,
                        self.self_subsuming == flag,
                        processed(*old(self), *self),
                        old(self).watch_lists_sound() ==> self.watch_lists_sound(),
                        i > 0 && methods@[i - 1] == Process::BVE ==> bve_pass_ended(*self),
                        i > 0 && methods@[i - 1] == Process::BVA ==> bva_stopped(*self),
                {
                    let ghost before = *self;
                    match methods[i] {
                        Process::BVA => crate::process::bva::process(self, logger, None),
                        Process::BVE => crate::process::bve::process(self, logger, None),
                        _ => {
                            proof { lemma_processed_refl(*self, *self); }
                        },
                    }
                    proof {
                        lemma_processed_trans(*old(self), before, *self);
                        assert(pass_result(methods@[i as int], before, *self));
                        let fs0 = fs;
                        fs = fs.push(*self);
                        assert forall|j: int| 0 <= j < i + 1 implies #[trigger] pass_result(methods@[j], fs[j], fs[j + 1]) by {
                            if j < i {
                                assert(fs[j] == fs0[j] && fs[j + 1] == fs0[j + 1]);
                            } else {
                                assert(fs[j] == fs0.last());
                            }
                        }
                    }
                }
                proof {
                    assert(passes_in_order(methods@, fs));
                }
            },
        }
    }

    /// The BVA and BVE passes of `methods`, in order, keeping `history`'s reasons in step.
    fn run_methods<W: Write>(&mut self, methods: &Vec<Process>, logger: &mut Option<DratLogger<W>>, history: &mut History)
        requires
            old(self).wf(),
            old(self).tracks(old(history)),
        ensures
            final(self).wf(),
            final(self).tracks(final(history)),
            final(history).decision_levels@.len() == old(history).decision_levels@.len(),
            final(self).extensions == old(self).extensions,
            final(self).self_subsuming == old(self).self_subsuming,
            processed(*old(self), *final(self)),
            old(self).watch_lists_sound() ==> final(self).watch_lists_sound(),
            ends_with_bve(methods@) ==> bve_pass_ended(*final(self)),
            ends_with_bva(methods@) ==> bva_stopped(*final(self)),
            exists|fs: Seq<Formula>| #[trigger] passes_in_order(methods@, fs) && fs[0] == *old(self) && fs.last() == *final(self),
    {
        proof { lemma_processed_refl(*self, *self); }
        let ghost mut fs: Seq<Formula> = seq![*self];
        for i in 0..methods.len()
            invariant
                fs.len() == i + 1,
                fs[0] == *old(self),
                fs.last() == *self,
                forall|j: int| 0 <= j < i ==> #[trigger] pass_result(methods@[j], fs[j], fs[j + 1]),
                self.wf(),
                self.tracks(history),
                history.decision_levels@.len() == old(history).decision_levels@.len(),
                self.extensions == old(self).extensions,
                self.self_subsuming == old(self).self_subsuming,
                processed(*old(self), *self),
                old(self).watch_lists_sound() ==> self.watch_lists_sound(),
                i > 0 && methods@[i - 1] == Process::BVE ==> bve_pass_ended(*self),
                i > 0 && methods@[i - 1] == Process::BVA ==> bva_stopped(*self),
        {
            let ghost before = *self;
            match methods[i] {
                Process::BVA => crate::process::bva::process(self, logger, Some(&mut *history)),
                Process::BVE => crate::process::bve::process(self, logger, Some(&mut *history)),
                _ => {
                    proof { lemma_processed_refl(*self, *self); }
                },
            }
            proof {
                lemma_processed_trans(*old(self), before, *self);
                assert(pass_result(methods@[i as int], before, *self));
                let fs0 = fs;
                fs = fs.push(*self);
                assert forall|j: int| 0 <= j < i + 1 implies #[trigger] pass_result(methods@[j], fs[j], fs[j + 1]) by {
                    if j < i {
                        assert(fs[j] == fs0[j] && fs[j + 1] == fs0[j + 1]);
                    } else {
                        assert(fs[j] == fs0.last());
                    }
                }
            }
        }
        proof {
            assert(passes_in_order(methods@, fs));
        }
    }
}

} // verus!
