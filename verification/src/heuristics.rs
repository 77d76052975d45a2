//! The random branching heuristic: a uniformly drawn unassigned variable with a fair sign.
use vstd::prelude::*;
use rand::RngExt;
use crate::formula::Formula;
use crate::formula::literal::Literal;

verus! {

/// The unassigned variables among `1..k`, in increasing order.
pub open spec fn unassigned_below(a: Seq<Option<bool>>, k: int) -> Seq<usize>
    decreases k,
{
    if k <= 1 {
        Seq::empty()
    } else if a[k - 1] is None {
        unassigned_below(a, k - 1).push((k - 1) as usize)
    } else {
        unassigned_below(a, k - 1)
    }
}

/// Every listed variable lies in `1..k` and is unassigned, and every unassigned one of `1..k`
/// is listed.
pub proof fn lemma_unassigned_below(a: Seq<Option<bool>>, k: int)
    requires
        k <= a.len() <= usize::MAX,
    ensures
        forall|i: int| 0 <= i < unassigned_below(a, k).len() ==> 1 <= #[trigger] unassigned_below(a, k)[i] < k
            && a[unassigned_below(a, k)[i] as int] is None,
        forall|v: int| 1 <= v < k && #[trigger] a[v] is None ==> unassigned_below(a, k).contains(v as usize),
    decreases k,
{
    if k > 1 {
        lemma_unassigned_below(a, k - 1);
        let p = unassigned_below(a, k - 1);
        assert forall|i: int| 0 <= i < unassigned_below(a, k).len() implies 1 <= #[trigger] unassigned_below(a, k)[i] < k
            && a[unassigned_below(a, k)[i] as int] is None by {
            if i < p.len() {
                assert(unassigned_below(a, k)[i] == p[i]);
            }
        }
        if a[k - 1] is None {
            assert forall|v: int| 1 <= v < k && #[trigger] a[v] is None implies unassigned_below(a, k).contains(v as usize) by {
                if v < k - 1 {
                    let i = choose|i: int| 0 <= i < p.len() && p[i] == v as usize;
                    assert(unassigned_below(a, k)[i] == v as usize);
                } else {
                    assert(unassigned_below(a, k)[p.len() as int] == v as usize);
                }
            }
        }
    }
}

/// The unassigned variables of `formula` (slot 0 excluded), in increasing order.
pub fn unassigned_variables(formula: &Formula) -> (r: Vec<usize>)
    requires
        formula.wf(),
    ensures
        r@ == unassigned_below(formula.assignment@, formula.n_vars() as int),
{
    let mut r: Vec<usize> = Vec::new();
    let n = formula.assignment.len();
    let mut v: usize = 1;
    while v < n
        invariant
            formula.wf(),
            n == formula.n_vars(),
            1 <= v <= n,
            r@ == unassigned_below(formula.assignment@, v as int),
        decreases n - v,
    {
        if formula.assignment.get_value(v).is_none() {
            r.push(v);
        }
        v = v + 1;
    }
    r
}

/// The literal on the variable at position `draw` of `unassigned_variables`: `v` when `negated`
/// holds and `-v` otherwise.
pub fn pick_unassigned_literal(formula: &Formula, draw: usize, negated: bool) -> (r: Literal)
    requires
        formula.wf(),
        draw < unassigned_below(formula.assignment@, formula.n_vars() as int).len(),
    ensures
        r.wf(),
        r.var() == unassigned_below(formula.assignment@, formula.n_vars() as int)[draw as int],
        r@ == if negated { r.var() as int } else { -(r.var() as int) },
{
    let vars = unassigned_variables(formula);
    proof { lemma_unassigned_below(formula.assignment@, formula.n_vars() as int); }
    let var = vars[draw];
    let value: i32 = var as i32;
    if negated {
        Literal::new(value)
    } else {
        Literal::new(-value)
    }
}

/// A number drawn uniformly from `0..bound` by `rand`'s `random_range` on the thread's
/// generator; all that is claimed is that it lies in that range.
#[verifier::external_body]
fn random_below(bound: usize) -> (r: usize)
    requires
        bound > 0,
    ensures
        r < bound,
{
    rand::rng().random_range(0..bound)
}

/// A fair coin: `rand`'s `random_ratio(1, 2)` on the thread's generator. Nothing is claimed of
/// the outcome.
#[verifier::external_body]
fn random_coin() -> (r: bool) {
    rand::rng().random_ratio(1, 2)
}

/// A uniformly chosen unassigned variable with a random sign; `None` when every variable is
/// assigned.
pub fn get_random_unassigned_literal(formula: &Formula) -> (r: Option<Literal>)
    requires
        formula.wf(),
    ensures
        r is None <==> forall|v: int| 1 <= v < formula.n_vars() ==> #[trigger] formula.assignment@[v] is Some,
        r matches Some(l) ==> l.wf() && 1 <= l.var() < formula.n_vars() && formula.assignment@[l.var() as int] is None,
{
    let vars = unassigned_variables(formula);
    proof { lemma_unassigned_below(formula.assignment@, formula.n_vars() as int); }
    if vars.len() == 0 {
        proof {
            assert forall|v: int| 1 <= v < formula.n_vars() implies #[trigger] formula.assignment@[v] is Some by {
                if formula.assignment@[v] is None {
                    assert(vars@.contains(v as usize));
                }
            }
        }
        return None;
    }
    let draw = random_below(vars.len());
    let negated = random_coin();
    let lit = pick_unassigned_literal(formula, draw, negated);
    proof {
        assert(vars@[draw as int] == lit.var());
    }
    Some(lit)
}

} // verus!
