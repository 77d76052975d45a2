pub mod cdcl;
pub mod dpll;

use vstd::prelude::*;

verus! {

/// The search algorithm.
#[derive(Clone, Copy, Debug, PartialEq, Eq, Structural)]
pub enum Algorithm {
    DPLL,
    CDCL,
}

/// The algorithm named `name` (`"dpll"` or `"cdcl"`), if any.
pub fn algorithm_from_name(name: &String) -> (r: Option<Algorithm>)
    ensures
        name@ == "dpll"@ ==> r == Some(Algorithm::DPLL),
        name@ == "cdcl"@ ==> r == Some(Algorithm::CDCL),
        name@ != "dpll"@ && name@ != "cdcl"@ ==> r is None,
{
    proof {
        reveal_strlit("dpll");
        reveal_strlit("cdcl");
        assert("dpll"@ != "cdcl"@) by { assert("dpll"@[0] != "cdcl"@[0]); }
    }
    let dpll = "dpll".to_owned();
    let cdcl = "cdcl".to_owned();
    if name.eq(&dpll) {
        Some(Algorithm::DPLL)
    } else if name.eq(&cdcl) {
        Some(Algorithm::CDCL)
    } else {
        None
    }
}

} // verus!
