//! A CDCL/DPLL satisfiability solver library whose propagation, conflict
//! analysis, clause-database and preprocessing logic is verified with Verus.
pub mod bitset;
pub mod drat;
pub mod formula;
pub mod heuristics;
pub mod history;
pub mod process;
pub mod solver;
pub mod sorting;
pub mod stats;
pub mod two_watched;
