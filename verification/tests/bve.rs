use clsat::drat::DratLogger;
use clsat::formula::Formula;
use clsat::formula::literal::Literal;
use clsat::process::bve::process;

#[test]
fn bve_eliminates_when_it_saves_literals() {
    let mut formula = Formula::from_vec(vec![vec![1, 2], vec![-1, 3]]);
    let mut logger: Option<DratLogger<Vec<u8>>> = None;

    process(&mut formula, &mut logger, None);

    assert_eq!(formula.get_clauses().len(), 1);
    assert_eq!(formula.get_clauses()[0].get_literals(), &vec![Literal::new(2), Literal::new(3)]);
    assert_eq!(formula.stats.bve_eliminated_variables, 1);
    assert_eq!(formula.stats.bve_resolvents, 1);
    assert_eq!(formula.stats.clauses_deleted, 2);
}

#[test]
fn bve_preserves_unit_contradiction_as_empty_clause() {
    let mut formula = Formula::from_vec(vec![vec![1], vec![-1]]);
    let mut logger: Option<DratLogger<Vec<u8>>> = None;

    process(&mut formula, &mut logger, None);

    assert_eq!(formula.get_clauses().len(), 1);
    assert_eq!(formula.get_clauses()[0].len(), 0);
    assert_eq!(formula.stats.bve_eliminated_variables, 1);
    assert_eq!(formula.stats.bve_resolvents, 1);
    assert_eq!(formula.stats.clauses_deleted, 2);
}

#[test]
fn bve_is_noop_when_resolution_would_grow_formula() {
    let mut formula = Formula::from_vec(vec![vec![1, 2], vec![1, 3], vec![-1, 4], vec![-1, 5]]);
    let mut logger: Option<DratLogger<Vec<u8>>> = None;

    process(&mut formula, &mut logger, None);

    assert_eq!(formula.get_clauses().len(), 4);
    assert_eq!(formula.stats.bve_eliminated_variables, 0);
    assert_eq!(formula.stats.clauses_deleted, 0);
}

#[test]
fn bve_logs_resolvents_and_deletions() {
    let mut formula = Formula::from_vec(vec![vec![1, 2], vec![-1, 3]]);
    let mut buf: Vec<u8> = Vec::new();
    {
        let mut logger = Some(DratLogger::new(&mut buf));
        process(&mut formula, &mut logger, None);
    }
    let out = String::from_utf8(buf).unwrap();
    assert_eq!(out, "2 3 0\nd 1 2 0\nd -1 3 0\n");
}

#[test]
fn elimination_candidate_counts_the_saved_literals() {
    let formula = Formula::from_vec(vec![vec![1, 2], vec![-1, 3], vec![2, 4]]);
    let candidate = clsat::process::bve::elimination_candidate(&formula, 1).expect("x1 can be eliminated");
    assert_eq!(candidate.to_delete, vec![0, 1]);
    assert_eq!(candidate.resolvents.len(), 1);
    let lits: Vec<i32> = candidate.resolvents[0].literals.iter().map(|l| l.get_index()).collect();
    assert_eq!(lits, vec![2, 3]);
    assert_eq!(candidate.saving, 2);
}

#[test]
fn elimination_candidate_refuses_when_nothing_is_saved() {
    let formula = Formula::from_vec(vec![vec![1, 2], vec![1, 3], vec![-1, 4], vec![-1, 5]]);
    assert!(clsat::process::bve::elimination_candidate(&formula, 1).is_none());
    // x4 occurs only positively
    assert!(clsat::process::bve::elimination_candidate(&formula, 4).is_none());
}
