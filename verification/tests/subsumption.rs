use clsat::drat::DratLogger;
use clsat::formula::Formula;
use clsat::formula::clause::Clause;
use clsat::formula::literal::Literal;
use clsat::process::subsumption::{check_new_clause, preprocess};
use clsat::process::Process;

fn no_log() -> Option<DratLogger<Vec<u8>>> {
    None
}

#[test]
fn subsumption_deletes_strict_superset_clause() {
    let mut formula = Formula::from_vec(vec![vec![1, 2], vec![1, 2, 3], vec![2, 4]]);

    preprocess(&mut formula);

    let clauses = formula.get_clauses();
    assert_eq!(clauses.len(), 2);
    assert_eq!(formula.stats.clauses_subsumed, 1);
    assert!(formula.stats.subsumption_checks > 0);
    assert!(clauses
        .iter()
        .any(|clause| clause.get_literals() == &vec![Literal::new(1), Literal::new(2)]));
    assert!(clauses
        .iter()
        .any(|clause| clause.get_literals() == &vec![Literal::new(2), Literal::new(4)]));
}

#[test]
fn subsumption_deletes_duplicate_with_higher_index() {
    let mut formula = Formula::from_vec(vec![vec![1, 2], vec![1, 2], vec![1, 2, 3]]);

    preprocess(&mut formula);

    assert_eq!(formula.get_clauses().len(), 1);
    assert_eq!(formula.stats.clauses_subsumed, 2);
    assert_eq!(formula.get_clauses()[0].get_literals(), &vec![Literal::new(1), Literal::new(2)]);
}

#[test]
fn subsumption_skips_locked_candidate_clause() {
    let mut formula = Formula::from_vec(vec![vec![1], vec![1, 2]]);
    formula.get_clause_at_idx_mut(1).lock_count = 1;

    preprocess(&mut formula);

    assert_eq!(formula.get_clauses().len(), 2);
    assert_eq!(formula.stats.clauses_subsumed, 0);
}

#[test]
fn incremental_check_finds_existing_subsumer() {
    let mut formula = Formula::from_vec(vec![vec![1, 2]]);
    formula.process(vec![Process::Subsumption], &mut no_log(), true, None);

    let idx = formula.add_clause(
        Clause::from_literals(vec![Literal::new(1), Literal::new(2), Literal::new(3)], 1),
        &mut no_log(),
        None,
    );

    assert_eq!(idx, 0);
    assert_eq!(formula.get_clauses().len(), 1);
    assert_eq!(formula.stats.clauses_subsumed, 1);
}

#[test]
fn incremental_check_deletes_existing_subsumed_clause() {
    let mut formula = Formula::from_vec(vec![vec![1, 2, 3]]);
    formula.process(vec![Process::Subsumption], &mut no_log(), true, None);

    let idx = formula.add_clause(
        Clause::from_literals(vec![Literal::new(1), Literal::new(2)], 1),
        &mut no_log(),
        None,
    );

    assert_eq!(idx, 0);
    assert_eq!(formula.get_clauses().len(), 1);
    assert_eq!(formula.get_clauses()[0].get_literals(), &vec![Literal::new(1), Literal::new(2)]);
    assert_eq!(formula.stats.clauses_subsumed, 1);
}

#[test]
fn check_new_clause_reports_subsumed_indices_in_order() {
    let formula = Formula::from_vec(vec![vec![1, 2, 5], vec![3], vec![1, 2, 4]]);
    let new_clause = Clause::from_literals(vec![Literal::new(1), Literal::new(2)], 1);
    let result = check_new_clause(&formula, &new_clause);
    assert_eq!(result.subsumed_by_existing, None);
    assert_eq!(result.subsumed_existing, vec![0, 2]);
}

#[test]
fn process_without_subsumption_keeps_flag_when_not_replacing() {
    let mut formula = Formula::from_vec(vec![vec![1, 2]]);
    formula.process(vec![Process::Subsumption], &mut no_log(), true, None);
    assert!(formula.self_subsuming_enabled());
    formula.process(vec![], &mut no_log(), false, None);
    assert!(formula.self_subsuming_enabled());
    formula.process(vec![], &mut no_log(), true, None);
    assert!(!formula.self_subsuming_enabled());
}

#[test]
fn subsumption_leaves_no_clause_subsuming_another() {
    let mut formula = Formula::from_vec(vec![
        vec![1, 2],
        vec![1, 2, 3],
        vec![3, 1, 2],
        vec![2, 5],
        vec![5, 2, -1],
        vec![4],
    ]);
    clsat::process::subsumption::preprocess(&mut formula);
    let clauses: Vec<Vec<i32>> = formula
        .clauses
        .iter()
        .map(|c| c.literals.iter().map(|l| l.get_index()).collect())
        .collect();
    assert_eq!(clauses.len(), 3);
    for (a, ca) in clauses.iter().enumerate() {
        for (b, cb) in clauses.iter().enumerate() {
            if a != b {
                assert!(!ca.iter().all(|x| cb.contains(x)), "{:?} subsumes {:?}", ca, cb);
            }
        }
    }
}
