use clsat::drat::DratLogger;
use clsat::formula::Formula;
use clsat::formula::clause::Clause;
use clsat::formula::literal::Literal;
use clsat::history::History;
use clsat::two_watched::Watched;
use std::collections::VecDeque;

fn no_log() -> Option<DratLogger<Vec<u8>>> {
    None
}

fn assert_watchlists_consistent(formula: &Formula) {
    let total_lists = formula.assignment.len() * 2;
    let mut expected: Vec<Vec<usize>> = vec![Vec::new(); total_lists];

    for (clause_idx, clause) in formula.get_clauses().iter().enumerate() {
        match clause.watched {
            Watched::Unwatched => {}
            Watched::One(i) => {
                let lit = &clause.get_literals()[i as usize];
                expected[lit.get_unsigned_index() as usize].push(clause_idx);
            }
            Watched::Two(i, j) => {
                let lit_i = &clause.get_literals()[i as usize];
                let lit_j = &clause.get_literals()[j as usize];
                expected[lit_i.get_unsigned_index() as usize].push(clause_idx);
                expected[lit_j.get_unsigned_index() as usize].push(clause_idx);
            }
        }
    }

    for var_idx in 1..formula.assignment.len() {
        let var = var_idx as i32;
        for lit in [Literal::new(var), Literal::new(-var)] {
            let mut actual = formula.watch.get_watched(&lit).clone();
            let mut expected_list = expected[lit.get_unsigned_index() as usize].clone();
            actual.sort_unstable();
            expected_list.sort_unstable();
            assert_eq!(actual, expected_list, "watchlist mismatch for {:?}", lit);
        }
    }
}

#[test]
fn from_vec_initial_clauses_have_unknown_lbd() {
    let formula = Formula::from_vec(vec![vec![1, 2], vec![-1, 3], vec![2]]);

    assert!(formula.get_clauses().iter().all(|clause| clause.lbd == -1));
}

fn test_clause(lit: i32, lbd: i64) -> Clause {
    Clause::from_literals(vec![Literal::new(lit)], lbd)
}

#[test]
fn reduce_db_deletes_worst_lbd_quarter_and_preserves_originals_and_extensions() {
    let mut formula = Formula::from_vec(vec![vec![1], vec![2], vec![13]]);

    formula.add_clause(test_clause(3, 0), &mut no_log(), None);
    formula.add_clause(test_clause(4, 1), &mut no_log(), None);
    formula.add_clause(test_clause(5, 8), &mut no_log(), None);
    formula.add_clause(test_clause(6, 3), &mut no_log(), None);
    formula.add_clause(test_clause(7, 0), &mut no_log(), None);
    formula.add_clause(test_clause(8, 7), &mut no_log(), None);
    formula.add_clause(test_clause(9, 2), &mut no_log(), None);
    formula.add_clause(test_clause(10, 6), &mut no_log(), None);
    formula.add_clause(test_clause(11, 4), &mut no_log(), None);
    formula.add_clause(test_clause(12, 5), &mut no_log(), None);

    let mut history = History::new();
    formula.reduce_db(&mut history, &mut no_log(), false);

    let remaining_lits: Vec<i32> = formula
        .get_clauses()
        .iter()
        .map(|clause| clause.get_literals()[0].get_index())
        .collect();
    let remaining_lbds: Vec<i64> = formula.get_clauses().iter().map(|clause| clause.lbd).collect();

    assert!(remaining_lits.contains(&1));
    assert!(remaining_lits.contains(&2));
    assert!(remaining_lits.contains(&3));
    assert!(remaining_lits.contains(&7));
    assert!(!remaining_lits.contains(&5));
    assert!(!remaining_lits.contains(&8));
    assert_eq!(remaining_lbds.iter().filter(|&&lbd| lbd == -1).count(), 3);
    assert_eq!(remaining_lbds.iter().filter(|&&lbd| lbd == 0).count(), 2);
    assert_watchlists_consistent(&formula);
}

#[test]
fn reduce_db_skips_locked_reason_clauses_and_remaps_history_reasons() {
    let mut formula = Formula::from_vec(vec![vec![1], vec![30]]);
    formula.add_clause(test_clause(2, 1), &mut no_log(), None); // idx 2
    formula.add_clause(test_clause(3, 8), &mut no_log(), None); // idx 3, deleted
    formula.add_clause(test_clause(4, 2), &mut no_log(), None); // idx 4
    formula.add_clause(test_clause(5, 3), &mut no_log(), None); // idx 5
    formula.add_clause(test_clause(6, 10), &mut no_log(), None); // idx 6, locked
    formula.add_clause(test_clause(7, 4), &mut no_log(), None); // idx 7
    formula.add_clause(test_clause(8, 5), &mut no_log(), None); // idx 8
    formula.add_clause(test_clause(9, 6), &mut no_log(), None); // idx 9

    let mut history = History::new();
    let decision = Literal::new(1);
    formula.assignment.assign_history(&decision, &mut history);
    let locked_lit = Literal::new(20);
    formula.assign_implication(locked_lit.clone(), &mut history, Some(6));

    formula.reduce_db(&mut history, &mut no_log(), false);

    let remaining_lits: Vec<i32> = formula
        .get_clauses()
        .iter()
        .map(|clause| clause.get_literals()[0].get_index())
        .collect();

    assert!(!remaining_lits.contains(&3));
    assert!(remaining_lits.contains(&6));
    assert_eq!(history.decision_levels[1].get_reason(&locked_lit), Some(5));
    assert_eq!(formula.stats.clauses_deleted, 3);
    assert_eq!(formula.get_clause_at_idx(5).lock_count, 1);
    assert_watchlists_consistent(&formula);
}

#[test]
fn reduce_db_stops_at_original_clause_boundary() {
    let mut formula = Formula::from_vec(vec![vec![1], vec![8]]);
    formula.add_clause(test_clause(2, 9), &mut no_log(), None);
    formula.add_clause(test_clause(3, -1), &mut no_log(), None);
    formula.add_clause(test_clause(4, 8), &mut no_log(), None);
    formula.add_clause(test_clause(5, 7), &mut no_log(), None);
    formula.add_clause(test_clause(6, 6), &mut no_log(), None);
    formula.add_clause(test_clause(7, 5), &mut no_log(), None);

    let mut history = History::new();
    formula.reduce_db(&mut history, &mut no_log(), false);

    let remaining_lits: Vec<i32> = formula
        .get_clauses()
        .iter()
        .map(|clause| clause.get_literals()[0].get_index())
        .collect();

    assert!(remaining_lits.contains(&2));
    assert!(remaining_lits.contains(&3));
    assert!(!remaining_lits.contains(&4));
    assert_watchlists_consistent(&formula);
}

#[test]
fn reduce_db_conservative_keeps_small_databases() {
    let mut formula = Formula::from_vec(vec![vec![1], vec![8]]);
    for lit in 2..8 {
        formula.add_clause(test_clause(lit, 9), &mut no_log(), None);
    }
    let mut history = History::new();
    formula.reduce_db(&mut history, &mut no_log(), true);
    assert_eq!(formula.get_clauses().len(), 8);
    assert_eq!(formula.stats.clauses_deleted, 0);
}

#[test]
fn delete_clause_removes_watched_literals_and_reindexes() {
    let mut formula = Formula::from_vec(vec![
        vec![1, 2],      // clause 0: watches x1, x2
        vec![-1, 3],     // clause 1: watches ¬x1, x3
        vec![2],         // clause 2: watches x2
        vec![-2, -3, 1], // clause 3: watches ¬x2, ¬x3
    ]);

    assert_watchlists_consistent(&formula);
    // Remove clause 1
    formula.delete_clause(1, &mut no_log());

    assert_eq!(formula.get_clauses().len(), 3);
    assert_eq!(formula.get_clause_at_idx(1).get_literals(), &vec![Literal::new(2)]);

    // Global consistency check (ensures reindexing of watchlists)
    assert_watchlists_consistent(&formula);

    // Explicitly verify reindexing for x2 watchlist
    let mut watched_x2 = formula.watch.get_watched(&Literal::new(2)).clone();
    watched_x2.sort_unstable();
    assert_eq!(watched_x2, vec![0, 1]);

    // Deleted clause's watched literals should be gone
    assert!(formula.watch.get_watched(&Literal::new(-1)).is_empty());
    assert!(formula.watch.get_watched(&Literal::new(3)).is_empty());
}

#[test]
fn propagate_twl_assigns_chain_and_reports_conflict() {
    let mut formula = Formula::from_vec(vec![vec![-1, 2], vec![-2, 3], vec![-3, -1]]);
    let mut history = History::new();
    let x1 = Literal::new(1);
    formula.add_decision(&x1, &mut history);
    let mut queue = VecDeque::from(vec![x1]);
    let conflict = formula.propagate_twl(&mut history, &mut queue);
    // clause 2 watches -3 and -1, so x3 is set false first and clause 1 conflicts
    assert_eq!(conflict, Some(1));
    assert_eq!(formula.assignment.get_value(2), Some(true));
    assert_eq!(formula.assignment.get_value(3), Some(false));
}

#[test]
fn propagate_twl_without_conflict_empties_queue() {
    let mut formula = Formula::from_vec(vec![vec![-1, 2], vec![-2, 3]]);
    let mut history = History::new();
    let x1 = Literal::new(1);
    formula.add_decision(&x1, &mut history);
    let mut queue = VecDeque::from(vec![x1]);
    assert_eq!(formula.propagate_twl(&mut history, &mut queue), None);
    assert!(queue.is_empty());
    assert_eq!(formula.assignment.get_value(3), Some(true));
    assert_eq!(history.decision_levels[1].get_reason(&Literal::new(3)), Some(1));
}

#[test]
fn pure_literals_are_found_per_variable() {
    let mut formula = Formula::from_vec(vec![vec![1, -2], vec![1, 3], vec![-3, 2]]);
    let pure = formula.get_pure_literals();
    assert_eq!(pure, vec![Literal::new(1)]);
}

#[test]
fn unit_propagate_assigns_until_no_unit_clause() {
    let mut formula = Formula::from_vec(vec![vec![1], vec![-1, 2], vec![-2, -3]]);
    assert!(formula.unit_propagate(None));
    assert_eq!(formula.assignment.get_value(1), Some(true));
    assert_eq!(formula.assignment.get_value(2), Some(true));
    assert_eq!(formula.assignment.get_value(3), Some(false));
    assert!(!formula.unit_propagate(None));
}
