use clsat::drat::DratLogger;
use clsat::formula::Formula;
use clsat::formula::assignment::AssignResult;
use clsat::formula::clause::Clause;
use clsat::formula::literal::Literal;
use clsat::history::{History, ImplicationPoint};
use clsat::solver::cdcl::{extension_literal, luby, restart, Cdcl, CdclStep};

fn solve_cdcl(formula: &mut Formula, implication_point: ImplicationPoint) -> Option<Vec<bool>> {
    let mut logger: Option<DratLogger<Vec<u8>>> = None;
    let mut cdcl = Cdcl::new(implication_point, Vec::new());
    if !cdcl.start(formula, &mut logger) {
        return None;
    }
    loop {
        let decision = formula.get_unassigned_literal();
        if let Some(model) = cdcl.decide(formula, decision) {
            return Some(model);
        }
        loop {
            match cdcl.step(formula, &mut logger).unwrap() {
                CdclStep::Decide => break,
                CdclStep::Unsat => return None,
                CdclStep::Learned(_, restarted) => {
                    if restarted {
                        break;
                    }
                }
            }
        }
    }
}

#[test]
fn luby_sequence_matches_expected_prefix() {
    let got: Vec<u64> = (1..=15).map(luby).collect();
    assert_eq!(got, vec![1, 1, 2, 1, 1, 2, 4, 1, 1, 2, 1, 1, 2, 4, 8]);
}

#[test]
fn luby_values_at_powers_of_two_minus_one() {
    assert_eq!(luby(31), 16);
    assert_eq!(luby(63), 32);
    assert_eq!(luby(32), 1);
}

#[test]
fn restart_backtracks_to_root_and_unlocks_reason_clauses() {
    let mut formula = Formula::from_vec(vec![vec![1], vec![-1, 2]]);
    let mut history = History::new();

    let decision = Literal::new(1);
    formula.add_decision(&decision, &mut history);
    let implied = Literal::new(2);
    assert!(matches!(
        formula.assign_implication(implied, &mut history, Some(1)),
        AssignResult::Assigned(_)
    ));
    assert_eq!(formula.get_clause_at_idx(1).lock_count, 1);

    let mut logger: Option<DratLogger<Vec<u8>>> = None;
    restart(&mut formula, &mut history, &Vec::new(), true, &mut logger);

    assert_eq!(formula.stats.restarts, 1);
    assert_eq!(history.get_decision_level(), 0);
    assert_eq!(formula.assignment.get_value(1), None);
    assert_eq!(formula.assignment.get_value(2), None);
    assert_eq!(formula.get_clause_at_idx(1).lock_count, 0);
}

#[test]
fn extension_axioms_have_zero_lbd() {
    let mut formula = Formula::from_vec(vec![vec![1, 2]]);
    let a = Literal::new(1);
    let b = Literal::new(2);
    let mut logger: Option<DratLogger<Vec<u8>>> = None;

    extension_literal(&mut formula, &mut logger, &a, &b);

    assert_eq!(formula.stats.extension_literals, 1);
    assert_eq!(formula.stats.bva_literals, 0);
    assert_eq!(formula.stats.literals_learnt, 1);

    let clauses = formula.get_clauses();
    assert_eq!(clauses[clauses.len() - 3].lbd, 0);
    assert_eq!(clauses[clauses.len() - 2].lbd, 0);
    assert_eq!(clauses[clauses.len() - 1].lbd, 0);
}

#[test]
fn extension_literal_is_reused_for_the_same_pair() {
    let mut formula = Formula::from_vec(vec![vec![1, 2]]);
    let a = Literal::new(1);
    let b = Literal::new(-2);
    let mut logger: Option<DratLogger<Vec<u8>>> = None;
    let z1 = extension_literal(&mut formula, &mut logger, &a, &b);
    let clauses_after_first = formula.get_clauses().len();
    let z2 = extension_literal(&mut formula, &mut logger, &b, &a);
    assert_eq!(z1, z2);
    assert_eq!(formula.get_clauses().len(), clauses_after_first);
    assert_eq!(formula.stats.extension_literals, 1);
}

#[test]
fn cdcl_reports_unsat_for_structural_empty_clause() {
    let mut formula = Formula::from_vec(vec![vec![1]]);
    let mut logger: Option<DratLogger<Vec<u8>>> = None;
    formula.add_clause_unchecked(Clause::from_literals(Vec::new(), -1), &mut logger);
    let res = solve_cdcl(&mut formula, ImplicationPoint::UIP);
    assert!(res.is_none());
}

#[test]
fn test_cdcl_simple_sat_uip() {
    let mut formula = Formula::from_vec(vec![vec![1, 2], vec![-1, 3]]);
    let res = solve_cdcl(&mut formula, ImplicationPoint::UIP);
    assert!(res.is_some());
}

#[test]
fn test_cdcl_simple_unsat_uip() {
    let mut formula = Formula::from_vec(vec![vec![1], vec![-1]]);
    let res = solve_cdcl(&mut formula, ImplicationPoint::UIP);
    assert!(res.is_none());
}

#[test]
fn test_cdcl_inner_conflict_loop_uip() {
    let mut formula = Formula::from_vec(vec![vec![1, 2], vec![1, -2], vec![-1, 3], vec![-1, -3]]);
    let res = solve_cdcl(&mut formula, ImplicationPoint::UIP);
    assert!(res.is_none());
}

#[test]
fn test_cdcl_simple_sat_dip() {
    let mut formula = Formula::from_vec(vec![vec![1, 2], vec![-1, 3]]);
    let res = solve_cdcl(&mut formula, ImplicationPoint::DIP);
    assert!(res.is_some());
}

#[test]
fn test_cdcl_simple_unsat_dip() {
    let mut formula = Formula::from_vec(vec![vec![1], vec![-1]]);
    let res = solve_cdcl(&mut formula, ImplicationPoint::DIP);
    assert!(res.is_none());
}

#[test]
fn test_cdcl_inner_conflict_loop_dip() {
    let mut formula = Formula::from_vec(vec![vec![1, 2], vec![1, -2], vec![-1, 3], vec![-1, -3]]);
    let res = solve_cdcl(&mut formula, ImplicationPoint::DIP);
    assert!(res.is_none());
}

#[test]
fn cdcl_model_satisfies_every_clause() {
    let raw = vec![vec![1, 2, 3], vec![-1, -2], vec![-2, -3], vec![-1, -3], vec![2, 4], vec![-4, 1]];
    let mut formula = Formula::from_vec(raw.clone());
    let model = solve_cdcl(&mut formula, ImplicationPoint::UIP).expect("satisfiable");
    for clause in raw {
        assert!(clause.iter().any(|&l| model[l.unsigned_abs() as usize] == (l > 0)));
    }
}

#[test]
fn cdcl_refutes_pigeonhole_three_into_two() {
    // pigeons p in 0..3, holes h in 0..2: variable 1 + 2p + h
    let v = |p: i32, h: i32| 1 + 2 * p + h;
    let mut raw = Vec::new();
    for p in 0..3 {
        raw.push(vec![v(p, 0), v(p, 1)]);
    }
    for h in 0..2 {
        for p in 0..3 {
            for q in (p + 1)..3 {
                raw.push(vec![-v(p, h), -v(q, h)]);
            }
        }
    }
    let mut formula = Formula::from_vec(raw.clone());
    assert!(solve_cdcl(&mut formula, ImplicationPoint::UIP).is_none());
    let mut formula = Formula::from_vec(raw);
    assert!(solve_cdcl(&mut formula, ImplicationPoint::DIP).is_none());
}

#[test]
fn start_refutation_leaves_a_false_clause() {
    let mut formula = Formula::from_vec(vec![vec![1], vec![-1, 2], vec![-2, 3], vec![-3, -1]]);
    let mut cdcl = Cdcl::new(ImplicationPoint::UIP, vec![]);
    let mut logger: Option<DratLogger<Vec<u8>>> = None;
    assert!(!cdcl.start(&mut formula, &mut logger));
    let falsified = formula.clauses.iter().any(|c| {
        c.literals.iter().all(|l| formula.assignment.eval(l) == Some(false))
    });
    assert!(falsified);
}
