use clsat::formula::Formula;
use clsat::formula::clause::Clause;
use clsat::formula::extension::ExtensionMap;
use clsat::formula::literal::Literal;
use clsat::history::dip::find_dip;
use clsat::history::{ConflictLearnResult, History};
use clsat::solver::dpll::{dpll_step, DpllStep};
use std::collections::VecDeque;

fn solve_dpll(formula: &mut Formula) -> Option<Vec<bool>> {
    let mut history = History::new();
    for _ in 0..10_000 {
        match dpll_step(formula, &mut history) {
            DpllStep::Sat(model) => return Some(model),
            DpllStep::Unsat => return None,
            DpllStep::Continue => {}
        }
    }
    panic!("dpll did not finish");
}

fn satisfies(clauses: &[Vec<i32>], model: &[bool]) -> bool {
    clauses.iter().all(|clause| {
        clause.iter().any(|&lit| {
            let value = model[lit.unsigned_abs() as usize];
            if lit > 0 { value } else { !value }
        })
    })
}

#[test]
fn dpll_model_satisfies_every_clause() {
    let clauses: Vec<Vec<i32>> = vec![
        vec![1, 2, -3],
        vec![-1, 3],
        vec![-2, -3],
        vec![2, 3, 4],
        vec![-4, -1],
    ];
    let mut formula = Formula::from_vec(clauses.clone());
    let model = solve_dpll(&mut formula).expect("formula is satisfiable");
    assert!(satisfies(&clauses, &model));
}

#[test]
fn dpll_refutes_all_sign_combinations() {
    let clauses: Vec<Vec<i32>> = vec![vec![1, 2], vec![1, -2], vec![-1, 2], vec![-1, -2]];
    let mut formula = Formula::from_vec(clauses);
    assert!(solve_dpll(&mut formula).is_none());
}

#[test]
fn decide_then_revert_restores_assignment() {
    let clauses: Vec<Vec<i32>> = vec![vec![1, 2], vec![-2, 3]];
    let mut formula = Formula::from_vec(clauses);
    let mut history = History::new();
    let before: Vec<Option<bool>> = (0..4).map(|v| formula.assignment.get_value(v)).collect();

    formula.add_decision(&Literal::new(-2), &mut history);
    assert_eq!(formula.assignment.get_value(2), Some(false));
    assert_eq!(history.get_decision_level(), 1);

    formula.revert_last_decision(&mut history);
    let after: Vec<Option<bool>> = (0..4).map(|v| formula.assignment.get_value(v)).collect();
    assert_eq!(before, after);
    assert_eq!(history.get_decision_level(), 0);
}

#[test]
fn substitution_is_found_for_either_order_of_the_pair() {
    let mut map = ExtensionMap::new();
    let a = Literal::new(3);
    let b = Literal::new(-5);
    let z = Literal::new(9);
    assert_eq!(map.substitute(&a, &b), None);
    map.add_substitution(&a, &b, &z);
    assert_eq!(map.substitute(&a, &b), Some(z));
    assert_eq!(map.substitute(&b, &a), Some(z));
    assert_eq!(map.substitute(&a, &a), None);
}

#[test]
fn negating_a_clause_twice_gives_it_back() {
    let clause = Clause::from_lits(vec![Literal::new(1), Literal::new(-4), Literal::new(7)]);
    let once = clause.negate();
    let once_values: Vec<i32> = once.get_literals().iter().map(|l| l.get_index()).collect();
    assert_eq!(once_values, vec![-1, 4, -7]);
    let twice = once.negate();
    assert_eq!(twice.get_literals(), clause.get_literals());
}

#[test]
fn literal_indices_round_trip() {
    for value in [1, -1, 2, -2, 17, -17] {
        let lit = Literal::new(value);
        assert_eq!(Literal::from_unsigned_index(lit.get_unsigned_index()), lit);
        assert_eq!(lit.negated().negated(), lit);
        assert_eq!(lit.negated().get_variable(), lit.get_variable());
        assert_ne!(lit.negated().get_unsigned_index(), lit.get_unsigned_index());
    }
    assert_eq!(Literal::new(3).get_unsigned_index(), 5);
    assert_eq!(Literal::new(-3).get_unsigned_index(), 6);
}

#[test]
fn find_dip_at_root_level_learns_the_empty_clause() {
    let clauses: Vec<Vec<i32>> = vec![vec![1], vec![-1]];
    let formula = Formula::from_vec(clauses);
    let history = History::new();
    match find_dip(&history, &formula, 1) {
        ConflictLearnResult::Uip { clause, backtrack_level, minimized_literals } => {
            assert_eq!(clause.get_literals().len(), 0);
            assert_eq!(backtrack_level, 0);
            assert_eq!(minimized_literals, 0);
        }
        ConflictLearnResult::Dip { .. } => panic!("expected the empty clause"),
    }
}

#[test]
fn find_dip_falls_back_to_first_uip_without_a_pair() {
    // Besides x1 -> x2 -> conflict, the other path from x1 is the direct arc: no inner pair.
    let clauses: Vec<Vec<i32>> = vec![vec![-1, 2], vec![-2, -1]];
    let mut formula = Formula::from_vec(clauses);
    let mut history = History::new();
    let x1 = Literal::new(1);
    formula.assignment.assign_history(&x1, &mut history);
    formula.assignment.assign(2, true);
    history.add_implication(&Literal::new(2), Some(0));
    match find_dip(&history, &formula, 1) {
        ConflictLearnResult::Uip { clause, backtrack_level, .. } => {
            let values: Vec<i32> = clause.get_literals().iter().map(|l| l.get_index()).collect();
            assert_eq!(values, vec![-1]);
            assert_eq!(backtrack_level, 0);
        }
        ConflictLearnResult::Dip { .. } => panic!("no inner pair exists"),
    }
}

#[test]
fn propagation_conflict_clause_has_every_literal_false() {
    let mut formula = Formula::from_vec(vec![vec![-1, 2], vec![-2, 3], vec![-2, -3], vec![1, 4]]);
    let mut history = History::new();
    let x1 = Literal::new(1);
    formula.add_decision(&x1, &mut history);
    let mut queue = VecDeque::from(vec![x1]);
    let conflict = formula.propagate_twl(&mut history, &mut queue).expect("the chain conflicts");
    assert!(conflict == 1 || conflict == 2);
    for lit in formula.clauses[conflict].literals.iter() {
        assert_eq!(formula.assignment.eval(lit), Some(false));
    }
}

#[test]
fn propagation_implications_are_justified_by_their_reasons() {
    let mut formula = Formula::from_vec(vec![vec![-1, 2], vec![-2, 3], vec![-3, 4, -1], vec![5, 6]]);
    let mut history = History::new();
    let x1 = Literal::new(1);
    formula.add_decision(&x1, &mut history);
    let mut queue = VecDeque::from(vec![x1]);
    assert_eq!(formula.propagate_twl(&mut history, &mut queue), None);
    let level = history.decision_levels.last().unwrap();
    assert_eq!(level.implied_literals.len(), 3);
    for (lit, reason) in level.implied_literals.iter() {
        assert_eq!(formula.assignment.eval(lit), Some(true));
        let clause = &formula.clauses[reason.expect("propagated literals have a reason")];
        assert!(clause.literals.contains(lit));
        for other in clause.literals.iter().filter(|l| *l != lit) {
            assert_eq!(formula.assignment.eval(other), Some(false));
        }
    }
}

#[test]
fn variable_assign_keeps_existing_value() {
    let mut v = clsat::formula::variable::Variable::new(3, Some(false));
    v.assign(true);
    assert_eq!(v.get_value(), Some(false));
    assert_eq!(v.get_index(), 3);
    let mut w = clsat::formula::variable::Variable::new(4, None);
    w.assign(true);
    assert_eq!(w.get_value(), Some(true));
}

#[test]
fn add_literal_twice_reports_duplicate() {
    let mut c = clsat::formula::clause::Clause::new();
    let l = clsat::formula::literal::Literal::new(2);
    assert!(c.add_literal(&l).is_ok());
    assert_eq!(c.add_literal(&l), Err("Literal already inside clause"));
    assert_eq!(c.len(), 1);
}

#[test]
fn negate_watches_like_a_new_clause() {
    let c = clsat::formula::clause::Clause::from_lits(vec![
        clsat::formula::literal::Literal::new(1),
        clsat::formula::literal::Literal::new(-2),
        clsat::formula::literal::Literal::new(3),
    ]);
    let n = c.negate();
    assert_eq!(n.watched, clsat::two_watched::Watched::Two(0, 1));
    assert_eq!(n.get_literals()[1].get_index(), 2);
    let u = clsat::formula::clause::Clause::from_lits(vec![clsat::formula::literal::Literal::new(5)]).negate();
    assert_eq!(u.watched, clsat::two_watched::Watched::One(0));
}

#[test]
fn literal_new_accepts_i32_min() {
    let l = clsat::formula::literal::Literal::new(i32::MIN);
    assert_eq!(l.get_index(), i32::MIN);
}

#[test]
fn delete_no_clauses_changes_nothing() {
    let mut f = clsat::formula::Formula::from_vec(vec![vec![1, 2], vec![-1, 3]]);
    let mut log: Option<clsat::drat::DratLogger<Vec<u8>>> = None;
    let r = f.delete_clauses(&[], &mut log);
    assert_eq!(r, vec![Some(0), Some(1)]);
    assert_eq!(f.get_clauses().len(), 2);
}

#[test]
fn minimized_clause_keeps_input_order() {
    let formula = clsat::formula::Formula::from_vec(vec![vec![1, 2, 3]]);
    let history = clsat::history::History::new();
    let lits = vec![
        clsat::formula::literal::Literal::new(-3),
        clsat::formula::literal::Literal::new(1),
        clsat::formula::literal::Literal::new(2),
    ];
    let (m, removed) = history.minimize_clause_literals(&formula, lits.clone());
    assert_eq!(m.len() + removed, 3);
    let mut pos = 0;
    for x in &m {
        while lits[pos] != *x {
            pos += 1;
        }
        pos += 1;
    }
}
