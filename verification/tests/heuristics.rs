use clsat::formula::Formula;
use clsat::formula::literal::Literal;
use clsat::heuristics::{get_random_unassigned_literal, pick_unassigned_literal, unassigned_variables};

#[test]
fn unassigned_variables_skip_assigned_ones() {
    let mut formula = Formula::from_vec(vec![vec![1, 2], vec![-3, 4]]);
    assert_eq!(unassigned_variables(&formula), vec![1, 2, 3, 4]);
    formula.assignment.assign(2, true);
    assert_eq!(unassigned_variables(&formula), vec![1, 3, 4]);
}

#[test]
fn pick_unassigned_literal_takes_the_drawn_variable_and_sign() {
    let mut formula = Formula::from_vec(vec![vec![1, 2], vec![-3, 4]]);
    formula.assignment.assign(1, false);
    assert_eq!(pick_unassigned_literal(&formula, 0, true), Literal::new(2));
    assert_eq!(pick_unassigned_literal(&formula, 1, false), Literal::new(-3));
    assert_eq!(pick_unassigned_literal(&formula, 2, true), Literal::new(4));
}

#[test]
fn random_unassigned_literal_is_unassigned_until_none_is_left() {
    let mut formula = Formula::from_vec(vec![vec![1, 2], vec![-3]]);
    for _ in 0..20 {
        let lit = get_random_unassigned_literal(&formula).unwrap();
        let var = lit.get_index().unsigned_abs() as usize;
        assert!(var >= 1 && var <= 3);
        assert!(formula.assignment.get_value(var).is_none());
    }
    formula.assignment.assign(1, true);
    formula.assignment.assign(3, false);
    for _ in 0..20 {
        let lit = get_random_unassigned_literal(&formula).unwrap();
        assert_eq!(lit.get_index().unsigned_abs(), 2);
    }
    formula.assignment.assign(2, true);
    assert_eq!(get_random_unassigned_literal(&formula), None);
}
