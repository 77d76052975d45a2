use clsat::drat::DratLogger;
use clsat::formula::Formula;
use clsat::formula::clause::Clause;
use clsat::formula::literal::Literal;

#[test]
fn log_add_delete_empty_formats_dimacs() {
    let mut buf = Vec::new();
    let mut logger = DratLogger::new(&mut buf);

    let clause = vec![Literal::new(1), Literal::new(-3)];
    logger.log_add(&clause).unwrap();

    let del = vec![Literal::new(2)];
    logger.log_delete(&del).unwrap();

    logger.log_empty_clause().unwrap();

    let out = String::from_utf8(buf).unwrap();
    assert_eq!(out, "1 -3 0\nd 2 0\n0\n");
}

#[test]
fn drat_lines_use_signed_dimacs_values() {
    let line = clsat::drat::drat_line_bytes(&[Literal::new(-12), Literal::new(7)], true);
    assert_eq!(String::from_utf8(line).unwrap(), "d -12 7 0\n");
}

#[test]
fn database_changes_are_logged_in_order() {
    let mut buf = Vec::new();
    {
        let mut logger = Some(DratLogger::new(&mut buf));
        let mut formula = Formula::from_vec(vec![vec![1, -2], vec![2, 3], vec![-1, -3]]);
        formula.add_clause_unchecked(Clause::from_lits(vec![Literal::new(1), Literal::new(3)]), &mut logger);
        formula.delete_clauses(&[2, 0], &mut logger);
        formula.delete_clause(0, &mut logger);
        clsat::solver::cdcl::unsat(&mut logger);
    }
    let out = String::from_utf8(buf).unwrap();
    assert_eq!(out, "1 3 0\nd 1 -2 0\nd -1 -3 0\nd 2 3 0\n0\n");
}
