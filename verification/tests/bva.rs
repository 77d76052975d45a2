use clsat::drat::DratLogger;
use clsat::formula::Formula;
use clsat::formula::clause::Clause;
use clsat::process::bva::process;

fn sorted_clauses(formula: &Formula) -> Vec<Vec<i32>> {
    let mut clauses = formula
        .get_clauses()
        .iter()
        .map(Clause::sorted_literal_indices)
        .collect::<Vec<_>>();
    clauses.sort();
    clauses
}

#[test]
fn bva_rewrites_complete_literal_partial_grid_when_it_saves_clauses() {
    let mut formula = Formula::from_vec(vec![
        vec![1, 3],
        vec![1, 4],
        vec![1, 5],
        vec![1, 6],
        vec![2, 3],
        vec![2, 4],
        vec![2, 5],
        vec![2, 6],
    ]);

    let mut logger: Option<DratLogger<Vec<u8>>> = None;
    process(&mut formula, &mut logger, None);

    assert_eq!(formula.assignment.len(), 8);
    assert_eq!(formula.get_clauses().len(), 6);
    assert_eq!(formula.stats.bva_literals, 1);
    assert_eq!(formula.stats.extension_literals, 0);
    assert_eq!(formula.stats.literals_learnt, 1);
    assert_eq!(formula.stats.clauses_deleted, 8);

    let clauses = sorted_clauses(&formula);
    assert!(clauses.contains(&vec![-7, 1]));
    assert!(clauses.contains(&vec![-7, 2]));
    assert!(clauses.contains(&vec![3, 7]));
    assert!(clauses.contains(&vec![4, 7]));
    assert!(clauses.contains(&vec![5, 7]));
    assert!(clauses.contains(&vec![6, 7]));
    assert!(formula.get_clauses().iter().all(|clause| clause.lbd == 0 && clause.bva_generated));
}

#[test]
fn bva_is_noop_when_grid_does_not_save_clauses() {
    let mut formula = Formula::from_vec(vec![vec![1, 3], vec![1, 4], vec![2, 3], vec![2, 4]]);

    let mut logger: Option<DratLogger<Vec<u8>>> = None;
    process(&mut formula, &mut logger, None);

    assert_eq!(formula.assignment.len(), 5);
    assert_eq!(formula.get_clauses().len(), 4);
    assert_eq!(formula.stats.bva_literals, 0);
    assert_eq!(formula.stats.clauses_deleted, 0);
}

#[test]
fn bva_does_not_treat_a_repeated_literal_pair_as_a_grid() {
    let mut formula = Formula::from_vec(vec![vec![1, 2, 3], vec![1, 2, 4], vec![1, 2, 5], vec![1, 2, 6]]);

    let mut logger: Option<DratLogger<Vec<u8>>> = None;
    process(&mut formula, &mut logger, None);

    assert_eq!(formula.assignment.len(), 7);
    assert_eq!(formula.get_clauses().len(), 4);
    assert_eq!(formula.stats.bva_literals, 0);
    assert_eq!(formula.stats.clauses_deleted, 0);
}

#[test]
fn bva_handles_non_binary_partial_clauses() {
    let mut formula = Formula::from_vec(vec![
        vec![1, 3, 4],
        vec![1, 3, 5],
        vec![1, 6],
        vec![1, 7],
        vec![2, 3, 4],
        vec![2, 3, 5],
        vec![2, 6],
        vec![2, 7],
    ]);

    let mut logger: Option<DratLogger<Vec<u8>>> = None;
    process(&mut formula, &mut logger, None);

    assert_eq!(formula.get_clauses().len(), 6);
    assert_eq!(formula.stats.bva_literals, 1);
    assert_eq!(formula.stats.clauses_deleted, 8);

    let aux = (formula.assignment.len() - 1) as i32;
    let clauses = sorted_clauses(&formula);
    assert!(clauses.contains(&vec![-aux, 1]));
    assert!(clauses.contains(&vec![-aux, 2]));
    assert!(clauses.contains(&vec![3, 4, aux]));
    assert!(clauses.contains(&vec![3, 5, aux]));
    assert!(clauses.contains(&vec![6, aux]));
    assert!(clauses.contains(&vec![7, aux]));
}

fn adjacency_index() -> clsat::process::bva::BvaIndex {
    clsat::process::bva::BvaIndex {
        partials: vec![],
        partial_to_literals: vec![],
        literal_to_partials: vec![vec![]; 10],
        clause_indices: vec![vec![]; 10],
        literal_occurrences: vec![0; 10],
        variable_adjacency: vec![vec![], vec![(2, 3)], vec![(3, 5), (1, 3)], vec![(4, 7)], vec![]],
        n_vars: 5,
        n_clauses: 0,
    }
}

#[test]
fn three_hop_score_multiplies_path_weights() {
    let index = adjacency_index();
    assert_eq!(clsat::process::bva::three_hop_score(&index, 1, 4), 105);
    assert_eq!(clsat::process::bva::three_hop_score(&index, 1, 3), 0);
    assert_eq!(clsat::process::bva::three_hop_score(&index, 9, 4), 0);
}

#[test]
fn choose_next_literal_prefers_count_then_three_hop_score() {
    let index = adjacency_index();
    let counts = vec![(3, 2), (4, 2), (-4, 1), (2, 0)];
    assert_eq!(clsat::process::bva::choose_next_literal(&index, 1, &counts), Some((4, 2)));
    assert_eq!(clsat::process::bva::choose_next_literal(&index, 1, &vec![(3, 0)]), None);
}

#[test]
fn bva_index_counts_cooccurrences_and_lists_every_clause() {
    let formula = clsat::formula::Formula::from_vec(vec![vec![1, 2], vec![1, 2, 3], vec![-1, 3]]);
    let index = clsat::process::bva::BvaIndex::new(&formula);
    let count = |a: usize, b: usize| -> u64 {
        for &(k, c) in &index.variable_adjacency[a] {
            if k == b {
                return c;
            }
        }
        0
    };
    assert_eq!(count(1, 2), 2);
    assert_eq!(count(2, 1), 2);
    assert_eq!(count(1, 3), 2);
    assert_eq!(count(2, 3), 1);
    assert_eq!(count(3, 3), 0);
    let u = clsat::formula::literal::Literal::new(3).get_unsigned_index() as usize;
    let listed: Vec<usize> = index.clause_indices[u].iter().flat_map(|(_, v)| v.clone()).collect();
    assert!(listed.contains(&1));
    assert!(listed.contains(&2));
}
