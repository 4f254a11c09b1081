use rand::rngs::StdRng;
use rand::SeedableRng;
use sat_rs::cnfparser;
use sat_rs::notation::{Clause, Formula, Literal};
use sat_rs::solvers::wsat;
use std::collections::HashMap;

// The contents of bin/unsatisfiable.cnf.
const UNSATISFIABLE: &str = "p cnf 1 2\n1 0\n-1 0\n";

#[test]
fn test_wsat() {
    let buffer = UNSATISFIABLE;

    // Parse the CNF file
    let formula = cnfparser::parse_cnf(&buffer);

    // Check that the formula is unsatisfiable
    let mut rng = StdRng::seed_from_u64(1);
    let result: bool = wsat::wsat_algorithm(&mut formula.unwrap(), 10, 10, &mut rng)
        .unwrap()
        .is_sat();

    assert_eq!(result, false);
}

#[test]
fn wsat_p_or_q_is_always_found() {
    for seed in 0..50u64 {
        let mut clause = Clause::new(); // Clause: p v q
        let p = Literal { value: 1, negated: false };
        let q = Literal { value: 2, negated: false };
        clause.literals.push(p);
        clause.literals.push(q);

        let mut formula = Formula {
            clauses: vec![clause],
            literals: vec![
                Literal { value: 1, negated: false },
                Literal { value: 2, negated: false },
            ],
            vars: vec![1, 2],
            num_clauses: 1,
            num_vars: 2,
        };

        let mut rng = StdRng::seed_from_u64(seed);
        let result = wsat::wsat_algorithm(&mut formula, 10, 10, &mut rng).unwrap();
        assert_eq!(result.is_sat(), true);
        let witness = result.witness().unwrap();
        assert!(witness[&1] || witness[&2]);
    }
}

#[test]
fn unsatisfied_clauses_are_those_recorded_false() {
    let mut formula =
        cnfparser::parse_cnf("p cnf 3 4\n1 2 0\n-1 3 0\n-2 0\n3 0\n").unwrap();
    // nothing evaluated yet: every clause is recorded as unsatisfied
    assert_eq!(wsat::unsatisfied_clauses(&formula), vec![0, 1, 2, 3]);
    let all_false: HashMap<i32, bool> = [(1, false), (2, false), (3, false)].into_iter().collect();
    assert_eq!(formula.evaluate(&all_false), Ok(false));
    assert_eq!(wsat::unsatisfied_clauses(&formula), vec![0, 3]);
}

#[test]
fn walk_variable_comes_from_an_unsatisfied_clause() {
    let mut formula =
        cnfparser::parse_cnf("p cnf 4 3\n1 2 0\n-3 0\n4 0\n").unwrap();
    let interpretation: HashMap<i32, bool> =
        [(1, false), (2, false), (3, false), (4, false)].into_iter().collect();
    assert_eq!(formula.evaluate(&interpretation), Ok(false));
    let mut seen = std::collections::HashSet::new();
    for seed in 0..200u64 {
        let mut rng = StdRng::seed_from_u64(seed);
        let variable = wsat::walk_variable(&formula, &mut rng).unwrap();
        assert!(variable == 1 || variable == 2 || variable == 4);
        seen.insert(variable);
    }
    assert_eq!(seen.len(), 3);
}

#[test]
fn walk_variable_without_unsatisfied_clause() {
    let mut formula = cnfparser::parse_cnf("p cnf 1 1\n1 0\n").unwrap();
    let interpretation: HashMap<i32, bool> = [(1, true)].into_iter().collect();
    assert_eq!(formula.evaluate(&interpretation), Ok(true));
    let mut rng = StdRng::seed_from_u64(0);
    assert_eq!(wsat::walk_variable(&formula, &mut rng), None);
    assert_eq!(wsat::pick_clause(&formula, &mut rng), None);
}

#[test]
fn pick_variable_of_an_empty_clause() {
    let mut rng = StdRng::seed_from_u64(0);
    assert_eq!(wsat::pick_variable(&Clause::new(), &mut rng), None);
}

#[test]
fn wsat_with_an_empty_clause_gives_up() {
    let mut formula = cnfparser::parse_cnf("p cnf 1 2\n1 0\n0\n").unwrap();
    let mut rng = StdRng::seed_from_u64(4);
    let verdict = wsat::wsat_algorithm(&mut formula, 5, 5, &mut rng).unwrap();
    assert!(!verdict.is_sat());
}

#[test]
fn wsat_witness_satisfies_the_formula() {
    let text = "p cnf 5 6\n1 2 0\n-1 3 0\n-2 -3 4 0\n-4 5 0\n-5 -1 0\n2 5 0\n";
    let mut found = 0;
    for seed in 0..30u64 {
        let mut formula = cnfparser::parse_cnf(text).unwrap();
        let mut rng = StdRng::seed_from_u64(seed);
        let verdict = wsat::wsat_algorithm(&mut formula, 10, 10, &mut rng).unwrap();
        if let Some(witness) = verdict.witness() {
            assert_eq!(witness.len(), 5);
            assert_eq!(formula.evaluate(&witness), Ok(true));
            assert!(formula.clauses.iter().all(|clause| clause.is_satisfied));
            found += 1;
        }
    }
    assert!(found > 0);
}

#[test]
fn wsat_lookup_error_on_undeclared_variable() {
    let mut clause = Clause::new();
    clause.literals.push(Literal { value: 3, negated: false });
    let mut formula = Formula {
        clauses: vec![clause],
        literals: vec![],
        vars: vec![],
        num_clauses: 1,
        num_vars: 0,
    };
    let mut rng = StdRng::seed_from_u64(0);
    let result = wsat::wsat_algorithm(&mut formula, 1, 1, &mut rng);
    assert_eq!(result.err().map(|error| error.variable), Some(3));
}
