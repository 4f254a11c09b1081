use rand::rngs::StdRng;
use rand::SeedableRng;
use sat_rs::cnfparser;
use sat_rs::notation::{Clause, Formula, Literal, LookupError};
use sat_rs::solvers::gsat;
use sat_rs::solvers::gsat::WalkProbability;
use std::collections::HashMap;

// The contents of bin/unsatisfiable.cnf.
const UNSATISFIABLE: &str = "p cnf 1 2\n1 0\n-1 0\n";

#[test]
fn test_gsat() {
    let buffer = UNSATISFIABLE;

    // Parse the CNF file
    let formula = cnfparser::parse_cnf(&buffer);

    // Check that the formula is unsatisfiable
    let mut rng = StdRng::seed_from_u64(1);
    let result: bool = gsat::gsat_algorithm(&mut formula.clone().unwrap(), 10, 10, None, &mut rng)
        .unwrap()
        .is_sat();
    let result_with_walk_probability: bool = gsat::gsat_algorithm(
        &mut formula.clone().unwrap(),
        10,
        10,
        WalkProbability::new(1, 2),
        &mut rng,
    )
    .unwrap()
    .is_sat();

    assert_eq!(result, false);
    assert_eq!(result_with_walk_probability, false);
}

fn p_or_q() -> Formula {
    let mut clause = Clause::new(); // Clause: p v q
    let p = Literal { value: 1, negated: false };
    let q = Literal { value: 2, negated: false };
    clause.literals.push(p);
    clause.literals.push(q);
    Formula {
        clauses: vec![clause],
        literals: vec![Literal { value: 1, negated: false }, Literal { value: 2, negated: false }],
        vars: vec![1, 2],
        num_clauses: 1,
        num_vars: 2,
    }
}

#[test]
fn gsat_p_or_q_is_always_found() {
    for seed in 0..50u64 {
        let mut formula = p_or_q();
        let mut rng = StdRng::seed_from_u64(seed);
        let verdict = gsat::gsat_algorithm(&mut formula, 10, 10, None, &mut rng).unwrap();
        let witness = verdict.witness().unwrap();
        assert!(witness[&1] || witness[&2]);

        let mut formula = p_or_q();
        let verdict =
            gsat::gsat_algorithm(&mut formula, 10, 10, WalkProbability::new(1, 2), &mut rng)
                .unwrap();
        assert!(verdict.is_sat());
    }
}

#[test]
fn gsat_p_or_q_is_found_in_one_try_with_one_flip() {
    for seed in 0..50u64 {
        let mut formula = p_or_q();
        let mut rng = StdRng::seed_from_u64(seed);
        assert!(gsat::gsat_algorithm(&mut formula, 1, 1, None, &mut rng).unwrap().is_sat());
    }
}

#[test]
fn walk_probability_bounds() {
    assert!(WalkProbability::new(0, 1).is_some());
    assert!(WalkProbability::new(1, 1).is_some());
    assert!(WalkProbability::new(2, 1).is_none());
    assert!(WalkProbability::new(0, 0).is_none());
    let half = WalkProbability::new(1, 2).unwrap();
    assert_eq!((half.numerator(), half.denominator()), (1, 2));
}

fn formula_of(text: &str) -> Formula {
    cnfparser::parse_cnf(text).unwrap()
}

fn interpretation_of(values: &[(i32, bool)]) -> HashMap<i32, bool> {
    values.iter().copied().collect()
}

#[test]
fn flip_score_counts_clauses_after_the_flip() {
    // (1 or 2) and (-1 or 3) and (-2) and (3)
    let formula = formula_of("p cnf 3 4\n1 2 0\n-1 3 0\n-2 0\n3 0\n");
    let all_false = interpretation_of(&[(1, false), (2, false), (3, false)]);
    // flipping 1: (1 or 2) holds, (-1 or 3) fails, (-2) holds, (3) fails
    assert_eq!(gsat::flip_score(&formula, &all_false, 1), Ok(2));
    // flipping 2: (1 or 2) holds, (-1 or 3) holds, (-2) fails, (3) fails
    assert_eq!(gsat::flip_score(&formula, &all_false, 2), Ok(2));
    // flipping 3: (1 or 2) fails, (-1 or 3) holds, (-2) holds, (3) holds
    assert_eq!(gsat::flip_score(&formula, &all_false, 3), Ok(3));
    // the interpretation handed in is left as it was
    assert_eq!(all_false, interpretation_of(&[(1, false), (2, false), (3, false)]));
}

#[test]
fn greedy_variable_takes_the_highest_score() {
    let mut formula = formula_of("p cnf 3 4\n1 2 0\n-1 3 0\n-2 0\n3 0\n");
    let all_false = interpretation_of(&[(1, false), (2, false), (3, false)]);
    assert_eq!(formula.evaluate(&all_false), Ok(false));
    // unsatisfied: (1 or 2) and (3); candidates 1, 2, 3 with scores 2, 2, 3
    assert_eq!(gsat::greedy_variable(&formula, &all_false), Ok(Some(3)));
}

#[test]
fn greedy_variable_breaks_ties_by_first_occurrence() {
    // (2 or 1): both flips satisfy the one clause
    let mut formula = formula_of("p cnf 2 1\n2 1 0\n");
    let all_false = interpretation_of(&[(1, false), (2, false)]);
    assert_eq!(formula.evaluate(&all_false), Ok(false));
    assert_eq!(gsat::greedy_variable(&formula, &all_false), Ok(Some(2)));
}

#[test]
fn greedy_variable_reads_only_clauses_recorded_as_unsatisfied() {
    // (1) and (-2 or 3) and (2): under 1 true, 2 false, 3 false only (2) fails
    let mut formula = formula_of("p cnf 3 3\n1 0\n-2 3 0\n2 0\n");
    let interpretation = interpretation_of(&[(1, true), (2, false), (3, false)]);
    assert_eq!(formula.evaluate(&interpretation), Ok(false));
    // flipping 3 would keep two clauses true as flipping 2 does, but 3 is
    // in no unsatisfied clause
    assert_eq!(gsat::flip_score(&formula, &interpretation, 2), Ok(2));
    assert_eq!(gsat::flip_score(&formula, &interpretation, 3), Ok(2));
    assert_eq!(gsat::greedy_variable(&formula, &interpretation), Ok(Some(2)));
}

#[test]
fn greedy_variable_without_candidates() {
    // the one clause is empty
    let mut formula = formula_of("p cnf 0 1\n0\n");
    let nothing = HashMap::new();
    assert_eq!(formula.evaluate(&nothing), Ok(false));
    assert_eq!(gsat::greedy_variable(&formula, &nothing), Ok(None));
}

#[test]
fn flip_score_lookup_errors() {
    let formula = formula_of("p cnf 2 1\n1 2 0\n");
    let partial = interpretation_of(&[(1, false)]);
    // the variable to flip is not there
    assert_eq!(gsat::flip_score(&formula, &partial, 5), Err(LookupError { variable: 5 }));
    // a variable of the formula is not there
    assert_eq!(gsat::flip_score(&formula, &partial, 1), Err(LookupError { variable: 2 }));
}

#[test]
fn greedy_variable_lookup_error() {
    let formula = formula_of("p cnf 2 1\n1 2 0\n");
    let partial = interpretation_of(&[(1, false)]);
    assert_eq!(gsat::greedy_variable(&formula, &partial), Err(LookupError { variable: 2 }));
}

#[test]
fn gsat_lookup_error_on_undeclared_variable() {
    let mut clause = Clause::new();
    clause.literals.push(Literal { value: 1, negated: false });
    clause.literals.push(Literal { value: 7, negated: true });
    let mut formula = Formula {
        clauses: vec![clause],
        literals: vec![],
        vars: vec![1],
        num_clauses: 1,
        num_vars: 1,
    };
    let mut rng = StdRng::seed_from_u64(0);
    let result = gsat::gsat_algorithm(&mut formula, 3, 3, None, &mut rng);
    assert_eq!(result.err(), Some(LookupError { variable: 7 }));
    let result = gsat::gsat_algorithm(&mut formula, 0, 3, None, &mut rng);
    assert!(!result.unwrap().is_sat());
}

#[test]
fn gsat_solves_a_chain() {
    // 1, 1 -> 2, 2 -> 3, 3 -> 4: the one model makes all four true
    let text = "p cnf 4 4\n1 0\n-1 2 0\n-2 3 0\n-3 4 0\n";
    let mut found = 0;
    for seed in 0..20u64 {
        let mut formula = formula_of(text);
        let mut rng = StdRng::seed_from_u64(seed);
        if let Some(witness) =
            gsat::gsat_algorithm(&mut formula, 20, 20, None, &mut rng).unwrap().witness()
        {
            assert_eq!(
                witness,
                interpretation_of(&[(1, true), (2, true), (3, true), (4, true)])
            );
            found += 1;
        }
    }
    assert!(found > 0);
}

#[test]
fn gsat_with_walk_probability_one_is_greedy() {
    // with the chance one every flip is the greedy one and no draw is spent
    // on the choice, so the same seed gives the same course
    let text = "p cnf 5 6\n1 2 0\n-1 3 0\n-2 -3 4 0\n-4 5 0\n-5 -1 0\n2 5 0\n";
    for seed in 0..30u64 {
        let mut first = formula_of(text);
        let mut second = formula_of(text);
        let mut rng_first = StdRng::seed_from_u64(seed);
        let mut rng_second = StdRng::seed_from_u64(seed);
        let greedy = gsat::gsat_algorithm(&mut first, 3, 4, None, &mut rng_first).unwrap();
        let mixed =
            gsat::gsat_algorithm(&mut second, 3, 4, WalkProbability::new(7, 7), &mut rng_second)
                .unwrap();
        assert_eq!(greedy.witness(), mixed.witness());
    }
}

#[test]
fn gsat_witness_satisfies_the_formula() {
    let text = "p cnf 5 6\n1 2 0\n-1 3 0\n-2 -3 4 0\n-4 5 0\n-5 -1 0\n2 5 0\n";
    for seed in 0..30u64 {
        for walk in [None, WalkProbability::new(0, 1), WalkProbability::new(1, 3)] {
            let mut formula = formula_of(text);
            let mut rng = StdRng::seed_from_u64(seed);
            let verdict = gsat::gsat_algorithm(&mut formula, 10, 10, walk, &mut rng).unwrap();
            if let Some(witness) = verdict.witness() {
                assert_eq!(witness.len(), 5);
                assert_eq!(formula.evaluate(&witness), Ok(true));
            }
        }
    }
}

#[test]
fn gsat_without_flips_only_draws() {
    // p and q: one interpretation of four satisfies; without flips a try is
    // one draw, and with no tries nothing is found
    let mut formula = formula_of("p cnf 2 2\n1 0\n2 0\n");
    let mut rng = StdRng::seed_from_u64(8);
    assert!(!gsat::gsat_algorithm(&mut formula, 0, 10, None, &mut rng).unwrap().is_sat());
    let mut found = 0;
    for seed in 0..40u64 {
        let mut rng = StdRng::seed_from_u64(seed);
        if gsat::gsat_algorithm(&mut formula, 1, 0, None, &mut rng).unwrap().is_sat() {
            found += 1;
        }
    }
    assert!(0 < found && found < 40);
}
