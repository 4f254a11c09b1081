use rand::rngs::StdRng;
use rand::SeedableRng;
use sat_rs::cnfparser;
use sat_rs::solvers::chaos;

// The contents of bin/unsatisfiable.cnf.
const UNSATISFIABLE: &str = "p cnf 1 2\n1 0\n-1 0\n";

#[test]
fn chaos_test_test_parse_cnf() {
    let buffer = UNSATISFIABLE;

    // Parse the CNF file
    let formula = cnfparser::parse_cnf(&buffer);

    // Check that the formula is unsatisfiable
    let mut rng = StdRng::seed_from_u64(1);
    let result: bool = chaos::chaos_algorithm(&mut formula.unwrap(), 10, &mut rng)
        .unwrap()
        .is_sat();

    assert_eq!(result, false);
}

#[test]
fn chaos_contradiction_is_unsat_for_any_number_of_tries() {
    for seed in 0..20u64 {
        for max_tries in [1u32, 2, 3, 10, 50] {
            let mut formula = cnfparser::parse_cnf(UNSATISFIABLE).unwrap();
            let mut rng = StdRng::seed_from_u64(seed);
            let verdict = chaos::chaos_algorithm(&mut formula, max_tries, &mut rng).unwrap();
            assert!(!verdict.is_sat());
            assert!(verdict.witness().is_none());
        }
    }
}

#[test]
fn chaos_without_tries_gives_up() {
    let mut formula = cnfparser::parse_cnf("p cnf 1 1\n1 0\n").unwrap();
    let mut rng = StdRng::seed_from_u64(3);
    let verdict = chaos::chaos_algorithm(&mut formula, 0, &mut rng).unwrap();
    assert!(!verdict.is_sat());
}

#[test]
fn chaos_witness_satisfies_the_formula() {
    for seed in 0..20u64 {
        let mut formula = cnfparser::parse_cnf("p cnf 3 2\n1 -3 0\n2 3 -1 0\n").unwrap();
        let mut rng = StdRng::seed_from_u64(seed);
        let verdict = chaos::chaos_algorithm(&mut formula, 100, &mut rng).unwrap();
        let witness = verdict.witness().expect("a formula with six models of eight");
        assert_eq!(witness.len(), 3);
        assert!(witness.contains_key(&1) && witness.contains_key(&2) && witness.contains_key(&3));
        assert_eq!(formula.evaluate(&witness), Ok(true));
        assert!(formula.clauses.iter().all(|clause| clause.is_satisfied));
    }
}

#[test]
fn chaos_same_seed_same_witness() {
    let text = "p cnf 4 3\n1 2 0\n-2 3 0\n-3 4 -1 0\n";
    let mut first = cnfparser::parse_cnf(text).unwrap();
    let mut second = cnfparser::parse_cnf(text).unwrap();
    let mut rng_first = StdRng::seed_from_u64(99);
    let mut rng_second = StdRng::seed_from_u64(99);
    let a = chaos::chaos_algorithm(&mut first, 50, &mut rng_first).unwrap().witness();
    let b = chaos::chaos_algorithm(&mut second, 50, &mut rng_second).unwrap().witness();
    assert_eq!(a, b);
}

#[test]
fn chaos_formula_without_clauses_is_satisfied_at_once() {
    let mut formula = cnfparser::parse_cnf("p cnf 0 0\n").unwrap();
    let mut rng = StdRng::seed_from_u64(5);
    let verdict = chaos::chaos_algorithm(&mut formula, 1, &mut rng).unwrap();
    assert_eq!(verdict.witness(), Some(std::collections::HashMap::new()));
}
