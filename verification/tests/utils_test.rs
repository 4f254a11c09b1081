use rand::rngs::StdRng;
use rand::SeedableRng;
use sat_rs::notation::LookupError;
use sat_rs::solvers::utils::{flip, random_assignment};
use std::collections::HashMap;

#[test]
fn flip_inverts_one_value() {
    let mut interpretation: HashMap<i32, bool> = HashMap::new();
    interpretation.insert(1, true);
    interpretation.insert(2, true);

    assert!(flip(&mut interpretation, 1).is_ok());

    assert_eq!(interpretation.get(&1), Some(&false));
    assert_eq!(interpretation.get(&2), Some(&true));
    assert_eq!(interpretation.len(), 2);
}

#[test]
fn flip_hands_the_interpretation_back() {
    let mut interpretation: HashMap<i32, bool> = [(1, true), (2, true)].into_iter().collect();
    let after = flip(&mut interpretation, 2).unwrap();
    assert_eq!(after.get(&2), Some(&false));
    after.insert(3, true);
    assert_eq!(interpretation.len(), 3);
    assert_eq!(interpretation.get(&2), Some(&false));
}

#[test]
fn flip_twice_restores_the_interpretation() {
    let start: HashMap<i32, bool> = [(1, true), (2, false), (-7, true)].into_iter().collect();
    for variable in [1, 2, -7] {
        let mut interpretation = start.clone();
        assert!(flip(&mut interpretation, variable).is_ok());
        assert_ne!(interpretation, start);
        assert!(flip(&mut interpretation, variable).is_ok());
        assert_eq!(interpretation, start);

        // the same, chained
        let mut interpretation = start.clone();
        let twice = flip(flip(&mut interpretation, variable).unwrap(), variable).unwrap();
        assert_eq!(*twice, start);
        assert_eq!(interpretation, start);
    }
}

#[test]
fn flip_of_a_missing_variable_is_an_error() {
    let start: HashMap<i32, bool> = [(1, true)].into_iter().collect();
    let mut interpretation = start.clone();
    assert_eq!(flip(&mut interpretation, 3).err(), Some(LookupError { variable: 3 }));
    assert_eq!(interpretation, start);
    let mut empty: HashMap<i32, bool> = HashMap::new();
    assert_eq!(flip(&mut empty, 0).err(), Some(LookupError { variable: 0 }));
    assert!(empty.is_empty());
}

#[test]
fn random_assignment_holds_exactly_the_variables() {
    let mut rng = StdRng::seed_from_u64(11);
    let variables = vec![5, 1, 9, 1];
    let interpretation = random_assignment(&variables, &mut rng);
    let mut keys: Vec<i32> = interpretation.keys().copied().collect();
    keys.sort();
    assert_eq!(keys, vec![1, 5, 9]);
    assert!(random_assignment(&vec![], &mut rng).is_empty());
}

#[test]
fn random_assignment_follows_the_seed() {
    let variables: Vec<i32> = (1..=64).collect();
    let mut first = StdRng::seed_from_u64(2024);
    let mut second = StdRng::seed_from_u64(2024);
    let a = random_assignment(&variables, &mut first);
    let b = random_assignment(&variables, &mut second);
    assert_eq!(a, b);
    // sixty-four draws are not all alike, and the next sixty-four differ
    assert!(a.values().any(|value| *value) && a.values().any(|value| !*value));
    let c = random_assignment(&variables, &mut first);
    assert_ne!(a, c);
}
