use std::collections::HashMap;

use sat_rs::cnfparser;

// The contents of bin/problem.cnf.
const PROBLEM: &str = "p cnf 3 2\n1 -3 0\n2 3 -1 0\n";

#[test]
fn evaluate_test_test_parse_cnf() {
    let buffer = PROBLEM;

    // Parse the CNF file
    let formula = cnfparser::parse_cnf(&buffer);

    // Check using a known solution: with every variable false, the negated
    // literal of each clause holds.
    let mut interpretation: HashMap<i32, bool> = HashMap::new();
    interpretation.insert(1, false);
    interpretation.insert(2, false);
    interpretation.insert(3, false);

    assert_eq!(formula.unwrap().evaluate(&interpretation), Ok(true));
}
