use sat_rs::cnfparser;
use sat_rs::notation::{Clause, Formula, Literal, LookupError};
use sat_rs::solvers::interactive::{
    interactive_algorithm, parse_answer, InputError, InteractiveError,
};

fn answers(texts: &[&str]) -> Vec<String> {
    texts.iter().map(|text| text.to_string()).collect()
}

#[test]
fn parse_answer_reads_true_and_false() {
    assert_eq!(parse_answer("true"), Some(true));
    assert_eq!(parse_answer("false"), Some(false));
    assert_eq!(parse_answer("true\n"), Some(true));
    assert_eq!(parse_answer("  false \r\n"), Some(false));
}

#[test]
fn parse_answer_rejects_everything_else() {
    for text in ["", " ", "True", "TRUE", "1", "0", "yes", "t", "truee", "tru", "true false",
        "true true", "fal se", "falsey", "-true"]
    {
        assert_eq!(parse_answer(text), None, "{:?}", text);
    }
}

#[test]
fn parse_answer_as_trim_and_parse() {
    for text in ["true", " true", "false\t", "\u{a0}true\u{3000}", "tr ue", "", "\n", "false\n"] {
        assert_eq!(parse_answer(text), text.trim().parse::<bool>().ok(), "{:?}", text);
    }
}

#[test]
fn interactive_evaluates_once_under_the_answers() {
    let text = "p cnf 3 2\n1 -3 0\n2 3 -1 0\n";
    let mut formula = cnfparser::parse_cnf(text).unwrap();
    assert_eq!(formula.vars, vec![1, 3, 2]);
    // 1 false, 3 false, 2 false
    assert_eq!(
        interactive_algorithm(&mut formula, &answers(&["false\n", "false\n", "false\n"])),
        Ok(true)
    );
    // 1 true, 3 true, 2 false: the first clause holds, the second too
    assert_eq!(
        interactive_algorithm(&mut formula, &answers(&["true", "true", "false"])),
        Ok(true)
    );
    // 1 false, 3 true, 2 true: the first clause fails
    assert_eq!(
        interactive_algorithm(&mut formula, &answers(&["false", "true", "true"])),
        Ok(false)
    );
    assert!(!formula.clauses[0].is_satisfied);
    assert!(formula.clauses[1].is_satisfied);
    // 1 true, 3 false, 2 false: the second clause fails
    assert_eq!(
        interactive_algorithm(&mut formula, &answers(&["true", "false", "false", "ignored"])),
        Ok(false)
    );
    assert!(formula.clauses[0].is_satisfied);
    assert!(!formula.clauses[1].is_satisfied);
}

#[test]
fn interactive_input_errors() {
    let text = "p cnf 3 2\n1 -3 0\n2 3 -1 0\n";
    let mut formula = cnfparser::parse_cnf(text).unwrap();
    assert_eq!(
        interactive_algorithm(&mut formula, &answers(&["true", "maybe", "nope"])),
        Err(InteractiveError::Input(InputError { variable: 3 }))
    );
    assert_eq!(
        interactive_algorithm(&mut formula, &answers(&["true", "false"])),
        Err(InteractiveError::Input(InputError { variable: 2 }))
    );
    assert_eq!(
        interactive_algorithm(&mut formula, &answers(&[])),
        Err(InteractiveError::Input(InputError { variable: 1 }))
    );
    assert!(formula.clauses.iter().all(|clause| !clause.is_satisfied));
}

#[test]
fn interactive_lookup_error() {
    let mut clause = Clause::new();
    clause.literals.push(Literal { value: 1, negated: false });
    clause.literals.push(Literal { value: 2, negated: false });
    let mut formula = Formula {
        clauses: vec![clause],
        literals: vec![],
        vars: vec![1],
        num_clauses: 1,
        num_vars: 1,
    };
    assert_eq!(
        interactive_algorithm(&mut formula, &answers(&["true"])),
        Err(InteractiveError::Lookup(LookupError { variable: 2 }))
    );
    // an input error comes first
    assert_eq!(
        interactive_algorithm(&mut formula, &answers(&["x"])),
        Err(InteractiveError::Input(InputError { variable: 1 }))
    );
}

#[test]
fn interactive_formula_without_variables() {
    let mut formula = cnfparser::parse_cnf("p cnf 0 0\n").unwrap();
    assert_eq!(interactive_algorithm(&mut formula, &answers(&[])), Ok(true));
    let mut formula = cnfparser::parse_cnf("p cnf 0 1\n0\n").unwrap();
    assert_eq!(interactive_algorithm(&mut formula, &answers(&[])), Ok(false));
}
