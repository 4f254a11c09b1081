//! The loop that the random strategies share: tries, each from a fresh
//! random interpretation, and flips within a try.
//!
//! What a search may return is stated over the course of a try: the
//! interpretations that it goes through, the first one drawn at random and
//! each following one a step of the strategy away from the one before.
use crate::notation::{
    all_literals, clause_covered, clause_holds, formula_covered, formula_first_missing,
    formula_holds, lemma_all_literals_holds_each, lemma_distinct,
    lemma_formula_first_missing_by_domain, literal_holds, truth_values, variables_of, Formula,
    Literal, LookupError,
};
use crate::solvers::gsat::{
    greedy_variable, is_best_at, is_candidate, is_greedy_choice, is_greedy_pick, variable_at,
    WalkProbability,
};
use crate::solvers::utils::{flip, flipped, random_assignment, random_ratio, total_over};
use crate::solvers::wsat::{is_unsatisfied, is_walk_choice, is_walk_pick, walk_variable};
use rand::rngs::StdRng;
use std::collections::HashMap;
use vstd::prelude::*;

verus! {

/// What a search found.
#[derive(Debug, Clone)]
pub enum Verdict {
    /// The interpretation held here satisfies the formula.
    Sat(HashMap<i32, bool>),
    /// The search ran out of tries. This proves nothing of the formula.
    Unsat,
}

impl Verdict {
    /// Whether a satisfying interpretation was found.
    pub fn is_sat(&self) -> (found: bool)
        ensures
            found == (self is Sat),
    {
        match self {
            Verdict::Sat(_) => true,
            Verdict::Unsat => false,
        }
    }

    /// The satisfying interpretation, if one was found.
    pub fn witness(self) -> (witness: Option<HashMap<i32, bool>>)
        ensures
            witness == match self {
                Verdict::Sat(interpretation) => Some(interpretation),
                Verdict::Unsat => None,
            },
    {
        match self {
            Verdict::Sat(interpretation) => Some(interpretation),
            Verdict::Unsat => None,
        }
    }
}

/// How a flip step picks its variable.
#[derive(Debug, Clone, Copy)]
pub enum Strategy {
    /// Always the greedy choice.
    Greedy,
    /// The greedy choice with the given chance, else a random walk.
    GreedyWalk(WalkProbability),
    /// Always a random walk.
    RandomWalk,
}

/// Whether every variable of every clause is among `variables`.
pub open spec fn variables_cover(clauses: Seq<Seq<Literal>>, variables: Seq<i32>) -> bool {
    forall|c: int, l: int|
        0 <= c < clauses.len() && 0 <= l < clauses[c].len() ==> variables.contains(
            (#[trigger] clauses[c][l]).value,
        )
}

/// Whether `interpretation` holds exactly `variables` and satisfies
/// `clauses`.
pub open spec fn is_model(
    clauses: Seq<Seq<Literal>>,
    variables: Seq<i32>,
    interpretation: Map<i32, bool>,
) -> bool {
    total_over(interpretation, variables) && formula_holds(clauses, interpretation)
}

/// Whether `interpretation` holds exactly `variables` and leaves one of
/// `clauses` false.
pub open spec fn is_failed_start(
    clauses: Seq<Seq<Literal>>,
    variables: Seq<i32>,
    interpretation: Map<i32, bool>,
) -> bool {
    total_over(interpretation, variables) && !formula_holds(clauses, interpretation)
}

/// The interpretation that holds exactly `variables`, each of them false.
pub open spec fn all_false(variables: Seq<i32>) -> Map<i32, bool> {
    Map::new(|variable: i32| variables.contains(variable), |variable: i32| false)
}

/// Whether `variable` is the first one, in the order of clauses and of
/// literals in them, that is not among `variables`.
pub open spec fn first_uncovered(
    clauses: Seq<Seq<Literal>>,
    variables: Seq<i32>,
    variable: i32,
) -> bool {
    formula_first_missing(clauses, all_false(variables), variable)
}

/// Whether `choice` is what a flip step of `strategy` can pick, where
/// `flags` holds for each clause whether it counts as satisfied. A mixed
/// strategy can pick greedily unless its chance for that is zero, and by a
/// random walk unless that chance is one.
pub open spec fn is_pick(
    strategy: Strategy,
    clauses: Seq<Seq<Literal>>,
    flags: Seq<bool>,
    interpretation: Map<i32, bool>,
    choice: Option<i32>,
) -> bool {
    match strategy {
        Strategy::Greedy => is_greedy_pick(clauses, flags, interpretation, choice),
        Strategy::RandomWalk => is_walk_pick(clauses, flags, choice),
        Strategy::GreedyWalk(probability) => {
            ||| 0 < probability.ratio().0 && is_greedy_pick(clauses, flags, interpretation, choice)
            ||| probability.ratio().0 < probability.ratio().1 && is_walk_pick(
                clauses,
                flags,
                choice,
            )
        },
    }
}

/// `interpretation` with the variable of `choice` flipped, if there is
/// one.
pub open spec fn after_pick(interpretation: Map<i32, bool>, choice: Option<i32>) -> Map<i32, bool> {
    match choice {
        Some(variable) => flipped(interpretation, variable),
        None => interpretation,
    }
}

/// Whether a flip step of `strategy` can lead from `before` to `after`: the
/// candidates are the variables of the clauses that are false under
/// `before`.
pub open spec fn is_step(
    strategy: Strategy,
    clauses: Seq<Seq<Literal>>,
    before: Map<i32, bool>,
    after: Map<i32, bool>,
) -> bool {
    exists|choice: Option<i32>| #[trigger]
        is_pick(strategy, clauses, truth_values(clauses, before), before, choice) && after
            == after_pick(before, choice)
}

/// Whether `course` is the course of a try: it starts with an
/// interpretation of exactly `variables`, and each interpretation but the
/// last leaves a clause false and is followed by one that a flip step
/// leads to.
pub open spec fn is_try(
    strategy: Strategy,
    clauses: Seq<Seq<Literal>>,
    variables: Seq<i32>,
    course: Seq<Map<i32, bool>>,
) -> bool {
    &&& course.len() >= 1
    &&& total_over(course[0], variables)
    &&& forall|i: int|
        0 <= i < course.len() - 1 ==> !formula_holds(clauses, #[trigger] course[i]) && is_step(
            strategy,
            clauses,
            course[i],
            course[i + 1],
        )
}

/// Whether `course` is the course of a try that ends, after at most
/// `max_flips` flips, in an interpretation that satisfies `clauses`.
pub open spec fn is_successful_try(
    strategy: Strategy,
    clauses: Seq<Seq<Literal>>,
    variables: Seq<i32>,
    max_flips: u32,
    course: Seq<Map<i32, bool>>,
) -> bool {
    &&& is_try(strategy, clauses, variables, course)
    &&& course.len() <= max_flips + 1
    &&& formula_holds(clauses, course.last())
}

/// Whether `course` is the course of a try that makes all of `max_flips`
/// flips and still leaves a clause false.
pub open spec fn is_failed_try(
    strategy: Strategy,
    clauses: Seq<Seq<Literal>>,
    variables: Seq<i32>,
    max_flips: u32,
    course: Seq<Map<i32, bool>>,
) -> bool {
    &&& is_try(strategy, clauses, variables, course)
    &&& course.len() == max_flips + 1
    &&& !formula_holds(clauses, course.last())
}

/// Whether each of `courses` is the course of a failed try.
pub open spec fn are_failed_tries(
    strategy: Strategy,
    clauses: Seq<Seq<Literal>>,
    variables: Seq<i32>,
    max_flips: u32,
    courses: Seq<Seq<Map<i32, bool>>>,
) -> bool {
    forall|k: int|
        0 <= k < courses.len() ==> is_failed_try(
            strategy,
            clauses,
            variables,
            max_flips,
            #[trigger] courses[k],
        )
}

/// Whether a search can find `witness`: after fewer than `max_tries` failed
/// tries, a successful try ends in it.
pub open spec fn is_found_by(
    strategy: Strategy,
    clauses: Seq<Seq<Literal>>,
    variables: Seq<i32>,
    max_tries: u32,
    max_flips: u32,
    witness: Map<i32, bool>,
) -> bool {
    exists|failed: Seq<Seq<Map<i32, bool>>>, course: Seq<Map<i32, bool>>|
        #![trigger
            are_failed_tries(strategy, clauses, variables, max_flips, failed),
            is_successful_try(strategy, clauses, variables, max_flips, course)
        ]
        {
            &&& are_failed_tries(strategy, clauses, variables, max_flips, failed)
            &&& failed.len() < max_tries
            &&& is_successful_try(strategy, clauses, variables, max_flips, course)
            &&& course.last() == witness
        }
}

/// Whether a search can give up: all of its `max_tries` tries fail.
pub open spec fn can_give_up(
    strategy: Strategy,
    clauses: Seq<Seq<Literal>>,
    variables: Seq<i32>,
    max_tries: u32,
    max_flips: u32,
) -> bool {
    exists|failed: Seq<Seq<Map<i32, bool>>>| #[trigger]
        are_failed_tries(strategy, clauses, variables, max_flips, failed) && failed.len()
            == max_tries
}

/// An interpretation that holds exactly `variables` holds every variable of
/// `clauses` just where `variables` cover them.
pub proof fn lemma_total_covers(
    clauses: Seq<Seq<Literal>>,
    variables: Seq<i32>,
    interpretation: Map<i32, bool>,
)
    requires
        total_over(interpretation, variables),
    ensures
        formula_covered(clauses, interpretation) <==> variables_cover(clauses, variables),
{
    if variables_cover(clauses, variables) {
        assert forall|c: int| 0 <= c < clauses.len() implies clause_covered(
            #[trigger] clauses[c],
            interpretation,
        ) by {
            assert forall|l: int| 0 <= l < clauses[c].len() implies interpretation.contains_key(
                (#[trigger] clauses[c][l]).value,
            ) by {
                assert(variables.contains(clauses[c][l].value));
            }
        }
    }
    if formula_covered(clauses, interpretation) {
        assert forall|c: int, l: int|
            0 <= c < clauses.len() && 0 <= l < clauses[c].len() implies variables.contains(
            (#[trigger] clauses[c][l]).value,
        ) by {
            assert(clause_covered(clauses[c], interpretation));
            assert(interpretation.contains_key(clauses[c][l].value));
        }
    }
}

/// A variable that a flip step picks is that of a literal of a clause that
/// counts as unsatisfied.
proof fn lemma_pick_is_candidate(
    strategy: Strategy,
    clauses: Seq<Seq<Literal>>,
    flags: Seq<bool>,
    interpretation: Map<i32, bool>,
    variable: i32,
)
    requires
        is_pick(strategy, clauses, flags, interpretation, Some(variable)),
    ensures
        is_walk_choice(clauses, flags, variable),
{
    if is_greedy_choice(clauses, flags, interpretation, variable) {
        let (c, l) = choose|c: int, l: int| #[trigger]
            is_best_at(clauses, flags, interpretation, c, l) && variable_at(clauses, c, l)
                == variable;
        assert(is_candidate(clauses, flags, c, l));
    }
}

/// The variable that the next flip step flips, picked as `strategy` says
/// among the variables of the clauses recorded as unsatisfied. Only the
/// greedy choice reads `interpretation`, and fails where it lacks a
/// variable of the formula.
pub fn choose_variable(
    formula: &Formula,
    interpretation: &HashMap<i32, bool>,
    strategy: Strategy,
    rng: &mut StdRng,
) -> (result: Result<Option<i32>, LookupError>)
    ensures
        formula_covered(formula.clause_seqs(), interpretation@) || strategy is RandomWalk
            ==> result is Ok,
        result matches Ok(choice) ==> is_pick(
            strategy,
            formula.clause_seqs(),
            formula.satisfied_flags(),
            interpretation@,
            choice,
        ),
        result matches Err(error) ==> formula_first_missing(
            formula.clause_seqs(),
            interpretation@,
            error.variable,
        ),
{
    let greedy = match strategy {
        Strategy::Greedy => true,
        Strategy::GreedyWalk(probability) => random_ratio(
            rng,
            probability.numerator(),
            probability.denominator(),
        ),
        Strategy::RandomWalk => false,
    };
    if greedy {
        greedy_variable(formula, interpretation)
    } else {
        Ok(walk_variable(formula, rng))
    }
}

/// Searches for an interpretation that satisfies `formula`: up to
/// `max_tries` tries, each from a fresh random interpretation of the
/// formula's variables, and in each try up to `max_flips` flips of a
/// variable picked as `strategy` says, with the formula evaluated after
/// every flip.
///
/// An interpretation that is returned satisfies the formula and ends a
/// successful try. The search gives up only where it has no tries or one
/// of its tries has failed. It fails with a lookup error where it has a try
/// to make and a clause holds a variable that is not among the formula's
/// variables.
pub fn local_search(
    formula: &mut Formula,
    max_tries: u32,
    max_flips: u32,
    strategy: Strategy,
    rng: &mut StdRng,
) -> (result: Result<Verdict, LookupError>)
    ensures
        final(formula).same_structure(old(formula)),
        result is Err <==> max_tries > 0 && !variables_cover(
            old(formula).clause_seqs(),
            old(formula).vars@,
        ),
        result matches Err(error) ==> *final(formula) == *old(formula) && first_uncovered(
            old(formula).clause_seqs(),
            old(formula).vars@,
            error.variable,
        ),
        result matches Ok(Verdict::Sat(witness)) ==> {
            &&& is_model(old(formula).clause_seqs(), old(formula).vars@, witness@)
            &&& is_found_by(
                strategy,
                old(formula).clause_seqs(),
                old(formula).vars@,
                max_tries,
                max_flips,
                witness@,
            )
            &&& final(formula).records(witness@)
        },
        result matches Ok(Verdict::Unsat) ==> can_give_up(
            strategy,
            old(formula).clause_seqs(),
            old(formula).vars@,
            max_tries,
            max_flips,
        ),
{
    let ghost clauses = formula.clause_seqs();
    let ghost variables = formula.vars@;
    let ghost mut failed: Seq<Seq<Map<i32, bool>>> = Seq::empty();
    let mut tries: u32 = 0;
    while tries < max_tries
        invariant
            tries <= max_tries,
            formula.same_structure(old(formula)),
            clauses == old(formula).clause_seqs(),
            variables == old(formula).vars@,
            tries == 0 ==> *formula == *old(formula),
            tries > 0 ==> variables_cover(clauses, variables),
            failed.len() == tries,
            are_failed_tries(strategy, clauses, variables, max_flips, failed),
        decreases max_tries - tries,
    {
        let mut interpretation = random_assignment(&formula.vars, rng);
        let ghost mut course = seq![interpretation@];
        proof {
            lemma_total_covers(clauses, variables, interpretation@);
        }
        match formula.evaluate(&interpretation) {
            Err(error) => {
                proof {
                    assert(all_false(variables).dom() =~= interpretation@.dom());
                    lemma_formula_first_missing_by_domain(
                        clauses,
                        interpretation@,
                        all_false(variables),
                        error.variable,
                    );
                }
                return Err(error);
            },
            Ok(true) => {
                proof {
                    assert(is_successful_try(strategy, clauses, variables, max_flips, course));
                }
                return Ok(Verdict::Sat(interpretation));
            },
            Ok(false) => {},
        }
        let mut flips: u32 = 0;
        while flips < max_flips
            invariant
                flips <= max_flips,
                formula.same_structure(old(formula)),
                clauses == old(formula).clause_seqs(),
                clauses == formula.clause_seqs(),
                variables == old(formula).vars@,
                variables_cover(clauses, variables),
                is_try(strategy, clauses, variables, course),
                failed.len() == tries,
                tries < max_tries,
                are_failed_tries(strategy, clauses, variables, max_flips, failed),
                course.len() == flips + 1,
                course.last() == interpretation@,
                total_over(interpretation@, variables),
                !formula_holds(clauses, interpretation@),
                formula.records(interpretation@),
            decreases max_flips - flips,
        {
            let ghost before = interpretation@;
            let ghost flags = formula.satisfied_flags();
            proof {
                lemma_total_covers(clauses, variables, before);
            }
            let choice = match choose_variable(formula, &interpretation, strategy, rng) {
                Ok(choice) => choice,
                Err(error) => {
                    return Err(error);
                },
            };
            match choice {
                Some(variable) => {
                    proof {
                        lemma_pick_is_candidate(strategy, clauses, flags, before, variable);
                        let (c, l) = choose|c: int, l: int| #[trigger]
                            is_candidate(clauses, flags, c, l) && variable_at(clauses, c, l)
                                == variable;
                        assert(clauses[c][l].value == variable);
                        assert(variables.contains(variable));
                    }
                    let flipping = flip(&mut interpretation, variable);
                    proof {
                        assert forall|other: i32|
                            #![trigger interpretation@.contains_key(other)]
                            #![trigger variables.contains(other)]
                            interpretation@.contains_key(other) <==> variables.contains(other) by {
                            assert(before.contains_key(other) <==> variables.contains(other));
                        }
                    }
                },
                None => {},
            }
            proof {
                assert(interpretation@ == after_pick(before, choice));
                assert(is_step(strategy, clauses, before, interpretation@));
                let longer = course.push(interpretation@);
                assert forall|i: int| 0 <= i < longer.len() - 1 implies !formula_holds(
                    clauses,
                    #[trigger] longer[i],
                ) && is_step(strategy, clauses, longer[i], longer[i + 1]) by {
                    if i < course.len() - 1 {
                        assert(longer[i] == course[i]);
                        assert(longer[i + 1] == course[i + 1]);
                    }
                }
                assert(longer[0] == course[0]);
                course = longer;
                lemma_total_covers(clauses, variables, interpretation@);
            }
            match formula.evaluate(&interpretation) {
                Err(error) => {
                    return Err(error);
                },
                Ok(true) => {
                    proof {
                        assert(is_successful_try(strategy, clauses, variables, max_flips, course));
                    }
                    return Ok(Verdict::Sat(interpretation));
                },
                Ok(false) => {},
            }
            flips += 1;
        }
        proof {
            let longer = failed.push(course);
            assert forall|k: int| 0 <= k < longer.len() implies is_failed_try(
                strategy,
                clauses,
                variables,
                max_flips,
                #[trigger] longer[k],
            ) by {
                if k < failed.len() {
                    assert(longer[k] == failed[k]);
                }
            }
            failed = longer;
        }
        tries += 1;
    }
    Ok(Verdict::Unsat)
}

/// The variables of a well-formed formula cover its clauses, so no search
/// on it fails with a lookup error.
pub proof fn lemma_well_formed_covers(formula: &Formula)
    requires
        formula.well_formed(),
    ensures
        variables_cover(formula.clause_seqs(), formula.vars@),
{
    let clauses = formula.clause_seqs();
    let literals = all_literals(clauses);
    assert forall|c: int, l: int|
        0 <= c < clauses.len() && 0 <= l < clauses[c].len() implies formula.vars@.contains(
        (#[trigger] clauses[c][l]).value,
    ) by {
        lemma_all_literals_holds_each(clauses, c, l);
        let k = choose|k: int| 0 <= k < literals.len() && literals[k] == clauses[c][l];
        assert(variables_of(literals)[k] == clauses[c][l].value);
        lemma_distinct(variables_of(literals));
        assert(variables_of(literals).contains(clauses[c][l].value));
    }
}

/// The single clause `p or q`.
pub open spec fn either(p: i32, q: i32) -> Seq<Seq<Literal>> {
    seq![seq![Literal { value: p, negated: false }, Literal { value: q, negated: false }]]
}

/// A search on the single clause `p or q` that has a try and a flip to
/// make cannot give up, whatever its strategy: an interpretation that
/// leaves the clause false makes both variables false, and the step from
/// it flips one of them, which satisfies the clause. With both variables
/// declared, it does not fail with a lookup error either.
pub proof fn lemma_either_is_found(
    strategy: Strategy,
    p: i32,
    q: i32,
    max_tries: u32,
    max_flips: u32,
)
    requires
        max_tries > 0,
        max_flips > 0,
    ensures
        !can_give_up(strategy, either(p, q), seq![p, q], max_tries, max_flips),
        variables_cover(either(p, q), seq![p, q]),
{
    let clauses = either(p, q);
    let variables = seq![p, q];
    assert(variables[0] == p && variables[1] == q);
    assert forall|c: int, l: int|
        0 <= c < clauses.len() && 0 <= l < clauses[c].len() implies variables.contains(
        (#[trigger] clauses[c][l]).value,
    ) by {
        assert(clauses[c][l].value == variables[l]);
    }
    assert forall|course: Seq<Map<i32, bool>>| !#[trigger] is_failed_try(
        strategy,
        clauses,
        variables,
        max_flips,
        course,
    ) by {
        if is_failed_try(strategy, clauses, variables, max_flips, course) {
            let start = course[0];
            let next = course[1];
            let flags = truth_values(clauses, start);
            assert(!formula_holds(clauses, start));
            assert(is_step(strategy, clauses, start, next));
            assert(!clause_holds(clauses[0], start));
            assert(!flags[0]);
            assert(is_candidate(clauses, flags, 0, 0));
            let choice = choose|choice: Option<i32>| #[trigger]
                is_pick(strategy, clauses, flags, start, choice) && next == after_pick(
                    start,
                    choice,
                );
            match choice {
                Some(variable) => {
                    lemma_pick_is_candidate(strategy, clauses, flags, start, variable);
                    let (c, l) = choose|c: int, l: int| #[trigger]
                        is_candidate(clauses, flags, c, l) && variable_at(clauses, c, l)
                            == variable;
                    assert(!literal_holds(clauses[0][l], start));
                    assert(literal_holds(clauses[0][l], next));
                    assert(clause_holds(clauses[0], next));
                    assert(formula_holds(clauses, next));
                },
                None => {
                    assert(is_unsatisfied(flags, 0));
                    if is_walk_pick(clauses, flags, choice) {
                        if exists|c: int|
                            0 <= c < clauses.len() && #[trigger] is_unsatisfied(flags, c)
                                && clauses[c].len() == 0 {
                            let c = choose|c: int|
                                0 <= c < clauses.len() && #[trigger] is_unsatisfied(flags, c)
                                    && clauses[c].len() == 0;
                            assert(false);
                        }
                    }
                },
            }
            if course.len() == 2 {
                assert(course.last() == next);
            } else {
                assert(!formula_holds(clauses, course[1]));
            }
        }
    }
    assert forall|failed: Seq<Seq<Map<i32, bool>>>| #[trigger]
        are_failed_tries(strategy, clauses, variables, max_flips, failed) implies failed.len()
        == 0 by {
        if failed.len() > 0 {
            assert(is_failed_try(strategy, clauses, variables, max_flips, failed[0]));
        }
    }
}

} // verus!
