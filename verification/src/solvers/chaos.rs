//! Random restart: draw random interpretations until one satisfies the
//! formula or the tries run out.
use crate::notation::{clause_holds, formula_holds, literal_holds, Formula, Literal, LookupError};
use crate::solvers::search::{
    are_failed_tries, first_uncovered, is_failed_start, is_failed_try, is_model, local_search,
    variables_cover, Strategy, Verdict,
};
use rand::rngs::StdRng;
use vstd::prelude::*;

verus! {

/// Whether each of `starts` holds exactly `variables` and leaves one of
/// `clauses` false.
pub open spec fn are_failed_starts(
    clauses: Seq<Seq<Literal>>,
    variables: Seq<i32>,
    starts: Seq<Map<i32, bool>>,
) -> bool {
    forall|k: int|
        0 <= k < starts.len() ==> is_failed_start(clauses, variables, #[trigger] starts[k])
}

/// Draws up to `max_tries` random interpretations of the formula's
/// variables and returns the first that satisfies the formula.
///
/// An interpretation that is returned satisfies the formula. The search
/// gives up only after `max_tries` interpretations of the variables that
/// each leave a clause false. It fails with a lookup error where it has a
/// try to make and a clause holds a variable that is not among the
/// formula's variables.
pub fn chaos_algorithm(formula: &mut Formula, max_tries: u32, rng: &mut StdRng) -> (result: Result<
    Verdict,
    LookupError,
>)
    ensures
        final(formula).same_structure(old(formula)),
        result is Err <==> max_tries > 0 && !variables_cover(
            old(formula).clause_seqs(),
            old(formula).vars@,
        ),
        result matches Err(error) ==> *final(formula) == *old(formula) && first_uncovered(
            old(formula).clause_seqs(),
            old(formula).vars@,
            error.variable,
        ),
        result matches Ok(Verdict::Sat(witness)) ==> is_model(
            old(formula).clause_seqs(),
            old(formula).vars@,
            witness@,
        ) && final(formula).records(witness@),
        result matches Ok(Verdict::Unsat) ==> exists|starts: Seq<Map<i32, bool>>| #[trigger]
            are_failed_starts(old(formula).clause_seqs(), old(formula).vars@, starts)
                && starts.len() == max_tries,
{
    let result = local_search(formula, max_tries, 0, Strategy::RandomWalk, rng);
    proof {
        if result matches Ok(Verdict::Unsat) {
            let clauses = old(formula).clause_seqs();
            let variables = old(formula).vars@;
            let failed = choose|failed: Seq<Seq<Map<i32, bool>>>| #[trigger]
                are_failed_tries(Strategy::RandomWalk, clauses, variables, 0, failed)
                    && failed.len() == max_tries;
            let starts = Seq::new(failed.len(), |k: int| failed[k][0]);
            assert forall|k: int| 0 <= k < starts.len() implies is_failed_start(
                clauses,
                variables,
                #[trigger] starts[k],
            ) by {
                assert(is_failed_try(Strategy::RandomWalk, clauses, variables, 0, failed[k]));
            }
            assert(are_failed_starts(clauses, variables, starts));
        }
    }
    result
}

/// The two clauses `p` and `not p`.
pub open spec fn contradiction(p: i32) -> Seq<Seq<Literal>> {
    seq![seq![Literal { value: p, negated: false }], seq![Literal { value: p, negated: true }]]
}

/// No interpretation satisfies a variable together with its negation, so
/// no search returns one for them; and with the variable declared, no
/// search fails on them with a lookup error.
pub proof fn lemma_contradiction_has_no_model(p: i32, interpretation: Map<i32, bool>)
    ensures
        !formula_holds(contradiction(p), interpretation),
        !is_model(contradiction(p), seq![p], interpretation),
        variables_cover(contradiction(p), seq![p]),
{
    let clauses = contradiction(p);
    if formula_holds(clauses, interpretation) {
        assert(clause_holds(clauses[0], interpretation));
        assert(clause_holds(clauses[1], interpretation));
        let i = choose|i: int|
            0 <= i < clauses[0].len() && literal_holds(#[trigger] clauses[0][i], interpretation);
        let j = choose|j: int|
            0 <= j < clauses[1].len() && literal_holds(#[trigger] clauses[1][j], interpretation);
        assert(false);
    }
    assert forall|c: int, l: int|
        0 <= c < clauses.len() && 0 <= l < clauses[c].len() implies seq![p].contains(
        (#[trigger] clauses[c][l]).value,
    ) by {
        assert(seq![p][0] == p);
    }
}

} // verus!
