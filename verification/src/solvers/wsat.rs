//! Random-walk local search: from a random interpretation, flip again and
//! again a variable drawn from a clause that is not satisfied.
use crate::notation::{Clause, Formula, Literal, LookupError};
use crate::solvers::gsat::{is_candidate, variable_at};
use crate::solvers::search::{
    can_give_up, first_uncovered, is_found_by, is_model, local_search, variables_cover, Strategy,
    Verdict,
};
use crate::solvers::utils::random_below;
use rand::rngs::StdRng;
use vstd::prelude::*;

verus! {

/// Whether clause `c` counts as unsatisfied, where `flags` holds for each
/// clause whether it counts as satisfied.
pub open spec fn is_unsatisfied(flags: Seq<bool>, c: int) -> bool {
    0 <= c < flags.len() && !flags[c]
}

/// Whether `variable` is that of a candidate for a flip.
pub open spec fn is_walk_choice(
    clauses: Seq<Seq<Literal>>,
    flags: Seq<bool>,
    variable: i32,
) -> bool {
    exists|c: int, l: int| #[trigger]
        is_candidate(clauses, flags, c, l) && variable_at(clauses, c, l) == variable
}

/// Whether `choice` is what a random walk can pick: the variable of a
/// candidate; or nothing, where no clause counts as unsatisfied or one that
/// does holds no literal.
pub open spec fn is_walk_pick(
    clauses: Seq<Seq<Literal>>,
    flags: Seq<bool>,
    choice: Option<i32>,
) -> bool {
    match choice {
        Some(variable) => is_walk_choice(clauses, flags, variable),
        None => (forall|c: int| 0 <= c < clauses.len() ==> !is_unsatisfied(flags, c)) || exists|
            c: int,
        |
            0 <= c < clauses.len() && #[trigger] is_unsatisfied(flags, c) && clauses[c].len() == 0,
    }
}

/// The indices of the clauses recorded as unsatisfied, in rising order.
pub fn unsatisfied_clauses(formula: &Formula) -> (indices: Vec<usize>)
    ensures
        forall|k: int|
            0 <= k < indices@.len() ==> is_unsatisfied(
                formula.satisfied_flags(),
                #[trigger] indices@[k] as int,
            ),
        forall|c: int| #[trigger]
            is_unsatisfied(formula.satisfied_flags(), c) ==> exists|k: int|
                0 <= k < indices@.len() && #[trigger] indices@[k] == c,
        forall|j: int, k: int| 0 <= j < k < indices@.len() ==> indices@[j] < indices@[k],
{
    let ghost flags = formula.satisfied_flags();
    let mut indices: Vec<usize> = Vec::new();
    let mut i: usize = 0;
    while i < formula.clauses.len()
        invariant
            i <= formula.clauses.len(),
            flags == formula.satisfied_flags(),
            forall|k: int|
                0 <= k < indices@.len() ==> is_unsatisfied(flags, #[trigger] indices@[k] as int)
                    && indices@[k] < i,
            forall|c: int| #[trigger]
                is_unsatisfied(flags, c) && c < i ==> exists|k: int|
                    0 <= k < indices@.len() && #[trigger] indices@[k] == c,
            forall|j: int, k: int| 0 <= j < k < indices@.len() ==> indices@[j] < indices@[k],
        decreases formula.clauses.len() - i,
    {
        if !formula.clauses[i].is_satisfied {
            let ghost before = indices@;
            indices.push(i);
            proof {
                assert(is_unsatisfied(flags, i as int));
                assert forall|c: int| #[trigger]
                    is_unsatisfied(flags, c) && c < i + 1 implies exists|k: int|
                    0 <= k < indices@.len() && #[trigger] indices@[k] == c by {
                    if c < i {
                        let k = choose|k: int| 0 <= k < before.len() && #[trigger] before[k] == c;
                        assert(indices@[k] == c);
                    } else {
                        assert(indices@[before.len() as int] == c);
                    }
                }
            }
        } else {
            assert(!is_unsatisfied(flags, i as int));
        }
        i += 1;
    }
    indices
}

/// Draws one of the clauses recorded as unsatisfied; none where every
/// clause is recorded as satisfied.
pub fn pick_clause(formula: &Formula, rng: &mut StdRng) -> (choice: Option<usize>)
    ensures
        choice matches Some(c) ==> is_unsatisfied(formula.satisfied_flags(), c as int),
        choice is None <==> forall|c: int| !is_unsatisfied(formula.satisfied_flags(), c),
{
    let indices = unsatisfied_clauses(formula);
    if indices.len() == 0 {
        return None;
    }
    let k = random_below(rng, indices.len());
    proof {
        assert(is_unsatisfied(formula.satisfied_flags(), indices@[k as int] as int));
    }
    Some(indices[k])
}

/// Draws the variable of one of the clause's literals; none where the
/// clause holds no literal.
pub fn pick_variable(clause: &Clause, rng: &mut StdRng) -> (choice: Option<i32>)
    ensures
        choice is None <==> clause.literals@.len() == 0,
        choice matches Some(variable) ==> exists|l: int|
            0 <= l < clause.literals@.len() && (#[trigger] clause.literals@[l]).value == variable,
{
    if clause.literals.len() == 0 {
        return None;
    }
    let l = random_below(rng, clause.literals.len());
    Some(clause.literals[l].value)
}

/// The variable to flip next: one drawn from a clause drawn from those
/// recorded as unsatisfied. There is none where no clause is recorded as
/// unsatisfied, or where the clause drawn holds no literal.
pub fn walk_variable(formula: &Formula, rng: &mut StdRng) -> (choice: Option<i32>)
    ensures
        is_walk_pick(formula.clause_seqs(), formula.satisfied_flags(), choice),
{
    let ghost clauses = formula.clause_seqs();
    let ghost flags = formula.satisfied_flags();
    match pick_clause(formula, rng) {
        None => {
            assert(forall|c: int| 0 <= c < clauses.len() ==> !is_unsatisfied(flags, c));
            None
        },
        Some(c) => {
            let choice = pick_variable(&formula.clauses[c], rng);
            proof {
                assert(clauses[c as int] == formula.clauses@[c as int].literals@);
                match choice {
                    Some(variable) => {
                        let l = choose|l: int|
                            0 <= l < formula.clauses@[c as int].literals@.len() && (
                            #[trigger] formula.clauses@[c as int].literals@[l]).value == variable;
                        assert(is_candidate(clauses, flags, c as int, l));
                    },
                    None => {
                        assert(is_unsatisfied(flags, c as int) && clauses[c as int].len() == 0);
                    },
                }
            }
            choice
        },
    }
}

/// Random-walk local search: up to `max_tries` tries, each from a fresh
/// random interpretation of the formula's variables, and in each try up to
/// `max_flips` flips of a variable drawn from a clause drawn from those
/// that are not satisfied. The formula is evaluated after every flip.
///
/// An interpretation that is returned satisfies the formula. The search
/// gives up only where it has no tries or one of its tries can fail. It
/// fails with a lookup error where it has a try to make and a clause holds
/// a variable that is not among the formula's variables.
pub fn wsat_algorithm(
    formula: &mut Formula,
    max_tries: u32,
    max_flips: u32,
    rng: &mut StdRng,
) -> (result: Result<Verdict, LookupError>)
    ensures
        final(formula).same_structure(old(formula)),
        result is Err <==> max_tries > 0 && !variables_cover(
            old(formula).clause_seqs(),
            old(formula).vars@,
        ),
        result matches Err(error) ==> *final(formula) == *old(formula) && first_uncovered(
            old(formula).clause_seqs(),
            old(formula).vars@,
            error.variable,
        ),
        result matches Ok(Verdict::Sat(witness)) ==> {
            &&& is_model(old(formula).clause_seqs(), old(formula).vars@, witness@)
            &&& is_found_by(
                Strategy::RandomWalk,
                old(formula).clause_seqs(),
                old(formula).vars@,
                max_tries,
                max_flips,
                witness@,
            )
            &&& final(formula).records(witness@)
        },
        result matches Ok(Verdict::Unsat) ==> can_give_up(
            Strategy::RandomWalk,
            old(formula).clause_seqs(),
            old(formula).vars@,
            max_tries,
            max_flips,
        ),
{
    local_search(formula, max_tries, max_flips, Strategy::RandomWalk, rng)
}

} // verus!
