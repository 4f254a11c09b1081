//! Greedy local search: from a random interpretation, flip again and again
//! the variable whose flip satisfies the most clauses.
use crate::notation::{
    clause_covered, clause_holds, first_missing, formula_covered, formula_first_missing,
    lemma_covered_by_domain, lemma_first_missing_by_domain, Formula, Literal, LookupError,
};
use crate::solvers::search::{
    can_give_up, first_uncovered, is_found_by, is_model, local_search, variables_cover, Strategy,
    Verdict,
};
use crate::solvers::utils::{flip, flipped};
use rand::rngs::StdRng;
use std::collections::HashMap;
use vstd::prelude::*;

verus! {

/// The chance with which a flip step takes the greedy choice: `numerator` in
/// `denominator`, at most one.
#[derive(Debug, Clone, Copy)]
pub struct WalkProbability {
    numerator: u32,
    denominator: u32,
}

impl WalkProbability {
    #[verifier::type_invariant]
    spec fn well_formed(self) -> bool {
        0 < self.denominator && self.numerator <= self.denominator
    }

    /// The chance as the pair of numerator and denominator.
    pub closed spec fn ratio(self) -> (u32, u32) {
        (self.numerator, self.denominator)
    }

    /// The chance `numerator` in `denominator`; none where the denominator
    /// is zero or the numerator exceeds it.
    pub fn new(numerator: u32, denominator: u32) -> (probability: Option<WalkProbability>)
        ensures
            probability is Some <==> 0 < denominator && numerator <= denominator,
            probability matches Some(p) ==> p.ratio() == (numerator, denominator),
    {
        if denominator == 0 || numerator > denominator {
            None
        } else {
            Some(WalkProbability { numerator, denominator })
        }
    }

    /// The numerator.
    pub fn numerator(&self) -> (numerator: u32)
        ensures
            numerator == self.ratio().0,
            numerator <= self.ratio().1,
    {
        proof {
            use_type_invariant(self);
        }
        self.numerator
    }

    /// The denominator, which is positive.
    pub fn denominator(&self) -> (denominator: u32)
        ensures
            denominator == self.ratio().1,
            denominator > 0,
    {
        proof {
            use_type_invariant(self);
        }
        self.denominator
    }
}

/// How many of `clauses` hold under `interpretation`.
pub open spec fn satisfied_count(
    clauses: Seq<Seq<Literal>>,
    interpretation: Map<i32, bool>,
) -> nat
    decreases clauses.len(),
{
    if clauses.len() == 0 {
        0
    } else {
        satisfied_count(clauses.drop_last(), interpretation) + if clause_holds(
            clauses.last(),
            interpretation,
        ) {
            1nat
        } else {
            0nat
        }
    }
}

/// The score of `variable`: how many of `clauses` hold once the variable is
/// flipped in `interpretation`.
pub open spec fn score(
    clauses: Seq<Seq<Literal>>,
    interpretation: Map<i32, bool>,
    variable: i32,
) -> nat {
    satisfied_count(clauses, flipped(interpretation, variable))
}

/// Whether literal `l` of clause `c` is a candidate for a flip, where
/// `flags` holds for each clause whether it counts as satisfied: the clause
/// does not.
pub open spec fn is_candidate(
    clauses: Seq<Seq<Literal>>,
    flags: Seq<bool>,
    c: int,
    l: int,
) -> bool {
    &&& 0 <= c < clauses.len()
    &&& c < flags.len()
    &&& !flags[c]
    &&& 0 <= l < clauses[c].len()
}

/// The variable of literal `l` of clause `c`.
pub open spec fn variable_at(clauses: Seq<Seq<Literal>>, c: int, l: int) -> i32 {
    clauses[c][l].value
}

/// Whether there is a candidate for a flip.
pub open spec fn has_candidate(clauses: Seq<Seq<Literal>>, flags: Seq<bool>) -> bool {
    exists|c: int, l: int| is_candidate(clauses, flags, c, l)
}

/// Whether position `(c1, l1)` comes before `(c2, l2)` in the order of
/// clauses and of literals in them.
pub open spec fn comes_before(c1: int, l1: int, c2: int, l2: int) -> bool {
    c1 < c2 || (c1 == c2 && l1 < l2)
}

/// Whether the candidate at `(c, l)` is the greedy choice: no candidate
/// scores higher, and every candidate before it scores lower.
pub open spec fn is_best_at(
    clauses: Seq<Seq<Literal>>,
    flags: Seq<bool>,
    interpretation: Map<i32, bool>,
    c: int,
    l: int,
) -> bool {
    &&& is_candidate(clauses, flags, c, l)
    &&& forall|c2: int, l2: int| #[trigger]
        is_candidate(clauses, flags, c2, l2) ==> {
            let best = score(clauses, interpretation, variable_at(clauses, c, l));
            let other = score(clauses, interpretation, variable_at(clauses, c2, l2));
            other <= best && (comes_before(c2, l2, c, l) ==> other < best)
        }
}

/// Whether `variable` is the greedy choice among the candidates.
pub open spec fn is_greedy_choice(
    clauses: Seq<Seq<Literal>>,
    flags: Seq<bool>,
    interpretation: Map<i32, bool>,
    variable: i32,
) -> bool {
    exists|c: int, l: int| #[trigger]
        is_best_at(clauses, flags, interpretation, c, l) && variable_at(clauses, c, l) == variable
}

/// Whether `choice` is what a greedy step picks: the greedy choice, or
/// nothing where there is no candidate.
pub open spec fn is_greedy_pick(
    clauses: Seq<Seq<Literal>>,
    flags: Seq<bool>,
    interpretation: Map<i32, bool>,
    choice: Option<i32>,
) -> bool {
    match choice {
        Some(variable) => is_greedy_choice(clauses, flags, interpretation, variable),
        None => !has_candidate(clauses, flags),
    }
}

/// The score of `variable`, counted on a copy of `interpretation` in which
/// the variable is flipped. Fails where the interpretation lacks the
/// variable, or else a variable of the formula.
pub fn flip_score(formula: &Formula, interpretation: &HashMap<i32, bool>, variable: i32) -> (result:
    Result<usize, LookupError>)
    ensures
        result is Ok <==> interpretation@.contains_key(variable) && formula_covered(
            formula.clause_seqs(),
            interpretation@,
        ),
        result matches Ok(count) ==> count == score(
            formula.clause_seqs(),
            interpretation@,
            variable,
        ),
        result matches Err(error) ==> if interpretation@.contains_key(variable) {
            formula_first_missing(formula.clause_seqs(), interpretation@, error.variable)
        } else {
            error.variable == variable
        },
{
    let mut scratch = interpretation.clone();
    match flip(&mut scratch, variable) {
        Ok(_) => {},
        Err(error) => {
            return Err(error);
        },
    }
    assert(scratch@.dom() =~= interpretation@.dom());
    let mut count: usize = 0;
    let mut i: usize = 0;
    while i < formula.clauses.len()
        invariant
            i <= formula.clauses.len(),
            count <= i,
            interpretation@.contains_key(variable),
            scratch@.dom() == interpretation@.dom(),
            formula_covered(formula.clause_seqs().take(i as int), interpretation@),
            count == satisfied_count(formula.clause_seqs().take(i as int), scratch@),
        decreases formula.clauses.len() - i,
    {
        let ghost done = formula.clause_seqs().take(i as int);
        let ghost next = formula.clause_seqs().take(i + 1);
        proof {
            assert(formula.clause_seqs()[i as int] == formula.clauses@[i as int].literals@);
            assert(next.drop_last() == done);
            assert(next.last() == formula.clause_seqs()[i as int]);
        }
        match formula.clauses[i].value(&scratch) {
            Ok(holds) => {
                if holds {
                    count += 1;
                }
            },
            Err(error) => {
                proof {
                    let literals = formula.clause_seqs()[i as int];
                    lemma_first_missing_by_domain(
                        literals,
                        scratch@,
                        interpretation@,
                        error.variable,
                    );
                    assert(first_missing(
                        formula.clause_seqs()[i as int],
                        interpretation@,
                        error.variable,
                    ));
                }
                return Err(error);
            },
        }
        proof {
            let literals = formula.clause_seqs()[i as int];
            lemma_covered_by_domain(literals, scratch@, interpretation@);
            assert forall|j: int| 0 <= j < next.len() implies clause_covered(
                #[trigger] next[j],
                interpretation@,
            ) by {
                if j < i {
                    assert(done[j] == next[j]);
                }
            }
        }
        i += 1;
    }
    assert(formula.clause_seqs().take(i as int) == formula.clause_seqs());
    Ok(count)
}

/// Whether, of the candidates that come before `(c, l)`, the one at
/// `(bc, bl)` is the greedy choice.
spec fn is_best_before(
    clauses: Seq<Seq<Literal>>,
    flags: Seq<bool>,
    interpretation: Map<i32, bool>,
    bc: int,
    bl: int,
    c: int,
    l: int,
) -> bool {
    &&& is_candidate(clauses, flags, bc, bl)
    &&& comes_before(bc, bl, c, l)
    &&& forall|c2: int, l2: int| #[trigger]
        is_candidate(clauses, flags, c2, l2) && comes_before(c2, l2, c, l) ==> {
            let best = score(clauses, interpretation, variable_at(clauses, bc, bl));
            let other = score(clauses, interpretation, variable_at(clauses, c2, l2));
            other <= best && (comes_before(c2, l2, bc, bl) ==> other < best)
        }
}

/// The variable to flip next: of the variables of the clauses recorded as
/// unsatisfied, the one with the highest score, and of several with that
/// score the one met first in the order of clauses and of literals in them.
/// There is none where those clauses hold no literal. Fails where
/// `interpretation` lacks a variable of the formula.
pub fn greedy_variable(formula: &Formula, interpretation: &HashMap<i32, bool>) -> (result: Result<
    Option<i32>,
    LookupError,
>)
    ensures
        result is Ok <==> formula_covered(formula.clause_seqs(), interpretation@),
        result matches Ok(choice) ==> is_greedy_pick(
            formula.clause_seqs(),
            formula.satisfied_flags(),
            interpretation@,
            choice,
        ),
        result matches Err(error) ==> formula_first_missing(
            formula.clause_seqs(),
            interpretation@,
            error.variable,
        ),
{
    match formula.missing_variable(interpretation) {
        Some(variable) => {
            return Err(LookupError { variable });
        },
        None => {},
    }
    let ghost clauses = formula.clause_seqs();
    let ghost flags = formula.satisfied_flags();
    let mut best: Option<i32> = None;
    let mut best_score: usize = 0;
    let ghost mut bc: int = 0;
    let ghost mut bl: int = 0;
    let mut c: usize = 0;
    while c < formula.clauses.len()
        invariant
            c <= formula.clauses.len(),
            clauses == formula.clause_seqs(),
            flags == formula.satisfied_flags(),
            formula_covered(formula.clause_seqs(), interpretation@),
            best is None ==> forall|c2: int, l2: int| #[trigger]
                is_candidate(clauses, flags, c2, l2) ==> !comes_before(c2, l2, c as int, 0),
            best matches Some(variable) ==> is_best_before(
                clauses,
                flags,
                interpretation@,
                bc,
                bl,
                c as int,
                0,
            ) && variable == variable_at(clauses, bc, bl) && best_score == score(
                clauses,
                interpretation@,
                variable,
            ),
        decreases formula.clauses.len() - c,
    {
        let clause = &formula.clauses[c];
        if !clause.is_satisfied {
            let mut l: usize = 0;
            while l < clause.literals.len()
                invariant
                    c < formula.clauses.len(),
                    *clause == formula.clauses@[c as int],
                    !clause.is_satisfied,
                    l <= clause.literals.len(),
                    clauses == formula.clause_seqs(),
                    flags == formula.satisfied_flags(),
                    formula_covered(formula.clause_seqs(), interpretation@),
                    best is None ==> forall|c2: int, l2: int| #[trigger]
                        is_candidate(clauses, flags, c2, l2) ==> !comes_before(
                            c2,
                            l2,
                            c as int,
                            l as int,
                        ),
                    best matches Some(variable) ==> is_best_before(
                        clauses,
                        flags,
                        interpretation@,
                        bc,
                        bl,
                        c as int,
                        l as int,
                    ) && variable == variable_at(clauses, bc, bl) && best_score == score(
                        clauses,
                        interpretation@,
                        variable,
                    ),
                decreases clause.literals.len() - l,
            {
                let variable = clause.literals[l].value;
                proof {
                    assert(formula.clause_seqs()[c as int] == clause.literals@);
                    assert(is_candidate(clauses, flags, c as int, l as int));
                }
                let count = match flip_score(formula, interpretation, variable) {
                    Ok(count) => count,
                    Err(error) => {
                        return Err(error);
                    },
                };
                let better = match best {
                    Some(_) => count > best_score,
                    None => true,
                };
                proof {
                    let a = interpretation@;
                    let (nc, nl) = if better {
                        (c as int, l as int)
                    } else {
                        (bc, bl)
                    };
                    assert forall|c2: int, l2: int| #[trigger]
                        is_candidate(clauses, flags, c2, l2) && comes_before(
                            c2,
                            l2,
                            c as int,
                            l + 1,
                        ) implies {
                        let top = score(clauses, a, variable_at(clauses, nc, nl));
                        let other = score(clauses, a, variable_at(clauses, c2, l2));
                        other <= top && (comes_before(c2, l2, nc, nl) ==> other < top)
                    } by {
                        if c2 == c && l2 == l {
                        } else {
                            assert(comes_before(c2, l2, c as int, l as int));
                        }
                    }
                    bc = nc;
                    bl = nl;
                }
                if better {
                    best = Some(variable);
                    best_score = count;
                }
                l += 1;
            }
        }
        proof {
            let a = interpretation@;
            if best is None {
                assert forall|c2: int, l2: int| #[trigger]
                    is_candidate(clauses, flags, c2, l2) implies !comes_before(
                    c2,
                    l2,
                    c + 1,
                    0,
                ) by {
                    if comes_before(c2, l2, c + 1, 0) {
                        if clause.is_satisfied {
                            assert(c2 < c);
                            assert(comes_before(c2, l2, c as int, 0));
                        } else {
                            assert(comes_before(c2, l2, c as int, clause.literals@.len() as int));
                        }
                    }
                }
            } else {
                assert forall|c2: int, l2: int| #[trigger]
                    is_candidate(clauses, flags, c2, l2) && comes_before(c2, l2, c + 1, 0) implies {
                    let top = score(clauses, a, variable_at(clauses, bc, bl));
                    let other = score(clauses, a, variable_at(clauses, c2, l2));
                    other <= top && (comes_before(c2, l2, bc, bl) ==> other < top)
                } by {
                    if clause.is_satisfied {
                        assert(c2 < c);
                        assert(comes_before(c2, l2, c as int, 0));
                    } else {
                        assert(comes_before(c2, l2, c as int, clause.literals@.len() as int));
                    }
                }
            }
        }
        c += 1;
    }
    proof {
        let a = interpretation@;
        if best is Some {
            assert forall|c2: int, l2: int| #[trigger]
                is_candidate(clauses, flags, c2, l2) implies {
                let top = score(clauses, a, variable_at(clauses, bc, bl));
                let other = score(clauses, a, variable_at(clauses, c2, l2));
                other <= top && (comes_before(c2, l2, bc, bl) ==> other < top)
            } by {
                assert(comes_before(c2, l2, c as int, 0));
            }
            assert(is_best_at(clauses, flags, a, bc, bl));
        } else {
            assert forall|c2: int, l2: int| !is_candidate(clauses, flags, c2, l2) by {
                if is_candidate(clauses, flags, c2, l2) {
                    assert(comes_before(c2, l2, c as int, 0));
                }
            }
        }
    }
    Ok(best)
}

/// The strategy of a greedy search: with a `walk_probability` the mixed
/// one, else the greedy one.
pub open spec fn strategy_of(walk_probability: Option<WalkProbability>) -> Strategy {
    match walk_probability {
        Some(probability) => Strategy::GreedyWalk(probability),
        None => Strategy::Greedy,
    }
}

/// Greedy local search: up to `max_tries` tries, each from a fresh random
/// interpretation of the formula's variables, and in each try up to
/// `max_flips` flips. A flip takes the greedy choice; with a
/// `walk_probability` it does so with that chance and else flips a variable
/// drawn from a clause drawn from those that are not satisfied. The formula
/// is evaluated after every flip.
///
/// An interpretation that is returned satisfies the formula. The search
/// gives up only where it has no tries or one of its tries can fail. It
/// fails with a lookup error where it has a try to make and a clause holds
/// a variable that is not among the formula's variables.
pub fn gsat_algorithm(
    formula: &mut Formula,
    max_tries: u32,
    max_flips: u32,
    walk_probability: Option<WalkProbability>,
    rng: &mut StdRng,
) -> (result: Result<Verdict, LookupError>)
    ensures
        final(formula).same_structure(old(formula)),
        result is Err <==> max_tries > 0 && !variables_cover(
            old(formula).clause_seqs(),
            old(formula).vars@,
        ),
        result matches Err(error) ==> *final(formula) == *old(formula) && first_uncovered(
            old(formula).clause_seqs(),
            old(formula).vars@,
            error.variable,
        ),
        result matches Ok(Verdict::Sat(witness)) ==> {
            &&& is_model(old(formula).clause_seqs(), old(formula).vars@, witness@)
            &&& is_found_by(
                strategy_of(walk_probability),
                old(formula).clause_seqs(),
                old(formula).vars@,
                max_tries,
                max_flips,
                witness@,
            )
            &&& final(formula).records(witness@)
        },
        result matches Ok(Verdict::Unsat) ==> can_give_up(
            strategy_of(walk_probability),
            old(formula).clause_seqs(),
            old(formula).vars@,
            max_tries,
            max_flips,
        ),
{
    let strategy = match walk_probability {
        Some(probability) => Strategy::GreedyWalk(probability),
        None => Strategy::Greedy,
    };
    local_search(formula, max_tries, max_flips, strategy, rng)
}

} // verus!
