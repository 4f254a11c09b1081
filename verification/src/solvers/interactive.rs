//! Evaluation under an interpretation that someone supplies: one answer for
//! each variable of the formula, then one evaluation.
use crate::notation::{
    formula_covered, formula_first_missing, formula_holds, Formula, LookupError,
};
use crate::text::{chars_of, split_tokens, tokens_of, views};
use std::collections::HashMap;
use vstd::prelude::*;

verus! {

/// The variable whose answer is missing or is not a truth value.
#[derive(Debug, Clone, Copy, PartialEq, Eq, Structural)]
pub struct InputError {
    pub variable: i32,
}

/// Why an evaluation under supplied answers failed.
#[derive(Debug, Clone, Copy, PartialEq, Eq, Structural)]
pub enum InteractiveError {
    /// An answer is missing or is not a truth value.
    Input(InputError),
    /// A clause holds a variable that is not among the formula's variables.
    Lookup(LookupError),
}

/// The word `true`.
pub open spec fn word_true() -> Seq<char> {
    seq!['t', 'r', 'u', 'e']
}

/// The word `false`.
pub open spec fn word_false() -> Seq<char> {
    seq!['f', 'a', 'l', 's', 'e']
}

/// The truth value that `answer` gives: it holds, with or without white
/// space around it, the one word `true` or the one word `false`.
pub open spec fn boolean_of(answer: Seq<char>) -> Option<bool> {
    if tokens_of(answer) == seq![word_true()] {
        Some(true)
    } else if tokens_of(answer) == seq![word_false()] {
        Some(false)
    } else {
        None
    }
}

/// The truth value that `answer` gives, if it gives one.
pub fn parse_answer(answer: &str) -> (value: Option<bool>)
    ensures
        value == boolean_of(answer@),
{
    let chars = chars_of(answer);
    let tokens = split_tokens(chars.as_slice());
    proof {
        assert(views(tokens@).len() == tokens@.len());
        assert(seq![word_true()].len() == 1 && seq![word_false()].len() == 1);
    }
    if tokens.len() != 1 {
        return None;
    }
    let word = &tokens[0];
    proof {
        assert(views(tokens@)[0] == word@);
        assert(word_true().len() == 4 && word_false().len() == 5);
        if tokens_of(answer@) == seq![word_true()] {
            assert(seq![word_true()][0] == word@);
        }
        if tokens_of(answer@) == seq![word_false()] {
            assert(seq![word_false()][0] == word@);
        }
    }
    if word.len() == 4 && word[0] == 't' && word[1] == 'r' && word[2] == 'u' && word[3] == 'e' {
        proof {
            assert(word@ =~= word_true());
            assert(tokens_of(answer@) =~= seq![word_true()]);
        }
        Some(true)
    } else if word.len() == 5 && word[0] == 'f' && word[1] == 'a' && word[2] == 'l' && word[3]
        == 's' && word[4] == 'e' {
        proof {
            assert(word@ =~= word_false());
            assert(tokens_of(answer@) =~= seq![word_false()]);
            assert(seq![word_false()][0] != word_true());
        }
        Some(false)
    } else {
        None
    }
}

/// The characters of each of `answers`.
pub open spec fn answer_views(answers: Seq<String>) -> Seq<Seq<char>> {
    answers.map_values(|answer: String| answer@)
}

/// Whether answer `i` is there and gives a truth value.
pub open spec fn answered(answers: Seq<Seq<char>>, i: int) -> bool {
    0 <= i < answers.len() && boolean_of(answers[i]) is Some
}

/// The interpretation that gives each of `variables` the truth value of
/// the answer at its place. Of a variable that occurs twice, the later
/// answer counts.
pub open spec fn answered_interpretation(
    variables: Seq<i32>,
    answers: Seq<Seq<char>>,
) -> Map<i32, bool>
    decreases variables.len(),
{
    if variables.len() == 0 {
        Map::empty()
    } else {
        answered_interpretation(variables.drop_last(), answers).insert(
            variables.last(),
            boolean_of(answers[variables.len() - 1])->0,
        )
    }
}

/// Evaluates `formula` under the interpretation that `answers` give, the
/// answer at place `i` being that for variable `i` of the formula; answers
/// beyond the last variable are not read.
///
/// Fails with an input error, on the first variable concerned, where an
/// answer is missing or gives no truth value; else with a lookup error
/// where a clause holds a variable that is not among the formula's
/// variables. A failure leaves the formula as it was.
pub fn interactive_algorithm(formula: &mut Formula, answers: &Vec<String>) -> (result: Result<
    bool,
    InteractiveError,
>)
    ensures
        final(formula).same_structure(old(formula)),
        result is Err ==> *final(formula) == *old(formula),
        result matches Err(InteractiveError::Input(error)) ==> exists|i: int|
            0 <= i < old(formula).vars@.len() && !answered(answer_views(answers@), i) && (
            #[trigger] old(formula).vars@[i]) == error.variable && forall|k: int|
                0 <= k < i ==> answered(answer_views(answers@), k),
        (forall|i: int| 0 <= i < old(formula).vars@.len() ==> answered(answer_views(answers@), i))
            ==> {
            let interpretation = answered_interpretation(
                old(formula).vars@,
                answer_views(answers@),
            );
            match result {
                Ok(holds) => {
                    &&& formula_covered(old(formula).clause_seqs(), interpretation)
                    &&& holds == formula_holds(old(formula).clause_seqs(), interpretation)
                    &&& final(formula).records(interpretation)
                },
                Err(InteractiveError::Lookup(error)) => formula_first_missing(
                    old(formula).clause_seqs(),
                    interpretation,
                    error.variable,
                ),
                Err(InteractiveError::Input(_)) => false,
            }
        },
{
    let mut interpretation: HashMap<i32, bool> = HashMap::new();
    let mut i: usize = 0;
    while i < formula.vars.len()
        invariant
            i <= formula.vars@.len(),
            *formula == *old(formula),
            forall|k: int| 0 <= k < i ==> answered(answer_views(answers@), k),
            interpretation@ == answered_interpretation(
                formula.vars@.take(i as int),
                answer_views(answers@),
            ),
        decreases formula.vars@.len() - i,
    {
        let variable = formula.vars[i];
        if i >= answers.len() {
            proof {
                assert(!answered(answer_views(answers@), i as int));
            }
            return Err(InteractiveError::Input(InputError { variable }));
        }
        proof {
            assert(answer_views(answers@)[i as int] == answers@[i as int]@);
        }
        let value = match parse_answer(answers[i].as_str()) {
            Some(value) => value,
            None => {
                proof {
                    assert(!answered(answer_views(answers@), i as int));
                }
                return Err(InteractiveError::Input(InputError { variable }));
            },
        };
        proof {
            assert(formula.vars@.take(i + 1).drop_last() =~= formula.vars@.take(i as int));
        }
        interpretation.insert(variable, value);
        i += 1;
    }
    proof {
        assert(formula.vars@.take(i as int) =~= formula.vars@);
    }
    match formula.evaluate(&interpretation) {
        Ok(holds) => Ok(holds),
        Err(error) => Err(InteractiveError::Lookup(error)),
    }
}

} // verus!
