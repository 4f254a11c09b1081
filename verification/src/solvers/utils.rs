//! What the search strategies share: the random source, drawing an
//! interpretation from it, and flipping one variable of an interpretation.
use crate::notation::LookupError;
use rand::rngs::StdRng;
use rand::Rng;
use std::collections::HashMap;
use vstd::prelude::*;

verus! {

/// The random source of the `rand` crate that every strategy draws from. The
/// caller seeds it, so a search can be run again with the same draws.
#[verifier::external_type_specification]
#[verifier::external_body]
pub struct ExStdRng(rand::rngs::StdRng);

/// Draws a truth value with `Rng::random`. Nothing is claimed of the value.
#[verifier::external_body]
pub(crate) fn random_bool(rng: &mut StdRng) -> (value: bool) {
    rng.random::<bool>()
}

/// Draws an index with `Rng::random_range` on the range from `0` up to, not
/// including, `bound`. The call panics on an empty range, so `bound` is
/// positive; the index lies in the range.
#[verifier::external_body]
pub(crate) fn random_below(rng: &mut StdRng, bound: usize) -> (index: usize)
    requires
        bound > 0,
    ensures
        index < bound,
{
    rng.random_range(0..bound)
}

/// Draws a truth value with `Rng::random_ratio`, true with a chance of
/// `numerator` in `denominator`. The call panics on a zero denominator and
/// on a numerator above it. The draw is true where the two are equal and
/// false where the numerator is zero.
#[verifier::external_body]
pub(crate) fn random_ratio(rng: &mut StdRng, numerator: u32, denominator: u32) -> (hit: bool)
    requires
        denominator > 0,
        numerator <= denominator,
    ensures
        numerator == denominator ==> hit,
        numerator == 0 ==> !hit,
{
    rng.random_ratio(numerator, denominator)
}

/// Whether `interpretation` holds the variables of `variables` and no
/// others.
pub open spec fn total_over(interpretation: Map<i32, bool>, variables: Seq<i32>) -> bool {
    forall|variable: i32|
        #![trigger interpretation.contains_key(variable)]
        #![trigger variables.contains(variable)]
        interpretation.contains_key(variable) <==> variables.contains(variable)
}

/// Draws one truth value for each variable of `variables`.
pub fn random_assignment(variables: &Vec<i32>, rng: &mut StdRng) -> (interpretation: HashMap<
    i32,
    bool,
>)
    ensures
        total_over(interpretation@, variables@),
{
    let mut interpretation: HashMap<i32, bool> = HashMap::new();
    let mut i: usize = 0;
    while i < variables.len()
        invariant
            i <= variables.len(),
            total_over(interpretation@, variables@.take(i as int)),
        decreases variables.len() - i,
    {
        let value = random_bool(rng);
        let ghost before = interpretation@;
        interpretation.insert(variables[i], value);
        proof {
            let done = variables@.take(i as int);
            let next = variables@.take(i + 1);
            assert forall|variable: i32|
                interpretation@.contains_key(variable) <==> next.contains(variable) by {
                if next.contains(variable) {
                    let k = choose|k: int| 0 <= k < next.len() && next[k] == variable;
                    if k < i {
                        assert(done[k] == variable);
                    }
                }
                if before.contains_key(variable) {
                    let k = choose|k: int| 0 <= k < done.len() && done[k] == variable;
                    assert(next[k] == variable);
                }
                if variable == variables@[i as int] {
                    assert(next[i as int] == variable);
                }
            }
        }
        i += 1;
    }
    assert(variables@.take(i as int) == variables@);
    interpretation
}

/// `interpretation` with the value of `variable` inverted.
pub open spec fn flipped(interpretation: Map<i32, bool>, variable: i32) -> Map<i32, bool> {
    interpretation.insert(variable, !interpretation[variable])
}

/// Inverts the value of `variable` in `interpretation` and hands the
/// interpretation back, so that calls can be chained. Fails, and leaves the
/// interpretation as it was, where it does not hold the variable.
pub fn flip<'a>(interpretation: &'a mut HashMap<i32, bool>, variable: i32) -> (result: Result<
    &'a mut HashMap<i32, bool>,
    LookupError,
>)
    ensures
        old(interpretation)@.contains_key(variable) ==> (result matches Ok(after) && after@
            == flipped(old(interpretation)@, variable) && *final(interpretation) == *final(after)),
        !old(interpretation)@.contains_key(variable) ==> result == Err::<
            &mut HashMap<i32, bool>,
            LookupError,
        >(LookupError { variable }) && final(interpretation)@ == old(interpretation)@,
{
    let current = match interpretation.get(&variable) {
        Some(value) => *value,
        None => {
            return Err(LookupError { variable });
        },
    };
    interpretation.insert(variable, !current);
    Ok(interpretation)
}

/// Flipping a variable twice gives the interpretation back.
pub proof fn lemma_flip_involution(interpretation: Map<i32, bool>, variable: i32)
    requires
        interpretation.contains_key(variable),
    ensures
        flipped(flipped(interpretation, variable), variable) == interpretation,
{
    assert(flipped(flipped(interpretation, variable), variable) =~= interpretation);
}

/// Flipping changes the value of one variable and nothing else: the
/// interpretation holds the same variables after it, and every other
/// variable keeps its value.
pub proof fn lemma_flip_changes_one(interpretation: Map<i32, bool>, variable: i32)
    requires
        interpretation.contains_key(variable),
    ensures
        flipped(interpretation, variable).dom() == interpretation.dom(),
        flipped(interpretation, variable)[variable] == !interpretation[variable],
        forall|other: i32|
            other != variable ==> flipped(interpretation, variable)[other] == interpretation[other],
{
    assert(flipped(interpretation, variable).dom() =~= interpretation.dom());
}

} // verus!
