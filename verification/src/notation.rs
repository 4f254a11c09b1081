//! Literals, clauses and formulas, and what they evaluate to under an
//! interpretation: a map from variable to truth value.
use std::collections::HashMap;
use vstd::prelude::*;

verus! {

/// A variable, or its negation.
#[derive(Debug, Clone, Copy, PartialEq, Eq, Structural)]
pub struct Literal {
    pub value: i32,
    pub negated: bool,
}

/// A variable that an interpretation was asked for and does not hold.
#[derive(Debug, Clone, Copy, PartialEq, Eq, Structural)]
pub struct LookupError {
    pub variable: i32,
}

/// The truth value of `literal` where its variable has the value `given`:
/// that value, inverted where the literal is negated.
pub open spec fn literal_value(literal: Literal, given: bool) -> bool {
    given ^ literal.negated
}

/// Whether `interpretation` makes `literal` true. Meaningful where the
/// interpretation holds the literal's variable.
pub open spec fn literal_holds(literal: Literal, interpretation: Map<i32, bool>) -> bool {
    literal_value(literal, interpretation[literal.value])
}

/// Under the interpretation that holds the literal's variable alone, with
/// the value `given`, the literal has the value `given`, inverted where the
/// literal is negated.
pub proof fn lemma_literal_alone(literal: Literal, given: bool)
    ensures
        literal_holds(literal, map![literal.value => given]) == (given ^ literal.negated),
{
}

impl Literal {
    /// The literal on variable `0`, not negated.
    pub fn new() -> (literal: Literal)
        ensures
            literal == (Literal { value: 0, negated: false }),
    {
        Literal { value: 0, negated: false }
    }

    /// The positive literal on variable `value`.
    pub fn from_value(value: i32) -> (literal: Literal)
        ensures
            literal == (Literal { value, negated: false }),
    {
        Literal { value, negated: false }
    }

    /// The literal's truth value where its variable has the value
    /// `given_value`: that value, inverted where the literal is negated.
    pub fn evaluate(&self, given_value: bool) -> (result: bool)
        ensures
            result == literal_value(*self, given_value),
    {
        if self.negated {
            !given_value
        } else {
            given_value
        }
    }

    /// The literal's truth value under `interpretation`, or the literal's
    /// variable where the interpretation does not hold it.
    pub fn evaluate_in(&self, interpretation: &HashMap<i32, bool>) -> (result: Result<
        bool,
        LookupError,
    >)
        ensures
            interpretation@.contains_key(self.value) ==> result == Ok::<bool, LookupError>(
                literal_holds(*self, interpretation@),
            ),
            !interpretation@.contains_key(self.value) ==> result == Err::<bool, LookupError>(
                LookupError { variable: self.value },
            ),
    {
        match interpretation.get(&self.value) {
            Some(given) => Ok(self.evaluate(*given)),
            None => Err(LookupError { variable: self.value }),
        }
    }
}

/// Whether `interpretation` holds the variable of every literal of `literals`.
pub open spec fn clause_covered(literals: Seq<Literal>, interpretation: Map<i32, bool>) -> bool {
    forall|i: int|
        0 <= i < literals.len() ==> interpretation.contains_key((#[trigger] literals[i]).value)
}

/// The disjunction of `literals` under `interpretation`: some literal holds.
/// Of no literals it is false.
pub open spec fn clause_holds(literals: Seq<Literal>, interpretation: Map<i32, bool>) -> bool {
    exists|i: int| 0 <= i < literals.len() && literal_holds(#[trigger] literals[i], interpretation)
}

/// Whether `variable` is that of the first literal of `literals` whose
/// variable `interpretation` does not hold.
pub open spec fn first_missing(
    literals: Seq<Literal>,
    interpretation: Map<i32, bool>,
    variable: i32,
) -> bool {
    exists|i: int|
        0 <= i < literals.len() && (#[trigger] literals[i]).value == variable
            && !interpretation.contains_key(variable) && clause_covered(
            literals.take(i),
            interpretation,
        )
}

/// A clause is the disjunction of its literals: with one more literal it
/// holds just where it held before or that literal holds.
pub proof fn lemma_clause_is_disjunction(
    literals: Seq<Literal>,
    literal: Literal,
    interpretation: Map<i32, bool>,
)
    ensures
        clause_holds(literals.push(literal), interpretation) == (clause_holds(
            literals,
            interpretation,
        ) || literal_holds(literal, interpretation)),
{
    let longer = literals.push(literal);
    if clause_holds(literals, interpretation) {
        let i = choose|i: int|
            0 <= i < literals.len() && literal_holds(#[trigger] literals[i], interpretation);
        assert(literal_holds(longer[i], interpretation));
    }
    if literal_holds(literal, interpretation) {
        assert(literal_holds(longer[literals.len() as int], interpretation));
    }
    if clause_holds(longer, interpretation) {
        let i = choose|i: int|
            0 <= i < longer.len() && literal_holds(#[trigger] longer[i], interpretation);
        if i < literals.len() {
            assert(literal_holds(literals[i], interpretation));
        }
    }
}

/// The clause without literals is false under every interpretation.
pub proof fn lemma_empty_clause_is_false(interpretation: Map<i32, bool>)
    ensures
        !clause_holds(Seq::empty(), interpretation),
{
}

/// Whether an interpretation holds the variables of `literals` depends only
/// on the variables that the interpretation holds.
pub proof fn lemma_covered_by_domain(
    literals: Seq<Literal>,
    first: Map<i32, bool>,
    second: Map<i32, bool>,
)
    requires
        first.dom() == second.dom(),
    ensures
        clause_covered(literals, first) == clause_covered(literals, second),
{
    assert forall|i: int| 0 <= i < literals.len() implies (first.contains_key(
        (#[trigger] literals[i]).value,
    ) <==> second.contains_key(literals[i].value)) by {
        assert(first.dom().contains(literals[i].value) == second.dom().contains(
            literals[i].value,
        ));
    }
}

/// Which variable of `literals` is the first that an interpretation lacks
/// depends only on the variables that the interpretation holds.
pub proof fn lemma_first_missing_by_domain(
    literals: Seq<Literal>,
    first: Map<i32, bool>,
    second: Map<i32, bool>,
    variable: i32,
)
    requires
        first.dom() == second.dom(),
    ensures
        first_missing(literals, first, variable) == first_missing(literals, second, variable),
{
    assert(first.dom().contains(variable) == second.dom().contains(variable));
    assert forall|i: int| 0 <= i < literals.len() implies clause_covered(
        #[trigger] literals.take(i),
        first,
    ) == clause_covered(literals.take(i), second) by {
        lemma_covered_by_domain(literals.take(i), first, second);
    }
    if first_missing(literals, first, variable) {
        let i = choose|i: int|
            0 <= i < literals.len() && (#[trigger] literals[i]).value == variable
                && !first.contains_key(variable) && clause_covered(literals.take(i), first);
        assert(clause_covered(literals.take(i), second));
    }
    if first_missing(literals, second, variable) {
        let i = choose|i: int|
            0 <= i < literals.len() && (#[trigger] literals[i]).value == variable
                && !second.contains_key(variable) && clause_covered(literals.take(i), second);
        assert(clause_covered(literals.take(i), first));
    }
}

/// A disjunction of literals, with the truth value that its last evaluation
/// found.
#[derive(Debug, Clone)]
pub struct Clause {
    pub literals: Vec<Literal>,
    pub is_satisfied: bool,
}

impl Clause {
    /// The empty clause, not satisfied.
    pub fn new() -> (clause: Clause)
        ensures
            clause.literals@ == Seq::<Literal>::empty(),
            !clause.is_satisfied,
    {
        Clause { literals: Vec::new(), is_satisfied: false }
    }

    /// The first variable of the clause that `interpretation` does not hold,
    /// if there is one.
    pub fn missing_variable(&self, interpretation: &HashMap<i32, bool>) -> (missing: Option<i32>)
        ensures
            missing is None <==> clause_covered(self.literals@, interpretation@),
            missing matches Some(variable) ==> first_missing(
                self.literals@,
                interpretation@,
                variable,
            ),
    {
        let mut i: usize = 0;
        while i < self.literals.len()
            invariant
                i <= self.literals.len(),
                clause_covered(self.literals@.take(i as int), interpretation@),
            decreases self.literals.len() - i,
        {
            let variable = self.literals[i].value;
            if !interpretation.contains_key(&variable) {
                return Some(variable);
            }
            proof {
                let next = self.literals@.take(i + 1);
                assert forall|j: int| 0 <= j < next.len() implies interpretation@.contains_key(
                    (#[trigger] next[j]).value,
                ) by {
                    if j < i {
                        assert(self.literals@.take(i as int)[j] == next[j]);
                    }
                }
            }
            i += 1;
        }
        assert(self.literals@.take(i as int) == self.literals@);
        None
    }

    /// The clause's truth value under `interpretation`; the clause itself
    /// is left as it is. Fails where the interpretation lacks one of the
    /// clause's variables.
    pub fn value(&self, interpretation: &HashMap<i32, bool>) -> (result: Result<bool, LookupError>)
        ensures
            result is Ok <==> clause_covered(self.literals@, interpretation@),
            result matches Ok(holds) ==> holds == clause_holds(self.literals@, interpretation@),
            result matches Err(error) ==> first_missing(
                self.literals@,
                interpretation@,
                error.variable,
            ),
    {
        let mut found = false;
        let mut i: usize = 0;
        while i < self.literals.len()
            invariant
                i <= self.literals.len(),
                clause_covered(self.literals@.take(i as int), interpretation@),
                found == clause_holds(self.literals@.take(i as int), interpretation@),
            decreases self.literals.len() - i,
        {
            let literal = self.literals[i];
            let holds = match literal.evaluate_in(interpretation) {
                Ok(holds) => holds,
                Err(error) => {
                    return Err(error);
                },
            };
            proof {
                let before = self.literals@.take(i as int);
                let after = self.literals@.take(i + 1);
                assert(after[i as int] == self.literals@[i as int]);
                assert forall|j: int| 0 <= j < after.len() implies interpretation@.contains_key(
                    (#[trigger] after[j]).value,
                ) by {
                    if j < i {
                        assert(before[j] == after[j]);
                    }
                }
                if clause_holds(before, interpretation@) {
                    let k = choose|k: int|
                        0 <= k < before.len() && literal_holds(
                            #[trigger] before[k],
                            interpretation@,
                        );
                    assert(after[k] == before[k]);
                }
                if clause_holds(after, interpretation@) && !holds {
                    let k = choose|k: int|
                        0 <= k < after.len() && literal_holds(#[trigger] after[k], interpretation@);
                    assert(before[k] == after[k]);
                }
            }
            found = found || holds;
            i += 1;
        }
        assert(self.literals@.take(i as int) == self.literals@);
        Ok(found)
    }

    /// Evaluates the clause under `interpretation` and records the result in
    /// `is_satisfied`. Fails, and leaves the clause as it was, where the
    /// interpretation lacks one of the clause's variables.
    pub fn evaluate(&mut self, interpretation: &HashMap<i32, bool>) -> (result: Result<
        bool,
        LookupError,
    >)
        ensures
            final(self).literals@ == old(self).literals@,
            result is Ok <==> clause_covered(old(self).literals@, interpretation@),
            result matches Ok(holds) ==> holds == clause_holds(
                old(self).literals@,
                interpretation@,
            ) && final(self).is_satisfied == holds,
            result matches Err(error) ==> *final(self) == *old(self) && first_missing(
                old(self).literals@,
                interpretation@,
                error.variable,
            ),
    {
        match self.value(interpretation) {
            Ok(holds) => {
                self.is_satisfied = holds;
                Ok(holds)
            },
            Err(error) => Err(error),
        }
    }
}

/// Whether `interpretation` holds every variable of every clause.
pub open spec fn formula_covered(
    clauses: Seq<Seq<Literal>>,
    interpretation: Map<i32, bool>,
) -> bool {
    forall|i: int| 0 <= i < clauses.len() ==> clause_covered(#[trigger] clauses[i], interpretation)
}

/// The conjunction of `clauses` under `interpretation`: every clause holds.
pub open spec fn formula_holds(clauses: Seq<Seq<Literal>>, interpretation: Map<i32, bool>) -> bool {
    forall|i: int| 0 <= i < clauses.len() ==> clause_holds(#[trigger] clauses[i], interpretation)
}

/// The truth value of each of `clauses` under `interpretation`.
pub open spec fn truth_values(
    clauses: Seq<Seq<Literal>>,
    interpretation: Map<i32, bool>,
) -> Seq<bool> {
    Seq::new(clauses.len(), |c: int| clause_holds(clauses[c], interpretation))
}

/// Whether `variable` is the first one, in the order of clauses and of
/// literals in them, that `interpretation` does not hold.
pub open spec fn formula_first_missing(
    clauses: Seq<Seq<Literal>>,
    interpretation: Map<i32, bool>,
    variable: i32,
) -> bool {
    exists|i: int|
        0 <= i < clauses.len() && formula_covered(clauses.take(i), interpretation) && first_missing(
            #[trigger] clauses[i],
            interpretation,
            variable,
        )
}

/// A formula is the conjunction of its clauses: with one more clause it
/// holds just where it held before and that clause holds.
pub proof fn lemma_formula_is_conjunction(
    clauses: Seq<Seq<Literal>>,
    clause: Seq<Literal>,
    interpretation: Map<i32, bool>,
)
    ensures
        formula_holds(clauses.push(clause), interpretation) == (formula_holds(
            clauses,
            interpretation,
        ) && clause_holds(clause, interpretation)),
{
    let longer = clauses.push(clause);
    if formula_holds(longer, interpretation) {
        assert(clause_holds(longer[clauses.len() as int], interpretation));
        assert forall|i: int| 0 <= i < clauses.len() implies clause_holds(
            #[trigger] clauses[i],
            interpretation,
        ) by {
            assert(clause_holds(longer[i], interpretation));
        }
    }
}

/// The formula without clauses is true under every interpretation.
pub proof fn lemma_empty_formula_is_true(interpretation: Map<i32, bool>)
    ensures
        formula_holds(Seq::empty(), interpretation),
{
}

/// Which variable of `clauses` is the first that an interpretation lacks
/// depends only on the variables that the interpretation holds.
pub proof fn lemma_formula_first_missing_by_domain(
    clauses: Seq<Seq<Literal>>,
    first: Map<i32, bool>,
    second: Map<i32, bool>,
    variable: i32,
)
    requires
        first.dom() == second.dom(),
        formula_first_missing(clauses, first, variable),
    ensures
        formula_first_missing(clauses, second, variable),
{
    let c = choose|c: int|
        0 <= c < clauses.len() && formula_covered(clauses.take(c), first) && first_missing(
            #[trigger] clauses[c],
            first,
            variable,
        );
    lemma_first_missing_by_domain(clauses[c], first, second, variable);
    assert forall|k: int| 0 <= k < clauses.take(c).len() implies clause_covered(
        #[trigger] clauses.take(c)[k],
        second,
    ) by {
        lemma_covered_by_domain(clauses.take(c)[k], first, second);
    }
}

/// The literals of all `clauses`, in the order of clauses and of literals in
/// them.
pub open spec fn all_literals(clauses: Seq<Seq<Literal>>) -> Seq<Literal>
    decreases clauses.len(),
{
    if clauses.len() == 0 {
        Seq::empty()
    } else {
        all_literals(clauses.drop_last()) + clauses.last()
    }
}

/// The variable of each of `literals`.
pub open spec fn variables_of(literals: Seq<Literal>) -> Seq<i32> {
    literals.map_values(|literal: Literal| literal.value)
}

/// `items` without repetitions: each item where it first occurs.
pub open spec fn distinct<T>(items: Seq<T>) -> Seq<T>
    decreases items.len(),
{
    if items.len() == 0 {
        Seq::empty()
    } else if distinct(items.drop_last()).contains(items.last()) {
        distinct(items.drop_last())
    } else {
        distinct(items.drop_last()).push(items.last())
    }
}

/// `distinct` holds the same items as what it was made of, each of them
/// once.
pub proof fn lemma_distinct<T>(items: Seq<T>)
    ensures
        distinct(items).no_duplicates(),
        distinct(items).len() <= items.len(),
        forall|item: T|
            #![trigger distinct(items).contains(item)]
            #![trigger items.contains(item)]
            distinct(items).contains(item) <==> items.contains(item),
    decreases items.len(),
{
    if items.len() > 0 {
        let front = items.drop_last();
        let last = items.last();
        lemma_distinct(front);
        let made = distinct(items);
        assert forall|item: T|
            #![trigger made.contains(item)]
            #![trigger items.contains(item)]
            made.contains(item) <==> items.contains(item) by {
            if items.contains(item) {
                let k = choose|k: int| 0 <= k < items.len() && items[k] == item;
                if k < front.len() {
                    assert(front[k] == item);
                    assert(distinct(front).contains(item));
                    let j = choose|j: int|
                        0 <= j < distinct(front).len() && distinct(front)[j] == item;
                    assert(made[j] == item);
                } else {
                    if distinct(front).contains(last) {
                    } else {
                        assert(made[made.len() - 1] == item);
                    }
                }
            }
            if made.contains(item) {
                let j = choose|j: int| 0 <= j < made.len() && made[j] == item;
                if j < distinct(front).len() {
                    assert(distinct(front)[j] == item);
                    assert(front.contains(item));
                    let k = choose|k: int| 0 <= k < front.len() && front[k] == item;
                    assert(items[k] == item);
                } else {
                    assert(items[items.len() - 1] == item);
                }
            }
        }
    }
}

/// The literals of each of `clauses`, in order.
pub open spec fn literals_of_clauses(clauses: Seq<Clause>) -> Seq<Seq<Literal>> {
    Seq::new(clauses.len(), |i: int| clauses[i].literals@)
}

/// Whether `variable` is among `variables`.
pub fn contains_variable(variables: &Vec<i32>, variable: i32) -> (found: bool)
    ensures
        found == variables@.contains(variable),
{
    let mut i: usize = 0;
    while i < variables.len()
        invariant
            i <= variables.len(),
            forall|k: int| 0 <= k < i ==> variables@[k] != variable,
        decreases variables.len() - i,
    {
        if variables[i] == variable {
            return true;
        }
        i += 1;
    }
    false
}

/// Whether `literal` is among `literals`.
pub fn contains_literal(literals: &Vec<Literal>, literal: Literal) -> (found: bool)
    ensures
        found == literals@.contains(literal),
{
    let mut i: usize = 0;
    while i < literals.len()
        invariant
            i <= literals.len(),
            forall|k: int| 0 <= k < i ==> literals@[k] != literal,
        decreases literals.len() - i,
    {
        if literals[i] == literal {
            return true;
        }
        i += 1;
    }
    false
}

/// Every literal of every clause is among `all_literals`.
pub proof fn lemma_all_literals_holds_each(clauses: Seq<Seq<Literal>>, c: int, l: int)
    requires
        0 <= c < clauses.len(),
        0 <= l < clauses[c].len(),
    ensures
        all_literals(clauses).contains(clauses[c][l]),
    decreases clauses.len(),
{
    let front = all_literals(clauses.drop_last());
    if c == clauses.len() - 1 {
        assert(all_literals(clauses)[front.len() + l] == clauses[c][l]);
    } else {
        lemma_all_literals_holds_each(clauses.drop_last(), c, l);
        let k = choose|k: int| 0 <= k < front.len() && front[k] == clauses[c][l];
        assert(all_literals(clauses)[k] == clauses[c][l]);
    }
}

/// Which of the two declared counts of a formula is not the one found.
#[derive(Debug, Clone, Copy, PartialEq, Eq, Structural)]
pub enum CountError {
    /// The number of clauses.
    Clauses,
    /// The number of distinct variables.
    Variables,
}

/// A conjunction of clauses, with the literals and variables that occur in it
/// and the two counts that it was declared with.
#[derive(Debug, Clone)]
pub struct Formula {
    pub clauses: Vec<Clause>,
    pub literals: Vec<Literal>,
    pub vars: Vec<i32>,
    pub num_clauses: i32,
    pub num_vars: i32,
}

impl Formula {
    /// The literals of each clause, in order.
    pub open spec fn clause_seqs(&self) -> Seq<Seq<Literal>> {
        literals_of_clauses(self.clauses@)
    }

    /// The truth value recorded in each clause, in order.
    pub open spec fn satisfied_flags(&self) -> Seq<bool> {
        Seq::new(self.clauses@.len(), |i: int| self.clauses@[i].is_satisfied)
    }

    /// Whether `other` differs from `self` at most in the truth values
    /// recorded in the clauses.
    pub open spec fn same_structure(&self, other: &Formula) -> bool {
        &&& self.clause_seqs() == other.clause_seqs()
        &&& self.literals@ == other.literals@
        &&& self.vars@ == other.vars@
        &&& self.num_clauses == other.num_clauses
        &&& self.num_vars == other.num_vars
    }

    /// Whether the truth value recorded in each clause is the clause's
    /// truth value under `interpretation`.
    pub open spec fn records(&self, interpretation: Map<i32, bool>) -> bool {
        self.satisfied_flags() == truth_values(self.clause_seqs(), interpretation)
    }

    /// Whether the formula's parts agree: `literals` and `vars` hold the
    /// distinct literals and variables of the clauses, each where it first
    /// occurs, and the two counts are the numbers of clauses and of
    /// variables.
    pub open spec fn well_formed(&self) -> bool {
        &&& self.literals@ == distinct(all_literals(self.clause_seqs()))
        &&& self.vars@ == distinct(variables_of(all_literals(self.clause_seqs())))
        &&& self.num_clauses == self.clauses@.len()
        &&& self.num_vars == self.vars@.len()
    }

    /// A formula that differs from a well-formed one at most in the truth
    /// values recorded in the clauses is well-formed.
    pub proof fn lemma_structure_keeps_well_formed(&self, other: &Formula)
        requires
            self.same_structure(other),
            other.well_formed(),
        ensures
            self.well_formed(),
    {
        assert(self.clauses@.len() == self.clause_seqs().len());
        assert(other.clauses@.len() == other.clause_seqs().len());
    }

    /// The formula without clauses.
    pub fn new() -> (formula: Formula)
        ensures
            formula.clauses@.len() == 0,
            formula.literals@.len() == 0,
            formula.vars@.len() == 0,
            formula.num_clauses == 0,
            formula.num_vars == 0,
            formula.well_formed(),
    {
        Formula {
            clauses: Vec::new(),
            literals: Vec::new(),
            vars: Vec::new(),
            num_clauses: 0,
            num_vars: 0,
        }
    }

    /// The formula of `clauses`, declared to hold `num_vars` distinct
    /// variables and `num_clauses` clauses. Fails where a declared count is
    /// not the count found; where both are not, it names the clauses.
    pub fn from_clauses(clauses: Vec<Clause>, num_vars: i32, num_clauses: i32) -> (result: Result<
        Formula,
        CountError,
    >)
        ensures
            result is Ok <==> num_clauses == clauses@.len() && num_vars == distinct(
                variables_of(all_literals(literals_of_clauses(clauses@))),
            ).len(),
            result matches Ok(formula) ==> formula.clauses == clauses && formula.num_vars
                == num_vars && formula.num_clauses == num_clauses && formula.well_formed(),
            result matches Err(error) ==> (error == CountError::Clauses <==> num_clauses
                != clauses@.len()),
    {
        let ghost seqs = literals_of_clauses(clauses@);
        let mut literals: Vec<Literal> = Vec::new();
        let mut vars: Vec<i32> = Vec::new();
        let mut c: usize = 0;
        while c < clauses.len()
            invariant
                c <= clauses.len(),
                seqs == literals_of_clauses(clauses@),
                literals@ == distinct(all_literals(seqs.take(c as int))),
                vars@ == distinct(variables_of(all_literals(seqs.take(c as int)))),
            decreases clauses.len() - c,
        {
            let clause = &clauses[c];
            let ghost before = all_literals(seqs.take(c as int));
            let ghost current = seqs[c as int];
            proof {
                assert(before + current.take(0) =~= before);
            }
            let mut l: usize = 0;
            while l < clause.literals.len()
                invariant
                    l <= clause.literals.len(),
                    current == clause.literals@,
                    literals@ == distinct(before + current.take(l as int)),
                    vars@ == distinct(variables_of(before + current.take(l as int))),
                decreases clause.literals.len() - l,
            {
                let literal = clause.literals[l];
                proof {
                    let done = before + current.take(l as int);
                    let next = before + current.take(l + 1);
                    assert(next =~= done.push(literal));
                    assert(next.drop_last() =~= done);
                    assert(variables_of(next) =~= variables_of(done).push(literal.value));
                    assert(variables_of(next).drop_last() =~= variables_of(done));
                }
                if !contains_literal(&literals, literal) {
                    literals.push(literal);
                }
                if !contains_variable(&vars, literal.value) {
                    vars.push(literal.value);
                }
                l += 1;
            }
            proof {
                assert(current.take(l as int) =~= current);
                assert(seqs.take(c + 1).drop_last() =~= seqs.take(c as int));
                assert(seqs.take(c + 1).last() == current);
            }
            c += 1;
        }
        proof {
            assert(seqs.take(c as int) =~= seqs);
        }
        if num_clauses < 0 || num_clauses as usize != clauses.len() {
            return Err(CountError::Clauses);
        }
        if num_vars < 0 || num_vars as usize != vars.len() {
            return Err(CountError::Variables);
        }
        Ok(Formula { clauses, literals, vars, num_clauses, num_vars })
    }

    /// The first variable of the formula that `interpretation` does not hold,
    /// if there is one.
    pub fn missing_variable(&self, interpretation: &HashMap<i32, bool>) -> (missing: Option<i32>)
        ensures
            missing is None <==> formula_covered(self.clause_seqs(), interpretation@),
            missing matches Some(variable) ==> formula_first_missing(
                self.clause_seqs(),
                interpretation@,
                variable,
            ),
    {
        let mut i: usize = 0;
        while i < self.clauses.len()
            invariant
                i <= self.clauses.len(),
                formula_covered(self.clause_seqs().take(i as int), interpretation@),
            decreases self.clauses.len() - i,
        {
            assert(self.clause_seqs()[i as int] == self.clauses@[i as int].literals@);
            match self.clauses[i].missing_variable(interpretation) {
                Some(variable) => {
                    return Some(variable);
                },
                None => {},
            }
            proof {
                let before = self.clause_seqs().take(i as int);
                let after = self.clause_seqs().take(i + 1);
                assert forall|j: int| 0 <= j < after.len() implies clause_covered(
                    #[trigger] after[j],
                    interpretation@,
                ) by {
                    if j < i {
                        assert(before[j] == after[j]);
                    }
                }
            }
            i += 1;
        }
        assert(self.clause_seqs().take(i as int) == self.clause_seqs());
        None
    }

    /// Evaluates every clause under `interpretation`, records each result in
    /// its clause, and returns their conjunction. Fails, and leaves the
    /// formula as it was, where the interpretation lacks one of the
    /// formula's variables.
    pub fn evaluate(&mut self, interpretation: &HashMap<i32, bool>) -> (result: Result<
        bool,
        LookupError,
    >)
        ensures
            final(self).same_structure(old(self)),
            result is Ok <==> formula_covered(old(self).clause_seqs(), interpretation@),
            result matches Ok(holds) ==> holds == formula_holds(
                old(self).clause_seqs(),
                interpretation@,
            ) && final(self).records(interpretation@),
            result matches Err(error) ==> *final(self) == *old(self) && formula_first_missing(
                old(self).clause_seqs(),
                interpretation@,
                error.variable,
            ),
    {
        match self.missing_variable(interpretation) {
            Some(variable) => {
                return Err(LookupError { variable });
            },
            None => {},
        }
        let mut all = true;
        let mut i: usize = 0;
        while i < self.clauses.len()
            invariant
                i <= self.clauses.len(),
                self.same_structure(old(self)),
                self.clauses@.len() == old(self).clauses@.len(),
                formula_covered(self.clause_seqs(), interpretation@),
                all == formula_holds(self.clause_seqs().take(i as int), interpretation@),
                forall|j: int|
                    0 <= j < i ==> (#[trigger] self.clauses@[j]).is_satisfied == clause_holds(
                        self.clauses@[j].literals@,
                        interpretation@,
                    ),
            decreases self.clauses.len() - i,
        {
            let ghost before = *self;
            assert(self.clause_seqs()[i as int] == self.clauses@[i as int].literals@);
            let holds = match self.clauses[i].value(interpretation) {
                Ok(holds) => holds,
                Err(error) => {
                    return Err(error);
                },
            };
            self.clauses[i].is_satisfied = holds;
            proof {
                assert(self.clause_seqs() =~= before.clause_seqs());
                let done = self.clause_seqs().take(i as int);
                let next = self.clause_seqs().take(i + 1);
                assert(next[i as int] == self.clause_seqs()[i as int]);
                assert forall|j: int| 0 <= j < done.len() implies done[j] == next[j] by {}
                if formula_holds(done, interpretation@) && holds {
                    assert forall|j: int| 0 <= j < next.len() implies clause_holds(
                        #[trigger] next[j],
                        interpretation@,
                    ) by {
                        if j < i {
                            assert(done[j] == next[j]);
                        }
                    }
                }
                if formula_holds(next, interpretation@) {
                    assert forall|j: int| 0 <= j < done.len() implies clause_holds(
                        #[trigger] done[j],
                        interpretation@,
                    ) by {
                        assert(done[j] == next[j]);
                    }
                }
            }
            all = all && holds;
            i += 1;
        }
        proof {
            assert(self.clause_seqs().take(i as int) == self.clause_seqs());
            assert(self.clauses@.len() == i);
            assert(self.satisfied_flags() =~= truth_values(self.clause_seqs(), interpretation@));
        }
        Ok(all)
    }
}

} // verus!
