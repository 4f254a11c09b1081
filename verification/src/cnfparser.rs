//! The DIMACS CNF text format.
//!
//! A text is read line by line. A line that starts with `c` is a comment
//! and an empty line is skipped. A line that starts with `p` is the header:
//! its third and fourth tokens declare the number of variables and the
//! number of clauses. Every other line is a clause: integers up to the
//! first `0`, each of them a literal on the variable of its absolute value,
//! negated where it is negative.
use crate::notation::{
    all_literals, distinct, literals_of_clauses, variables_of, Clause, CountError, Formula,
    Literal,
};
use crate::text::{
    chars_of, integer_of, lines_of, parse_integer, split_lines, split_tokens, tokens_of, views,
};
use vstd::prelude::*;

verus! {

/// Why a text is not a formula.
#[derive(Debug, Clone, Copy, PartialEq, Eq, Structural)]
pub enum ParseError {
    /// No line is a header.
    MissingHeader,
    /// A second line is a header.
    DuplicateHeader,
    /// The header has fewer than four tokens.
    HeaderTooShort,
    /// The header's third token is not an integer.
    InvalidVariableCount,
    /// The header's fourth token is not an integer.
    InvalidClauseCount,
    /// A token of a clause, before its end, is not an integer that can
    /// stand for a literal.
    InvalidLiteral,
    /// The header declares another number of clauses than the text holds.
    ClauseCountMismatch,
    /// The header declares another number of variables than the clauses
    /// hold.
    VariableCountMismatch,
}

impl ParseError {
    /// The error in words.
    pub open spec fn text(self) -> Seq<char> {
        match self {
            ParseError::MissingHeader => "Missing header line"@,
            ParseError::DuplicateHeader => "More than one header line"@,
            ParseError::HeaderTooShort => "Not enough tokens in the line"@,
            ParseError::InvalidVariableCount => "Failed to parse num_vars"@,
            ParseError::InvalidClauseCount => "Failed to parse num_clauses"@,
            ParseError::InvalidLiteral => "Failed to parse a literal"@,
            ParseError::ClauseCountMismatch => "Number of clauses is not the declared one"@,
            ParseError::VariableCountMismatch => "Number of variables is not the declared one"@,
        }
    }

    /// The error in words.
    pub fn message(&self) -> (message: String)
        ensures
            message@ == self.text(),
    {
        let words = match self {
            ParseError::MissingHeader => "Missing header line",
            ParseError::DuplicateHeader => "More than one header line",
            ParseError::HeaderTooShort => "Not enough tokens in the line",
            ParseError::InvalidVariableCount => "Failed to parse num_vars",
            ParseError::InvalidClauseCount => "Failed to parse num_clauses",
            ParseError::InvalidLiteral => "Failed to parse a literal",
            ParseError::ClauseCountMismatch => "Number of clauses is not the declared one",
            ParseError::VariableCountMismatch => "Number of variables is not the declared one",
        };
        words.to_owned()
    }
}

/// The two counts that the header `line` declares: the number of variables
/// and the number of clauses.
pub open spec fn header_of(line: Seq<char>) -> Result<(i32, i32), ParseError> {
    let tokens = tokens_of(line);
    if tokens.len() < 4 {
        Err(ParseError::HeaderTooShort)
    } else {
        match integer_of(tokens[2]) {
            None => Err(ParseError::InvalidVariableCount),
            Some(variables) => match integer_of(tokens[3]) {
                None => Err(ParseError::InvalidClauseCount),
                Some(clauses) => Ok((variables, clauses)),
            },
        }
    }
}

/// The literal that the integer `number`, which is not zero, stands for.
pub open spec fn literal_of(number: i32) -> Literal {
    Literal {
        value: if number < 0 {
            (-number) as i32
        } else {
            number
        },
        negated: number < 0,
    }
}

/// `front` followed by what `rest` holds, or the error that `rest` is.
pub open spec fn after(front: Seq<Literal>, rest: Result<Seq<Literal>, ParseError>) -> Result<
    Seq<Literal>,
    ParseError,
> {
    match rest {
        Ok(literals) => Ok(front + literals),
        Err(error) => Err(error),
    }
}

/// The literals that `tokens` stand for, up to the first token that
/// writes zero. A token before it that writes no integer, or the one
/// integer whose absolute value is out of range, is an error.
pub open spec fn literals_of(tokens: Seq<Seq<char>>) -> Result<Seq<Literal>, ParseError>
    decreases tokens.len(),
{
    if tokens.len() == 0 {
        Ok(Seq::empty())
    } else {
        match integer_of(tokens[0]) {
            None => Err(ParseError::InvalidLiteral),
            Some(number) => if number == 0 {
                Ok(Seq::empty())
            } else if number == i32::MIN {
                Err(ParseError::InvalidLiteral)
            } else {
                after(seq![literal_of(number)], literals_of(tokens.skip(1)))
            },
        }
    }
}

/// The variable of every literal that tokens stand for is positive.
pub proof fn lemma_literals_are_positive(tokens: Seq<Seq<char>>)
    ensures
        literals_of(tokens) matches Ok(literals) ==> forall|i: int|
            0 <= i < literals.len() ==> (#[trigger] literals[i]).value > 0,
    decreases tokens.len(),
{
    if tokens.len() > 0 {
        lemma_literals_are_positive(tokens.skip(1));
    }
}

/// The literals of the clause that `line` writes.
pub open spec fn clause_of(line: Seq<char>) -> Result<Seq<Literal>, ParseError> {
    literals_of(tokens_of(line))
}

/// Reads the header `line`.
pub fn read_header(line: &[char]) -> (result: Result<(i32, i32), ParseError>)
    ensures
        result == header_of(line@),
{
    let tokens = split_tokens(line);
    if tokens.len() < 4 {
        return Err(ParseError::HeaderTooShort);
    }
    proof {
        assert(views(tokens@)[2] == tokens@[2]@);
        assert(views(tokens@)[3] == tokens@[3]@);
    }
    let variables = match parse_integer(tokens[2].as_slice()) {
        Some(variables) => variables,
        None => {
            return Err(ParseError::InvalidVariableCount);
        },
    };
    let clauses = match parse_integer(tokens[3].as_slice()) {
        Some(clauses) => clauses,
        None => {
            return Err(ParseError::InvalidClauseCount);
        },
    };
    Ok((variables, clauses))
}

/// Reads the clause `line`.
pub fn read_clause(line: &[char]) -> (result: Result<Vec<Literal>, ParseError>)
    ensures
        result matches Ok(literals) ==> clause_of(line@) == Ok::<Seq<Literal>, ParseError>(
            literals@,
        ),
        result matches Err(error) ==> clause_of(line@) == Err::<Seq<Literal>, ParseError>(error),
{
    let tokens = split_tokens(line);
    let ghost words = tokens_of(line@);
    let mut literals: Vec<Literal> = Vec::new();
    let mut i: usize = 0;
    proof {
        assert(words.skip(0) =~= words);
        assert(literals@ + literals_of(words)->Ok_0 =~= literals_of(words)->Ok_0);
    }
    while i < tokens.len()
        invariant
            i <= tokens@.len(),
            words == views(tokens@),
            words == tokens_of(line@),
            literals_of(words) == after(literals@, literals_of(words.skip(i as int))),
        decreases tokens@.len() - i,
    {
        let ghost rest = words.skip(i as int);
        proof {
            assert(rest[0] == tokens@[i as int]@);
            assert(rest.skip(1) =~= words.skip(i + 1));
        }
        let number = match parse_integer(tokens[i].as_slice()) {
            Some(number) => number,
            None => {
                return Err(ParseError::InvalidLiteral);
            },
        };
        if number == 0 {
            proof {
                assert(literals@ + Seq::<Literal>::empty() =~= literals@);
            }
            return Ok(literals);
        }
        if number == i32::MIN {
            return Err(ParseError::InvalidLiteral);
        }
        let literal = Literal {
            value: if number < 0 {
                -number
            } else {
                number
            },
            negated: number < 0,
        };
        let ghost front = literals@;
        literals.push(literal);
        proof {
            assert(literal == literal_of(number));
            match literals_of(words.skip(i + 1)) {
                Ok(more) => {
                    assert(front + (seq![literal] + more) =~= literals@ + more);
                },
                Err(_) => {},
            }
        }
        i += 1;
    }
    proof {
        assert(literals@ + Seq::<Literal>::empty() =~= literals@);
    }
    Ok(literals)
}

/// The two counts that the header `line` declares.
pub fn parse_problem_line(line: &str) -> (result: Result<(i32, i32), ParseError>)
    ensures
        result == header_of(line@),
{
    let chars = chars_of(line);
    read_header(chars.as_slice())
}

/// The literals of the clause that `line` writes.
pub fn parse_clause_line(line: &str) -> (result: Result<Vec<Literal>, ParseError>)
    ensures
        result matches Ok(literals) ==> clause_of(line@) == Ok::<Seq<Literal>, ParseError>(
            literals@,
        ),
        result matches Err(error) ==> clause_of(line@) == Err::<Seq<Literal>, ParseError>(error),
{
    let chars = chars_of(line);
    read_clause(chars.as_slice())
}

/// What the lines read so far hold: the counts of the header, once it was
/// read, and the clauses.
pub struct Scan {
    pub header: Option<(i32, i32)>,
    pub clauses: Seq<Seq<Literal>>,
}

/// What `before` becomes with `line` read after it.
pub open spec fn scan_line(before: Scan, line: Seq<char>) -> Result<Scan, ParseError> {
    if line.len() == 0 || line[0] == 'c' {
        Ok(before)
    } else if line[0] == 'p' {
        if before.header is Some {
            Err(ParseError::DuplicateHeader)
        } else {
            match header_of(line) {
                Ok(counts) => Ok(Scan { header: Some(counts), clauses: before.clauses }),
                Err(error) => Err(error),
            }
        }
    } else {
        match clause_of(line) {
            Ok(literals) => Ok(
                Scan { header: before.header, clauses: before.clauses.push(literals) },
            ),
            Err(error) => Err(error),
        }
    }
}

/// What `lines` hold, read from the first to the last; the error of the
/// first line that has one.
pub open spec fn scan(lines: Seq<Seq<char>>) -> Result<Scan, ParseError>
    decreases lines.len(),
{
    if lines.len() == 0 {
        Ok(Scan { header: None, clauses: Seq::empty() })
    } else {
        match scan(lines.drop_last()) {
            Ok(before) => scan_line(before, lines.last()),
            Err(error) => Err(error),
        }
    }
}

/// The formula that `text` writes, as its clauses and its two counts: the
/// number of variables and the number of clauses. The text needs one
/// header, and the header's counts are those of the clauses.
pub open spec fn parsed(text: Seq<char>) -> Result<(Seq<Seq<Literal>>, i32, i32), ParseError> {
    match scan(lines_of(text)) {
        Err(error) => Err(error),
        Ok(read) => match read.header {
            None => Err(ParseError::MissingHeader),
            Some((variables, clauses)) => if clauses != read.clauses.len() {
                Err(ParseError::ClauseCountMismatch)
            } else if variables != distinct(variables_of(all_literals(read.clauses))).len() {
                Err(ParseError::VariableCountMismatch)
            } else {
                Ok((read.clauses, variables, clauses))
            },
        },
    }
}

/// An error in the first lines of a text is the error of the text.
proof fn lemma_scan_error_stays(lines: Seq<Seq<char>>, n: int)
    requires
        0 <= n <= lines.len(),
        scan(lines.take(n)) is Err,
    ensures
        scan(lines) == scan(lines.take(n)),
    decreases lines.len() - n,
{
    if n == lines.len() {
        assert(lines.take(n) =~= lines);
    } else {
        assert(lines.drop_last().take(n) =~= lines.take(n));
        lemma_scan_error_stays(lines.drop_last(), n);
    }
}

/// Reads a formula from `buffer`, a text in the DIMACS CNF format. The
/// formula holds the clauses in the order of their lines, none of them
/// recorded as satisfied, and the two counts of the header.
pub fn parse_cnf(buffer: &str) -> (result: Result<Formula, ParseError>)
    ensures
        match parsed(buffer@) {
            Ok((clauses, variables, count)) => result matches Ok(formula) && formula.clause_seqs()
                == clauses && formula.num_vars == variables && formula.num_clauses == count
                && formula.well_formed() && forall|c: int|
                0 <= c < formula.clauses@.len() ==> !(#[trigger] formula.clauses@[c]).is_satisfied,
            Err(error) => result == Err::<Formula, ParseError>(error),
        },
{
    let text = chars_of(buffer);
    let lines = split_lines(text.as_slice());
    let ghost all = lines_of(buffer@);
    let mut header: Option<(i32, i32)> = None;
    let mut clauses: Vec<Clause> = Vec::new();
    let mut i: usize = 0;
    proof {
        assert(literals_of_clauses(clauses@) =~= Seq::<Seq<Literal>>::empty());
    }
    while i < lines.len()
        invariant
            i <= lines@.len(),
            all == views(lines@),
            all == lines_of(buffer@),
            scan(all.take(i as int)) == Ok::<Scan, ParseError>(
                Scan { header, clauses: literals_of_clauses(clauses@) },
            ),
            forall|c: int| 0 <= c < clauses@.len() ==> !(#[trigger] clauses@[c]).is_satisfied,
        decreases lines@.len() - i,
    {
        let line = lines[i].as_slice();
        let ghost before = Scan { header, clauses: literals_of_clauses(clauses@) };
        proof {
            assert(all.take(i + 1).drop_last() =~= all.take(i as int));
            assert(all.take(i + 1).last() == line@);
            assert(scan(all.take(i + 1)) == scan_line(before, line@));
        }
        if line.len() == 0 || line[0] == 'c' {
        } else if line[0] == 'p' {
            if header.is_some() {
                proof {
                    lemma_scan_error_stays(all, i + 1);
                }
                return Err(ParseError::DuplicateHeader);
            }
            match read_header(line) {
                Ok(counts) => {
                    header = Some(counts);
                },
                Err(error) => {
                    proof {
                        lemma_scan_error_stays(all, i + 1);
                    }
                    return Err(error);
                },
            }
        } else {
            match read_clause(line) {
                Ok(literals) => {
                    let ghost read = literals_of_clauses(clauses@);
                    clauses.push(Clause { literals, is_satisfied: false });
                    proof {
                        assert(literals_of_clauses(clauses@) =~= read.push(literals@));
                    }
                },
                Err(error) => {
                    proof {
                        lemma_scan_error_stays(all, i + 1);
                    }
                    return Err(error);
                },
            }
        }
        i += 1;
    }
    proof {
        assert(all.take(i as int) =~= all);
    }
    let (variables, count) = match header {
        Some(counts) => counts,
        None => {
            return Err(ParseError::MissingHeader);
        },
    };
    match Formula::from_clauses(clauses, variables, count) {
        Ok(formula) => Ok(formula),
        Err(CountError::Clauses) => Err(ParseError::ClauseCountMismatch),
        Err(CountError::Variables) => Err(ParseError::VariableCountMismatch),
    }
}

} // verus!
