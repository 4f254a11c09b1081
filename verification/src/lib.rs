//! Stochastic local search for propositional satisfiability.
//!
//! * [`notation`] holds literals, clauses and formulas, and their evaluation
//!   under an interpretation.
//! * [`text`] splits a text into lines and tokens and reads integers.
//! * [`cnfparser`] reads a formula from the DIMACS CNF text format.
//! * [`solvers`] holds the search strategies: random restart, greedy local
//!   search and random-walk local search, and the evaluation under an
//!   interpretation that the caller supplies.
pub mod cnfparser;
pub mod notation;
pub mod solvers;
pub mod text;
