//! The solvers.
//!
//! * [`chaos`] draws random interpretations.
//! * [`gsat`] flips the variable that satisfies the most clauses.
//! * [`wsat`] flips a random variable of a random unsatisfied clause.
//! * [`interactive`] evaluates under supplied answers.
//! * [`search`] holds the loop that the first three share, and [`utils`]
//!   the random source and the flip.
pub mod chaos;
pub mod gsat;
pub mod interactive;
pub mod search;
pub mod utils;
pub mod wsat;
