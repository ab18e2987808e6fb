//! Determinization of weighted acceptors by the weighted subset
//! construction.

pub mod acceptance;
pub mod determinize_fsa;
pub mod determinize_fsa_op;
pub mod divisors;
pub mod language;
pub mod subset;
