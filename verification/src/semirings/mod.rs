//! Semirings: the algebra of transition weights.

pub mod boolean_weight;
pub mod integer_weight;
pub mod semiring;
pub mod tropical_weight;
