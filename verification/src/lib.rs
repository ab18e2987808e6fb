//! Weighted finite-state transducers over arbitrary semirings.
//!
//! The crate offers the algebraic interface of a semiring with a few concrete
//! weights, a mutable in-memory transducer, and graph algorithms on it. Every
//! executable function carries a contract stated over a mathematical model of
//! the transducer, and the contracts are machine-checked.

pub mod algorithms;
pub mod conformance;
pub mod error;
pub mod fst_impls;
pub mod fst_properties;
pub mod fst_traits;
pub mod fst_view;
pub mod fst_view_delete;
pub mod fst_view_update;
pub mod mutable_properties;
pub mod pair_weight;
pub mod parsers;
pub mod semirings;
pub mod symbol_table;
pub mod tr;
pub mod trs;
pub mod utils;
pub mod validation;
