//! Concrete transducers.

pub mod const_fst;
pub mod deletion;
pub mod vector_fst;
