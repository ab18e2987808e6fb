//! Transducers whose states are computed when they are asked for.

pub mod simple_vec_cache;
