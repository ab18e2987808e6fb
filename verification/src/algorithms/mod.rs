//! Algorithms on transducers.

pub mod compose;
pub mod compute_properties;
pub mod concat_fst;
pub mod connect;
pub mod connect_distance;
pub mod determinize;
pub mod dfs;
pub mod inversion;
pub mod path_best;
pub mod path_bound;
pub mod path_count;
pub mod path_drops;
pub mod path_left_out;
pub mod path_nodes;
pub mod path_order;
pub mod path_search;
pub mod path_unique;
pub mod language_laws;
pub mod lazy;
pub mod projection;
pub mod pushing_language;
pub mod rational;
pub mod reverse;
pub mod reverse_distance;
pub mod reverse_language;
pub mod reweight;
pub mod rm_epsilon;
pub mod shortest_distance;
pub mod shortest_path;
pub mod sort_distance;
pub mod sorting;
pub mod state_sort;
pub mod top_sort;
pub mod tr_map;
pub mod tr_sort;
pub mod weight_pushing;
