pub mod text;
pub mod text_fst;
