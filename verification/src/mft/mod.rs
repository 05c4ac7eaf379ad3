pub mod attributes;
pub mod errors;
pub mod structure;
