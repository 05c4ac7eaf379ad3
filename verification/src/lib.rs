pub mod errors;
pub mod mft;
pub mod mft_parser;
pub mod tree;
pub mod utils;
