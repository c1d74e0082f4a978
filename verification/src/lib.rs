//! Front end of a small bracket-delimited prefix expression language:
//! a scanner from source text to tokens and a recursive-descent parser
//! from tokens to a forest of expression trees, both verified against
//! functional specifications.

pub mod laws;
pub mod parse_spec;
pub mod parser;
pub mod scan_spec;
pub mod scanner;
pub mod text;
pub mod token;
