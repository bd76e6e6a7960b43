pub mod expansions;
pub mod parser;
