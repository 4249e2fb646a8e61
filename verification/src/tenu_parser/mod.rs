pub mod error;
pub mod lex;
