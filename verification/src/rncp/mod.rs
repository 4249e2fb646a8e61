pub mod builder;
pub mod env;
pub mod error;
pub mod parser;
