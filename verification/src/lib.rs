//! Command-line argument handling: raw argument access, a character cursor,
//! an option lexer, a getopt-style parser and a small argument builder.

pub mod builder;
pub mod parse;
pub mod rncp;
pub mod tenu_env;
pub mod tenu_parser;
pub mod text;
mod utf8;
