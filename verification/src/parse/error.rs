use vstd::prelude::*;

verus! {

/// What the lexer reports in place of a token.
#[derive(Debug, PartialEq, Eq, Clone, Copy)]
pub enum Error {
    /// A long option that requires a value was given without `=value`.
    MissingArgValue,
    /// A short option character that the lookup table does not declare.
    UnknownShortOption(char),
}

} // verus!
