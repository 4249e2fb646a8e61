use vstd::prelude::*;

verus! {

/// A piece of a command line.
pub enum Token<'a> {
    Key(&'a str),
    Value(&'a str),
    Raw(&'a str),
}

/// A lexer over a command line given as one string.
pub struct Parser<'a> {
    src: &'a str,
    /// Whether a `--` terminator occured
    is_raw: bool,
}

impl<'a> Parser<'a> {
    /// The text not yet lexed.
    pub closed spec fn source(self) -> Seq<char> {
        self.src@
    }

    /// Whether a `--` terminator has been seen.
    pub closed spec fn raw(self) -> bool {
        self.is_raw
    }

    pub fn new(src: &'a str) -> (r: Self)
        ensures
            r.source() == src@,
            !r.raw(),
    {
        Self { is_raw: false, src }
    }
}

} // verus!
