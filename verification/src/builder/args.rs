use vstd::prelude::*;
use vstd::utf8::{decode_utf8, valid_utf8};

use crate::builder::arg::Arg;

verus! {

/// The text of an argument: its bytes read as UTF-8, or nothing where they are
/// not valid UTF-8.
pub open spec fn arg_text(a: Arg) -> Seq<char> {
    if valid_utf8(a.bytes()) {
        decode_utf8(a.bytes())
    } else {
        Seq::empty()
    }
}

/// A wrapper around a slice of `Arg` instances.
#[derive(Clone, Copy)]
pub struct Args {
    inner: &'static [Arg],
}

impl Args {
    /// The arguments not yet taken.
    pub closed spec fn remaining(self) -> Seq<Arg> {
        self.inner@
    }

    /// Wraps a slice of arguments.
    pub fn new(inner: &'static [Arg]) -> (r: Self)
        ensures
            r.remaining() == inner@,
    {
        Self { inner }
    }

    /// Advances the iterator and returns the next string in the collection;
    /// an argument that is not valid UTF-8 gives the empty string.
    pub fn next(&mut self) -> (r: Option<&'static str>)
        ensures
            old(self).remaining().len() == 0 ==> r is None && final(self).remaining() == old(
                self,
            ).remaining(),
            old(self).remaining().len() > 0 ==> {
                &&& r matches Some(s) && s@ == arg_text(old(self).remaining()[0])
                &&& final(self).remaining() == old(self).remaining().drop_first()
            },
    {
        let inner = self.inner;
        if inner.len() == 0 {
            return None;
        }
        let (first, rest) = inner.split_at(1);
        assert(rest@ =~= inner@.drop_first());
        self.inner = rest;
        let curr: &'static Arg = &first[0];
        match curr.as_str() {
            Ok(s) => Some(s),
            Err(_) => {
                let empty = "";
                proof {
                    reveal_strlit("");
                }
                Some(empty)
            },
        }
    }
}

} // verus!
