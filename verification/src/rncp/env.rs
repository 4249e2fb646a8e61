use vstd::prelude::*;
use vstd::utf8::{decode_utf8, encode_utf8_decode_utf8, valid_utf8};

use crate::rncp::error::Error;
use crate::text::{split_whitespace, words};
use crate::utf8::str_from_utf8;

verus! {

/// Raw CLI arguments.
///
/// After starting, it lives until the end of program execution.
#[derive(Debug)]
pub struct Args(pub Vec<&'static str>);

/// The characters of each argument.
pub open spec fn views(args: Seq<&'static str>) -> Seq<Seq<char>> {
    args.map_values(|a: &'static str| a@)
}

impl Args {
    /// The words of `string`, split at white space.
    pub fn from_str(string: &'static str) -> (r: Self)
        ensures
            views(r.0@) == words(string@),
    {
        Args(split_whitespace(string))
    }

    /// The arguments read as UTF-8; `InvalidUtf8Arg` where any of them is not
    /// valid UTF-8.
    pub fn from_utf8_args(raw: &[&'static [u8]]) -> (r: Result<Args, Error>)
        ensures
            r is Ok <==> forall|i: int| 0 <= i < raw@.len() ==> valid_utf8(#[trigger] raw@[i]@),
            r matches Ok(a) ==> views(a.0@) == raw@.map_values(|b: &'static [u8]| decode_utf8(b@)),
            r matches Err(e) ==> e is InvalidUtf8Arg,
    {
        let mut buf: Vec<&'static str> = Vec::new();
        let mut i: usize = 0;
        while i < raw.len()
            invariant
                i <= raw@.len(),
                buf@.len() == i,
                forall|j: int| 0 <= j < i ==> valid_utf8(#[trigger] raw@[j]@),
                forall|j: int| 0 <= j < i ==> (#[trigger] buf@[j])@ == decode_utf8(raw@[j]@),
            decreases raw.len() - i,
        {
            match str_from_utf8(raw[i]) {
                Ok(s) => {
                    proof {
                        encode_utf8_decode_utf8(s@);
                    }
                    buf.push(s);
                },
                Err(_) => {
                    return Err(Error::InvalidUtf8Arg);
                },
            }
            i += 1;
        }
        assert(views(buf@) =~= raw@.map_values(|b: &'static [u8]| decode_utf8(b@)));
        Ok(Args(buf))
    }

    pub fn from_vec(vec: Vec<&'static str>) -> (r: Self)
        ensures
            r.0 == vec,
    {
        Args(vec)
    }
}

} // verus!
