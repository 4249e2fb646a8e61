use core::str::Utf8Error;
use vstd::prelude::*;
use vstd::utf8::{decode_utf8, encode_utf8_decode_utf8, valid_utf8};

use crate::utf8::str_from_utf8;

verus! {

/// The bytes before the first null byte.
pub open spec fn until_null(mem: Seq<u8>) -> Seq<u8> {
    match mem.index_of_first(0u8) {
        Some(i) => mem.take(i),
        None => mem,
    }
}

/// Wrapper around a null-terminated byte sequence.
#[derive(Copy, Clone, Debug)]
pub struct Arg {
    inner: &'static [u8],
}

impl Arg {
    #[verifier::type_invariant]
    closed spec fn inv(self) -> bool {
        self.inner@.contains(0u8)
    }

    /// The memory the argument starts at, up to and past its terminator.
    pub closed spec fn memory(self) -> Seq<u8> {
        self.inner@
    }

    /// The bytes of the argument, before the null terminator.
    pub open spec fn bytes(self) -> Seq<u8> {
        until_null(self.memory())
    }

    /// Wraps memory that holds a null terminator; `None` where it holds none.
    pub fn from_bytes(inner: &'static [u8]) -> (r: Option<Arg>)
        ensures
            r is Some <==> inner@.contains(0u8),
            r matches Some(a) ==> a.memory() == inner@,
    {
        let mut i: usize = 0;
        while i < inner.len()
            invariant
                i <= inner@.len(),
                forall|j: int| 0 <= j < i ==> inner@[j] != 0u8,
            decreases inner.len() - i,
        {
            if inner[i] == 0 {
                assert(inner@.contains(0u8)) by {
                    assert(inner@[i as int] == 0u8);
                }
                return Some(Arg { inner });
            }
            i += 1;
        }
        None
    }

    /// Calculates the length of the byte sequence
    /// by counting bytes until the null terminator.
    pub fn len(&self) -> (r: usize)
        ensures
            r == self.bytes().len(),
    {
        proof {
            use_type_invariant(self);
            self.inner@.index_of_first_ensures(0u8);
        }
        let mut idx: usize = 0;
        while self.inner[idx] != 0
            invariant
                self.inner@.contains(0u8),
                match self.inner@.index_of_first(0u8) {
                    Some(z) => idx <= z < self.inner@.len() && self.inner@[z] == 0u8 && forall|j: int|
                        0 <= j < z ==> self.inner@[j] != 0u8,
                    None => false,
                },
            decreases self.inner@.len() - idx,
        {
            idx += 1;
        }
        idx
    }

    /// Checks the length of the byte sequence
    pub fn is_empty(&self) -> (r: bool)
        ensures
            r == (self.bytes().len() == 0),
    {
        self.len() == 0
    }

    /// Returns a byte slice of the underlying data,
    /// until the null-terminator.
    pub fn as_bytes(&self) -> (r: &[u8])
        ensures
            r@ == self.bytes(),
    {
        let n = self.len();
        proof {
            use_type_invariant(self);
            self.inner@.index_of_first_ensures(0u8);
        }
        let (head, _) = self.inner.split_at(n);
        head
    }

    /// Try to convert slice from `as_bytes` into a UTF-8 &str
    pub fn as_str(&self) -> (r: Result<&str, Utf8Error>)
        ensures
            r is Ok <==> valid_utf8(self.bytes()),
            r matches Ok(s) ==> s@ == decode_utf8(self.bytes()),
    {
        let r = str_from_utf8(self.as_bytes());
        proof {
            if let Ok(s) = r {
                encode_utf8_decode_utf8(s@);
            }
        }
        r
    }
}

} // verus!
