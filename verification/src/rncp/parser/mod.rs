pub mod lex;

use vstd::prelude::*;

use crate::rncp::error::{Error, ParserError};

verus! {

/// Turns an argument's text into a value.
pub trait ValueParser<T: Sized> {
    /// Whether `out` is what parsing `arg` gives.
    spec fn parses_to(&self, arg: &'static str, out: Result<T, Error>) -> bool;

    fn parse(&self, arg: &'static str) -> (r: Result<T, Error>)
        ensures
            self.parses_to(arg, r),
    ;
}

pub struct IntParser;

pub struct StrParser;

/// Whether `c` is a decimal digit.
pub open spec fn is_digit(c: char) -> bool {
    '0' <= c <= '9'
}

/// The number that the decimal digits `ds` write.
pub open spec fn decimal_value(ds: Seq<char>) -> nat
    decreases ds.len(),
{
    if ds.len() == 0 {
        0
    } else {
        decimal_value(ds.drop_last()) * 10 + ((ds.last() as u32) - ('0' as u32)) as nat
    }
}

/// The unsigned integer that `s` writes in decimal: one or more digits, after an
/// optional `+`, whose value fits in a `usize`.
pub open spec fn spec_parse_usize(s: Seq<char>) -> Option<usize> {
    parse_digits(
        if s.len() > 0 && s[0] == '+' {
            s.drop_first()
        } else {
            s
        },
    )
}

/// The number that `digits` writes, where it is one or more decimal digits
/// whose value fits in a `usize`.
pub open spec fn parse_digits(digits: Seq<char>) -> Option<usize> {
    if digits.len() == 0 || !(forall|i: int| 0 <= i < digits.len() ==> is_digit(#[trigger] digits[i]))
        || decimal_value(digits) > usize::MAX {
        None
    } else {
        Some(decimal_value(digits) as usize)
    }
}

/// A longer run of digits writes at least the number of its prefix.
proof fn lemma_decimal_value_grows(ds: Seq<char>, k: int)
    requires
        0 <= k <= ds.len(),
        forall|i: int| 0 <= i < ds.len() ==> is_digit(#[trigger] ds[i]),
    ensures
        decimal_value(ds.take(k)) <= decimal_value(ds),
    decreases ds.len() - k,
{
    if k < ds.len() {
        lemma_decimal_value_grows(ds, k + 1);
        assert(ds.take(k + 1).drop_last() =~= ds.take(k));
    } else {
        assert(ds.take(k) =~= ds);
    }
}

/// A single decimal digit reads as its value, `0` included.
pub proof fn lemma_parse_one_digit(d: char)
    requires
        '0' <= d <= '9',
    ensures
        spec_parse_usize(seq![d]) == Some(((d as u32) - ('0' as u32)) as usize),
{
    let s = seq![d];
    assert(s.drop_last() =~= Seq::<char>::empty());
    assert(s.last() == d);
    assert(forall|i: int| 0 <= i < s.len() ==> is_digit(#[trigger] s[i]));
    assert(s[0] != '+');
    assert(decimal_value(Seq::<char>::empty()) == 0);
    assert(decimal_value(s) == ((d as u32) - ('0' as u32)) as nat);
    assert(parse_digits(s) == Some(((d as u32) - ('0' as u32)) as usize));
}

/// One more digit `d` after a number `v` reads as `v * 10 + d`, as long as that
/// fits in a `usize`, and as nothing where it does not.
pub proof fn lemma_parse_next_digit(ds: Seq<char>, v: usize, d: char)
    requires
        spec_parse_usize(ds) == Some(v),
        '0' <= d <= '9',
    ensures
        v * 10 + ((d as u32) - ('0' as u32)) <= usize::MAX ==> spec_parse_usize(ds.push(d))
            == Some((v * 10 + ((d as u32) - ('0' as u32))) as usize),
        v * 10 + ((d as u32) - ('0' as u32)) > usize::MAX ==> spec_parse_usize(ds.push(d))
            is None,
{
    let digits = if ds.len() > 0 && ds[0] == '+' {
        ds.drop_first()
    } else {
        ds
    };
    let longer = ds.push(d);
    assert(ds.len() > 0);
    assert(longer[0] == ds[0]);
    let digits2 = if longer.len() > 0 && longer[0] == '+' {
        longer.drop_first()
    } else {
        longer
    };
    assert(digits2 =~= digits.push(d));
    assert(digits2.drop_last() =~= digits);
    assert(digits2.last() == d);
    assert(forall|i: int| 0 <= i < digits2.len() ==> is_digit(#[trigger] digits2[i])) by {
        assert forall|i: int| 0 <= i < digits2.len() implies is_digit(#[trigger] digits2[i]) by {
            if i < digits.len() {
                assert(digits2[i] == digits[i]);
            }
        }
    }
}

/// A leading `+` does not change what a run of digits reads as.
pub proof fn lemma_parse_plus_sign(ds: Seq<char>)
    requires
        ds.len() > 0,
        forall|i: int| 0 <= i < ds.len() ==> is_digit(#[trigger] ds[i]),
    ensures
        spec_parse_usize(seq!['+'] + ds) == spec_parse_usize(ds),
{
    assert((seq!['+'] + ds)[0] == '+');
    assert((seq!['+'] + ds).drop_first() =~= ds);
    assert(is_digit(ds[0]));
}

/// Reads an unsigned decimal integer, as `usize::from_str` does.
pub fn parse_usize(s: &str) -> (r: Option<usize>)
    ensures
        r == spec_parse_usize(s@),
{
    let n = s.unicode_len();
    let mut i: usize = 0;
    if n > 0 && s.get_char(0) == '+' {
        i = 1;
    }
    let start = i;
    let ghost digits = s@.skip(start as int);
    assert(digits =~= if s@.len() > 0 && s@[0] == '+' {
        s@.drop_first()
    } else {
        s@
    });
    if start == n {
        return None;
    }
    let mut acc: usize = 0;
    while i < n
        invariant
            n == s@.len(),
            start <= i <= n,
            digits == s@.skip(start as int),
            forall|j: int| 0 <= j < i - start ==> is_digit(#[trigger] digits[j]),
            acc == decimal_value(digits.take(i - start)),
            spec_parse_usize(s@) == parse_digits(digits),
        decreases n - i,
    {
        let c = s.get_char(i);
        assert(c == digits[i - start]);
        if !('0' <= c && c <= '9') {
            assert(!is_digit(digits[i - start]));
            return None;
        }
        assert(digits.take(i - start + 1).drop_last() =~= digits.take(i - start));
        let d = ((c as u32) - ('0' as u32)) as usize;
        let next = match acc.checked_mul(10) {
            Some(m) => m.checked_add(d),
            None => None,
        };
        match next {
            Some(v) => {
                acc = v;
            },
            None => {
                assert(decimal_value(digits.take(i - start + 1)) > usize::MAX);
                proof {
                    if forall|j: int| 0 <= j < digits.len() ==> is_digit(#[trigger] digits[j]) {
                        lemma_decimal_value_grows(digits, i - start + 1);
                    }
                }
                return None;
            },
        }
        i += 1;
    }
    assert(digits.take(n - start) =~= digits);
    Some(acc)
}

impl ValueParser<usize> for IntParser {
    open spec fn parses_to(&self, arg: &'static str, out: Result<usize, Error>) -> bool {
        out == match spec_parse_usize(arg@) {
            Some(v) => Ok(v),
            None => Err(Error::ParseError(ParserError::IntParse(arg))),
        }
    }

    fn parse(&self, arg: &'static str) -> (r: Result<usize, Error>) {
        match parse_usize(arg) {
            Some(v) => Ok(v),
            None => Err(Error::ParseError(ParserError::IntParse(arg))),
        }
    }
}

} // verus!
