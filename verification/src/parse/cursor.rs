use vstd::prelude::*;

use crate::parse::lex::{arg_views, opt_view};
use crate::text::suffix;

verus! {

/// The characters still to come: those left of the current string, then those
/// of the strings not yet entered.
pub open spec fn flat(current: Option<Seq<char>>, upcoming: Seq<Seq<char>>) -> Seq<char> {
    match current {
        Some(c) => c + upcoming.flatten(),
        None => upcoming.flatten(),
    }
}

/// One step of the cursor: the character it yields, then the current string and
/// the strings not yet entered. Exhausted strings are passed over; at the end
/// the cursor holds no current string.
pub open spec fn next_char(current: Option<Seq<char>>, upcoming: Seq<Seq<char>>) -> (
    Option<char>,
    Option<Seq<char>>,
    Seq<Seq<char>>,
)
    decreases upcoming.len(),
{
    match current {
        Some(c) if c.len() > 0 => (Some(c[0]), Some(c.drop_first()), upcoming),
        _ => if upcoming.len() == 0 {
            (None, None, upcoming)
        } else {
            next_char(Some(upcoming[0]), upcoming.drop_first())
        },
    }
}

/// Each step yields the first of the characters still to come, and removes it;
/// when none is yielded, none is left.
pub proof fn lemma_next_char_takes_first(current: Option<Seq<char>>, upcoming: Seq<Seq<char>>)
    ensures
        ({
            let (r, c2, u2) = next_char(current, upcoming);
            match r {
                Some(ch) => flat(current, upcoming) == seq![ch] + flat(c2, u2),
                None => flat(current, upcoming).len() == 0 && flat(c2, u2).len() == 0,
            }
        }),
    decreases upcoming.len(),
{
    match current {
        Some(c) if c.len() > 0 => {
            assert(c + upcoming.flatten() =~= seq![c[0]] + (c.drop_first() + upcoming.flatten()));
        },
        _ => {
            if upcoming.len() == 0 {
                assert(flat(current, upcoming) =~= Seq::<char>::empty());
            } else {
                lemma_next_char_takes_first(Some(upcoming[0]), upcoming.drop_first());
                assert(flat(current, upcoming) =~= flat(Some(upcoming[0]), upcoming.drop_first()));
            }
        },
    }
}

/// What `next_str` yields, then the current string and the strings not yet
/// entered: the rest of the string being read, or else the next string; no
/// string is being read afterwards.
pub open spec fn next_str_step(current: Option<Seq<char>>, upcoming: Seq<Seq<char>>) -> (
    Option<Seq<char>>,
    Option<Seq<char>>,
    Seq<Seq<char>>,
) {
    match current {
        Some(c) => (Some(c), None, upcoming),
        None => if upcoming.len() > 0 {
            (Some(upcoming[0]), None, upcoming.drop_first())
        } else {
            (None, None, upcoming)
        },
    }
}

/// `next_str` yields a prefix of the characters still to come, and removes it.
pub proof fn lemma_next_str_takes_prefix(current: Option<Seq<char>>, upcoming: Seq<Seq<char>>)
    ensures
        ({
            let (r, c2, u2) = next_str_step(current, upcoming);
            match r {
                Some(s) => flat(current, upcoming) == s + flat(c2, u2),
                None => flat(current, upcoming).len() == 0 && flat(c2, u2) == flat(
                    current,
                    upcoming,
                ),
            }
        }),
{
    match current {
        Some(c) => {},
        None => {
            if upcoming.len() > 0 {
                assert(upcoming.flatten() == upcoming[0] + upcoming.drop_first().flatten());
            } else {
                assert(upcoming.flatten() =~= Seq::<char>::empty());
            }
        },
    }
}

/// After `next` takes a character from the string being read, `next_str`
/// yields exactly what is left of that string, even when nothing is left, and
/// the strings not yet entered stay as they were.
pub proof fn lemma_next_str_after_next_in_string(x: Seq<char>, upcoming: Seq<Seq<char>>)
    requires
        x.len() > 0,
    ensures
        ({
            let (r, c, u) = next_char(Some(x), upcoming);
            &&& r == Some(x[0])
            &&& next_str_step(c, u) == (Some(x.drop_first()), None::<Seq<char>>, upcoming)
        }),
{
}

/// On a fresh cursor over a first string `w` that is not empty, `next` yields
/// its first character and then `next_str` yields the rest of `w`, even when it
/// is empty, before any of the following strings.
pub proof fn lemma_next_then_next_str(w: Seq<char>, more: Seq<Seq<char>>)
    requires
        w.len() > 0,
    ensures
        ({
            let (r, c, u) = next_char(None, seq![w] + more);
            &&& r == Some(w[0])
            &&& next_str_step(c, u) == (Some(w.drop_first()), None::<Seq<char>>, more)
        }),
{
    assert((seq![w] + more)[0] == w);
    assert((seq![w] + more).drop_first() =~= more);
    assert(next_char(None, seq![w] + more) == next_char(Some(w), more));
}

/// A call on a cursor.
pub enum CursorCall {
    Next,
    NextStr,
    Peek,
    PeekStr,
}

/// What a call yields, as text (nothing for the peeks), then the current string
/// and the strings not yet entered.
pub open spec fn call_step(call: CursorCall, current: Option<Seq<char>>, upcoming: Seq<Seq<char>>) -> (
    Seq<char>,
    Option<Seq<char>>,
    Seq<Seq<char>>,
) {
    match call {
        CursorCall::Next => {
            let (r, c2, u2) = next_char(current, upcoming);
            (
                match r {
                    Some(ch) => seq![ch],
                    None => Seq::empty(),
                },
                c2,
                u2,
            )
        },
        CursorCall::NextStr => {
            let (r, c2, u2) = next_str_step(current, upcoming);
            (
                match r {
                    Some(s) => s,
                    None => Seq::empty(),
                },
                c2,
                u2,
            )
        },
        _ => (Seq::empty(), current, upcoming),
    }
}

/// What a sequence of calls yields in all, then the state it leaves.
pub open spec fn run_calls(calls: Seq<CursorCall>, current: Option<Seq<char>>, upcoming: Seq<Seq<char>>) -> (
    Seq<char>,
    Option<Seq<char>>,
    Seq<Seq<char>>,
)
    decreases calls.len(),
{
    if calls.len() == 0 {
        (Seq::empty(), current, upcoming)
    } else {
        let (y, c2, u2) = call_step(calls[0], current, upcoming);
        let (ys, c3, u3) = run_calls(calls.drop_first(), c2, u2);
        (y + ys, c3, u3)
    }
}

/// Whatever calls are made, what they yield, in order, followed by what is still
/// to come, is what was to come before them: no character is lost, repeated or
/// reordered.
pub proof fn lemma_calls_lose_nothing(
    calls: Seq<CursorCall>,
    current: Option<Seq<char>>,
    upcoming: Seq<Seq<char>>,
)
    ensures
        ({
            let (ys, c, u) = run_calls(calls, current, upcoming);
            flat(current, upcoming) == ys + flat(c, u)
        }),
    decreases calls.len(),
{
    if calls.len() == 0 {
        assert(flat(current, upcoming) =~= Seq::<char>::empty() + flat(current, upcoming));
    } else {
        let (y, c2, u2) = call_step(calls[0], current, upcoming);
        lemma_next_char_takes_first(current, upcoming);
        lemma_next_str_takes_prefix(current, upcoming);
        lemma_calls_lose_nothing(calls.drop_first(), c2, u2);
        let (ys, c3, u3) = run_calls(calls.drop_first(), c2, u2);
        assert(flat(current, upcoming) == y + flat(c2, u2)) by {
            match calls[0] {
                CursorCall::Next => {
                    if next_char(current, upcoming).0 is None {
                        assert(flat(current, upcoming) =~= Seq::<char>::empty() + flat(c2, u2));
                    }
                },
                CursorCall::NextStr => {
                    if next_str_step(current, upcoming).0 is None {
                        assert(flat(current, upcoming) =~= Seq::<char>::empty() + flat(c2, u2));
                    }
                },
                _ => {
                    assert(flat(current, upcoming) =~= Seq::<char>::empty() + flat(c2, u2));
                },
            }
        }
        assert(y + (ys + flat(c3, u3)) =~= (y + ys) + flat(c3, u3));
    }
}

/// A cursor that reads a list of strings character by character, as one string.
pub struct FlatCursor<'a> {
    strs: &'a [&'a str],
    pos: usize,
    current_chars: Option<&'a str>,
}

impl<'a> FlatCursor<'a> {
    #[verifier::type_invariant]
    closed spec fn inv(self) -> bool {
        self.pos <= self.strs@.len()
    }

    /// What is left of the string being read, if one is.
    pub closed spec fn current(self) -> Option<Seq<char>> {
        opt_view(self.current_chars)
    }

    /// The strings not yet entered.
    pub closed spec fn upcoming(self) -> Seq<Seq<char>> {
        arg_views(self.strs@.skip(self.pos as int))
    }

    /// The characters still to come.
    pub open spec fn rest(self) -> Seq<char> {
        flat(self.current(), self.upcoming())
    }

    pub fn new(iter: &'a [&'a str]) -> (r: Self)
        ensures
            r.current() is None,
            r.upcoming() == arg_views(iter@),
            r.rest() == arg_views(iter@).flatten(),
    {
        assert(iter@.skip(0) =~= iter@);
        FlatCursor { strs: iter, pos: 0, current_chars: None }
    }

    /// The next character, without moving: that of the string being read, or,
    /// where none is being read, the first of the next string.
    pub fn peek(&mut self) -> (r: Option<char>)
        ensures
            final(self).current() == old(self).current(),
            final(self).upcoming() == old(self).upcoming(),
            r == match old(self).current() {
                Some(c) => if c.len() > 0 {
                    Some(c[0])
                } else {
                    None
                },
                None => if old(self).upcoming().len() > 0 && old(self).upcoming()[0].len() > 0 {
                    Some(old(self).upcoming()[0][0])
                } else {
                    None
                },
            },
    {
        proof {
            use_type_invariant(&*self);
        }
        if let Some(chars) = self.current_chars {
            return if chars.unicode_len() > 0 {
                Some(chars.get_char(0))
            } else {
                None
            };
        }
        if self.pos >= self.strs.len() {
            return None;
        }
        let peeked = self.strs[self.pos];
        assert(self.upcoming()[0] == peeked@);
        if peeked.unicode_len() > 0 {
            Some(peeked.get_char(0))
        } else {
            None
        }
    }

    /// What is left of the string being read, if one is.
    pub fn peek_str(&self) -> (r: Option<&'a str>)
        ensures
            opt_view(r) == self.current(),
    {
        self.current_chars
    }

    /// The rest of the string being read, or else the next string; it is then
    /// no longer being read.
    pub fn next_str(&mut self) -> (r: Option<&'a str>)
        ensures
            (opt_view(r), final(self).current(), final(self).upcoming()) == next_str_step(
                old(self).current(),
                old(self).upcoming(),
            ),
            match r {
                Some(s) => old(self).rest() == s@ + final(self).rest(),
                None => old(self).rest().len() == 0 && final(self).rest() == old(self).rest(),
            },
    {
        proof {
            use_type_invariant(&*self);
        }
        proof {
            lemma_next_str_takes_prefix(self.current(), self.upcoming());
        }
        if let Some(chars) = self.current_chars {
            let s = chars;
            self.current_chars = None;
            return Some(s);
        }
        if self.pos >= self.strs.len() {
            return None;
        }
        let next = self.strs[self.pos];
        assert(self.upcoming()[0] == next@);
        assert(self.strs@.skip(self.pos + 1) =~= self.strs@.skip(self.pos as int).drop_first());
        assert(arg_views(self.strs@.skip(self.pos + 1)) =~= self.upcoming().drop_first());
        self.pos = self.pos + 1;
        Some(next)
    }

    /// The next character of the strings, passing over exhausted ones.
    pub fn next(&mut self) -> (r: Option<char>)
        ensures
            (r, final(self).current(), final(self).upcoming()) == next_char(
                old(self).current(),
                old(self).upcoming(),
            ),
            match r {
                Some(ch) => old(self).rest() == seq![ch] + final(self).rest(),
                None => old(self).rest().len() == 0 && final(self).rest().len() == 0,
            },
    {
        let ghost goal = next_char(self.current(), self.upcoming());
        proof {
            lemma_next_char_takes_first(self.current(), self.upcoming());
        }
        loop
            invariant
                next_char(self.current(), self.upcoming()) == goal,
                goal == next_char(old(self).current(), old(self).upcoming()),
                match goal.0 {
                    Some(ch) => old(self).rest() == seq![ch] + flat(goal.1, goal.2),
                    None => old(self).rest().len() == 0 && flat(goal.1, goal.2).len() == 0,
                },
            decreases self.strs@.len() - self.pos,
        {
            proof {
                use_type_invariant(&*self);
            }
            if let Some(chars) = self.current_chars {
                if chars.unicode_len() > 0 {
                    let ch = chars.get_char(0);
                    let rest = suffix(chars, 1);
                    assert(rest@ =~= chars@.drop_first());
                    self.current_chars = Some(rest);
                    return Some(ch);
                }
                self.current_chars = None;
            }
            if self.pos >= self.strs.len() {
                return None;
            }
            let s = self.strs[self.pos];
            let ghost up = self.upcoming();
            assert(up[0] == s@);
            assert(arg_views(self.strs@.skip(self.pos + 1)) =~= up.drop_first());
            assert(next_char(self.current(), up) == next_char(Some(s@), up.drop_first()));
            self.current_chars = Some(s);
            self.pos = self.pos + 1;
            // Loop will retry next time with new current_chars
        }
    }
}

} // verus!
