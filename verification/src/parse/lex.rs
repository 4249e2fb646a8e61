use vstd::prelude::*;

use crate::parse::error::Error;
use crate::text::{str_eq, begins_with, begins_with_two_dashes, first_index_of, starts_with_char, starts_with_two_dashes, find_char, suffix};

verus! {

/// One lexed piece of the command line.
#[derive(Debug, PartialEq, Eq)]
pub enum Token<'a> {
    /// An option by its long name, with its value if it has one.
    Option(&'a str, Option<&'a str>),
    /// A plain argument.
    Value(&'a str),
    /// Something the lexer could not make sense of.
    Error(Error),
}

/// A token with each string taken by its characters.
pub enum SpecToken {
    Option(Seq<char>, Option<Seq<char>>),
    Value(Seq<char>),
    Error(Error),
}

/// The characters of an optional string.
pub open spec fn opt_view(v: Option<&str>) -> Option<Seq<char>> {
    match v {
        Some(s) => Some(s@),
        None => None,
    }
}

impl<'a> View for Token<'a> {
    type V = SpecToken;

    open spec fn view(&self) -> SpecToken {
        match *self {
            Token::Option(name, value) => SpecToken::Option(name@, opt_view(value)),
            Token::Value(v) => SpecToken::Value(v@),
            Token::Error(e) => SpecToken::Error(e),
        }
    }
}

/// The tokens of a vector, each by its view.
pub open spec fn token_views<'a>(ts: Seq<Token<'a>>) -> Seq<SpecToken> {
    ts.map_values(|t: Token<'a>| t@)
}

/// Whether an option takes a value.
#[derive(Debug, Clone, Copy, PartialEq, Eq)]
pub enum ArgType {
    /// No argument expected
    NoValue,
    /// Argument required
    Required,
    /// Optional argument
    Option,
}

///                   long name     type     short name
pub type CliOption = (&'static str, ArgType, char);

/// Since we need to know declared options in a parsing stage,
/// lookup table is declared here
pub struct LookupTable(pub &'static [CliOption]);

/// The first row whose short name is `c`.
pub open spec fn find_short(rows: Seq<CliOption>, c: char) -> Option<CliOption>
    decreases rows.len(),
{
    if rows.len() == 0 {
        None
    } else if rows[0].2 == c {
        Some(rows[0])
    } else {
        find_short(rows.drop_first(), c)
    }
}

/// The first row whose long name is `name`.
pub open spec fn find_long(rows: Seq<CliOption>, name: Seq<char>) -> Option<CliOption>
    decreases rows.len(),
{
    if rows.len() == 0 {
        None
    } else if rows[0].0@ == name {
        Some(rows[0])
    } else {
        find_long(rows.drop_first(), name)
    }
}

/// Using a linear search here because the number of CLI arguments
/// is usually small, so no need to have a hashmap here just for that.
/// GNU's `getopt` lookup table implemented the same way.
impl LookupTable {
    pub fn lookup_short(&self, arg: char) -> (r: Option<&'static CliOption>)
        ensures
            match r {
                Some(row) => find_short(self.0@, arg) == Some(*row),
                None => find_short(self.0@, arg) is None,
            },
    {
        let rows = self.0;
        let mut i: usize = 0;
        assert(rows@.skip(0) =~= rows@);
        while i < rows.len()
            invariant
                i <= rows@.len(),
                rows@ == self.0@,
                find_short(rows@, arg) == find_short(rows@.skip(i as int), arg),
            decreases rows.len() - i,
        {
            assert(rows@.skip(i as int).drop_first() =~= rows@.skip(i + 1));
            assert(rows@.skip(i as int)[0] == rows@[i as int]);
            if rows[i].2 == arg {
                return Some(&rows[i]);
            }
            i += 1;
        }
        None
    }

    pub fn lookup_long(&self, name: &str) -> (r: Option<&'static CliOption>)
        ensures
            match r {
                Some(row) => find_long(self.0@, name@) == Some(*row),
                None => find_long(self.0@, name@) is None,
            },
    {
        let rows = self.0;
        let mut i: usize = 0;
        assert(rows@.skip(0) =~= rows@);
        while i < rows.len()
            invariant
                i <= rows@.len(),
                rows@ == self.0@,
                find_long(rows@, name@) == find_long(rows@.skip(i as int), name@),
            decreases rows.len() - i,
        {
            assert(rows@.skip(i as int).drop_first() =~= rows@.skip(i + 1));
            assert(rows@.skip(i as int)[0] == rows@[i as int]);
            if str_eq(rows[i].0, name) {
                return Some(&rows[i]);
            }
            i += 1;
        }
        None
    }
}

/// The characters of each argument.
pub open spec fn arg_views<'a>(args: Seq<&'a str>) -> Seq<Seq<char>> {
    args.map_values(|a: &'a str| a@)
}

/// The token of a `--` argument, given its text after the two dashes:
/// the name up to the first `=`, the value after it, and an error in place of
/// an option that requires a value and got none.
pub open spec fn long_token(rows: Seq<CliOption>, raw: Seq<char>) -> SpecToken {
    let key = match first_index_of(raw, '=') {
        Some(i) => raw.take(i),
        None => raw,
    };
    let value = match first_index_of(raw, '=') {
        Some(i) => Some(raw.skip(i + 1)),
        None => None,
    };
    match find_long(rows, key) {
        Some(row) => if row.1 == ArgType::Required && value is None {
            SpecToken::Error(Error::MissingArgValue)
        } else {
            SpecToken::Option(key, value)
        },
        None => SpecToken::Option(key, value),
    }
}

/// The tokens of a command line: a `--name[=value]` argument gives one token,
/// a `-xyz` cluster gives the tokens of its characters, anything else is a value.
pub open spec fn tokenize(rows: Seq<CliOption>, args: Seq<Seq<char>>) -> Seq<SpecToken>
    decreases args.len(), 0int,
{
    if args.len() == 0 {
        Seq::empty()
    } else {
        let a = args[0];
        let rest = args.drop_first();
        if begins_with_two_dashes(a) {
            seq![long_token(rows, a.skip(2))] + tokenize(rows, rest)
        } else if begins_with(a, '-') {
            short_tokens(rows, a.skip(1), rest)
        } else {
            seq![SpecToken::Value(a)] + tokenize(rows, rest)
        }
    }
}

/// The tokens of the characters `chars` of a short option cluster, followed by
/// the arguments `rest`. An option that takes a value takes the rest of the
/// cluster, or the next argument where the cluster ends; an empty cluster ends
/// the command line.
pub open spec fn short_tokens(rows: Seq<CliOption>, chars: Seq<char>, rest: Seq<Seq<char>>) -> Seq<
    SpecToken,
>
    decreases rest.len(), chars.len() + 1,
{
    if chars.len() == 0 {
        Seq::empty()
    } else {
        let c = chars[0];
        let tail = chars.drop_first();
        match find_short(rows, c) {
            None => seq![SpecToken::Error(Error::UnknownShortOption(c))] + short_tokens(
                rows,
                tail,
                rest,
            ),
            Some(row) => if row.1 == ArgType::NoValue {
                seq![SpecToken::Option(row.0@, None)] + if tail.len() == 0 {
                    tokenize(rows, rest)
                } else {
                    short_tokens(rows, tail, rest)
                }
            } else if tail.len() != 0 {
                seq![SpecToken::Option(row.0@, Some(tail))] + tokenize(rows, rest)
            } else if rest.len() == 0 {
                seq![SpecToken::Option(row.0@, None)]
            } else {
                seq![SpecToken::Option(row.0@, Some(rest[0]))] + tokenize(rows, rest.drop_first())
            },
        }
    }
}

/// Arguments that do not begin with a dash are passed through as values, one
/// for one and in order.
pub proof fn lemma_plain_args_are_values(rows: Seq<CliOption>, args: Seq<Seq<char>>)
    requires
        forall|i: int| 0 <= i < args.len() ==> !begins_with(#[trigger] args[i], '-'),
    ensures
        tokenize(rows, args) == args.map_values(|a: Seq<char>| SpecToken::Value(a)),
    decreases args.len(),
{
    if args.len() > 0 {
        assert(!begins_with(args[0], '-'));
        assert(forall|i: int| 0 <= i < args.drop_first().len() ==> args.drop_first()[i] == args[i + 1]);
        lemma_plain_args_are_values(rows, args.drop_first());
        assert(args.map_values(|a: Seq<char>| SpecToken::Value(a)) =~= seq![SpecToken::Value(args[0])]
            + args.drop_first().map_values(|a: Seq<char>| SpecToken::Value(a)));
    } else {
        assert(args.map_values(|a: Seq<char>| SpecToken::Value(a)) =~= Seq::<SpecToken>::empty());
    }
}

/// The arguments `-c`, one for each character `c` of `cs`.
pub open spec fn separate_flags(cs: Seq<char>) -> Seq<Seq<char>> {
    cs.map_values(|c: char| seq!['-', c])
}

/// Every character of `cs` is a short flag of the table that takes no value,
/// and none is a dash.
pub open spec fn all_plain_flags(rows: Seq<CliOption>, cs: Seq<char>) -> bool {
    forall|i: int| 0 <= i < cs.len() ==> is_plain_flag(rows, #[trigger] cs[i])
}

/// `c` is a short flag of the table that takes no value, and not a dash.
pub open spec fn is_plain_flag(rows: Seq<CliOption>, c: char) -> bool {
    c != '-' && match find_short(rows, c) {
        Some(row) => row.1 == ArgType::NoValue,
        None => false,
    }
}

/// The rest of a cluster of flags, followed by `rest`, lexes as those flags
/// given one by one.
proof fn lemma_cluster_tail_is_separate_flags(
    rows: Seq<CliOption>,
    cs: Seq<char>,
    rest: Seq<Seq<char>>,
)
    requires
        cs.len() > 0,
        all_plain_flags(rows, cs),
    ensures
        short_tokens(rows, cs, rest) == tokenize(rows, separate_flags(cs) + rest),
    decreases cs.len(),
{
    let c = cs[0];
    let tail = cs.drop_first();
    let one = seq!['-', c];
    let after = separate_flags(tail) + rest;
    assert(c != '-');
    assert(separate_flags(cs) + rest =~= seq![one] + after);
    assert((seq![one] + after)[0] == one);
    assert((seq![one] + after).drop_first() =~= after);
    assert(one.skip(1) =~= seq![c]);
    assert(seq![c].drop_first() =~= Seq::<char>::empty());
    assert(tokenize(rows, seq![one] + after) == short_tokens(rows, seq![c], after));
    if tail.len() == 0 {
        assert(after =~= rest);
    } else {
        assert(all_plain_flags(rows, tail)) by {
            assert forall|i: int| 0 <= i < tail.len() implies is_plain_flag(rows, #[trigger] tail[i]) by {
                assert(tail[i] == cs[i + 1]);
            }
        }
        lemma_cluster_tail_is_separate_flags(rows, tail, rest);
    }
}

/// A cluster `-c1c2...ck` of flags that take no value lexes as the flags
/// `-c1`, `-c2`, ..., `-ck` given one by one, whatever follows.
pub proof fn lemma_cluster_is_separate_flags(rows: Seq<CliOption>, cs: Seq<char>, rest: Seq<Seq<char>>)
    requires
        cs.len() > 0,
        all_plain_flags(rows, cs),
    ensures
        tokenize(rows, seq![seq!['-'] + cs] + rest) == tokenize(rows, separate_flags(cs) + rest),
{
    let cluster = seq!['-'] + cs;
    assert(cluster[1] == cs[0]);
    assert(cs[0] != '-');
    assert(cluster.skip(1) =~= cs);
    assert((seq![cluster] + rest)[0] == cluster);
    assert((seq![cluster] + rest).drop_first() =~= rest);
    lemma_cluster_tail_is_separate_flags(rows, cs, rest);
}

/// The first row whose short name is `rows[i].2` is `rows[i]` when no row before
/// it has that short name.
pub proof fn lemma_find_short_first(rows: Seq<CliOption>, i: int)
    requires
        0 <= i < rows.len(),
        forall|j: int| 0 <= j < i ==> (#[trigger] rows[j]).2 != rows[i].2,
    ensures
        find_short(rows, rows[i].2) == Some(rows[i]),
    decreases i,
{
    if i > 0 {
        let d = rows.drop_first();
        assert(rows[0].2 != rows[i].2);
        assert(d[i - 1] == rows[i]);
        assert forall|j: int| 0 <= j < i - 1 implies (#[trigger] d[j]).2 != d[i - 1].2 by {
            assert(d[j] == rows[j + 1]);
        }
        lemma_find_short_first(d, i - 1);
    }
}

/// The first row whose long name is that of `rows[i]` is `rows[i]` when no row
/// before it has that long name.
pub proof fn lemma_find_long_first(rows: Seq<CliOption>, i: int)
    requires
        0 <= i < rows.len(),
        forall|j: int| 0 <= j < i ==> (#[trigger] rows[j]).0@ != rows[i].0@,
    ensures
        find_long(rows, rows[i].0@) == Some(rows[i]),
    decreases i,
{
    if i > 0 {
        let d = rows.drop_first();
        assert(rows[0].0@ != rows[i].0@);
        assert(d[i - 1] == rows[i]);
        assert forall|j: int| 0 <= j < i - 1 implies (#[trigger] d[j]).0@ != d[i - 1].0@ by {
            assert(d[j] == rows[j + 1]);
        }
        lemma_find_long_first(d, i - 1);
    }
}

/// An option that takes a value (required or optional) and is followed by more
/// characters in its cluster takes all of them as its value, as one token, and
/// the following arguments are lexed on their own.
pub proof fn lemma_value_option_takes_rest_of_cluster(
    rows: Seq<CliOption>,
    i: int,
    t: Seq<char>,
    rest: Seq<Seq<char>>,
)
    requires
        0 <= i < rows.len(),
        forall|j: int| 0 <= j < i ==> (#[trigger] rows[j]).2 != rows[i].2,
        rows[i].2 != '-',
        rows[i].1 != ArgType::NoValue,
        t.len() > 0,
    ensures
        tokenize(rows, seq![seq!['-', rows[i].2] + t] + rest) == seq![
            SpecToken::Option(rows[i].0@, Some(t)),
        ] + tokenize(rows, rest),
{
    let c = rows[i].2;
    let arg = seq!['-', c] + t;
    lemma_find_short_first(rows, i);
    assert(arg[0] == '-' && arg[1] == c);
    assert(arg.skip(1) =~= seq![c] + t);
    assert((seq![c] + t)[0] == c);
    assert((seq![c] + t).drop_first() =~= t);
    assert((seq![arg] + rest)[0] == arg);
    assert((seq![arg] + rest).drop_first() =~= rest);
    assert(!begins_with_two_dashes(arg) && begins_with(arg, '-'));
    assert(tokenize(rows, seq![arg] + rest) == short_tokens(rows, seq![c] + t, rest));
    assert(short_tokens(rows, seq![c] + t, rest) == seq![SpecToken::Option(rows[i].0@, Some(t))]
        + tokenize(rows, rest));
}

/// An option that takes a value (required or optional) and ends its cluster
/// takes the next argument as its value, whatever it holds.
pub proof fn lemma_value_option_takes_next_argument(
    rows: Seq<CliOption>,
    i: int,
    v: Seq<char>,
    rest: Seq<Seq<char>>,
)
    requires
        0 <= i < rows.len(),
        forall|j: int| 0 <= j < i ==> (#[trigger] rows[j]).2 != rows[i].2,
        rows[i].2 != '-',
        rows[i].1 != ArgType::NoValue,
    ensures
        tokenize(rows, seq![seq!['-', rows[i].2], v] + rest) == seq![
            SpecToken::Option(rows[i].0@, Some(v)),
        ] + tokenize(rows, rest),
{
    let c = rows[i].2;
    let arg = seq!['-', c];
    let after = seq![v] + rest;
    lemma_find_short_first(rows, i);
    assert(arg.skip(1) =~= seq![c]);
    assert(seq![c].drop_first() =~= Seq::<char>::empty());
    assert(seq![arg, v] + rest =~= seq![arg] + after);
    assert((seq![arg] + after)[0] == arg);
    assert((seq![arg] + after).drop_first() =~= after);
    assert(after[0] == v);
    assert(after.drop_first() =~= rest);
    assert(!begins_with_two_dashes(arg) && begins_with(arg, '-'));
    assert(tokenize(rows, seq![arg] + after) == short_tokens(rows, seq![c], after));
    assert(short_tokens(rows, seq![c], after) == seq![SpecToken::Option(rows[i].0@, Some(v))]
        + tokenize(rows, rest));
}

/// Taking one argument off the front of the argument list.
pub(crate) proof fn lemma_rest_step<'a>(src: Seq<&'a str>, pos: int)
    requires
        0 <= pos < src.len(),
    ensures
        arg_views(src.skip(pos + 1)) =~= arg_views(src.skip(pos)).drop_first(),
        arg_views(src.skip(pos)).len() > 0,
        arg_views(src.skip(pos))[0] == src[pos]@,
{
}

/// As long as the parser is implemented as a state machine,
/// this enum contains all possible states of parser.
#[derive(Clone, Copy)]
pub enum ParseState<'a> {
    /// Inside a short option cluster; `chars` is what is left of it.
    Short { chars: &'a str },
    /// At a `--` argument.
    Long,
    /// At a plain argument.
    Value,
    /// Between arguments.
    Idle,
}

/// A lexer over a list of arguments, yielding one token per call of `next`.
pub struct Parser<'a> {
    src: &'a [&'a str],
    pos: usize,
    table: LookupTable,
    state: ParseState<'a>,
}

impl<'a> Parser<'a> {
    #[verifier::type_invariant]
    closed spec fn inv(self) -> bool {
        &&& self.pos <= self.src@.len()
        &&& match self.state {
            ParseState::Long => self.pos < self.src@.len() && begins_with_two_dashes(
                self.src@[self.pos as int]@,
            ),
            ParseState::Value => self.pos < self.src@.len() && !begins_with(
                self.src@[self.pos as int]@,
                '-',
            ),
            _ => true,
        }
    }

    /// The lookup table's rows.
    pub closed spec fn rows(self) -> Seq<CliOption> {
        self.table.0@
    }

    /// The arguments not yet taken.
    pub closed spec fn rest(self) -> Seq<Seq<char>> {
        arg_views(self.src@.skip(self.pos as int))
    }

    /// The tokens that the following calls of `next` yield, in order.
    pub closed spec fn pending(self) -> Seq<SpecToken> {
        match self.state {
            ParseState::Short { chars } => short_tokens(self.rows(), chars@, self.rest()),
            _ => tokenize(self.rows(), self.rest()),
        }
    }

    pub fn new(src: &'a [&'a str], table: LookupTable) -> (r: Self)
        ensures
            r.pending() == tokenize(table.0@, arg_views(src@)),
            r.rows() == table.0@,
    {
        let r = Self { src, pos: 0, table, state: ParseState::Idle };
        assert(src@.skip(0) =~= src@);
        r
    }

    /// One step of the token stream: `r` is its first token, or there is none left.
    pub open spec fn steps_to(old_pending: Seq<SpecToken>, new_pending: Seq<SpecToken>, r: Option<
        Token<'a>,
    >) -> bool {
        match r {
            Some(t) => old_pending == seq![t@] + new_pending,
            None => old_pending == Seq::<SpecToken>::empty() && new_pending
                == Seq::<SpecToken>::empty(),
        }
    }

    /// Yields the next token, or `None` when the command line is used up.
    pub fn next(&mut self) -> (r: Option<Token<'a>>)
        ensures
            Self::steps_to(old(self).pending(), final(self).pending(), r),
            final(self).rows() == old(self).rows(),
    {
        proof {
            use_type_invariant(&*self);
        }
        if let ParseState::Idle = self.state {
            if self.pos >= self.src.len() {
                return None;
            }
            let s = self.src[self.pos];
            proof {
                lemma_rest_step(self.src@, self.pos as int);
            }
            if starts_with_two_dashes(s) {
                self.state = ParseState::Long;
            } else if starts_with_char(s, '-') {
                self.pos = self.pos + 1;
                let chars = suffix(s, 1);
                self.state = ParseState::Short { chars };
            } else {
                self.state = ParseState::Value;
            }
        }
        proof {
            if self.pos < self.src@.len() {
                lemma_rest_step(self.src@, self.pos as int);
            }
        }
        match self.state {
            ParseState::Short { .. } => self.parse_short(),
            ParseState::Long => {
                self.state = ParseState::Idle;
                self.parse_long()
            },
            ParseState::Value => {
                self.state = ParseState::Idle;
                self.parse_value()
            },
            ParseState::Idle => None,
        }
    }

    /// Every token left, in order: what repeated calls of `next` yield.
    pub fn collect(self) -> (r: Vec<Token<'a>>)
        ensures
            token_views(r@) == self.pending(),
    {
        let mut parser = self;
        let mut out: Vec<Token<'a>> = Vec::new();
        let ghost all = parser.pending();
        loop
            invariant
                all == token_views(out@) + parser.pending(),
            ensures
                all == token_views(out@),
            decreases parser.pending().len(),
        {
            match parser.next() {
                Some(t) => {
                    let ghost before = out@;
                    out.push(t);
                    assert(token_views(out@) =~= token_views(before).push(t@));
                    assert(all =~= token_views(out@) + parser.pending());
                },
                None => {
                    assert(all =~= token_views(out@));
                    break ;
                },
            }
        }
        out
    }

    /// The next token of a short option cluster.
    fn parse_short(&mut self) -> (r: Option<Token<'a>>)
        requires
            old(self).state is Short,
        ensures
            Self::steps_to(old(self).pending(), final(self).pending(), r),
            final(self).rows() == old(self).rows(),
    {
        proof {
            use_type_invariant(&*self);
        }
        let chars = match self.state {
            ParseState::Short { chars } => chars,
            _ => return None,
        };
        if chars.unicode_len() == 0 {
            return None;
        }
        let chr = chars.get_char(0);
        let tail = suffix(chars, 1);
        assert(tail@ == chars@.drop_first());
        self.state = ParseState::Short { chars: tail };
        let row = match self.table.lookup_short(chr) {
            Some(row) => row,
            None => return Some(Token::Error(Error::UnknownShortOption(chr))),
        };
        let is_empty = tail.unicode_len() == 0;
        match row.1 {
            ArgType::NoValue => {
                if is_empty {
                    self.state = ParseState::Idle;
                }
                Some(Token::Option(row.0, None))
            },
            _ => {
                proof {
                    if self.pos < self.src@.len() {
                        lemma_rest_step(self.src@, self.pos as int);
                    }
                }
                let val = if is_empty {
                    self.next_src()
                } else {
                    Some(tail)
                };
                self.state = ParseState::Idle;
                Some(Token::Option(row.0, val))
            },
        }
    }

    /// The token of a `--` argument.
    fn parse_long(&mut self) -> (r: Option<Token<'a>>)
        requires
            old(self).state is Idle,
            old(self).pos < old(self).src@.len(),
            begins_with_two_dashes(old(self).src@[old(self).pos as int]@),
        ensures
            final(self).src == old(self).src,
            final(self).table == old(self).table,
            final(self).state is Idle,
            final(self).pos == old(self).pos + 1,
            r matches Some(t) && t@ == long_token(
                old(self).rows(),
                old(self).src@[old(self).pos as int]@.skip(2),
            ),
    {
        let raw = match self.next_src() {
            Some(s) => suffix(s, 2),
            None => return None,
        };
        proof {
            raw@.index_of_first_ensures('=');
        }
        let (key, val) = match find_char(raw, '=') {
            Some(i) => (raw.substring_char(0, i), Some(suffix(raw, i + 1))),
            None => (raw, None),
        };
        if let Some(row) = self.table.lookup_long(key) {
            if let ArgType::Required = row.1 {
                if val.is_none() {
                    return Some(Token::Error(Error::MissingArgValue));
                }
            }
        }
        Some(Token::Option(key, val))
    }

    /// The token of a plain argument.
    fn parse_value(&mut self) -> (r: Option<Token<'a>>)
        requires
            old(self).state is Idle,
            old(self).pos < old(self).src@.len(),
        ensures
            final(self).src == old(self).src,
            final(self).table == old(self).table,
            final(self).state is Idle,
            final(self).pos == old(self).pos + 1,
            r == Some(Token::Value(old(self).src@[old(self).pos as int])),
    {
        match self.next_src() {
            Some(s) => Some(Token::Value(s)),
            None => None,
        }
    }

    /// Takes the next argument, if there is one.
    fn next_src(&mut self) -> (r: Option<&'a str>)
        requires
            old(self).state is Short || old(self).state is Idle,
        ensures
            final(self).src == old(self).src,
            final(self).table == old(self).table,
            final(self).state == old(self).state,
            old(self).pos < old(self).src@.len() ==> {
                &&& r == Some(old(self).src@[old(self).pos as int])
                &&& final(self).pos == old(self).pos + 1
            },
            old(self).pos >= old(self).src@.len() ==> r is None && final(self).pos == old(self).pos,
    {
        proof {
            use_type_invariant(&*self);
        }
        if self.pos < self.src.len() {
            let s = self.src[self.pos];
            self.pos = self.pos + 1;
            Some(s)
        } else {
            None
        }
    }
}

} // verus!
