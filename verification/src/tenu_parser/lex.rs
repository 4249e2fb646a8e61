use vstd::prelude::*;

pub use crate::parse::lex::{ArgType, CliOption, LookupTable};
use crate::parse::lex::{
    all_plain_flags, arg_views, find_long, find_short, is_plain_flag, lemma_find_long_first,
    lemma_find_short_first, lemma_rest_step, opt_view, separate_flags, SpecToken,
};
use crate::tenu_parser::error::Error;
use crate::text::{begins_with, find_char, first_index_of, starts_with_char, str_eq, suffix};

verus! {

/// One parsed piece of the command line.
#[derive(Debug, PartialEq)]
pub enum Token<'a> {
    /// An option by the name it was given, with its value if it has one.
    Option(&'a str, Option<&'a str>),
    /// A plain argument.
    Value(&'a str),
}

impl<'a> View for Token<'a> {
    type V = SpecToken;

    open spec fn view(&self) -> SpecToken {
        match *self {
            Token::Option(name, value) => SpecToken::Option(name@, opt_view(value)),
            Token::Value(v) => SpecToken::Value(v@),
        }
    }
}

/// The tokens of a vector, each by its view.
pub open spec fn token_views<'a>(ts: Seq<Token<'a>>) -> Seq<SpecToken> {
    ts.map_values(|t: Token<'a>| t@)
}

/// How parsing a command line ends.
pub enum Outcome {
    /// With these tokens.
    Tokens(Seq<SpecToken>),
    /// An option that requires a value is last.
    MissingArg,
    /// A long option that the table does not declare.
    UnknownLong(Seq<char>),
    /// A short option character that the table does not declare.
    UnknownShort(char),
}

/// What one argument gives: tokens and the number of following arguments it
/// takes as a value, or an outcome that ends parsing.
pub enum ArgStep {
    Took(Seq<SpecToken>, nat),
    Stop(Outcome),
}

/// The value that an option of type `ty` takes from the arguments `rest` that
/// follow it, and how many of them it takes; or that a required one is missing.
pub enum ValueTake {
    Take(Option<Seq<char>>, nat),
    Missing,
}

pub open spec fn option_value(ty: ArgType, rest: Seq<Seq<char>>) -> ValueTake {
    match ty {
        ArgType::NoValue => ValueTake::Take(None, 0),
        ArgType::Required => if rest.len() > 0 {
            ValueTake::Take(Some(rest[0]), 1)
        } else {
            ValueTake::Missing
        },
        ArgType::Option => if rest.len() > 0 && !begins_with(rest[0], '-') {
            ValueTake::Take(Some(rest[0]), 1)
        } else {
            ValueTake::Take(None, 0)
        },
    }
}

/// An option token named `name` whose value is taken from `rest` by type `ty`.
pub open spec fn option_with_taken_value(name: Seq<char>, ty: ArgType, rest: Seq<Seq<char>>) -> ArgStep {
    match option_value(ty, rest) {
        ValueTake::Take(v, n) => ArgStep::Took(seq![SpecToken::Option(name, v)], n),
        ValueTake::Missing => ArgStep::Stop(Outcome::MissingArg),
    }
}

/// What `--name[=value]` gives, `name` being the text after the dashes.
pub open spec fn long_step(rows: Seq<CliOption>, name: Seq<char>, rest: Seq<Seq<char>>) -> ArgStep {
    match first_index_of(name, '=') {
        Some(i) => if find_long(rows, name.take(i)) is Some {
            ArgStep::Took(seq![SpecToken::Option(name.take(i), Some(name.skip(i + 1)))], 0)
        } else {
            ArgStep::Stop(Outcome::UnknownLong(name.take(i)))
        },
        None => match find_long(rows, name) {
            Some(row) => option_with_taken_value(name, row.1, rest),
            None => ArgStep::Stop(Outcome::UnknownLong(name)),
        },
    }
}

/// The tokens before those of a step.
pub open spec fn step_after(ts: Seq<SpecToken>, step: ArgStep) -> ArgStep {
    match step {
        ArgStep::Took(more, n) => ArgStep::Took(ts + more, n),
        ArgStep::Stop(o) => ArgStep::Stop(o),
    }
}

/// What the characters `chars` of a short option cluster give: each flag that
/// takes no value gives its option and the cluster goes on; an option that takes
/// a value takes the rest of the cluster, or else the next argument, and ends it.
pub open spec fn cluster_step(rows: Seq<CliOption>, chars: Seq<char>, rest: Seq<Seq<char>>) -> ArgStep
    decreases chars.len(),
{
    if chars.len() == 0 {
        ArgStep::Took(Seq::empty(), 0)
    } else {
        let c = chars[0];
        let tail = chars.drop_first();
        match find_short(rows, c) {
            None => ArgStep::Stop(Outcome::UnknownShort(c)),
            Some(row) => if row.1 == ArgType::NoValue {
                step_after(seq![SpecToken::Option(row.0@, None)], cluster_step(rows, tail, rest))
            } else if tail.len() > 0 {
                ArgStep::Took(seq![SpecToken::Option(row.0@, Some(tail))], 0)
            } else {
                option_with_taken_value(row.0@, row.1, rest)
            },
        }
    }
}

/// What a `-xyz` argument gives: the tokens of its cluster.
pub open spec fn short_step(rows: Seq<CliOption>, arg: Seq<char>, rest: Seq<Seq<char>>) -> ArgStep {
    cluster_step(rows, arg.skip(1), rest)
}

/// What an argument other than the `--` terminator gives: a long option, a
/// short option cluster, or a value.
pub open spec fn arg_step(rows: Seq<CliOption>, arg: Seq<char>, rest: Seq<Seq<char>>) -> ArgStep {
    if begins_with(arg, '-') {
        if arg.len() >= 2 && arg[1] == '-' {
            long_step(rows, arg.skip(2), rest)
        } else {
            short_step(rows, arg, rest)
        }
    } else {
        ArgStep::Took(seq![SpecToken::Value(arg)], 0)
    }
}

/// `ts` in front of the tokens of an outcome.
pub open spec fn prepend(ts: Seq<SpecToken>, o: Outcome) -> Outcome {
    match o {
        Outcome::Tokens(rest) => Outcome::Tokens(ts + rest),
        _ => o,
    }
}

/// The `--` terminator.
pub open spec fn is_terminator(arg: Seq<char>) -> bool {
    arg == seq!['-', '-']
}

/// Parsing `args`, `raw` telling whether a terminator has been seen: the outcome
/// and whether a terminator has been seen at the end.
pub open spec fn run(rows: Seq<CliOption>, raw: bool, args: Seq<Seq<char>>) -> (Outcome, bool)
    decreases args.len(),
{
    if args.len() == 0 {
        (Outcome::Tokens(Seq::empty()), raw)
    } else {
        let a = args[0];
        let rest = args.drop_first();
        if !raw && is_terminator(a) {
            run(rows, true, rest)
        } else if raw {
            let (o, f) = run(rows, true, rest);
            (prepend(seq![SpecToken::Value(a)], o), f)
        } else {
            match arg_step(rows, a, rest) {
                ArgStep::Took(ts, n) => if n <= rest.len() {
                    let (o, f) = run(rows, false, rest.skip(n as int));
                    (prepend(ts, o), f)
                } else {
                    (Outcome::Tokens(ts), false)
                },
                ArgStep::Stop(o) => (o, false),
            }
        }
    }
}

/// The options of the flags `cs`, each without a value.
pub open spec fn flag_tokens(rows: Seq<CliOption>, cs: Seq<char>) -> Seq<SpecToken> {
    cs.map_values(|c: char| SpecToken::Option(find_short(rows, c).unwrap().0@, None))
}

/// A cluster of flags that take no value gives their options and takes no
/// following argument.
proof fn lemma_plain_cluster_step(rows: Seq<CliOption>, cs: Seq<char>, rest: Seq<Seq<char>>)
    requires
        all_plain_flags(rows, cs),
    ensures
        cluster_step(rows, cs, rest) == ArgStep::Took(flag_tokens(rows, cs), 0),
    decreases cs.len(),
{
    if cs.len() == 0 {
        assert(flag_tokens(rows, cs) =~= Seq::<SpecToken>::empty());
    } else {
        let tail = cs.drop_first();
        assert(is_plain_flag(rows, cs[0]));
        assert(all_plain_flags(rows, tail)) by {
            assert forall|i: int| 0 <= i < tail.len() implies is_plain_flag(rows, #[trigger] tail[i]) by {
                assert(tail[i] == cs[i + 1]);
            }
        }
        lemma_plain_cluster_step(rows, tail, rest);
        assert(flag_tokens(rows, cs) =~= seq![
            SpecToken::Option(find_short(rows, cs[0]).unwrap().0@, None),
        ] + flag_tokens(rows, tail));
    }
}

/// The flags `-c` for each character of `cs`, followed by `rest`, give the
/// flags' options before what `rest` gives.
proof fn lemma_separate_flags_run(rows: Seq<CliOption>, cs: Seq<char>, rest: Seq<Seq<char>>)
    requires
        all_plain_flags(rows, cs),
    ensures
        run(rows, false, separate_flags(cs) + rest) == ({
            let (o, f) = run(rows, false, rest);
            (prepend(flag_tokens(rows, cs), o), f)
        }),
    decreases cs.len(),
{
    let (o, f) = run(rows, false, rest);
    if cs.len() == 0 {
        assert(separate_flags(cs) + rest =~= rest);
        assert(flag_tokens(rows, cs) =~= Seq::<SpecToken>::empty());
        if let Outcome::Tokens(ts) = o {
            assert(Seq::<SpecToken>::empty() + ts =~= ts);
        }
    } else {
        let c = cs[0];
        let tail = cs.drop_first();
        let one = seq!['-', c];
        let after = separate_flags(tail) + rest;
        assert(is_plain_flag(rows, c));
        assert(all_plain_flags(rows, tail)) by {
            assert forall|i: int| 0 <= i < tail.len() implies is_plain_flag(rows, #[trigger] tail[i]) by {
                assert(tail[i] == cs[i + 1]);
            }
        }
        assert(separate_flags(cs) + rest =~= seq![one] + after);
        assert((seq![one] + after)[0] == one);
        assert((seq![one] + after).drop_first() =~= after);
        assert(!is_terminator(one));
        assert(one.skip(1) =~= seq![c]);
        lemma_plain_cluster_step(rows, seq![c], after);
        let first = flag_tokens(rows, seq![c]);
        assert(arg_step(rows, one, after) == ArgStep::Took(first, 0));
        assert(after.skip(0) =~= after);
        lemma_separate_flags_run(rows, tail, rest);
        lemma_prepend_twice(first, flag_tokens(rows, tail), o);
        assert(first + flag_tokens(rows, tail) =~= flag_tokens(rows, cs));
    }
}

/// A cluster `-c1c2...ck` of flags that take no value parses as the flags
/// `-c1`, `-c2`, ..., `-ck` given one by one, whatever follows.
pub proof fn lemma_cluster_is_separate_flags(rows: Seq<CliOption>, cs: Seq<char>, rest: Seq<Seq<char>>)
    requires
        cs.len() > 0,
        all_plain_flags(rows, cs),
    ensures
        run(rows, false, seq![seq!['-'] + cs] + rest) == run(rows, false, separate_flags(cs) + rest),
{
    let cluster = seq!['-'] + cs;
    assert(is_plain_flag(rows, cs[0]));
    assert(cluster[1] == cs[0]);
    assert(!is_terminator(cluster));
    assert(cluster.skip(1) =~= cs);
    assert((seq![cluster] + rest)[0] == cluster);
    assert((seq![cluster] + rest).drop_first() =~= rest);
    assert(rest.skip(0) =~= rest);
    lemma_plain_cluster_step(rows, cs, rest);
    lemma_separate_flags_run(rows, cs, rest);
}

/// What one argument followed by `more` gives, when the argument is `-c` for
/// the short name `c` of `rows[i]`.
proof fn lemma_lone_short_step(rows: Seq<CliOption>, i: int, more: Seq<Seq<char>>)
    requires
        0 <= i < rows.len(),
        forall|j: int| 0 <= j < i ==> (#[trigger] rows[j]).2 != rows[i].2,
        rows[i].2 != '-',
    ensures
        !is_terminator(seq!['-', rows[i].2]),
        arg_step(rows, seq!['-', rows[i].2], more) == option_with_taken_value(
            rows[i].0@,
            rows[i].1,
            more,
        ),
{
    let c = rows[i].2;
    let arg = seq!['-', c];
    lemma_find_short_first(rows, i);
    assert(arg.skip(1) =~= seq![c]);
    assert(seq![c].drop_first() =~= Seq::<char>::empty());
    if rows[i].1 == ArgType::NoValue {
        assert(cluster_step(rows, seq![c], more) == step_after(
            seq![SpecToken::Option(rows[i].0@, None)],
            cluster_step(rows, Seq::empty(), more),
        ));
        assert(seq![SpecToken::Option(rows[i].0@, None)] + Seq::<SpecToken>::empty() =~= seq![
            SpecToken::Option(rows[i].0@, None),
        ]);
    }
    assert(arg != seq!['-', '-']) by {
        assert(arg[1] != '-');
    }
}

/// A short option `-c` and the long option `--name` of the same row give the
/// same result, whatever follows: the same option token, with the same value
/// taken from the same following arguments.
pub proof fn lemma_short_and_long_forms_agree(rows: Seq<CliOption>, i: int, more: Seq<Seq<char>>)
    requires
        0 <= i < rows.len(),
        forall|j: int| 0 <= j < i ==> (#[trigger] rows[j]).2 != rows[i].2,
        forall|j: int| 0 <= j < i ==> (#[trigger] rows[j]).0@ != rows[i].0@,
        rows[i].2 != '-',
        rows[i].0@.len() > 0,
        !rows[i].0@.contains('='),
    ensures
        run(rows, false, seq![seq!['-', rows[i].2]] + more) == run(
            rows,
            false,
            seq![seq!['-', '-'] + rows[i].0@] + more,
        ),
{
    let short = seq!['-', rows[i].2];
    let long = seq!['-', '-'] + rows[i].0@;
    let name = rows[i].0@;
    lemma_lone_short_step(rows, i, more);
    lemma_find_long_first(rows, i);
    name.index_of_first_ensures('=');
    assert(long[0] == '-' && long[1] == '-');
    assert(long.skip(2) =~= name);
    assert(long != seq!['-', '-']) by {
        assert(long.len() != 2);
    }
    assert(arg_step(rows, long, more) == long_step(rows, name, more));
    assert((seq![short] + more)[0] == short);
    assert((seq![short] + more).drop_first() =~= more);
    assert((seq![long] + more)[0] == long);
    assert((seq![long] + more).drop_first() =~= more);
}

/// A short option with an optional value that ends its cluster takes the next
/// argument as its value exactly when there is one that does not begin with a
/// dash; otherwise it has no value and the next argument is parsed on its own.
pub proof fn lemma_optional_short_value(rows: Seq<CliOption>, i: int, v: Seq<char>, rest: Seq<Seq<char>>)
    requires
        0 <= i < rows.len(),
        forall|j: int| 0 <= j < i ==> (#[trigger] rows[j]).2 != rows[i].2,
        rows[i].2 != '-',
        rows[i].1 == ArgType::Option,
    ensures
        !begins_with(v, '-') ==> run(rows, false, seq![seq!['-', rows[i].2], v] + rest) == ({
            let (o, f) = run(rows, false, rest);
            (prepend(seq![SpecToken::Option(rows[i].0@, Some(v))], o), f)
        }),
        begins_with(v, '-') ==> run(rows, false, seq![seq!['-', rows[i].2], v] + rest) == ({
            let (o, f) = run(rows, false, seq![v] + rest);
            (prepend(seq![SpecToken::Option(rows[i].0@, None)], o), f)
        }),
        run(rows, false, seq![seq!['-', rows[i].2]]) == (
            Outcome::Tokens(seq![SpecToken::Option(rows[i].0@, None)]),
            false,
        ),
{
    let short = seq!['-', rows[i].2];
    let after = seq![v] + rest;
    lemma_lone_short_step(rows, i, after);
    lemma_lone_short_step(rows, i, Seq::empty());
    assert(seq![short, v] + rest =~= seq![short] + after);
    assert((seq![short] + after)[0] == short);
    assert((seq![short] + after).drop_first() =~= after);
    assert(after[0] == v);
    assert(after.skip(1) =~= rest);
    assert(after.skip(0) =~= after);
    assert(seq![short][0] == short);
    assert(seq![short].drop_first() =~= Seq::<Seq<char>>::empty());
    assert(Seq::<Seq<char>>::empty().skip(0) =~= Seq::<Seq<char>>::empty());
    assert(option_value(ArgType::Option, Seq::<Seq<char>>::empty()) == ValueTake::Take(None, 0));
    assert(arg_step(rows, short, Seq::<Seq<char>>::empty()) == ArgStep::Took(
        seq![SpecToken::Option(rows[i].0@, None)],
        0,
    ));
    assert(run(rows, false, Seq::<Seq<char>>::empty()) == (
        Outcome::Tokens(Seq::<SpecToken>::empty()),
        false,
    ));
    assert(seq![SpecToken::Option(rows[i].0@, None)] + Seq::<SpecToken>::empty() =~= seq![
        SpecToken::Option(rows[i].0@, None),
    ]);
}

/// Once the `--` terminator has been seen, every argument is a value, one for
/// one and in order, and parsing cannot fail.
pub proof fn lemma_after_terminator_all_values(rows: Seq<CliOption>, args: Seq<Seq<char>>)
    ensures
        run(rows, true, args) == (
            Outcome::Tokens(args.map_values(|a: Seq<char>| SpecToken::Value(a))),
            true,
        ),
    decreases args.len(),
{
    if args.len() > 0 {
        lemma_after_terminator_all_values(rows, args.drop_first());
        assert(args.map_values(|a: Seq<char>| SpecToken::Value(a)) =~= seq![SpecToken::Value(args[0])]
            + args.drop_first().map_values(|a: Seq<char>| SpecToken::Value(a)));
    } else {
        assert(args.map_values(|a: Seq<char>| SpecToken::Value(a)) =~= Seq::<SpecToken>::empty());
    }
}

/// `e` is the error that the outcome `o` names.
pub open spec fn error_is<'a>(e: Error<'a>, o: Outcome) -> bool {
    match o {
        Outcome::MissingArg => e is MissingArg,
        Outcome::UnknownLong(name) => e matches Error::UnknownLongOption(s) && s@ == name,
        Outcome::UnknownShort(c) => e matches Error::UnknownShortOption(s) && s@ == seq![c],
        Outcome::Tokens(_) => false,
    }
}

/// Putting `a` and then `b` in front of an outcome is putting `a + b` in front.
proof fn lemma_prepend_twice(a: Seq<SpecToken>, b: Seq<SpecToken>, o: Outcome)
    ensures
        prepend(a, prepend(b, o)) == prepend(a + b, o),
{
    if let Outcome::Tokens(ts) = o {
        assert(a + (b + ts) =~= (a + b) + ts);
    }
}

/// Putting `a` and then `b` before the tokens of a step is putting `a + b` there.
proof fn lemma_step_after_twice(a: Seq<SpecToken>, b: Seq<SpecToken>, step: ArgStep)
    ensures
        step_after(a, step_after(b, step)) == step_after(a + b, step),
{
    if let ArgStep::Took(ts, n) = step {
        assert(a + (b + ts) =~= (a + b) + ts);
    }
}

/// Whether `arg` is the `--` terminator.
fn is_dash_dash(arg: &str) -> (r: bool)
    ensures
        r == is_terminator(arg@),
{
    let dd = "--";
    proof {
        reveal_strlit("--");
    }
    assert(dd@ =~= seq!['-', '-']);
    str_eq(arg, dd)
}

/// `r` is what the outcome `o` says.
pub open spec fn result_is<'a>(r: Result<Vec<Token<'a>>, Error<'a>>, o: Outcome) -> bool {
    match o {
        Outcome::Tokens(ts) => r matches Ok(v) && token_views(v@) == ts,
        _ => r matches Err(e) && error_is(e, o),
    }
}

/// The effect of one step on the token buffer, the argument position and the result.
pub open spec fn did_step<'a>(
    step: ArgStep,
    r: Result<(), Error<'a>>,
    old_buffer: Seq<Token<'a>>,
    new_buffer: Seq<Token<'a>>,
    old_pos: usize,
    new_pos: usize,
) -> bool {
    match step {
        ArgStep::Took(ts, n) => {
            &&& r is Ok
            &&& token_views(new_buffer) == token_views(old_buffer) + ts
            &&& new_pos == old_pos + n
        },
        ArgStep::Stop(o) => {
            &&& r matches Err(e) && error_is(e, o)
            &&& new_buffer == old_buffer
            &&& new_pos == old_pos
        },
    }
}

/// A getopt-style parser over a list of arguments.
pub struct Parser<'a> {
    src: &'a [&'a str],
    table: LookupTable,
    is_raw: bool,
}

impl<'a> Parser<'a> {
    /// The arguments, by their characters.
    pub closed spec fn args(self) -> Seq<Seq<char>> {
        arg_views(self.src@)
    }

    /// The lookup table's rows.
    pub closed spec fn rows(self) -> Seq<CliOption> {
        self.table.0@
    }

    /// Whether a `--` terminator has been seen.
    pub closed spec fn raw(self) -> bool {
        self.is_raw
    }

    /// What `parse` gives on this parser.
    pub open spec fn outcome(self) -> (Outcome, bool) {
        run(self.rows(), self.raw(), self.args())
    }

    pub fn new(src: &'a [&'a str], table: LookupTable) -> (r: Self)
        ensures
            r.args() == arg_views(src@),
            r.rows() == table.0@,
            !r.raw(),
    {
        Self { src, table, is_raw: false }
    }

    /// The arguments from position `i` on.
    pub closed spec fn rest_from(self, i: int) -> Seq<Seq<char>> {
        arg_views(self.src@.skip(i))
    }

    /// Parses every argument into tokens; after a `--` argument, every argument
    /// is a value.
    pub fn parse(&mut self) -> (r: Result<Vec<Token<'a>>, Error<'a>>)
        ensures
            result_is(r, old(self).outcome().0),
            final(self).raw() == old(self).outcome().1,
            final(self).args() == old(self).args(),
            final(self).rows() == old(self).rows(),
    {
        let mut buffer: Vec<Token<'a>> = Vec::new();
        let mut i: usize = 0;
        let ghost total = old(self).outcome();
        assert(self.src@.skip(0) =~= self.src@);
        while i < self.src.len()
            invariant
                i <= self.src@.len(),
                self.src == old(self).src,
                self.table == old(self).table,
                total == old(self).outcome(),
                total.0 == prepend(
                    token_views(buffer@),
                    run(self.rows(), self.is_raw, self.rest_from(i as int)).0,
                ),
                total.1 == run(self.rows(), self.is_raw, self.rest_from(i as int)).1,
            decreases self.src@.len() - i,
        {
            let arg = self.src[i];
            proof {
                lemma_rest_step(self.src@, i as int);
            }
            let ghost args_i = self.rest_from(i as int);
            let ghost rest = self.rest_from(i + 1);
            let ghost before = buffer@;
            let ghost raw_before = self.is_raw;
            assert(args_i[0] == arg@ && args_i.drop_first() == rest);
            i = i + 1;
            if !self.is_raw && is_dash_dash(arg) {
                assert(run(self.rows(), false, args_i) == run(self.rows(), true, rest));
                self.is_raw = true;
                continue;
            }
            if self.is_raw {
                buffer.push(Token::Value(arg));
                assert(token_views(buffer@) =~= token_views(before) + seq![SpecToken::Value(arg@)]);
                proof {
                    let (o, f) = run(self.rows(), true, rest);
                    assert(run(self.rows(), true, args_i) == (
                        prepend(seq![SpecToken::Value(arg@)], o),
                        f,
                    ));
                    lemma_prepend_twice(token_views(before), seq![SpecToken::Value(arg@)], o);
                }
                continue;
            }
            let ghost step = arg_step(self.rows(), arg@, rest);
            assert(run(self.rows(), false, args_i) == match step {
                ArgStep::Took(ts, n) => if n <= rest.len() {
                    let (o, f) = run(self.rows(), false, rest.skip(n as int));
                    (prepend(ts, o), f)
                } else {
                    (Outcome::Tokens(ts), false)
                },
                ArgStep::Stop(o) => (o, false),
            });
            match self.parse_arg(&mut buffer, arg, &mut i) {
                Ok(()) => {
                    proof {
                        if let ArgStep::Took(ts, n) = step {
                            assert(rest.skip(n as int) =~= self.rest_from(i as int));
                            let (o, f) = run(self.rows(), false, rest.skip(n as int));
                            lemma_prepend_twice(token_views(before), ts, o);
                        }
                    }
                },
                Err(e) => {
                    return Err(e);
                },
            }
        }
        assert(self.rest_from(i as int) =~= Seq::<Seq<char>>::empty());
        assert(token_views(buffer@) + Seq::<SpecToken>::empty() =~= token_views(buffer@));
        Ok(buffer)
    }

    /// Parses one argument other than the terminator; `i` is the position of the
    /// argument after it.
    fn parse_arg(&self, buffer: &mut Vec<Token<'a>>, arg: &'a str, i: &mut usize) -> (r: Result<
        (),
        Error<'a>,
    >)
        requires
            *old(i) <= self.src@.len(),
            !is_terminator(arg@),
        ensures
            did_step(
                arg_step(self.rows(), arg@, self.rest_from(*old(i) as int)),
                r,
                old(buffer)@,
                final(buffer)@,
                *old(i),
                *final(i),
            ),
            *final(i) <= self.src@.len(),
    {
        if starts_with_char(arg, '-') {
            if arg.unicode_len() >= 2 && arg.get_char(1) == '-' {
                let name = suffix(arg, 2);
                return self.parse_long(name, i, buffer);
            } else {
                return self.parse_short(buffer, i, arg);
            }
        }
        let ghost before = buffer@;
        buffer.push(Token::Value(arg));
        assert(token_views(buffer@) =~= token_views(before) + seq![SpecToken::Value(arg@)]);
        Ok(())
    }

    /// A long option, `arg` being its text after the dashes.
    fn parse_long(&self, arg: &'a str, i: &mut usize, buffer: &mut Vec<Token<'a>>) -> (r: Result<
        (),
        Error<'a>,
    >)
        requires
            *old(i) <= self.src@.len(),
        ensures
            did_step(
                long_step(self.rows(), arg@, self.rest_from(*old(i) as int)),
                r,
                old(buffer)@,
                final(buffer)@,
                *old(i),
                *final(i),
            ),
            *final(i) <= self.src@.len(),
    {
        let ghost before = buffer@;
        proof {
            arg@.index_of_first_ensures('=');
        }
        if let Some(eq) = find_char(arg, '=') {
            let name = arg.substring_char(0, eq);
            let value = suffix(arg, eq + 1);
            if let Some(_) = self.table.lookup_long(name) {
                buffer.push(Token::Option(name, Some(value)));
                assert(token_views(buffer@) =~= token_views(before) + seq![
                    SpecToken::Option(name@, Some(value@)),
                ]);
                return Ok(());
            } else {
                return Err(Error::UnknownLongOption(name));
            }
        }
        if let Some(opt) = self.table.lookup_long(arg) {
            let value = match self.parse_opt_arg(&opt.1, i) {
                Ok(v) => v,
                Err(e) => {
                    return Err(e);
                },
            };
            buffer.push(Token::Option(arg, value));
            assert(token_views(buffer@) =~= token_views(before) + seq![
                SpecToken::Option(arg@, opt_view(value)),
            ]);
            return Ok(());
        } else {
            return Err(Error::UnknownLongOption(arg));
        }
    }

    /// The value of an option of type `ty`, taken from the argument at `i`.
    fn parse_opt_arg(&self, ty: &ArgType, i: &mut usize) -> (r: Result<Option<&'a str>, Error<'a>>)
        requires
            *old(i) <= self.src@.len(),
        ensures
            match option_value(*ty, self.rest_from(*old(i) as int)) {
                ValueTake::Take(v, n) => r matches Ok(x) && opt_view(x) == v && *final(i) == *old(
                    i,
                ) + n,
                ValueTake::Missing => r matches Err(Error::MissingArg) && *final(i) == *old(i),
            },
            *final(i) <= self.src@.len(),
    {
        proof {
            if *i < self.src@.len() {
                lemma_rest_step(self.src@, *i as int);
            }
        }
        match ty {
            ArgType::NoValue => Ok(None),
            ArgType::Required => if *i < self.src.len() {
                let next = self.src[*i];
                *i = *i + 1;
                Ok(Some(next))
            } else {
                Err(Error::MissingArg)
            },
            ArgType::Option => if *i < self.src.len() {
                let next = self.src[*i];
                if !starts_with_char(next, '-') {
                    *i = *i + 1;  // consume value
                    Ok(Some(next))
                } else {
                    Ok(None)
                }
            } else {
                Ok(None)
            },
        }
    }

    /// Short options like -zov or -o value: every flag of the cluster gives an
    /// option, up to an option that takes a value, which takes the rest of the
    /// cluster or else the next argument.
    fn parse_short(&self, buffer: &mut Vec<Token<'a>>, i: &mut usize, arg: &'a str) -> (r: Result<
        (),
        Error<'a>,
    >)
        requires
            *old(i) <= self.src@.len(),
            begins_with(arg@, '-'),
        ensures
            did_step(
                short_step(self.rows(), arg@, self.rest_from(*old(i) as int)),
                r,
                old(buffer)@,
                final(buffer)@,
                *old(i),
                *final(i),
            ),
            *final(i) <= self.src@.len(),
    {
        let ghost rest = self.rest_from(*i as int);
        let ghost whole = short_step(self.rows(), arg@, rest);
        let n = arg.unicode_len();
        let mut found: Vec<Token<'a>> = Vec::new();
        let mut k: usize = 1;
        while k < n
            invariant
                n == arg@.len(),
                1 <= k <= n,
                *i == *old(i),
                buffer@ == old(buffer)@,
                *old(i) <= self.src@.len(),
                rest == self.rest_from(*old(i) as int),
                whole == short_step(self.rows(), arg@, rest),
                whole == step_after(token_views(found@), cluster_step(self.rows(), arg@.skip(k as int), rest)),
            decreases n - k,
        {
            let c = arg.get_char(k);
            let ghost chars = arg@.skip(k as int);
            assert(chars[0] == c);
            assert(chars.drop_first() =~= arg@.skip(k + 1));
            let opt = match self.table.lookup_short(c) {
                Some(opt) => opt,
                None => {
                    let one = arg.substring_char(k, k + 1);
                    assert(one@ =~= seq![c]);
                    return Err(Error::UnknownShortOption(one));
                },
            };
            let ghost before = found@;
            match opt.1 {
                ArgType::NoValue => {
                    found.push(Token::Option(opt.0, None));
                    assert(token_views(found@) =~= token_views(before) + seq![
                        SpecToken::Option(opt.0@, None),
                    ]);
                    proof {
                        lemma_step_after_twice(
                            token_views(before),
                            seq![SpecToken::Option(opt.0@, None)],
                            cluster_step(self.rows(), arg@.skip(k + 1), rest),
                        );
                    }
                    k += 1;
                },
                _ => {
                    // Check if value is squeezed, e.g., -ofile
                    let value = if k + 1 < n {
                        let tail = arg.substring_char(k + 1, n);
                        assert(tail@ =~= chars.drop_first());
                        Some(tail)
                    } else {
                        match self.parse_opt_arg(&opt.1, i) {
                            Ok(v) => v,
                            Err(e) => {
                                return Err(e);
                            },
                        }
                    };
                    found.push(Token::Option(opt.0, value));
                    assert(token_views(found@) =~= token_views(before) + seq![
                        SpecToken::Option(opt.0@, opt_view(value)),
                    ]);
                    append_tokens(buffer, found);
                    return Ok(());
                },
            }
        }
        assert(arg@.skip(k as int) =~= Seq::<char>::empty());
        assert(token_views(found@) + Seq::<SpecToken>::empty() =~= token_views(found@));
        append_tokens(buffer, found);
        Ok(())
    }
}

/// Puts `more` after the tokens of `buffer`.
fn append_tokens<'a>(buffer: &mut Vec<Token<'a>>, more: Vec<Token<'a>>)
    ensures
        token_views(final(buffer)@) == token_views(old(buffer)@) + token_views(more@),
{
    let mut more = more;
    let ghost start = buffer@;
    let ghost added = more@;
    buffer.append(&mut more);
    assert(token_views(buffer@) =~= token_views(start) + token_views(added));
}

} // verus!
