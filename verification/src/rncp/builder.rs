use core::marker::PhantomData;
use vstd::prelude::*;

use crate::rncp::env::{views, Args};
use crate::rncp::error::Error;
use crate::rncp::parser::ValueParser;
use crate::text::{begins_with_two_dashes, starts_with_two_dashes, str_eq};

verus! {

/// Describes one argument: its name, how its value is parsed, its aliases and
/// whether it has a short form.
/// The parser is a type of its own, `P`, so that what it does is known to the
/// contracts.
#[verifier::reject_recursive_types(T)]
pub struct ArgBuilder<'a, T, P: ValueParser<T>> {
    /// Argument name.
    name: &'static str,
    /// Value parser
    parser: Option<&'a P>,
    /// A command aliases
    aliases: Vec<&'static str>,
    /// Whether to create a short version of the command,
    /// for example, for a `--name` command `-n` would be created
    short: bool,
    /// The type of the values.
    value: PhantomData<T>,
}

impl<'a, T, P: ValueParser<T>> ArgBuilder<'a, T, P> {
    /// The argument's name.
    pub closed spec fn spec_name(&self) -> &'static str {
        self.name
    }

    /// The value parser, if one was given.
    pub closed spec fn spec_parser(&self) -> Option<&'a P> {
        self.parser
    }

    /// The aliases, in the order they were added.
    pub closed spec fn spec_aliases(&self) -> Seq<&'static str> {
        self.aliases@
    }

    /// Whether a short form is wanted.
    pub closed spec fn spec_short(&self) -> bool {
        self.short
    }

    pub fn new(name: &'static str) -> (r: Self)
        ensures
            r.spec_name() == name,
            r.spec_parser() is None,
            r.spec_aliases() == Seq::<&'static str>::empty(),
            !r.spec_short(),
    {
        Self { name, parser: None, aliases: Vec::new(), short: false, value: PhantomData }
    }

    pub fn with_value(self, parser: &'a P) -> (r: Self)
        ensures
            r.spec_name() == self.spec_name(),
            r.spec_parser() == Some(parser),
            r.spec_aliases() == self.spec_aliases(),
            r.spec_short() == self.spec_short(),
    {
        let mut b = self;
        b.parser = Some(parser);
        b
    }

    pub fn short(self) -> (r: Self)
        ensures
            r.spec_name() == self.spec_name(),
            r.spec_parser() == self.spec_parser(),
            r.spec_aliases() == self.spec_aliases(),
            r.spec_short(),
    {
        let mut b = self;
        b.short = true;
        b
    }

    pub fn alias(self, name: &'static str) -> (r: Self)
        ensures
            r.spec_name() == self.spec_name(),
            r.spec_parser() == self.spec_parser(),
            r.spec_aliases() == self.spec_aliases().push(name),
            r.spec_short() == self.spec_short(),
    {
        let mut b = self;
        b.aliases.push(name);
        b
    }

    /// Whether `a` names this argument: it is the name, one of the aliases, or,
    /// where a short form is wanted, the short form of the name.
    pub open spec fn names(&self, a: Seq<char>) -> bool {
        ||| a == self.spec_name()@
        ||| exists|k: int| 0 <= k < self.spec_aliases().len() && #[trigger] self.spec_aliases()[k]@ == a
        ||| self.spec_short() && short_form(self.spec_name()@) == Some(a)
    }

    /// The position of the first of `args`, from position `i` on, that names
    /// this argument.
    pub open spec fn first_named_from(&self, args: Seq<Seq<char>>, i: int) -> Option<int>
        decreases args.len() - i,
    {
        if i < 0 || i >= args.len() {
            None
        } else if self.names(args[i]) {
            Some(i)
        } else {
            self.first_named_from(args, i + 1)
        }
    }

    /// Whether `arg` names this argument.
    fn is_named_by(&self, arg: &str) -> (r: bool)
        ensures
            r == self.names(arg@),
    {
        if str_eq(arg, self.name) {
            return true;
        }
        let mut k: usize = 0;
        while k < self.aliases.len()
            invariant
                k <= self.aliases@.len(),
                forall|j: int| 0 <= j < k ==> self.aliases@[j]@ != arg@,
            decreases self.aliases.len() - k,
        {
            if str_eq(self.aliases[k], arg) {
                assert(self.spec_aliases()[k as int]@ == arg@);
                return true;
            }
            k += 1;
        }
        if self.short && starts_with_two_dashes(self.name) && self.name.unicode_len() > 2 {
            let c = self.name.get_char(2);
            let n = arg.unicode_len();
            let r = n == 2 && arg.get_char(0) == '-' && arg.get_char(1) == c;
            proof {
                if r {
                    assert(arg@ =~= seq!['-', c]);
                } else if arg@ == seq!['-', c] {
                    assert(arg@[1] == c);
                }
            }
            return r;
        }
        false
    }

    /// The value given after the first argument that names this one (its name,
    /// an alias, or its short form where one is wanted), read by the parser:
    /// `MissingArg` where no argument names it, `MissingArgValue` where that
    /// argument is the last one, `DuplicatedArg` where there is no parser.
    pub fn get(&self, args: &Args) -> (r: Result<T, Error>)
        ensures
            match self.first_named_from(views(args.0@), 0) {
                None => r matches Err(Error::MissingArg),
                Some(p) => if p + 1 < args.0@.len() {
                    match self.spec_parser() {
                        None => r matches Err(Error::DuplicatedArg),
                        Some(parser) => parser.parses_to(args.0@[p + 1], r),
                    }
                } else {
                    r matches Err(Error::MissingArgValue)
                },
            },
    {
        let ghost vs = views(args.0@);
        let n = args.0.len();
        let mut p: usize = 0;
        while p < n
            invariant
                n == args.0@.len(),
                vs == views(args.0@),
                p <= n,
                self.first_named_from(vs, 0) == self.first_named_from(vs, p as int),
            decreases n - p,
        {
            if self.is_named_by(args.0[p]) {
                assert(vs[p as int] == args.0@[p as int]@);
                if p + 1 < n {
                    let value_str = args.0[p + 1];
                    let parser = match self.parser {
                        Some(parser) => parser,
                        None => {
                            return Err(Error::DuplicatedArg);
                        },
                    };
                    return parser.parse(value_str);
                }
                return Err(Error::MissingArgValue);
            }
            assert(vs[p as int] == args.0@[p as int]@);
            p += 1;
        }
        Err(Error::MissingArg)
    }
}

/// The short form of a `--name` argument: a dash and the first character of the
/// name; a name that does not begin with two dashes and a character has none.
pub open spec fn short_form(name: Seq<char>) -> Option<Seq<char>> {
    if begins_with_two_dashes(name) && name.len() > 2 {
        Some(seq!['-', name[2]])
    } else {
        None
    }
}

} // verus!
