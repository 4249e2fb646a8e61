use tenu::parse::error::Error;
use tenu::parse::lex::{ArgType, LookupTable, Parser, Token};

#[test]
fn grouped_short_with_value() {
    let args = ["./bin", "-hv", "-oout.jpg", "file1", "file2"];
    let parser = Parser::new(
        &args,
        LookupTable(&[
            ("help", ArgType::NoValue, 'h'),
            ("verbose", ArgType::NoValue, 'v'),
            ("output", ArgType::Required, 'o'),
        ]),
    );

    let tokens: Vec<_> = parser.collect();
    assert_eq!(
        tokens,
        Vec::from([
            Token::Value("./bin"),
            Token::Option("help", None),
            Token::Option("verbose", None),
            Token::Option("output", Some("out.jpg")),
            Token::Value("file1"),
            Token::Value("file2"),
        ])
    );
}

#[test]
fn example_input() {
    let args = [
        "./aber",
        "-hv",
        "-ohedgeberry-s-mother.jpg",
        "-v",
        "log.txt",
        "l420.txt",
    ];
    let parser = Parser::new(
        &args,
        LookupTable(&[
            ("output", ArgType::Required, 'o'),
            ("help", ArgType::NoValue, 'h'),
            ("verbose", ArgType::NoValue, 'v'),
        ]),
    );
    assert_eq!(
        Vec::from([
            Token::Value("./aber"),
            Token::Option("help", None),
            Token::Option("verbose", None),
            Token::Option("output", Some("hedgeberry-s-mother.jpg")),
            Token::Option("verbose", None),
            Token::Value("log.txt"),
            Token::Value("l420.txt"),
        ]),
        parser.collect()
    )
}

#[test]
fn mixed() {
    let args = ["test", "-ohedgeberry-s-mother.jpg", "-v", "log.txt"];
    let parser = Parser::new(
        &args,
        LookupTable(&[
            ("output", ArgType::Required, 'o'),
            ("help", ArgType::NoValue, 'h'),
            ("verbose", ArgType::NoValue, 'v'),
        ]),
    );
    assert_eq!(
        Vec::from([
            Token::Value("test"),
            Token::Option("output", Some("hedgeberry-s-mother.jpg")),
            Token::Option("verbose", None),
            Token::Value("log.txt"),
        ]),
        parser.collect()
    )
}

#[test]
fn short_option_value_mixed() {
    let args = ["-v", "log.txt"];
    let mut parser = Parser::new(&args, LookupTable(&[("verbose", ArgType::NoValue, 'v')]));

    assert_eq!(parser.next(), Some(Token::Option("verbose", None)));
    assert_eq!(parser.next(), Some(Token::Value("log.txt")));
    assert_eq!(parser.next(), None);
}

#[test]
fn short_option_dummy() {
    let args = ["-o-h"];
    let mut parser = Parser::new(
        &args,
        LookupTable(&[
            ("output", ArgType::Required, 'o'),
            ("help", ArgType::NoValue, 'h'),
        ]),
    );
    assert_eq!(parser.next(), Some(Token::Option("output", Some("-h"))));
}

#[test]
fn short_with_required_value() {
    let args = ["-o", "hedgeberry-s-mother.jpg"];
    let mut parser = Parser::new(
        &args,
        LookupTable(&[
            ("output", ArgType::Required, 'o'),
            ("help", ArgType::NoValue, 'h'),
        ]),
    );
    assert_eq!(
        parser.next(),
        Some(Token::Option("output", Some("hedgeberry-s-mother.jpg")))
    );
}

#[test]
fn short_with_required_value_squeezed() {
    let args = ["-ohedgeberry-s-mother.jpg"];
    let mut parser = Parser::new(
        &args,
        LookupTable(&[
            ("output", ArgType::Required, 'o'),
            ("help", ArgType::NoValue, 'h'),
        ]),
    );
    assert_eq!(
        parser.next(),
        Some(Token::Option("output", Some("hedgeberry-s-mother.jpg")))
    );
}

#[test]
fn short_squeezed() {
    let args = ["-hlv"];
    let mut parser = Parser::new(
        &args,
        LookupTable(&[
            ("help", ArgType::NoValue, 'h'),
            ("list", ArgType::NoValue, 'l'),
            ("version", ArgType::NoValue, 'v'),
        ]),
    );
    assert_eq!(parser.next(), Some(Token::Option("help", None)));
    assert_eq!(parser.next(), Some(Token::Option("list", None)));
    assert_eq!(parser.next(), Some(Token::Option("version", None)));
}

#[test]
fn short_without_value() {
    let args = ["-h"];
    let mut parser = Parser::new(&args, LookupTable(&[("hello", ArgType::NoValue, 'h')]));
    assert_eq!(parser.next(), Some(Token::Option("hello", None)));
}

#[test]
fn long_with_optional_value() {
    let args = ["--hello=world"];
    let mut parser = Parser::new(&args, LookupTable(&[("hello", ArgType::Option, 'h')]));
    assert_eq!(parser.next(), Some(Token::Option("hello", Some("world"))));
}

#[test]
fn long_with_optional_value_missing() {
    let args = ["--hello"];
    let mut parser = Parser::new(&args, LookupTable(&[("hello", ArgType::Option, 'h')]));
    assert_eq!(parser.next(), Some(Token::Option("hello", None)));
}

#[test]
fn long_with_required_value() {
    let args = ["--hello=world"];
    let mut parser = Parser::new(&args, LookupTable(&[("hello", ArgType::Required, 'h')]));
    assert_eq!(parser.next(), Some(Token::Option("hello", Some("world"))));
}

#[test]
fn long_flag_without_value() {
    let args = ["--hello", "world"];
    let mut parser = Parser::new(&args, LookupTable(&[("hello", ArgType::NoValue, 'h')]));
    assert_eq!(parser.next(), Some(Token::Option("hello", None)));
    assert_eq!(parser.next(), Some(Token::Value("world")));
}

#[test]
fn dumb_test() {
    let args = ["hello", "world"];
    let mut parser = Parser::new(&args, LookupTable(&[]));
    assert_eq!(parser.next(), Some(Token::Value("hello")));
    assert_eq!(parser.next(), Some(Token::Value("world")));
}

// Further cases of the lexer.

#[test]
fn long_required_without_value_is_an_error() {
    let args = ["--out", "file"];
    let mut parser = Parser::new(&args, LookupTable(&[("out", ArgType::Required, 'o')]));
    assert_eq!(parser.next(), Some(Token::Error(Error::MissingArgValue)));
    assert_eq!(parser.next(), Some(Token::Value("file")));
    assert_eq!(parser.next(), None);
}

#[test]
fn unknown_long_option_passes_through() {
    let args = ["--what=now"];
    let mut parser = Parser::new(&args, LookupTable(&[]));
    assert_eq!(parser.next(), Some(Token::Option("what", Some("now"))));
    assert_eq!(parser.next(), None);
}

#[test]
fn long_value_is_cut_at_first_equals() {
    let args = ["--k=a=b"];
    let mut parser = Parser::new(&args, LookupTable(&[("k", ArgType::Required, 'k')]));
    assert_eq!(parser.next(), Some(Token::Option("k", Some("a=b"))));
}

#[test]
fn unknown_short_option_then_rest_of_cluster() {
    let args = ["-xh", "tail"];
    let mut parser = Parser::new(&args, LookupTable(&[("help", ArgType::NoValue, 'h')]));
    assert_eq!(parser.next(), Some(Token::Error(Error::UnknownShortOption('x'))));
    assert_eq!(parser.next(), Some(Token::Option("help", None)));
    assert_eq!(parser.next(), Some(Token::Value("tail")));
    assert_eq!(parser.next(), None);
}

#[test]
fn unknown_short_option_at_cluster_end_ends_the_line() {
    let args = ["-x", "tail"];
    let mut parser = Parser::new(&args, LookupTable(&[]));
    assert_eq!(parser.next(), Some(Token::Error(Error::UnknownShortOption('x'))));
    assert_eq!(parser.next(), None);
    assert_eq!(parser.next(), None);
}

#[test]
fn lone_dash_ends_the_line() {
    let args = ["a", "-", "b"];
    let parser = Parser::new(&args, LookupTable(&[]));
    assert_eq!(parser.collect(), vec![Token::Value("a")]);
}

#[test]
fn required_short_option_at_end_gets_nothing() {
    let args = ["-o"];
    let mut parser = Parser::new(&args, LookupTable(&[("output", ArgType::Required, 'o')]));
    assert_eq!(parser.next(), Some(Token::Option("output", None)));
    assert_eq!(parser.next(), None);
}

#[test]
fn optional_short_option_takes_next_argument_even_with_dash() {
    let args = ["-o", "-v"];
    let mut parser = Parser::new(&args, LookupTable(&[("output", ArgType::Option, 'o')]));
    assert_eq!(parser.next(), Some(Token::Option("output", Some("-v"))));
    assert_eq!(parser.next(), None);
}

#[test]
fn plain_arguments_are_values() {
    let args = ["a", "b", "c"];
    let parser = Parser::new(&args, LookupTable(&[("a", ArgType::NoValue, 'a')]));
    assert_eq!(
        parser.collect(),
        vec![Token::Value("a"), Token::Value("b"), Token::Value("c")]
    );
}

#[test]
fn lookup_finds_first_match() {
    let table = LookupTable(&[
        ("first", ArgType::NoValue, 'x'),
        ("second", ArgType::Required, 'x'),
        ("first", ArgType::Option, 'y'),
    ]);
    assert_eq!(table.lookup_short('x').map(|r| r.0), Some("first"));
    assert_eq!(table.lookup_long("first").map(|r| r.2), Some('x'));
    assert_eq!(table.lookup_short('z').map(|r| r.0), None);
    assert_eq!(table.lookup_long("third").map(|r| r.0), None);
}

#[test]
fn cluster_lexes_as_separate_flags() {
    let table = LookupTable(&[
        ("help", ArgType::NoValue, 'h'),
        ("verbose", ArgType::NoValue, 'v'),
    ]);
    let clustered = ["-hv", "x"];
    let separate = ["-h", "-v", "x"];
    let a = Parser::new(&clustered, LookupTable(table.0)).collect();
    let b = Parser::new(&separate, LookupTable(table.0)).collect();
    assert_eq!(a, b);
}
