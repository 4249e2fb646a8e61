use tenu::rncp::builder::ArgBuilder;
use tenu::rncp::env::Args;
use tenu::rncp::error::{Error, ParserError};
use tenu::rncp::parser::lex::Parser;
use tenu::rncp::parser::{parse_usize, IntParser, ValueParser};

#[test]
fn args_split_at_white_space() {
    let args = Args::from_str("  prog -n\t42 \u{3000}x\n");
    assert_eq!(args.0, vec!["prog", "-n", "42", "x"]);
    assert_eq!(Args::from_str("   ").0, Vec::<&str>::new());
    assert_eq!(Args::from_vec(vec!["a", "b"]).0, vec!["a", "b"]);
}

#[test]
fn int_parser_reads_decimal() {
    assert_eq!(IntParser.parse("42").unwrap(), 42);
    assert_eq!(IntParser.parse("+7").unwrap(), 7);
    assert_eq!(IntParser.parse("007").unwrap(), 7);
    assert_eq!(parse_usize("18446744073709551615"), Some(usize::MAX));
    assert_eq!(parse_usize("18446744073709551616"), None);
    assert_eq!(parse_usize("-1"), None);
    assert_eq!(parse_usize(""), None);
    assert_eq!(parse_usize("+"), None);
    assert_eq!(parse_usize("1 "), None);
    assert_eq!(parse_usize("٣"), None);
    match IntParser.parse("x1") {
        Err(Error::ParseError(ParserError::IntParse(a))) => assert_eq!(a, "x1"),
        other => panic!("unexpected {:?}", other),
    }
}

#[test]
fn builder_gets_value() {
    let args = Args::from_str("prog --n 42 --n 7");
    let n = ArgBuilder::new("--n").with_value(&IntParser).short().alias("-n");
    assert_eq!(n.get(&args).unwrap(), 42);
}

#[test]
fn builder_errors() {
    let args = Args::from_str("prog --n");
    let n = ArgBuilder::new("--n").with_value(&IntParser);
    assert!(matches!(n.get(&args), Err(Error::MissingArgValue)));
    let m = ArgBuilder::new("--m").with_value(&IntParser);
    assert!(matches!(m.get(&args), Err(Error::MissingArg)));
    let args = Args::from_str("--n 3");
    let bare: ArgBuilder<usize, IntParser> = ArgBuilder::new("--n");
    assert!(matches!(bare.get(&args), Err(Error::DuplicatedArg)));
    let args = Args::from_str("--n three");
    assert!(matches!(
        n.get(&args),
        Err(Error::ParseError(ParserError::IntParse("three")))
    ));
}

#[test]
fn rncp_error_messages() {
    assert_eq!(Error::InvalidValue.message(), "Invalid argument value");
    assert_eq!(Error::InvalidUtf8Arg.message(), "Invalid argument format (Non UTF-8)");
    assert_eq!(Error::MissingArgValue.message(), "Missing option value");
    assert_eq!(Error::DuplicatedArg.message(), "Duplicated argument");
    assert_eq!(
        Error::from(ParserError::IntParse("z")).message(),
        "Error while parsing z as integer"
    );
    let utf8 = std::str::from_utf8(&[0xffu8]).unwrap_err();
    assert!(matches!(Error::from(utf8), Error::InvalidUtf8Arg));
}

#[test]
fn string_lexer_starts_fresh() {
    let _parser = Parser::new("a b");
}

#[test]
fn args_from_utf8_bytes() {
    let raw: [&'static [u8]; 3] = [b"prog", "żółw".as_bytes(), b""];
    let args = Args::from_utf8_args(&raw).unwrap();
    assert_eq!(args.0, vec!["prog", "żółw", ""]);
    let bad: [&'static [u8]; 2] = [b"ok", b"\xc3"];
    assert!(matches!(Args::from_utf8_args(&bad), Err(Error::InvalidUtf8Arg)));
}

#[test]
fn builder_finds_short_form_and_aliases() {
    let num = ArgBuilder::new("--num").with_value(&IntParser).short();
    assert_eq!(num.get(&Args::from_str("prog -n 5")).unwrap(), 5);
    let count = ArgBuilder::new("--num").with_value(&IntParser).alias("--count");
    assert_eq!(count.get(&Args::from_str("prog --count 7")).unwrap(), 7);
    // without `short()` the short form does not name the argument
    let long_only = ArgBuilder::new("--num").with_value(&IntParser);
    assert!(matches!(long_only.get(&Args::from_str("prog -n 5")), Err(Error::MissingArg)));
    // the first argument that names it, by any of its names, wins
    let both = ArgBuilder::new("--num").with_value(&IntParser).short().alias("--count");
    assert_eq!(both.get(&Args::from_str("--count 1 -n 2 --num 3")).unwrap(), 1);
    assert_eq!(both.get(&Args::from_str("x -n 2 --num 3")).unwrap(), 2);
}
