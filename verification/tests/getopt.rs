use tenu::parse::lex::{ArgType, LookupTable};
use tenu::tenu_parser::error::{Error, ParserError};
use tenu::tenu_parser::lex::{Parser, Token};

const TABLE: &[(&str, ArgType, char)] = &[
    ("help", ArgType::NoValue, 'h'),
    ("verbose", ArgType::NoValue, 'v'),
    ("output", ArgType::Required, 'o'),
    ("level", ArgType::Option, 'l'),
];

#[test]
fn getopt_mixed_line() {
    let args = ["prog", "-hv", "--output=a.txt", "--", "-x", "--what"];
    let mut parser = Parser::new(&args, LookupTable(TABLE));
    assert_eq!(
        parser.parse(),
        Ok(vec![
            Token::Value("prog"),
            Token::Option("help", None),
            Token::Option("verbose", None),
            Token::Option("output", Some("a.txt")),
            Token::Value("-x"),
            Token::Value("--what"),
        ])
    );
}

#[test]
fn getopt_terminator_is_remembered() {
    let args = ["--", "-h"];
    let mut parser = Parser::new(&args, LookupTable(TABLE));
    assert_eq!(parser.parse(), Ok(vec![Token::Value("-h")]));
    // a second pass starts after the terminator: even `--` is a value now
    assert_eq!(parser.parse(), Ok(vec![Token::Value("--"), Token::Value("-h")]));
}

#[test]
fn getopt_long_takes_values() {
    let args = ["--output", "file", "--level", "-h", "--level", "3"];
    let mut parser = Parser::new(&args, LookupTable(TABLE));
    assert_eq!(
        parser.parse(),
        Ok(vec![
            Token::Option("output", Some("file")),
            Token::Option("level", None),
            Token::Option("help", None),
            Token::Option("level", Some("3")),
        ])
    );
}

#[test]
fn getopt_short_takes_values() {
    let args = ["-ofile", "-o", "next", "-l", "-v", "-l3", "-"];
    let mut parser = Parser::new(&args, LookupTable(TABLE));
    assert_eq!(
        parser.parse(),
        Ok(vec![
            Token::Option("output", Some("file")),
            Token::Option("output", Some("next")),
            Token::Option("level", None),
            Token::Option("verbose", None),
            Token::Option("level", Some("3")),
        ])
    );
}

#[test]
fn getopt_errors() {
    let args = ["--nope"];
    assert_eq!(
        Parser::new(&args, LookupTable(TABLE)).parse(),
        Err(Error::UnknownLongOption("nope"))
    );
    let args = ["--nope=1"];
    assert_eq!(
        Parser::new(&args, LookupTable(TABLE)).parse(),
        Err(Error::UnknownLongOption("nope"))
    );
    let args = ["--output"];
    assert_eq!(Parser::new(&args, LookupTable(TABLE)).parse(), Err(Error::MissingArg));
    let args = ["a", "-o"];
    assert_eq!(Parser::new(&args, LookupTable(TABLE)).parse(), Err(Error::MissingArg));
    let args = ["-xh"];
    assert_eq!(
        Parser::new(&args, LookupTable(TABLE)).parse(),
        Err(Error::UnknownShortOption("x"))
    );
    let args = ["-hx"];
    assert_eq!(
        Parser::new(&args, LookupTable(TABLE)).parse(),
        Err(Error::UnknownShortOption("x"))
    );
    let args = ["-vж"];
    assert_eq!(
        Parser::new(&args, LookupTable(TABLE)).parse(),
        Err(Error::UnknownShortOption("ж"))
    );
    let args = ["-vo"];
    assert_eq!(Parser::new(&args, LookupTable(TABLE)).parse(), Err(Error::MissingArg));
}

#[test]
fn getopt_error_messages() {
    assert_eq!(Error::UnknownLongOption("nope").message(), "Unknown long option --nope");
    assert_eq!(Error::UnknownShortOption("x").message(), "Unknown short option -x");
    assert_eq!(Error::MissingArg.message(), "Missing argument");
    assert_eq!(
        Error::ParseError(ParserError::IntParse("abc")).message(),
        "Error while parsing abc as integer"
    );
    assert_eq!(
        Error::from(ParserError::StrParse("q")).message(),
        "Error while parsing q as string"
    );
}

#[test]
fn getopt_grouped_short_with_value() {
    let args = ["./bin", "-hv", "-oout.jpg", "file1", "file2"];
    let mut parser = Parser::new(&args, LookupTable(TABLE));
    assert_eq!(
        parser.parse(),
        Ok(vec![
            Token::Value("./bin"),
            Token::Option("help", None),
            Token::Option("verbose", None),
            Token::Option("output", Some("out.jpg")),
            Token::Value("file1"),
            Token::Value("file2"),
        ])
    );
}

#[test]
fn getopt_cluster_ends_at_option_with_value() {
    let args = ["-hvofile", "-vo", "next", "-vl", "-h"];
    let mut parser = Parser::new(&args, LookupTable(TABLE));
    assert_eq!(
        parser.parse(),
        Ok(vec![
            Token::Option("help", None),
            Token::Option("verbose", None),
            Token::Option("output", Some("file")),
            Token::Option("verbose", None),
            Token::Option("output", Some("next")),
            Token::Option("verbose", None),
            Token::Option("level", None),
            Token::Option("help", None),
        ])
    );
}

#[test]
fn getopt_cluster_is_separate_flags() {
    let clustered = ["-hv", "x"];
    let separate = ["-h", "-v", "x"];
    assert_eq!(
        Parser::new(&clustered, LookupTable(TABLE)).parse(),
        Parser::new(&separate, LookupTable(TABLE)).parse()
    );
}

#[test]
fn getopt_long_flag_without_value() {
    let args = ["--hello", "world"];
    let mut parser = Parser::new(&args, LookupTable(&[("hello", ArgType::NoValue, 'h')]));
    assert_eq!(
        parser.parse(),
        Ok(vec![Token::Option("hello", None), Token::Value("world")])
    );
}
