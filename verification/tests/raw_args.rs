use tenu::builder::arg::Arg;
use tenu::builder::args::Args;

fn leak(v: Vec<Arg>) -> &'static [Arg] {
    Box::leak(v.into_boxed_slice())
}

#[test]
fn arg_reads_until_null() {
    let a = Arg::from_bytes(b"hello\0junk").unwrap();
    assert_eq!(a.len(), 5);
    assert!(!a.is_empty());
    assert_eq!(a.as_bytes(), b"hello");
    assert_eq!(a.as_str().unwrap(), "hello");
    let e = Arg::from_bytes(b"\0").unwrap();
    assert!(e.is_empty());
    assert_eq!(e.as_str().unwrap(), "");
    assert!(Arg::from_bytes(b"no terminator").is_none());
    let bad = Arg::from_bytes(b"\xff\xfe\0").unwrap();
    assert!(bad.as_str().is_err());
}

#[test]
fn args_yield_strings() {
    let mut args = Args::new(leak(vec![
        Arg::from_bytes(b"prog\0").unwrap(),
        Arg::from_bytes(b"\xff\0").unwrap(),
        Arg::from_bytes("żółw\0".as_bytes()).unwrap(),
    ]));
    assert_eq!(args.next(), Some("prog"));
    assert_eq!(args.next(), Some(""));
    assert_eq!(args.next(), Some("żółw"));
    assert_eq!(args.next(), None);
}
