use tenu::parse::cursor::FlatCursor;

#[test]
fn test_mixed() {
    let strings = ["hello", "world"];
    let mut iter = FlatCursor::new(&strings);
    assert_eq!(iter.next(), Some('h'));
    assert_eq!(iter.next(), Some('e'));
    assert_eq!(iter.next(), Some('l'));
    assert_eq!(iter.next_str(), Some("lo"));
    assert_eq!(iter.next(), Some('w'));
    assert_eq!(iter.next(), Some('o'));
    assert_eq!(iter.peek_str(), Some("rld"));
    assert_eq!(iter.next(), Some('r'));
    assert_eq!(iter.next(), Some('l'));
    assert_eq!(iter.next(), Some('d'));
}

#[test]
fn test_with_str_slice() {
    let strings = ["hello", "world"];
    let mut iter = FlatCursor::new(&strings);
    let mut result = String::new();
    while let Some(c) = iter.next() {
        result.push(c);
    }
    assert_eq!(result, "helloworld");
}

#[test]
fn cursor_skips_empty_strings() {
    let strings = ["", "ab", "", "c", ""];
    let mut iter = FlatCursor::new(&strings);
    let mut result = String::new();
    while let Some(c) = iter.next() {
        result.push(c);
    }
    assert_eq!(result, "abc");
    assert_eq!(iter.next(), None);
    assert_eq!(iter.peek_str(), None);
}

#[test]
fn cursor_peek() {
    let strings = ["ab", "cd"];
    let mut iter = FlatCursor::new(&strings);
    assert_eq!(iter.peek(), Some('a'));
    assert_eq!(iter.peek_str(), None);
    assert_eq!(iter.next(), Some('a'));
    assert_eq!(iter.peek(), Some('b'));
    assert_eq!(iter.next(), Some('b'));
    // the string being read is used up: peek does not look into the next one
    assert_eq!(iter.peek(), None);
    assert_eq!(iter.peek_str(), Some(""));
    assert_eq!(iter.next(), Some('c'));
}

#[test]
fn cursor_next_str_takes_whole_strings() {
    let strings = ["ab", "cd"];
    let mut iter = FlatCursor::new(&strings);
    assert_eq!(iter.next_str(), Some("ab"));
    assert_eq!(iter.next_str(), Some("cd"));
    assert_eq!(iter.next_str(), None);
    assert_eq!(iter.next(), None);
}

#[test]
fn cursor_calls_lose_nothing() {
    let strings = ["ab", "", "cde", "f"];
    let mut iter = FlatCursor::new(&strings);
    let mut seen = String::new();
    seen.push(iter.next().unwrap());
    assert_eq!(iter.peek(), Some('b'));
    seen.push_str(iter.next_str().unwrap());
    seen.push_str(iter.next_str().unwrap());
    seen.push(iter.next().unwrap());
    assert_eq!(iter.peek_str(), Some("de"));
    seen.push_str(iter.next_str().unwrap());
    while let Some(c) = iter.next() {
        seen.push(c);
    }
    assert_eq!(seen, "abcdef");
}
