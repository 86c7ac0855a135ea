use byte_parser::{parse_iter, ParseIteratorExt, StrParser};

#[test]
fn test_parse_iter() {
    let mut iter = parse_iter(StrParser::new("my str"), |parser: &mut StrParser| {
        parser.peek()?;
        let mut word = Vec::new();
        while let Some(b) = parser.next_if(|b: u8| b != b' ') {
            word.push(b);
        }
        // skip the space between words
        parser.advance_if(|b: u8| b == b' ');
        Some(String::from_utf8(word).unwrap())
    });
    assert_eq!(iter.next().unwrap(), "my");
    assert_eq!(iter.next().unwrap(), "str");
    assert!(iter.next::<String>().is_none());
}

#[test]
fn parse_iter_hands_cursor_back() {
    let mut iter = parse_iter(StrParser::new("xy"), |parser: &mut StrParser| parser.next());
    assert_eq!(Some(b'x'), iter.next());
    let mut parser = iter.into_inner();
    assert_eq!(Some(b'y'), parser.next());
}
