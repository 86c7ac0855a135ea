use byte_parser::position::Position;
use byte_parser::{ExpectByte, ParseIterator, ParseIteratorExt, Parser, StrParser};

#[test]
fn parser_advance() {
    let s = b"my byte str";

    let mut parser = Parser::new(s);

    for b in s.iter() {
        assert_eq!(*b, parser.next().unwrap());
    }

    assert_eq!(None, parser.next());
}

#[test]
fn str_parser_advance() {
    let s = "my byte str";

    let mut parser = StrParser::new(s);

    for b in s.as_bytes().iter() {
        assert_eq!(*b, parser.next().unwrap());
    }

    assert_eq!(None, parser.next());
}

#[test]
fn str_parser_to_str() {
    let s = "my byte str";

    let mut parser = StrParser::new(s);
    parser.consume_len(3).unwrap();
    let mut parser = byte_parser::recorder::RecordIter::new(parser);
    assert_eq!("byte str", parser.consume_to_str());
}

#[test]
fn test_count_byte() {
    let s = b"baaaab";

    let mut parser = Parser::new(s);
    assert_eq!(0, parser.count_byte(b'a'));
    assert_eq!(b'b', parser.next().unwrap());
    assert_eq!(4, parser.count_byte(b'a'));
    assert_eq!(b'b', parser.next().unwrap());
    assert!(parser.next().is_none());
    assert_eq!(0, parser.count_byte(b'a'));
}

#[test]
fn expect_byte() {
    let s = b"abaa";

    let mut parser = Parser::new(s);
    assert!(parser.expect_byte(b'a').is_ok());
    assert!(parser.expect_byte(b'a').is_err());
}

#[test]
fn advance_if() {
    let mut parser = Parser::new(b"ab");

    assert!(parser.advance_if(|b: u8| b == b'a').unwrap());
    assert!(!parser.advance_if(|b: u8| b == b'a').unwrap());
    assert!(parser.advance_if(|b: u8| b == b'b').unwrap());
    assert!(parser.advance_if(|b: u8| b == b'b').is_none());
}

#[test]
fn next_if() {
    let mut parser = Parser::new(b"ab");

    assert_eq!(parser.next_if(|b: u8| b == b'a').unwrap(), b'a');
    assert!(parser.next_if(|b: u8| b == b'x').is_none());
    assert_eq!(parser.next_if(|b: u8| b == b'b').unwrap(), b'b');
    assert!(parser.next_if(|b: u8| b == b'x').is_none());
}

#[test]
fn peek() {
    let s = b"abaa";

    assert_eq!(b'a', Parser::new(s).peek().unwrap());
    assert_eq!(b'a', Parser::new(s).peek_at(1).unwrap());
    assert_eq!(b'b', Parser::new(s).peek_at(2).unwrap());
    assert_eq!(b'a', Parser::new(s).peek_at(3).unwrap());
    assert!(Parser::new(s).peek_at(5).is_none());
}

#[test]
fn consume() {
    // normal
    let mut parser = Parser::new(b"aaa");
    parser.consume();
    assert!(parser.next().is_none());

    // len
    let mut parser = Parser::new(b"aaa");
    assert!(parser.consume_len(1).is_ok());
    assert!(parser.next().is_some());

    let mut parser = Parser::new(b"aaa");
    parser.consume();
    assert!(matches!(parser.consume_len(1), Err(0)));

    // at least
    let mut parser = Parser::new(b"aaa");
    assert!(parser.consume_at_least(1).is_ok());
    assert!(parser.next().is_none());
}

#[test]
fn consume_counts() {
    let mut parser = Parser::new(b"abcde");
    assert_eq!(5, parser.consume_and_count());
    assert_eq!(0, parser.consume_and_count());

    let mut parser = Parser::new(b"abcde");
    assert_eq!(Ok(5), parser.consume_at_least_and_count(2));

    let mut parser = Parser::new(b"abcde");
    assert_eq!(Err(5), parser.consume_at_least_and_count(9));
}

#[test]
fn peek_len_spans() {
    let mut parser = Parser::new(b"abcd");
    assert_eq!(b"ab", parser.peek_len(2).unwrap());
    // peeking copied nothing and moved nothing
    assert_eq!(b"abcd", parser.peek_len(4).unwrap());
    assert!(parser.peek_len(5).is_none());
    assert_eq!(b'a', parser.next().unwrap());
}

#[test]
fn expect_none_reports_byte() {
    let mut parser = Parser::new(b"x");
    assert_eq!(Err(b'x'), parser.expect_none());
    assert_eq!(Ok(()), parser.expect_none());
}

#[test]
fn expect_byte_mismatch_and_exhaustion() {
    // a mismatch reports the observed byte
    let mut parser = Parser::new(b"ba");
    assert_eq!(Err(Some(b'b')), parser.expect_byte(b'a'));

    // consuming the only byte, then expecting again, reports exhaustion
    let mut parser = Parser::new(b"a");
    assert_eq!(Ok(()), parser.expect_byte(b'a'));
    assert_eq!(Err(None), parser.expect_byte(b'a'));
}

#[test]
fn expect_byte_on_values() {
    assert_eq!(Ok(b'x'), b'x'.expect_byte(b'x'));
    assert_eq!(Err(Some(b'x')), b'x'.expect_byte(b'y'));
    assert_eq!(Ok(Some(b'x')), Some(b'x').expect_byte(b'x'));
    assert_eq!(Err(Some(b'x')), Some(b'x').expect_byte(b'y'));
    assert_eq!(Err(None), None.expect_byte(b'y'));
    assert!(b'3'.expect_byte_fn(|b| b.is_ascii_digit()).is_ok());
    assert!(b'z'.expect_byte_fn(|b| b.is_ascii_digit()).is_err());
}

#[test]
fn position_values() {
    let null = Position::null();
    assert_eq!(None, null.opt());
    assert_eq!(0, null.next_index());

    let at = Position::at(3);
    assert_eq!(Some(3), at.opt());
    assert_eq!(4, at.next_index());
}

#[test]
fn byte_reads_under_cursor() {
    let mut parser = Parser::new(b"ab");
    assert_eq!(None, parser.byte());
    parser.advance().unwrap();
    assert_eq!(Some(b'a'), parser.byte());
    // reading twice does not move
    assert_eq!(Some(b'a'), parser.byte());
}

#[test]
fn capture_and_restore_round_trip() {
    let mut parser = Parser::new(b"ab");
    assert_eq!(b'a', parser.next().unwrap());

    let pit = parser.pit();
    // any number of peeks in between changes nothing observable
    assert_eq!(Some(b'b'), parser.peek());
    assert_eq!(Some(b'b'), parser.peek());
    parser.restore_pit(pit);

    assert_eq!(Some(b'b'), parser.next());
    assert_eq!(None, parser.next());
}

#[test]
fn consume_while_byte_stops_at_other() {
    let mut parser = Parser::new(b"aaab");
    parser.consume_while_byte(b'a');
    assert_eq!(Some(b'b'), parser.next());
}

#[test]
fn consume_while_byte_fn_stops_at_rejected() {
    let mut parser = Parser::new(b"12x3");
    parser.consume_while_byte_fn(|b: u8| b.is_ascii_digit());
    assert_eq!(Some(b'x'), parser.next());
}

#[test]
fn encoding_flag_is_fixed_at_the_leaf() {
    assert!(!Parser::new(b"abc").is_valid_utf8());
    assert!(StrParser::new("abc").is_valid_utf8());
    // wrappers inherit the flag unchanged
    let rec = byte_parser::recorder::RecordIter::new(StrParser::new("abc"));
    assert!(rec.is_valid_utf8());
    let rec = byte_parser::recorder::RecordIter::new(Parser::new(b"abc"));
    assert!(!rec.is_valid_utf8());
}

#[test]
fn empty_input_is_exhausted_at_once() {
    let mut parser = Parser::new(b"");
    assert_eq!(None, parser.peek());
    assert_eq!(None, parser.next());
    assert_eq!(0, parser.consume_and_count());
    assert_eq!(Err(0), parser.consume_len(1));
}
