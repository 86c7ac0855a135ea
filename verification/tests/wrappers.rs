use byte_parser::ignore_byte::IgnoreByte;
use byte_parser::recorder::RecordIter;
use byte_parser::stop::Stop;
use byte_parser::while_byte_fn::WhileByteFn;
use byte_parser::{ParseIteratorExt, Parser, StrParser};

#[test]
fn test_ignore_byte() {
    let s = b"my byte str";

    let mut parser = IgnoreByte::new(Parser::new(s), b' ');

    for b in s.iter() {
        if *b == b' ' {
            continue;
        }
        assert_eq!(*b, parser.next().unwrap());
    }

    assert_eq!(None, parser.next());
}

#[test]
fn test_while_byte_fn() {
    let s = b"my str";

    let parser = Parser::new(s);
    let mut parser_while = WhileByteFn::new(parser, |b: u8| b != b' ');

    assert_eq!(b'm', parser_while.next().unwrap());
    assert_eq!(b'y', parser_while.next().unwrap());
    assert!(parser_while.next().is_none());

    let parser = parser_while.into_inner();
    let mut parser_while = WhileByteFn::new(parser, |b: u8| b != b' ');
    // because we are at the space it should return none
    assert!(parser_while.next().is_none());

    // skip space
    let mut parser = parser_while.into_inner();
    parser.next().unwrap();

    // now parse the rest
    let mut parser_while = WhileByteFn::new(parser, |b: u8| b != b' ');

    assert_eq!(b's', parser_while.next().unwrap());
    assert_eq!(b't', parser_while.next().unwrap());
    assert_eq!(b'r', parser_while.next().unwrap());
    assert!(parser_while.next().is_none());
}

#[test]
fn test_stop() {
    let parser = StrParser::new("123456789");
    let mut parser = RecordIter::new(parser);

    parser.consume_len(5).unwrap();
    assert_eq!("12345", parser.to_str());
    let mut stopped = Stop::new(parser);
    assert_eq!("12345", stopped.consume_to_str());
}

#[test]
fn record() {
    let s = b"my byte str";

    let mut parser = Parser::new(s);
    parser.consume_while_byte_fn(|b: u8| b != b' ');
    parser.next().unwrap(); // skip first word's space

    let mut rec = RecordIter::new(parser);
    let st = rec.consume_to_str();

    assert_eq!("byte str", st);
}

#[test]
fn nested_record() {
    let s = b"aaaabbb";

    let parser = Parser::new(s);

    let first_recorder = RecordIter::new(parser);

    let bounded = WhileByteFn::new(first_recorder, |b: u8| b == b'a');
    let mut inner_recorder = RecordIter::new(bounded);
    let res = inner_recorder.consume_to_str_unchecked();
    assert_eq!("aaaa", res);

    let mut first_recorder = inner_recorder.into_inner().into_inner();
    assert_eq!("aaaabbb", first_recorder.consume_to_str_unchecked());
}

#[test]
fn check_that_it_is_inplace() {
    let parser = Parser::new(b"aaaabbb");

    let mut rec = RecordIter::new(parser);
    rec.consume_while_byte_fn(|b: u8| b == b'a');
    let res = rec.to_str();
    assert_eq!("aaaa", res);
}

#[test]
fn while_byte_fn_leaves_boundary_byte() {
    // the wrapper yields the matching run and never consumes the byte the
    // predicate rejected: the wrapped cursor yields it next
    let s = b"aaabbb";

    let parser = Parser::new(s);
    let mut bounded = WhileByteFn::new(parser, |b: u8| b == b'a');

    assert_eq!(Some(b'a'), bounded.next());
    assert_eq!(Some(b'a'), bounded.next());
    assert_eq!(Some(b'a'), bounded.next());
    assert_eq!(None, bounded.next());

    let mut parser = bounded.into_inner();
    assert_eq!(Some(b'b'), parser.next());
}

#[test]
fn ignored_bytes_stay_in_spans() {
    // stepping skips the filtered byte, but the materialized span is cut
    // from raw positions and keeps every byte
    let s = b"a\rb\r";

    let filtered = IgnoreByte::new(Parser::new(s), b'\r');
    let mut rec = RecordIter::new(filtered);

    assert_eq!(Some(b'a'), rec.next());
    assert_eq!(Some(b'b'), rec.next());
    assert_eq!(None, rec.next());

    assert_eq!(b"a\rb\r", rec.to_slice());
}

#[test]
fn checked_text_conversion() {
    // valid text converts; bytes that are not UTF-8 are reported, not returned
    let mut rec = RecordIter::new(Parser::new(b"ab"));
    rec.consume();
    assert_eq!(Some("ab"), rec.try_to_str());

    let mut rec = RecordIter::new(Parser::new(b"a\xffb"));
    rec.consume();
    assert_eq!(None, rec.try_to_str());
}

#[test]
fn unchecked_text_on_a_text_leaf() {
    // the leaf's encoding guarantee carries the unchecked conversion
    let mut rec = RecordIter::new(StrParser::new("plain"));
    rec.consume();
    assert_eq!("plain", rec.to_str_unchecked());
    assert_eq!("plain", rec.consume_to_str_unchecked());
}

#[test]
fn stop_keeps_position_and_recorder() {
    let mut parser = Parser::new(b"abc");
    assert_eq!(Some(b'a'), parser.next());
    let mut stopped = Stop::new(parser);
    assert!(stopped.next().is_none());
    // the frozen cursor still stands where it stood
    let mut parser = stopped.into_inner();
    assert_eq!(Some(b'b'), parser.next());
}
