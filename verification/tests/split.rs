use byte_parser::ignore_byte::IgnoreByte;
use byte_parser::recorder::RecordIter;
use byte_parser::split_on_byte::{SplitOnByte, SplitOnByteIter};
use byte_parser::{ParseIterator, ParseIteratorExt, Parser, StrParser};

fn collect_segment<'s, T: ParseIterator<'s>>(seg: &mut SplitOnByteIter<T>) -> String {
    let mut bytes = Vec::new();
    while let Some(b) = seg.next() {
        bytes.push(b);
    }
    String::from_utf8(bytes).unwrap()
}

#[test]
fn test_split_on_byte_next() {
    let s = b"my byte str";

    let mut parser_split = SplitOnByte::new(Parser::new(s), b' ');

    let my = parser_split.next().unwrap();
    assert_eq!(b'm', my.next().unwrap());
    assert_eq!(b'y', my.next().unwrap());
    assert!(my.next().is_none());

    let byte = parser_split.next().unwrap();
    assert_eq!(b'b', byte.next().unwrap());
    assert_eq!(b'y', byte.next().unwrap());
    // skip the rest

    let str_part = parser_split.next().unwrap();
    assert_eq!(b's', str_part.next().unwrap());

    assert!(parser_split.next().is_none());
}

#[test]
fn test_split_on_byte_for_each() {
    let s = b"my byte str";

    let mut parser_while = SplitOnByte::new(Parser::new(s), b' ');

    let c = std::cell::Cell::new(0);
    parser_while.for_each(|_seg: &mut SplitOnByteIter<Parser>| {
        c.set(c.get() + 1);
    });

    assert_eq!(3, c.get());
}

#[test]
fn if_peek_called_could_mess_up_byte_reached() {
    // this test makes sure this doesnt happen

    let s = b"ab\raaa\r aab\raa";

    let filtered = IgnoreByte::new(Parser::new(s), b'\r');
    let mut split = SplitOnByte::new(filtered, b' ');
    split.for_each(|parser: &mut SplitOnByteIter<IgnoreByte<Parser>>| {
        // lets ignore b and count a
        let mut count_a = 0;
        while let Some(b) = parser.next() {
            match b {
                b'a' => count_a += 1,
                b'b' => (),
                _ => break,
            }
        }

        assert_eq!(4, count_a);
    });
}

#[test]
fn combining_multiple_iters() {
    let s = b"ab\raaa\r aab\raa";

    let filtered = IgnoreByte::new(Parser::new(s), b'\r');
    let mut split = SplitOnByte::new(filtered, b' ');
    split.for_each(|parser: &mut SplitOnByteIter<IgnoreByte<Parser>>| {
        // lets ignore b and count a
        let mut count_a = 0;
        while let Some(b) = parser.next() {
            match b {
                b'a' => count_a += 1,
                b'b' => (),
                _ => break,
            }
        }

        assert_eq!(count_a, 4);
    });
}

#[test]
fn record_combi() {
    let s = b"my byte str";

    let mut parser = SplitOnByte::new(Parser::new(s), b' ');

    let st = parser.next().unwrap().consume_span();
    assert_eq!(b"my", st);

    let st = parser.next().unwrap().consume_span();
    assert_eq!(b"byte", st);
}

#[test]
fn create_an_iterator() {
    let mut split = SplitOnByte::new(StrParser::new("my byte str"), b' ');
    let words = split.map_and_collect(collect_segment);
    assert_eq!(words[0], "my");
    assert_eq!(words[1], "byte");
    assert_eq!(words[2], "str");
    assert!(words.len() == 3);
}

#[test]
fn key_value_split() {
    // input "key: value", split on ':': the first segment holds "key", and
    // the cursor after crossing the delimiter materializes to " value"
    let mut split = SplitOnByte::new(StrParser::new("key: value"), b':');

    let key = split.next().unwrap().consume_span();
    assert_eq!(b"key", key);

    let parser = split.into_inner();
    let mut rest = RecordIter::new(parser);
    assert_eq!(" value", rest.consume_to_str());
}

#[test]
fn split_round_trip() {
    // re-inserting the delimiter between all

    let s = "one,two,,four";
    let mut split = SplitOnByte::new(StrParser::new(s), b',');
    let segments = split.map_and_collect(collect_segment);
    assert_eq!(segments, ["one", "two", "", "four"]);
    assert_eq!(segments.join(","), s);
}

#[test]
fn split_boundary_choices() {
    // a delimiter at the end of the buffer still opens one last, empty
    // segment; ending without a fresh delimiter yields nothing more
    let mut split = SplitOnByte::new(Parser::new(b"ab"), b',');
    assert_eq!("ab", collect_segment(split.next().unwrap()));
    assert!(split.next().is_none());

    let mut split = SplitOnByte::new(Parser::new(b"ab,"), b',');
    assert_eq!("ab", collect_segment(split.next().unwrap()));
    assert_eq!("", collect_segment(split.next().unwrap()));
    assert!(split.next().is_none());
}

#[test]
fn segment_snapshots_restore() {
    let mut split = SplitOnByte::new(Parser::new(b"abc def"), b' ');

    let seg = split.next().unwrap();
    assert_eq!(Some(b'a'), seg.next());
    let pit = seg.pit();
    assert_eq!(Some(b'b'), seg.next());
    assert_eq!(Some(b'c'), seg.next());
    seg.restore_pit(pit);
    assert_eq!(Some(b'b'), seg.next());
}

#[test]
fn map_and_collect_counts_segments() {
    let mut split = SplitOnByte::new(Parser::new(b"a b c d"), b' ');
    let lens = split.map_and_collect(|seg: &mut SplitOnByteIter<Parser>| {
        let mut n = 0;
        while seg.next().is_some() {
            n += 1;
        }
        n
    });
    assert_eq!(vec![1, 1, 1, 1], lens);
}

#[test]
fn delimiter_only_input() {
    // the initial segment, plus one fresh segment per delimiter crossed
    let mut split = SplitOnByte::new(Parser::new(b",,"), b',');
    assert_eq!("", collect_segment(split.next().unwrap()));
    assert_eq!("", collect_segment(split.next().unwrap()));
    assert_eq!("", collect_segment(split.next().unwrap()));
    assert!(split.next().is_none());
}
