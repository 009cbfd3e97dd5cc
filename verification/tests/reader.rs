use gchemol_parser::{ParseError, TextReader};

#[test]
fn test_reader() {
    // test from_str
    let s = "abc\nabcd\r\nabcde\n";
    let reader = TextReader::from_str(s);
    let line = reader.lines().unwrap().into_iter().next().unwrap();
    assert_eq!(line, "abc");

    // test read line until
    let s = "abc\nhere\r\nabcde\nhere\n\r";
    let mut reader = TextReader::from_str(s);
    let mut buf = String::new();
    let n = reader.read_until(&mut buf, |line| line.starts_with("here")).unwrap();
    assert_eq!(n, 4);
    assert_eq!(buf, "abc\n");
    buf.clear();
    let n = reader.read_line(&mut buf).unwrap();
    // a line read comes with a lone line feed; the count is that of the bytes passed
    assert_eq!(buf, "here\n");
    assert_eq!(n, 6);
}

#[test]
fn read_line_counts_bytes_and_ends_with_zero() {
    let mut reader = TextReader::from_str("ab\ncd");
    let mut buf = String::new();
    assert_eq!(reader.read_line(&mut buf), Ok(3));
    assert_eq!(reader.get_current_position(), Ok(3));
    assert_eq!(reader.read_line(&mut buf), Ok(2));
    assert_eq!(buf, "ab\ncd");
    assert_eq!(reader.read_line(&mut buf), Ok(0));
    assert_eq!(reader.read_line(&mut buf), Ok(0));
    assert_eq!(buf, "ab\ncd");
    assert_eq!(reader.get_current_position(), Ok(5));
}

#[test]
fn read_line_keeps_a_lone_carriage_return() {
    let mut reader = TextReader::from_str("a\rb\r\n\r");
    let mut buf = String::new();
    assert_eq!(reader.read_line(&mut buf), Ok(5));
    assert_eq!(buf, "a\rb\n");
    buf.clear();
    assert_eq!(reader.read_line(&mut buf), Ok(1));
    assert_eq!(buf, "\r");
}

#[test]
fn read_line_passes_over_a_line_that_is_no_text() {
    let mut reader = TextReader::new(vec![b'a', b'\n', 0xff, 0xfe, b'\n', b'b', b'\n']);
    let mut buf = String::new();
    assert_eq!(reader.read_line(&mut buf), Ok(2));
    assert_eq!(reader.read_line(&mut buf), Err(ParseError::Decode));
    assert_eq!(buf, "a\n");
    assert_eq!(reader.get_current_position(), Ok(5));
    assert_eq!(reader.read_line(&mut buf), Ok(2));
    assert_eq!(buf, "a\nb\n");
}

#[test]
fn peek_line_does_not_move() {
    let mut reader = TextReader::from_str("one\r\ntwo\n");
    assert_eq!(reader.peek_line(), Some("one\n".to_string()));
    assert_eq!(reader.peek_line(), Some("one\n".to_string()));
    assert_eq!(reader.peek_line(), Some("one\n".to_string()));
    assert_eq!(reader.get_current_position(), Ok(0));
    let mut buf = String::new();
    reader.read_line(&mut buf).unwrap();
    assert_eq!(reader.peek_line(), Some("two\n".to_string()));
    assert_eq!(reader.get_current_position(), Ok(5));
    reader.goto_end();
    assert_eq!(reader.peek_line(), None);
    assert_eq!(reader.get_current_position(), Ok(9));
}

#[test]
fn peek_line_shows_nothing_of_a_line_that_is_no_text() {
    let mut reader = TextReader::new(vec![0xc3, b'\n']);
    assert_eq!(reader.peek_line(), None);
    assert_eq!(reader.get_current_position(), Ok(0));
}

#[test]
fn seek_line_stops_before_the_match() {
    let mut reader = TextReader::from_str("@<TRIPOS>MOLECULE\nch3f\n@<TRIPOS>ATOM\n1 C\n");
    assert_eq!(reader.seek_line(|line| line.starts_with("@<TRIPOS>")), Ok(0));
    assert_eq!(reader.get_current_position(), Ok(0));
    let mut buf = String::new();
    reader.read_line(&mut buf).unwrap();
    assert_eq!(reader.seek_line(|line| line.starts_with("@<TRIPOS>")), Ok(5));
    assert_eq!(reader.get_current_position(), Ok(23));
    assert_eq!(reader.peek_line(), Some("@<TRIPOS>ATOM\n".to_string()));
}

#[test]
fn seek_line_without_a_match_ends_at_the_end() {
    let mut reader = TextReader::from_str("a\nb\n");
    assert_eq!(reader.seek_line(|line| line == "c\n"), Err(ParseError::NotFound));
    assert_eq!(reader.get_current_position(), Ok(4));
    let mut empty = TextReader::from_str("");
    assert_eq!(empty.seek_line(|_| true), Err(ParseError::NotFound));
}

#[test]
fn seek_line_fails_on_a_line_that_is_no_text() {
    let mut reader = TextReader::new(vec![b'a', b'\n', 0x80, b'\n', b'c', b'\n']);
    assert_eq!(reader.seek_line(|line| line == "c\n"), Err(ParseError::Decode));
    assert_eq!(reader.get_current_position(), Ok(4));
}

#[test]
fn read_until_keeps_what_it_read() {
    let mut reader = TextReader::from_str("a\r\nb\nc\n");
    let mut buf = String::from(">");
    assert_eq!(reader.read_until(&mut buf, |line| line == "c\n"), Ok(5));
    assert_eq!(buf, ">a\nb\n");
    assert_eq!(reader.get_current_position(), Ok(5));
    let mut buf = String::new();
    assert_eq!(reader.read_until(&mut buf, |line| line == "x"), Err(ParseError::NotFound));
    assert_eq!(buf, "c\n");
    assert_eq!(reader.get_current_position(), Ok(7));
}

#[test]
fn read_to_string_takes_the_rest_as_it_stands() {
    let mut reader = TextReader::from_str("a\r\nb\nc");
    let mut buf = String::new();
    reader.read_line(&mut buf).unwrap();
    let mut rest = String::new();
    assert_eq!(reader.read_to_string(&mut rest), Ok(3));
    assert_eq!(rest, "b\nc");
    assert_eq!(reader.read_to_string(&mut rest), Ok(0));
    assert_eq!(rest, "b\nc");

    let mut broken = TextReader::new(vec![b'a', 0xff]);
    assert_eq!(broken.read_to_string(&mut rest), Err(ParseError::Decode));
    assert_eq!(rest, "b\nc");
    assert_eq!(broken.get_current_position(), Ok(2));
}

#[test]
fn lines_come_without_endings() {
    let reader = TextReader::from_str("abc\nabcd\r\n\nabcde");
    assert_eq!(reader.lines(), Ok(vec!["abc".to_string(), "abcd".into(), "".into(), "abcde".into()]));
    assert_eq!(TextReader::from_str("").lines(), Ok(vec![]));
    assert_eq!(TextReader::new(vec![b'a', b'\n', 0xff]).lines(), Err(ParseError::Decode));
}

#[test]
fn goto_moves_anywhere() {
    let mut reader = TextReader::from_str("0123\n5678\n");
    assert_eq!(reader.goto(5), Ok(()));
    assert_eq!(reader.peek_line(), Some("5678\n".to_string()));
    assert_eq!(reader.goto(100), Ok(()));
    assert_eq!(reader.get_current_position(), Ok(100));
    assert_eq!(reader.peek_line(), None);
    let mut buf = String::new();
    assert_eq!(reader.read_line(&mut buf), Ok(0));
    assert_eq!(reader.get_current_position(), Ok(100));
    reader.goto_start();
    assert_eq!(reader.get_current_position(), Ok(0));
    reader.goto_end();
    assert_eq!(reader.get_current_position(), Ok(10));
}

#[test]
fn goto_relative_refuses_to_leave_the_range() {
    let mut reader = TextReader::from_str("0123\n5678\n");
    assert_eq!(reader.goto_relative(7), Ok(7));
    assert_eq!(reader.goto_relative(-2), Ok(5));
    assert_eq!(reader.goto_relative(-6), Err(ParseError::InvalidArgument));
    assert_eq!(reader.get_current_position(), Ok(5));
    assert_eq!(reader.goto_relative(i64::MIN), Err(ParseError::InvalidArgument));
    assert_eq!(reader.goto_relative(-5), Ok(0));
    reader.goto(u64::MAX).unwrap();
    assert_eq!(reader.goto_relative(1), Err(ParseError::InvalidArgument));
    assert_eq!(reader.goto_relative(0), Ok(u64::MAX));
}

#[test]
fn starts_line_tells_line_starts() {
    let reader = TextReader::from_str("ab\ncd\n");
    assert!(reader.starts_line(0));
    assert!(!reader.starts_line(1));
    assert!(reader.starts_line(3));
    assert!(!reader.starts_line(6));
    assert_eq!(reader.len(), 6);
}

#[test]
fn failures_have_words() {
    assert_eq!(ParseError::NotFound.message(), "no matched line found");
    assert_eq!(ParseError::Malformed("invalid xyz format".into()).message(), "invalid xyz format");
    assert_eq!(ParseError::Decode.message(), "the text is not valid UTF-8");
    assert_eq!(ParseError::UnexpectedEof.message(), "the text ended before the lines asked for");
    assert_eq!(ParseError::NoMoreMarkers.message(), "already reached the last marker or no marker at all");
    assert_eq!(ParseError::Pattern.message(), "invalid pattern");
    assert_eq!(ParseError::InvalidArgument.message(), "position or index out of range");
}
