use gchemol_parser::parser::Parsed;
use gchemol_parser::parsers::{read_line, read_usize};
use gchemol_parser::{ParseError, TextParser, TextReader};

// a number of lines, and then as many lines
fn block(chunk: &str, eof: bool) -> Parsed<Vec<String>> {
    let Some((mut rest, n)) = read_usize(chunk) else {
        return if chunk.is_empty() || (eof && !chunk.contains('\n')) {
            Parsed::Error
        } else if chunk.contains('\n') {
            Parsed::Failure
        } else {
            Parsed::Incomplete
        };
    };
    let mut lines = vec![];
    for _ in 0..n {
        match read_line(rest) {
            Some((behind, line)) if line.ends_with('\n') || (eof && !line.is_empty()) => {
                lines.push(line.to_string());
                rest = behind;
            }
            _ => return Parsed::Incomplete,
        }
    }
    Parsed::Done { rest: rest.len(), value: lines }
}

fn all(buffer_size: usize, txt: &str) -> (Vec<Vec<String>>, Result<Option<Vec<String>>, ParseError>) {
    let parser = TextParser::new(buffer_size);
    let mut parts = parser.parse(TextReader::from_str(txt), block);
    let mut found = vec![];
    loop {
        match parts.next() {
            Ok(Some(part)) => found.push(part),
            last => return (found, last),
        }
    }
}

#[test]
fn parts_are_found_whatever_the_buffer_size() {
    let txt = "2\na\nb\n0\n1\nc\n";
    for n in [1, 2, 3, 5, 100] {
        let (found, last) = all(n, txt);
        assert_eq!(found, vec![vec!["a\n", "b\n"], vec![], vec!["c\n"]], "buffer size {}", n);
        assert_eq!(last, Ok(None));
    }
}

#[test]
fn the_default_buffer_holds_a_thousand_lines() {
    let parser = TextParser::default();
    let mut parts = parser.parse(TextReader::from_str("1\na\n"), |chunk: &str, eof: bool| {
        assert_eq!(chunk, "1\na\n");
        assert!(eof);
        block(chunk, eof)
    });
    assert_eq!(parts.next(), Ok(Some(vec!["a\n".to_string()])));
}

#[test]
fn the_last_part_may_lack_its_line_ending() {
    let (found, last) = all(2, "1\na\n1\nb");
    assert_eq!(found, vec![vec!["a\n"], vec!["b"]]);
    assert_eq!(last, Ok(None));
}

#[test]
fn a_part_cut_short_by_the_end_starves_the_stream() {
    let (found, last) = all(2, "1\na\n3\nb\n");
    assert_eq!(found, vec![vec!["a\n"]]);
    assert_eq!(last, Err(ParseError::UnexpectedEof));
}

#[test]
fn text_that_is_no_part_fails_the_stream() {
    let parser = TextParser::new(1);
    let mut parts = parser.parse(TextReader::from_str("1\na\nx\n1\nb\n"), block);
    assert_eq!(parts.next(), Ok(Some(vec!["a\n".to_string()])));
    assert!(matches!(parts.next(), Err(ParseError::Malformed(_))));
    assert_eq!(parts.next(), Ok(None));
}

#[test]
fn an_empty_text_has_no_part() {
    let (found, last) = all(3, "");
    assert!(found.is_empty());
    assert_eq!(last, Ok(None));
}

#[test]
fn a_grammar_that_takes_nothing_is_refused() {
    let parser = TextParser::new(2);
    for rest in [5, 6, 4] {
        let mut parts = parser.parse(TextReader::from_str("é\nb\n"), move |_: &str, _: bool| Parsed::Done {
            rest,
            value: (),
        });
        // the whole text, more than the text, and the middle of a character
        assert!(matches!(parts.next(), Err(ParseError::Malformed(_))));
        assert_eq!(parts.next(), Ok(None));
    }
}

#[test]
fn a_parser_that_reads_no_line_stalls() {
    let parser = TextParser::new(0);
    let mut parts = parser.parse(TextReader::from_str("a\n"), |_: &str, _: bool| Parsed::<()>::Incomplete);
    assert_eq!(parts.next(), Err(ParseError::InvalidArgument));
    assert_eq!(parts.next(), Ok(None));
}

#[test]
fn a_line_that_is_no_text_fails_the_stream() {
    let parser = TextParser::new(1);
    let mut parts = parser.parse(TextReader::new(vec![b'0', b'\n', 0xff, b'\n']), block);
    assert_eq!(parts.next(), Ok(Some(vec![])));
    assert_eq!(parts.next(), Err(ParseError::Decode));
    assert_eq!(parts.next(), Ok(None));
}
