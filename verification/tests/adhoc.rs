use gchemol_parser::adhoc::DataRecords;
use gchemol_parser::{ParseError, TextReader};
use std::cell::Cell;

fn records<F: Fn(&str) -> bool>(mut records: DataRecords<F>) -> Vec<String> {
    let mut all = vec![];
    while let Some(record) = records.next().unwrap() {
        all.push(record);
    }
    all
}

#[test]
fn test() {
    let x = "1
2
3
4
5";
    let mut r = TextReader::from_str(x);
    let i = Cell::new(0);
    let mut chunks = vec![];
    while let Some(chunk) = r
        .read_by_chunk(|_chunk| {
            i.set(i.get() + 1);
            if i.get() >= 2 {
                i.set(0);
                true
            } else {
                false
            }
        })
        .unwrap()
    {
        chunks.push(chunk);
    }
    assert_eq!(chunks, vec!["1\n2\n", "3\n4\n", "5"]);
}

#[test]
fn adhoc_test_parser() {
    let txt = "ITEM: TIMESTEP\n0\nITEM: ATOMS\n1 1\nITEM: TIMESTEP\n1\nITEM: ATOMS\n1 2\nITEM: TIMESTEP\n2\nITEM: ATOMS\n1 3\n";
    let parser = TextReader::from_str(txt);
    let found = records(parser.split_if(|line| line.starts_with("ITEM: TIMESTEP")));
    assert_eq!(found.len(), 3);

    let mut txt = String::new();
    for natoms in [16, 10, 16, 16, 16, 13] {
        txt += &format!("          {}\r\n Configuration number\r\n", natoms);
        for _ in 0..natoms {
            txt += "   N   1.38635  -0.29197   0.01352\r\n";
        }
    }
    let parser = TextReader::from_str(&txt);
    let found = records(parser.split_if(|line| line.trim().parse::<usize>().is_ok()));
    assert_eq!(found.len(), 6);

    let mut parser = TextReader::from_str(&txt);
    let mut n = 0;
    while let Some(chunk) = parser.read_chunk(5).unwrap() {
        assert!(chunk.lines().count() <= 5);
        n += 1;
    }
    assert_eq!(n, 20);
}

#[test]
fn records_start_with_their_label() {
    let reader = TextReader::from_str("x\r\nH1\na\nH2\nH3\nb");
    let found = records(reader.split_if(|line| line.starts_with('H')));
    assert_eq!(found, vec!["x\n", "H1\na\n", "H2\n", "H3\nb\n"]);
}

#[test]
fn a_label_that_starts_the_text_starts_no_record() {
    let reader = TextReader::from_str("H1\na\nH2\nb\n");
    let found = records(reader.split_if(|line| line.starts_with('H')));
    assert_eq!(found, vec!["a\n", "H2\nb\n"]);
    // a label with nothing behind it is handed out by the call after the end
    let mut records = TextReader::from_str("H1\n").split_if(|line| line.starts_with('H'));
    assert_eq!(records.next(), Ok(None));
    assert_eq!(records.next(), Ok(Some("H1\n".to_string())));
    assert_eq!(records.next(), Ok(None));
}

#[test]
fn records_of_nothing() {
    let mut records = TextReader::from_str("").split_if(|_| true);
    assert_eq!(records.next(), Ok(None));
    let mut records = TextReader::new(vec![b'a', b'\n', 0xff]).split_if(|_| false);
    assert_eq!(records.next(), Err(ParseError::Decode));
}

#[test]
fn read_chunk_takes_lines_as_they_stand() {
    let mut reader = TextReader::from_str("a\r\nb\nc");
    assert_eq!(reader.read_chunk(2), Ok(Some("a\r\nb\n".to_string())));
    assert_eq!(reader.read_chunk(0), Ok(None));
    assert_eq!(reader.get_current_position(), Ok(5));
    assert_eq!(reader.read_chunk(2), Ok(Some("c".to_string())));
    assert_eq!(reader.read_chunk(2), Ok(None));
    let mut broken = TextReader::new(vec![b'a', b'\n', 0xff, b'\n', b'b']);
    assert_eq!(broken.read_chunk(3), Err(ParseError::Decode));
    assert_eq!(broken.read_chunk(3), Ok(Some("b".to_string())));
}

#[test]
fn read_by_chunk_asks_after_each_line() {
    let mut reader = TextReader::from_str("a\nb\n\nc\n");
    let blank = |chunk: &str| chunk.ends_with("\n\n");
    assert_eq!(reader.read_by_chunk(blank), Ok(Some("a\nb\n\n".to_string())));
    assert_eq!(reader.read_by_chunk(blank), Ok(Some("c\n".to_string())));
    assert_eq!(reader.read_by_chunk(blank), Ok(None));
    let mut broken = TextReader::new(vec![b'a', b'\n', 0xff, b'\n']);
    assert_eq!(broken.read_by_chunk(|_| false), Err(ParseError::Decode));
    assert_eq!(broken.get_current_position(), Ok(4));
}
