use gchemol_parser::partition::{Partitions, ReadAction, ReadContext, ReadPart};
use gchemol_parser::{ParseError, TextReader};

fn collect<P: ReadPart>(mut parts: Partitions<P>) -> Vec<String> {
    let mut all = vec![];
    while let Some(part) = parts.next().unwrap() {
        all.push(part);
    }
    all
}

#[test]
fn test_read_context() {
    let txt = "line1\nLine2\nline 3\n";
    let nlist: Vec<_> = txt.lines().map(|l| l.len() + 1).collect();
    let context = ReadContext::new(txt, &nlist);

    assert_eq!(context.number_of_lines(), 3);
    assert_eq!(context.line(1), "line1\n");
    assert_eq!(context.line(2), "Line2\n");
    assert_eq!(context.line(3), "line 3\n");
    assert_eq!(context.text(), txt);
}

#[test]
fn test_terminated() {
    let txt = ": part1> line 1
: part1> line 2 tail
: part2> line 3
: part2> line 4
: part2> line 5 tail
: part3> line 6
: part3> line 7
: part3> line 8 tail ";

    let reader = TextReader::from_str(txt);
    let parts: Vec<_> = collect(reader.partitions_terminated(|line| line.ends_with("tail\n")));
    assert_eq!(parts.len(), 3);
    assert_eq!(parts[0].lines().count(), 2);
    assert_eq!(parts[1].lines().count(), 3);
    assert_eq!(parts[2].lines().count(), 3);
}

#[test]
fn test_preceded() {
    let txt = ": part1> line 1 head
: part1> line 2
: part2> line 3 head
: part2> line 4
: part2> line 5
: part3> line 6 head
: part3> line 7
: part3> line 8 ";

    let reader = TextReader::from_str(txt);
    let parts: Vec<_> = collect(reader.partitions_preceded(|line| line.ends_with("head\n")));
    assert_eq!(parts.len(), 3);
    assert_eq!(parts[0].lines().count(), 2);
    assert_eq!(parts[1].lines().count(), 3);
    assert_eq!(parts[2].lines().count(), 3);
}

struct XyzFile;

impl ReadPart for XyzFile {
    fn read_next(&self, context: ReadContext) -> ReadAction {
        let n = context.number_of_lines();
        // the first line contains the number of atoms in this part
        if let Ok(natoms) = context.line(1).trim().parse::<usize>() {
            if n >= natoms + 2 {
                ReadAction::Done(n)
            } else {
                ReadAction::Need(natoms + 2 - n)
            }
        } else {
            ReadAction::Error("invalid xyz format".into())
        }
    }
}

fn multi_xyz() -> String {
    let mut txt = String::new();
    for (i, natoms) in [16, 10, 16, 16, 16, 13].into_iter().enumerate() {
        txt += &format!("          {}\r\n", natoms);
        txt += &format!(" Configuration number :       {}\r\n", 7 * (i + 1));
        for j in 0..natoms {
            txt += &format!("   N   1.38635  -0.29197   0.{:05}\r\n", j);
        }
    }
    txt
}

#[test]
fn test_adhoc() {
    let txt = "ITEM: TIMESTEP\n0\nITEM: ATOMS\n1 1\nITEM: TIMESTEP\n1\nITEM: ATOMS\n1 2\nITEM: TIMESTEP\n2\nITEM: ATOMS\n1 3\n";
    let reader = TextReader::from_str(txt);

    // preceded parts
    let parts = reader.partitions_preceded(|line| line.starts_with("ITEM: TIMESTEP"));
    assert_eq!(collect(parts).len(), 3, "preceded");

    // terminated parts
    let txt = multi_xyz();
    let reader = TextReader::from_str(&txt);
    let parts: Vec<_> = collect(reader.partitions(XyzFile));
    assert_eq!(parts.len(), 6);
    assert_eq!(parts[0].lines().count(), 18);
    assert_eq!(parts[1].lines().count(), 12);
    assert_eq!(parts[2].lines().count(), 18);
    assert_eq!(parts[3].lines().count(), 18);
    assert_eq!(parts[4].lines().count(), 18);
    assert_eq!(parts[5].lines().count(), 15);

    // read chunks in constant number of lines
    let reader = TextReader::from_str(&txt);
    assert_eq!(collect(reader.chunks(1)).len(), 99, "chunks");
    let reader = TextReader::from_str(&txt);
    let chunks = collect(reader.chunks(5));
    let nn: Vec<_> = chunks.iter().map(|x| x.lines().count()).collect();
    assert_eq!(nn.len(), 20, "chunks");
    assert_eq!(nn[0], 5, "chunks");
    assert_eq!(nn[19], 4, "chunks");
}

// test default impl
#[test]
fn test_read_part_default() {
    struct OnePart;
    impl ReadPart for OnePart {}

    let txt = multi_xyz();
    let reader = TextReader::from_str(&txt);
    let parts = collect(reader.partitions(OnePart));
    assert_eq!(parts.len(), 1);
    assert_eq!(parts[0], txt);
}

#[test]
fn six_blocks_preceded_by_a_count() {
    let txt = multi_xyz();
    let reader = TextReader::from_str(&txt);
    let is_count = |line: &str| !line.trim().is_empty() && line.trim().bytes().all(|b| b.is_ascii_digit());
    let parts = collect(reader.partitions_preceded(is_count));
    assert_eq!(parts.len(), 6);
    assert_eq!(parts.concat(), txt);
    // the count that the grammar for one block reports
    let mut blocks = 0;
    let mut rest = txt.as_str();
    while let Some((behind, natoms)) = gchemol_parser::parsers::read_usize(rest) {
        rest = behind;
        for _ in 0..natoms + 1 {
            rest = gchemol_parser::parsers::read_line(rest).unwrap().0;
        }
        blocks += 1;
    }
    assert_eq!(rest, "");
    assert_eq!(blocks, 6);
}

#[test]
fn terminated_parts_end_with_the_tail() {
    let reader = TextReader::from_str("a\nb(tail)\nc\nd(tail)\n");
    let parts = collect(reader.partitions_terminated(|line| line.ends_with("(tail)\n")));
    assert_eq!(parts, vec!["a\nb(tail)\n", "c\nd(tail)\n"]);
}

#[test]
fn preceded_parts_start_with_the_head() {
    let reader = TextReader::from_str("H1\nx\nH2\ny\nz\nH3\nw\n");
    let parts = collect(reader.partitions_preceded(|line| line.starts_with("H")));
    assert_eq!(parts, vec!["H1\nx\n", "H2\ny\nz\n", "H3\nw\n"]);
}

#[test]
fn chunks_cut_every_n_lines() {
    let txt = "1\n2\r\n3\n4\n5";
    let parts = collect(TextReader::from_str(txt).chunks(2));
    assert_eq!(parts, vec!["1\n2\r\n", "3\n4\n", "5"]);
    assert_eq!(parts.concat(), txt);
    let parts = collect(TextReader::from_str("1\n2\n3\n4\n").chunks(2));
    assert_eq!(parts, vec!["1\n2\n", "3\n4\n"]);
    let parts = collect(TextReader::from_str("1\n2\n").chunks(5));
    assert_eq!(parts, vec!["1\n2\n"]);
}

#[test]
fn chunks_of_no_line_are_refused() {
    let mut parts = TextReader::from_str("1\n2\n").chunks(0);
    assert_eq!(parts.next(), Err(ParseError::InvalidArgument));
    assert_eq!(parts.next(), Ok(None));
    // with nothing to cut there is nothing to refuse
    let mut parts = TextReader::from_str("").chunks(0);
    assert_eq!(parts.next(), Ok(None));
}

#[test]
fn empty_source_has_no_part() {
    let mut parts = TextReader::from_str("").chunks(3);
    assert_eq!(parts.next(), Ok(None));
    assert_eq!(parts.next(), Ok(None));
    assert!(collect(TextReader::from_str("").partitions_terminated(|_| true)).is_empty());
    assert!(collect(TextReader::from_str("").partitions_preceded(|_| true)).is_empty());
}

#[test]
fn no_boundary_makes_one_part() {
    let txt = "a\nb\nc";
    assert_eq!(collect(TextReader::from_str(txt).partitions_terminated(|_| false)), vec![txt]);
    assert_eq!(collect(TextReader::from_str(txt).partitions_preceded(|_| false)), vec![txt]);
}

#[test]
fn parts_start_where_the_reader_stands() {
    let mut reader = TextReader::from_str("skip\na\nb\n");
    let mut buf = String::new();
    reader.read_line(&mut buf).unwrap();
    assert_eq!(collect(reader.chunks(1)), vec!["a\n", "b\n"]);
}

#[test]
fn policy_error_closes_the_stream() {
    struct Refuse;
    impl ReadPart for Refuse {
        fn read_next(&self, _context: ReadContext) -> ReadAction {
            ReadAction::Error("no".into())
        }
    }
    let mut parts = TextReader::from_str("a\nb\n").partitions(Refuse);
    assert_eq!(parts.next(), Err(ParseError::Malformed("no".into())));
    assert_eq!(parts.next(), Ok(None));
}

#[test]
fn answers_out_of_range_are_refused() {
    struct Answer(ReadAction);
    impl ReadPart for Answer {
        fn read_next(&self, _context: ReadContext) -> ReadAction {
            match &self.0 {
                ReadAction::Need(n) => ReadAction::Need(*n),
                ReadAction::Done(n) => ReadAction::Done(*n),
                ReadAction::Error(s) => ReadAction::Error(s.clone()),
            }
        }
    }
    for answer in [ReadAction::Need(0), ReadAction::Done(0), ReadAction::Done(2)] {
        let mut parts = TextReader::from_str("a\nb\n").partitions(Answer(answer));
        assert_eq!(parts.next(), Err(ParseError::InvalidArgument));
        assert_eq!(parts.next(), Ok(None));
    }
    let mut parts = TextReader::from_str("a\nb\n").partitions(Answer(ReadAction::Done(1)));
    assert_eq!(parts.next(), Ok(Some("a\n".to_string())));
    assert_eq!(parts.next(), Ok(Some("b\n".to_string())));
    assert_eq!(parts.next(), Ok(None));
}

#[test]
fn a_line_that_is_no_text_closes_the_stream() {
    let mut parts = TextReader::new(vec![b'a', b'\n', 0xff, b'\n', b'b', b'\n']).chunks(1);
    assert_eq!(parts.next(), Ok(Some("a\n".to_string())));
    assert_eq!(parts.next(), Err(ParseError::Decode));
    assert_eq!(parts.next(), Ok(None));
}

#[test]
fn stride_reads_lines_before_the_policy_is_asked() {
    struct Pairs;
    impl ReadPart for Pairs {
        fn read_next(&self, context: ReadContext) -> ReadAction {
            assert!(context.number_of_lines() >= 2);
            ReadAction::Done(1)
        }
        fn n_stride(&self) -> usize {
            2
        }
    }
    // one line goes out, one stays; the next call reads two more
    let parts = collect(TextReader::from_str("a\nb\nc\nd\ne\n").partitions(Pairs));
    assert_eq!(parts, vec!["a\n", "b\n", "c\nd\ne\n"]);
}
