use gchemol_parser::{ParseError, TextViewer};

fn dump() -> String {
    let mut txt = String::new();
    for step in 0..3 {
        txt += "ITEM: TIMESTEP\n";
        txt += &format!("{}\n", step);
        txt += "ITEM: NUMBER OF ATOMS\n537\nITEM: BOX BOUNDS pp pp pp\n";
        txt += "-200.487 200.487\n";
        txt += "ITEM: ATOMS id type x y z\n";
        for i in 0..3 {
            txt += &format!("52{} 1 5.00268 {}\n", i + step, i);
        }
    }
    txt
}

#[test]
fn test_view() {
    let mut view = TextViewer::from_str(&dump());

    assert_eq!(view.num_lines(), 31);
    view.goto_line(2);
    assert_eq!(view.current_line_num(), 2);

    assert_eq!(view.peek_line(1), "ITEM: TIMESTEP\n");
    assert_eq!(view.peek_lines(3, 5), "ITEM: NUMBER OF ATOMS\n537\nITEM: BOX BOUNDS pp pp pp\n");

    view.search_forward(r"TIMESTEP$").unwrap();
    let n = view.current_line_num();
    assert_eq!(n, 11);
    view.search_forward(r"^ITEM: NU.*$").unwrap();
    let n = view.current_line_num();
    assert_eq!(n, 13);

    // search back
    view.goto_last_line();
    let l = view.current_line();
    assert!(l.is_empty());
    view.search_backward("^523 ").unwrap();
    let l = view.current_line();
    assert!(l.starts_with("523 1 5.00268"));
    assert_eq!(view.current_line_num(), 29);
}

#[test]
fn test_column_selection() {
    let txt = "          16\n Configuration number :        7\n   N   1.38635  -0.29197   0.01352\n   N  -1.38633   0.29227   0.00681\n   C   0.91882   0.97077  -0.01878\n   C  -0.44889   1.25897  -0.02208\n";
    let mut view = TextViewer::from_str(txt);
    view.goto_line(3);
    let s = view.selection(2);
    assert_eq!(s.lines().count(), 2);
    let s = view.column_selection(3, 4, 100);
    assert_eq!(s.lines().count(), 3);
    let s = view.column_selection(3, 4, 24);
    assert_eq!(s.lines().next().unwrap().split_whitespace().count(), 2);
    assert_eq!(s, "   1.38635  -0.29197\n  -1.38633   0.29227\n   0.91882   0.97077");
}

#[test]
fn lines_are_counted_from_one() {
    let view = TextViewer::from_str("a\nbb\r\nccc");
    assert_eq!(view.text(), "a\nbb\r\nccc");
    assert_eq!(view.num_lines(), 3);
    assert_eq!(view.current_line_num(), 1);
    assert_eq!(view.current_line(), "a\n");
    assert_eq!(view.peek_line(2), "bb\r\n");
    assert_eq!(view.peek_line(3), "ccc");
    assert_eq!(view.peek_line(4), "");
    assert_eq!(view.peek_lines(1, 2), "a\nbb\r\n");
    assert_eq!(view.peek_lines(2, 1), "");
    assert_eq!(view.peek_lines(1, 100), "a\nbb\r\nccc");
    assert_eq!(TextViewer::from_str("").num_lines(), 1);
    assert_eq!(TextViewer::from_str("a\n").num_lines(), 2);
}

#[test]
fn the_cursor_moves_by_lines() {
    let mut view = TextViewer::from_str("a\nbb\nccc\n");
    view.goto_next_line();
    assert_eq!(view.current_line_num(), 2);
    assert_eq!(view.current_line(), "bb\n");
    view.goto_next_line();
    view.goto_next_line();
    assert_eq!(view.current_line_num(), 4);
    assert_eq!(view.current_line(), "");
    view.goto_next_line();
    assert_eq!(view.current_line_num(), 4);
    view.goto_previous_line();
    assert_eq!(view.current_line(), "ccc\n");
    view.goto_first_line();
    assert_eq!(view.current_line_num(), 1);
    assert!(!view.try_goto_previous_line());
    assert_eq!(view.current_line_num(), 1);
    view.goto_last_line();
    assert_eq!(view.current_line_num(), 4);
    assert!(view.try_goto_previous_line());
    assert_eq!(view.current_line_num(), 3);
    view.goto_line(2);
    assert_eq!(view.current_line(), "bb\n");
    view.goto_line(9);
    assert_eq!(view.current_line_num(), 4);
}

#[test]
fn selection_starts_at_the_line_of_the_cursor() {
    let mut view = TextViewer::from_str("a\nbb\nccc\n");
    assert_eq!(view.selection(0), "");
    assert_eq!(view.selection(2), "a\nbb\n");
    view.goto_line(2);
    assert_eq!(view.selection(1), "bb\n");
    assert_eq!(view.selection(usize::MAX), "bb\nccc\n");
}

#[test]
fn columns_are_counted_in_characters() {
    let mut view = TextViewer::from_str("äbcdef\r\ngh\n\nijklm");
    assert_eq!(view.column_selection(4, 1, 3), "bc\nh\n\njk");
    assert_eq!(view.column_selection(1, 0, 1), "ä");
    assert_eq!(view.column_selection(2, 2, 2), "\n");
    assert_eq!(view.column_selection(0, 0, 9), "");
    view.goto_line(2);
    assert_eq!(view.column_selection(9, 0, 9), "gh\n\nijklm");
}

#[test]
fn search_moves_to_the_match() {
    let mut view = TextViewer::from_str("one\ntwo\nthree\ntwo\n");
    assert_eq!(view.search_forward("^two$"), Ok(2));
    assert_eq!(view.current_line(), "two\n");
    // the search starts at the cursor, which stands on the match
    assert_eq!(view.search_forward("^two$"), Ok(2));
    view.goto_next_line();
    assert_eq!(view.search_forward("^two$"), Ok(4));
    assert_eq!(view.search_forward("one"), Err(ParseError::NotFound));
    assert_eq!(view.current_line_num(), 4);
    assert_eq!(view.search_forward("("), Err(ParseError::Pattern));
    // a match inside a line leaves the cursor inside that line
    view.goto_first_line();
    assert_eq!(view.search_forward("hree"), Ok(3));
    assert_eq!(view.current_line(), "three\n");
}

#[test]
fn search_backward_finds_the_last_match_up_to_the_cursor_line() {
    let mut view = TextViewer::from_str("two\none\ntwo\nthree\ntwo\n");
    view.goto_line(4);
    assert_eq!(view.search_backward("^two$"), Ok(3));
    assert_eq!(view.search_backward("^two$"), Ok(3));
    view.goto_line(2);
    assert_eq!(view.search_backward("^two$"), Ok(1));
    assert_eq!(view.search_backward("three"), Err(ParseError::NotFound));
    assert_eq!(view.current_line_num(), 1);
    assert_eq!(view.search_backward("["), Err(ParseError::Pattern));
}
