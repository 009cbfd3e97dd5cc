use gchemol_parser::parsers::{
    blank_line, digit1, eol, jump_to, jump_until, not_space, read_line, read_until_eol, read_usize,
    read_usize_many, rest_line, signed_digit, signed_integer, unsigned_digit, unsigned_integer, ws,
};

#[test]
fn test_unsigned_digit() {
    let (_, n) = unsigned_digit("123\n").expect("usize");
    assert_eq!(n, 123);
}

#[test]
fn test_blank_line() {
    let (r, _) = blank_line("\t \nend\n").expect("blank_line");
    assert_eq!(r, "end\n");
}

#[test]
fn test_read_until_eol() {
    let (r, _) = read_until_eol("this is the end\nok\n").expect("parser: read_until_eol");
    assert_eq!(r, "ok\n");

    let (r, _) = read_until_eol("\n").expect("parser: read_until_eol empty line");
    assert_eq!(r, "");

    let (r, v) = read_line("first line\nsecond line\n").expect("read_line");
    assert_eq!(r, "second line\n");
    assert_eq!(v, "first line\n");
}

#[test]
fn test_read_numbers() {
    let (_, ns) = read_usize_many("11 2 3 4 5\r\n\n").expect("usize parser");
    assert_eq!(5, ns.len());
    let _ = read_usize_many(" 11 2 3 4 5 \n").expect("usize parser");
    let _ = read_usize_many("11 2 3 4 5 \r\n").expect("usize parser");
}

#[test]
fn test_ws() {
    let s = " 123 ";
    let (_, x) = ws(s, digit1).unwrap();
    assert_eq!(x, "123");

    let s = "123 ";
    let (_, x) = ws(s, digit1).unwrap();
    assert_eq!(x, "123");

    let s = "123\n";
    let (_, x) = ws(s, digit1).unwrap();
    assert_eq!(x, "123");
}

#[test]
fn test_jump_to() {
    let x = "xxbcc aa cc";
    let (r, _) = jump_to(x, "aa").unwrap();
    assert_eq!(r, " cc");
}

#[test]
fn test_read_line() {
    let txt = "first line\nsecond line\r\nthird line\n";
    let (rest, line) = read_line(txt).unwrap();
    assert_eq!(line, "first line\n");
    let (rest, line) = read_line(rest).unwrap();
    assert_eq!(line, "second line\r\n");
    let (rest, line) = read_line(rest).unwrap();
    assert_eq!(line, "third line\n");
    assert_eq!(rest, "");

    // when there is no newline
    let txt = "no newline at the end";
    let (rest, line) = read_line(txt).unwrap();
    assert_eq!(line, txt);
    assert_eq!(rest, "");

    let txt = "no";
    let (_, line) = not_space(txt).unwrap();
    assert_eq!(line, "no");

    let txt = "no ";
    let (_, line) = not_space(txt).unwrap();
    assert_eq!(line, "no");

    let txt = "no-a\n";
    let (_, line) = not_space(txt).unwrap();
    assert_eq!(line, "no-a");

    let txt = "no+b\t";
    let (_, line) = not_space(txt).unwrap();
    assert_eq!(line, "no+b");

    let txt = " no-a\n";
    let x = not_space(txt);
    assert!(x.is_none());
}

#[test]
fn test_read_many() {
    let (_, ns) = read_usize_many("11 2 3 4 5\r\n\n").expect("usize parser");
    assert_eq!(5, ns.len());
    let _ = read_usize_many(" 11 2 3 4 5 \n").expect("usize parser");
    let _ = read_usize_many("11 2 3 4 5 \r\n").expect("usize parser");
}

#[test]
fn test_signed_digit() {
    let (_, x) = signed_digit("-123").expect("signed digit, minus");
    assert_eq!(x, -123);

    let (_, x) = signed_digit("123").expect("signed digit, normal");
    assert_eq!(x, 123);

    let (_, x) = signed_digit("+123").expect("signed digit, plus");
    assert_eq!(x, 123);

    let s = "12x";
    let (r, n) = unsigned_digit(s).unwrap();
    assert_eq!(n, 12);
    assert_eq!(r, "x");

    let (r, n) = read_usize(" 12 \n").unwrap();
    assert_eq!(n, 12);
    assert_eq!(r, "");
}

#[test]
fn read_line_refuses_a_lone_carriage_return() {
    assert_eq!(read_line("a\rb\n"), None);
    assert_eq!(read_line("a\r"), None);
    assert_eq!(read_line(""), Some(("", "")));
    assert_eq!(read_line("\r\nx"), Some(("x", "\r\n")));
    assert_eq!(read_line("é\nü"), Some(("ü", "é\n")));
}

#[test]
fn rest_line_needs_a_line_ending() {
    assert_eq!(rest_line("ab\r\ncd"), Some(("cd", "ab")));
    assert_eq!(rest_line("ab\ncd"), Some(("cd", "ab")));
    assert_eq!(rest_line("\n"), Some(("", "")));
    assert_eq!(rest_line("ab"), None);
    assert_eq!(rest_line("ab\rcd\n"), None);
    assert_eq!(rest_line(""), None);
}

#[test]
fn eol_takes_spaces_and_a_line_ending() {
    assert_eq!(eol(" \t\r\nx"), Some(("x", " \t")));
    assert_eq!(eol("\nx"), Some(("x", "")));
    assert_eq!(eol("  x\n"), None);
    assert_eq!(eol("  "), None);
    assert_eq!(blank_line(" \nx"), Some(("x", "")));
    assert_eq!(blank_line("x\n"), None);
}

#[test]
fn not_space_stops_at_whitespace() {
    assert_eq!(not_space("ab\rcd"), Some(("\rcd", "ab")));
    assert_eq!(not_space("äö üx"), Some((" üx", "äö")));
    assert_eq!(not_space(""), None);
    assert_eq!(not_space("\tab"), None);
    assert_eq!(digit1("007x"), Some(("x", "007")));
    assert_eq!(digit1("x007"), None);
    assert_eq!(digit1("12é"), Some(("é", "12")));
}

#[test]
fn integers_must_fit() {
    assert_eq!(unsigned_integer("0"), Some(("", 0)));
    assert_eq!(unsigned_integer("000123 4"), Some((" 4", 123)));
    assert_eq!(unsigned_integer("-1"), None);
    assert_eq!(unsigned_integer(""), None);
    let most = usize::MAX.to_string();
    assert_eq!(unsigned_integer(&most), Some(("", usize::MAX)));
    let more = format!("{}0", most);
    assert_eq!(unsigned_integer(&more), None);
    let next = format!("{}", usize::MAX as u128 + 1);
    assert_eq!(unsigned_integer(&next), None);

    assert_eq!(signed_integer("-0"), Some(("", 0)));
    assert_eq!(signed_integer("+7 "), Some((" ", 7)));
    assert_eq!(signed_integer("-"), None);
    assert_eq!(signed_integer("+-1"), None);
    assert_eq!(signed_integer(" 1"), None);
    assert_eq!(signed_integer(&isize::MAX.to_string()), Some(("", isize::MAX)));
    assert_eq!(signed_integer(&isize::MIN.to_string()), Some(("", isize::MIN)));
    assert_eq!(signed_integer(&format!("{}", isize::MAX as i128 + 1)), None);
    assert_eq!(signed_integer(&format!("{}", isize::MIN as i128 - 1)), None);
    assert_eq!(signed_integer(&format!("-{}", u128::MAX)), None);
}

#[test]
fn read_usize_takes_one_number_on_a_line() {
    assert_eq!(read_usize("\t 16 \r\nrest"), Some(("rest", 16)));
    assert_eq!(read_usize("16\n"), Some(("", 16)));
    assert_eq!(read_usize("16"), None);
    assert_eq!(read_usize("16 17\n"), None);
    assert_eq!(read_usize("\n"), None);
    assert_eq!(read_usize(&format!("{}0\n", usize::MAX)), None);
}

#[test]
fn read_usize_many_takes_every_number_on_a_line() {
    assert_eq!(read_usize_many("11 2\t 3\n4\n"), Some(("4\n", vec![11, 2, 3])));
    assert_eq!(read_usize_many("  7\r\n"), Some(("", vec![7])));
    assert_eq!(read_usize_many("\n"), None);
    assert_eq!(read_usize_many("1 2"), None);
    assert_eq!(read_usize_many("1 x\n"), None);
    assert_eq!(read_usize_many("1,2\n"), None);
    assert_eq!(read_usize_many(&format!("1 {}0 2\n", usize::MAX)), None);
}

#[test]
fn jumps_find_the_first_place() {
    assert_eq!(jump_to("a--b--c", "--"), Some(("b--c", ())));
    assert_eq!(jump_until("a--b--c", "--"), Some(("--b--c", ())));
    assert_eq!(jump_to("abc", "abc"), Some(("", ())));
    assert_eq!(jump_to("abc", ""), Some(("abc", ())));
    assert_eq!(jump_until("abc", ""), Some(("abc", ())));
    assert_eq!(jump_to("abc", "abcd"), None);
    assert_eq!(jump_to("aab", "ab"), Some(("", ())));
    assert_eq!(jump_until("", "a"), None);
    assert_eq!(jump_to("xéy", "é"), Some(("y", ())));
    assert_eq!(jump_until("xéy", "y"), Some(("y", ())));
}

#[test]
fn ws_hands_on_what_the_inner_grammar_refuses() {
    assert_eq!(ws(" \t x", digit1), None);
    assert_eq!(ws("  12  34", unsigned_integer), Some(("34", 12)));
    assert_eq!(ws("12\t\n", unsigned_integer), Some(("\n", 12)));
}
