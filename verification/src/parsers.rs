//! Small grammars for the lines of data files: words, line ends and whole
//! numbers.
//!
//! Each grammar takes a text and looks for what it describes at the start
//! of it. Where it finds that, it hands back the text behind it and what it
//! found; where it does not, it hands back nothing.
use vstd::prelude::*;
use vstd::utf8::{encode_utf8, encode_utf8_valid_utf8, is_char_boundary_start_end_of_seq};
use crate::text::{CR, LF};
use crate::utf8::{lemma_ascii_boundary, lemma_match_boundary, str_range};

pub use self::rest_line as read_until_eol;
pub use self::signed_integer as signed_digit;
pub use self::unsigned_integer as unsigned_digit;

verus! {

/// The kinds of bytes that the grammars tell apart.
#[derive(Clone, Copy)]
pub enum Class {
    /// A space or a tab.
    Space,
    /// A decimal digit.
    Digit,
    /// Anything but a space, a tab, a carriage return and a line feed.
    Word,
    /// Anything but a carriage return and a line feed.
    Text,
}

/// Whether the byte `b` is of the kind `class`.
pub open spec fn in_class(class: Class, b: u8) -> bool {
    match class {
        Class::Space => b == 32 || b == 9,
        Class::Digit => 48 <= b <= 57,
        Class::Word => !(b == 32 || b == 9 || b == CR || b == LF),
        Class::Text => !(b == CR || b == LF),
    }
}

/// The offset at which the run of bytes of the kind `class` that starts at
/// `from` ends: the offset of the first byte at or after `from` that is not
/// of that kind, or the length of the text.
pub open spec fn run_end(s: Seq<u8>, from: int, class: Class) -> int
    decreases s.len() - from,
{
    if 0 <= from < s.len() && in_class(class, s[from]) {
        run_end(s, from + 1, class)
    } else {
        from
    }
}

/// The length of the line ending that stands at `at`: 1 for a line feed, 2
/// for a carriage return and a line feed, 0 where neither stands there.
pub open spec fn ending_len(s: Seq<u8>, at: int) -> int {
    if 0 <= at < s.len() && s[at] == LF {
        1
    } else if 0 <= at && at + 1 < s.len() && s[at] == CR && s[at + 1] == LF {
        2
    } else {
        0
    }
}

/// The number that the decimal digits `s` write.
pub open spec fn decimal(s: Seq<u8>) -> nat
    decreases s.len(),
{
    if s.len() == 0 {
        0
    } else {
        decimal(s.drop_last()) * 10 + (s.last() - 48) as nat
    }
}

/// Whether `rest` is the text `input` from byte `at` on.
pub open spec fn rest_from(input: &str, at: int, rest: &str) -> bool {
    encode_utf8(rest@) == encode_utf8(input@).subrange(at, encode_utf8(input@).len() as int)
}

/// Whether `piece` is the text `input` from byte `from` up to byte `to`.
pub open spec fn piece_of(input: &str, from: int, to: int, piece: &str) -> bool {
    encode_utf8(piece@) == encode_utf8(input@).subrange(from, to)
}

/// A run ends inside the text, holds bytes of its kind only, and stops at a
/// byte of another kind or at the end.
pub proof fn lemma_run_end(s: Seq<u8>, from: int, class: Class)
    requires
        0 <= from <= s.len(),
    ensures
        from <= run_end(s, from, class) <= s.len(),
        forall|i: int| from <= i < run_end(s, from, class) ==> in_class(class, #[trigger] s[i]),
        run_end(s, from, class) < s.len() ==> !in_class(class, s[run_end(s, from, class)]),
    decreases s.len() - from,
{
    if from < s.len() && in_class(class, s[from]) {
        lemma_run_end(s, from + 1, class);
    }
}

/// More digits write no smaller a number.
pub proof fn lemma_decimal_grows(s: Seq<u8>, k: int)
    requires
        0 <= k <= s.len(),
        forall|i: int| 0 <= i < s.len() ==> in_class(Class::Digit, #[trigger] s[i]),
    ensures
        decimal(s.subrange(0, k)) <= decimal(s),
    decreases s.len() - k,
{
    if k < s.len() {
        lemma_decimal_grows(s, k + 1);
        let longer = s.subrange(0, k + 1);
        assert(longer.drop_last() =~= s.subrange(0, k));
    } else {
        assert(s.subrange(0, k) =~= s);
    }
}

/// Whether the byte `b` is of the kind `class`.
fn is_in_class(class: Class, b: u8) -> (yes: bool)
    ensures
        yes == in_class(class, b),
{
    match class {
        Class::Space => b == 32 || b == 9,
        Class::Digit => 48 <= b && b <= 57,
        Class::Word => !(b == 32 || b == 9 || b == CR || b == LF),
        Class::Text => !(b == CR || b == LF),
    }
}

/// The offset at which the run of bytes of the kind `class` that starts at
/// `from` ends.
fn skip(bytes: &[u8], from: usize, class: Class) -> (end: usize)
    requires
        from <= bytes@.len(),
    ensures
        end == run_end(bytes@, from as int, class),
        from <= end <= bytes@.len(),
{
    let n = bytes.len();
    let mut i = from;
    while i < n && is_in_class(class, bytes[i])
        invariant
            n == bytes@.len(),
            from <= i <= n,
            run_end(bytes@, from as int, class) == run_end(bytes@, i as int, class),
        decreases n - i,
    {
        i = i + 1;
    }
    i
}

/// The length of the line ending that stands at `at`.
fn ending(bytes: &[u8], at: usize) -> (n: usize)
    requires
        at <= bytes@.len(),
    ensures
        n == ending_len(bytes@, at as int),
        at + n <= bytes@.len(),
{
    let size = bytes.len();
    if at < size && bytes[at] == LF {
        1
    } else if at < size && size - at >= 2 && bytes[at] == CR && bytes[at + 1] == LF {
        2
    } else {
        0
    }
}

/// The number that the digits of `bytes` from `from` up to `to` write, or
/// nothing where it is more than a `usize` holds.
fn number(bytes: &[u8], from: usize, to: usize) -> (r: Option<usize>)
    requires
        from <= to <= bytes@.len(),
        forall|i: int| from <= i < to ==> in_class(Class::Digit, #[trigger] bytes@[i]),
    ensures
        r == (if decimal(bytes@.subrange(from as int, to as int)) <= usize::MAX {
            Some(decimal(bytes@.subrange(from as int, to as int)) as usize)
        } else {
            None
        }),
{
    let ghost digits = bytes@.subrange(from as int, to as int);
    let mut value: usize = 0;
    let mut i = from;
    while i < to
        invariant
            from <= i <= to <= bytes@.len(),
            digits == bytes@.subrange(from as int, to as int),
            forall|j: int| 0 <= j < digits.len() ==> in_class(Class::Digit, #[trigger] digits[j]),
            value == decimal(digits.subrange(0, i - from)),
        decreases to - i,
    {
        assert(bytes@[i as int] == digits[i - from]);
        assert(in_class(Class::Digit, digits[i - from]));
        let digit = (bytes[i] - 48) as usize;
        proof {
            let longer = digits.subrange(0, i + 1 - from);
            assert(longer.drop_last() =~= digits.subrange(0, i - from));
            assert(longer.last() == bytes@[i as int]);
            assert(in_class(Class::Digit, digits[i - from]));
            lemma_decimal_grows(digits, i + 1 - from);
        }
        if value > (usize::MAX - digit) / 10 {
            return None;
        }
        value = value * 10 + digit;
        i = i + 1;
    }
    proof {
        assert(digits.subrange(0, to - from) =~= digits);
    }
    Some(value)
}

/// The text `input` cut at byte `at`, where `at` follows or precedes a byte
/// below 128, or lies at an end of the text.
fn cut(input: &str, at: usize) -> (r: (&str, &str))
    requires
        at <= encode_utf8(input@).len(),
        at == 0 || at == encode_utf8(input@).len() || encode_utf8(input@)[at - 1] <= 0x7f
            || encode_utf8(input@)[at as int] <= 0x7f,
    ensures
        piece_of(input, 0, at as int, r.0),
        rest_from(input, at as int, r.1),
{
    let size = input.as_bytes().len();
    proof {
        let z = encode_utf8(input@);
        encode_utf8_valid_utf8(input@);
        is_char_boundary_start_end_of_seq(z);
        if 0 < at < z.len() {
            if z[at - 1] <= 0x7f {
                lemma_ascii_boundary(z, at - 1);
            } else {
                lemma_ascii_boundary(z, at as int);
            }
        }
    }
    (str_range(input, 0, at), str_range(input, at, size))
}

/// Anything except whitespace, this parser will not consume "\n" character
///
/// The word must hold a byte at least.
pub fn not_space(input: &str) -> (r: Option<(&str, &str)>)
    ensures
        match r {
            Some((rest, word)) => {
                &&& run_end(encode_utf8(input@), 0, Class::Word) > 0
                &&& piece_of(input, 0, run_end(encode_utf8(input@), 0, Class::Word), word)
                &&& rest_from(input, run_end(encode_utf8(input@), 0, Class::Word), rest)
            },
            None => run_end(encode_utf8(input@), 0, Class::Word) == 0,
        },
{
    let bytes = input.as_bytes();
    let end = skip(bytes, 0, Class::Word);
    if end == 0 {
        return None;
    }
    proof {
        lemma_run_end(bytes@, 0, Class::Word);
    }
    let (word, rest) = cut(input, end);
    Some((rest, word))
}

/// One or more decimal digits.
pub fn digit1(input: &str) -> (r: Option<(&str, &str)>)
    ensures
        match r {
            Some((rest, digits)) => {
                &&& run_end(encode_utf8(input@), 0, Class::Digit) > 0
                &&& piece_of(input, 0, run_end(encode_utf8(input@), 0, Class::Digit), digits)
                &&& rest_from(input, run_end(encode_utf8(input@), 0, Class::Digit), rest)
            },
            None => run_end(encode_utf8(input@), 0, Class::Digit) == 0,
        },
{
    let bytes = input.as_bytes();
    let end = skip(bytes, 0, Class::Digit);
    if end == 0 {
        return None;
    }
    proof {
        lemma_run_end(bytes@, 0, Class::Digit);
        assert(in_class(Class::Digit, bytes@[end - 1]));
    }
    let (digits, rest) = cut(input, end);
    Some((rest, digits))
}

/// Where the line at the start of `s` ends: behind its line ending, or at
/// the end of the text where no line ending follows. There is no such place
/// where a carriage return comes first and no line feed follows it.
pub open spec fn line_stop(s: Seq<u8>) -> Option<int> {
    let body = run_end(s, 0, Class::Text);
    if body == s.len() {
        Some(body)
    } else if ending_len(s, body) > 0 {
        Some(body + ending_len(s, body))
    } else {
        None
    }
}

/// Read a new line including eol (\n) or consume the rest if there is no eol
/// char.
pub fn read_line(s: &str) -> (r: Option<(&str, &str)>)
    ensures
        match r {
            Some((rest, line)) => {
                &&& line_stop(encode_utf8(s@)) matches Some(stop)
                &&& piece_of(s, 0, stop, line)
                &&& rest_from(s, stop, rest)
            },
            None => line_stop(encode_utf8(s@)) is None,
        },
{
    let bytes = s.as_bytes();
    let body = skip(bytes, 0, Class::Text);
    let n = ending(bytes, body);
    if body < bytes.len() && n == 0 {
        return None;
    }
    proof {
        lemma_run_end(bytes@, 0, Class::Text);
    }
    let (line, rest) = cut(s, body + n);
    Some((rest, line))
}

/// Take the rest line. The line ending is left out.
///
/// Without a line ending there is no rest line.
pub fn rest_line(input: &str) -> (r: Option<(&str, &str)>)
    ensures
        ({
            let z = encode_utf8(input@);
            let body = run_end(z, 0, Class::Text);
            match r {
                Some((rest, line)) => {
                    &&& ending_len(z, body) > 0
                    &&& piece_of(input, 0, body, line)
                    &&& rest_from(input, body + ending_len(z, body), rest)
                },
                None => ending_len(z, body) == 0,
            }
        }),
{
    let bytes = input.as_bytes();
    let size = bytes.len();
    let body = skip(bytes, 0, Class::Text);
    let n = ending(bytes, body);
    if n == 0 {
        return None;
    }
    proof {
        lemma_run_end(bytes@, 0, Class::Text);
    }
    let (line, _) = cut(input, body);
    let (_, rest) = cut(input, body + n);
    Some((rest, line))
}

/// Match line ending preceded with zero or more whitespace chracters
///
/// What comes back with the rest is the whitespace.
pub fn eol(input: &str) -> (r: Option<(&str, &str)>)
    ensures
        ({
            let z = encode_utf8(input@);
            let blank = run_end(z, 0, Class::Space);
            match r {
                Some((rest, space)) => {
                    &&& ending_len(z, blank) > 0
                    &&& piece_of(input, 0, blank, space)
                    &&& rest_from(input, blank + ending_len(z, blank), rest)
                },
                None => ending_len(z, blank) == 0,
            }
        }),
{
    let bytes = input.as_bytes();
    let size = bytes.len();
    let blank = skip(bytes, 0, Class::Space);
    let n = ending(bytes, blank);
    if n == 0 {
        return None;
    }
    proof {
        lemma_run_end(bytes@, 0, Class::Space);
    }
    let (space, _) = cut(input, blank);
    let (_, rest) = cut(input, blank + n);
    Some((rest, space))
}

/// Match a blank line containing zero or more whitespace character
pub fn blank_line(input: &str) -> (r: Option<(&str, &str)>)
    ensures
        ({
            let z = encode_utf8(input@);
            let blank = run_end(z, 0, Class::Space);
            match r {
                Some((rest, nothing)) => {
                    &&& ending_len(z, blank) > 0
                    &&& nothing@.len() == 0
                    &&& rest_from(input, blank + ending_len(z, blank), rest)
                },
                None => ending_len(z, blank) == 0,
            }
        }),
{
    proof {
        reveal_strlit("");
    }
    match eol(input) {
        Some((rest, _)) => Some((rest, "")),
        None => None,
    }
}

/// Match one unsigned integer: 123
///
/// The digits must write a number that a `usize` holds.
pub fn unsigned_integer(input: &str) -> (r: Option<(&str, usize)>)
    ensures
        ({
            let z = encode_utf8(input@);
            let end = run_end(z, 0, Class::Digit);
            match r {
                Some((rest, value)) => {
                    &&& end > 0
                    &&& value == decimal(z.subrange(0, end))
                    &&& rest_from(input, end, rest)
                },
                None => end == 0 || decimal(z.subrange(0, end)) > usize::MAX,
            }
        }),
{
    let bytes = input.as_bytes();
    let end = skip(bytes, 0, Class::Digit);
    if end == 0 {
        return None;
    }
    proof {
        lemma_run_end(bytes@, 0, Class::Digit);
        assert(in_class(Class::Digit, bytes@[end - 1]));
    }
    match number(bytes, 0, end) {
        Some(value) => {
            let (_, rest) = cut(input, end);
            Some((rest, value))
        },
        None => None,
    }
}

/// The length of the sign that stands at the start of `s`: 1 for `-` and
/// for `+`, 0 where neither stands there.
pub open spec fn sign_len(s: Seq<u8>) -> int {
    if s.len() > 0 && (s[0] == 45 || s[0] == 43) {
        1
    } else {
        0
    }
}

/// The number that the digits of `s` from `from` up to `to` write behind
/// the sign at the start of `s`.
pub open spec fn signed(s: Seq<u8>, from: int, to: int) -> int {
    if s.len() > 0 && s[0] == 45 {
        -(decimal(s.subrange(from, to)) as int)
    } else {
        decimal(s.subrange(from, to)) as int
    }
}

/// Match one signed integer: -123 or +123
///
/// The sign may be left out. The digits must write a number that an `isize`
/// holds.
pub fn signed_integer(s: &str) -> (r: Option<(&str, isize)>)
    ensures
        ({
            let z = encode_utf8(s@);
            let from = sign_len(z);
            let end = run_end(z, from, Class::Digit);
            match r {
                Some((rest, value)) => {
                    &&& end > from
                    &&& value == signed(z, from, end)
                    &&& rest_from(s, end, rest)
                },
                None => end == from || !(isize::MIN <= signed(z, from, end) <= isize::MAX),
            }
        }),
{
    let bytes = s.as_bytes();
    let size = bytes.len();
    let negative = size > 0 && bytes[0] == 45;
    let from: usize = if size > 0 && (bytes[0] == 45 || bytes[0] == 43) {
        1
    } else {
        0
    };
    let end = skip(bytes, from, Class::Digit);
    if end == from {
        return None;
    }
    proof {
        lemma_run_end(bytes@, from as int, Class::Digit);
        assert(in_class(Class::Digit, bytes@[end - 1]));
    }
    let most = isize::MAX as usize;
    let value: isize = match number(bytes, from, end) {
        None => {
            return None;
        },
        Some(size) => {
            if size <= most {
                if negative {
                    -(size as isize)
                } else {
                    size as isize
                }
            } else if negative && size - 1 == most {
                isize::MIN
            } else {
                return None;
            }
        },
    };
    let (_, rest) = cut(s, end);
    Some((rest, value))
}

/// Parse a line containing an unsigned integer number.
///
/// Spaces and tabs may stand before the number and behind it; a line
/// ending must follow.
pub fn read_usize(s: &str) -> (r: Option<(&str, usize)>)
    ensures
        ({
            let z = encode_utf8(s@);
            let from = run_end(z, 0, Class::Space);
            let end = run_end(z, from, Class::Digit);
            let blank = run_end(z, end, Class::Space);
            match r {
                Some((rest, value)) => {
                    &&& end > from
                    &&& value == decimal(z.subrange(from, end))
                    &&& ending_len(z, blank) > 0
                    &&& rest_from(s, blank + ending_len(z, blank), rest)
                },
                None => end == from || decimal(z.subrange(from, end)) > usize::MAX || ending_len(
                    z,
                    blank,
                ) == 0,
            }
        }),
{
    let bytes = s.as_bytes();
    let size = bytes.len();
    let from = skip(bytes, 0, Class::Space);
    let end = skip(bytes, from, Class::Digit);
    if end == from {
        return None;
    }
    proof {
        lemma_run_end(bytes@, from as int, Class::Digit);
    }
    let value = match number(bytes, from, end) {
        None => {
            return None;
        },
        Some(value) => value,
    };
    let blank = skip(bytes, end, Class::Space);
    let n = ending(bytes, blank);
    if n == 0 {
        return None;
    }
    proof {
        assert(bytes@[blank as int] == LF || bytes@[blank as int] == CR);
    }
    let (_, rest) = cut(s, blank + n);
    Some((rest, value))
}

/// Whether `part` stands in `s` at byte `at`.
pub open spec fn occurs_at(s: Seq<u8>, part: Seq<u8>, at: int) -> bool {
    0 <= at && at + part.len() <= s.len() && s.subrange(at, at + part.len()) == part
}

/// Whether `at` is the first place at which `part` stands in `s`.
pub open spec fn first_at(s: Seq<u8>, part: Seq<u8>, at: int) -> bool {
    occurs_at(s, part, at) && forall|before: int| 0 <= before < at ==> !occurs_at(s, part, before)
}

/// Whether `part` stands in `bytes` at byte `at`.
fn stands_at(bytes: &[u8], part: &[u8], at: usize) -> (yes: bool)
    requires
        at + part@.len() <= bytes@.len(),
    ensures
        yes == occurs_at(bytes@, part@, at as int),
{
    let m = part.len();
    let n = bytes.len();
    let mut i: usize = 0;
    while i < m
        invariant
            n == bytes@.len(),
            m == part@.len(),
            at + m <= bytes@.len(),
            i <= m,
            forall|j: int| 0 <= j < i ==> bytes@[at + j] == part@[j],
        decreases m - i,
    {
        if bytes[at + i] != part[i] {
            assert(bytes@.subrange(at as int, at + m)[i as int] != part@[i as int]);
            return false;
        }
        i = i + 1;
    }
    assert(bytes@.subrange(at as int, at + m) =~= part@);
    true
}

/// The first place at which `part` stands in `bytes`.
fn find(bytes: &[u8], part: &[u8]) -> (r: Option<usize>)
    ensures
        match r {
            Some(at) => first_at(bytes@, part@, at as int),
            None => forall|at: int| !occurs_at(bytes@, part@, at),
        },
{
    let n = bytes.len();
    let m = part.len();
    if m > n {
        return None;
    }
    if m == 0 {
        assert(bytes@.subrange(0, 0) =~= part@);
        return Some(0);
    }
    let mut at: usize = 0;
    while at <= n - m
        invariant
            n == bytes@.len(),
            m == part@.len(),
            1 <= m <= n,
            at <= n - m + 1,
            forall|before: int| 0 <= before < at ==> !occurs_at(bytes@, part@, before),
        decreases n - m + 1 - at,
    {
        if stands_at(bytes, part, at) {
            return Some(at);
        }
        at = at + 1;
    }
    None
}

/// Take and consuming to `literal`.
///
/// The text behind the first place at which `literal` stands comes back;
/// nothing comes back where `literal` stands nowhere.
pub fn jump_to<'a>(input: &'a str, literal: &str) -> (r: Option<(&'a str, ())>)
    ensures
        match r {
            Some((rest, _)) => exists|at: int|
                {
                    &&& #[trigger] first_at(encode_utf8(input@), encode_utf8(literal@), at)
                    &&& rest_from(input, at + encode_utf8(literal@).len(), rest)
                },
            None => forall|at: int| !occurs_at(encode_utf8(input@), encode_utf8(literal@), at),
        },
{
    let bytes = input.as_bytes();
    let part = literal.as_bytes();
    let size = bytes.len();
    match find(bytes, part) {
        None => None,
        Some(at) => {
            proof {
                encode_utf8_valid_utf8(input@);
                encode_utf8_valid_utf8(literal@);
                is_char_boundary_start_end_of_seq(encode_utf8(input@));
                if part@.len() > 0 {
                    lemma_match_boundary(bytes@, part@, at as int);
                } else {
                    assert(bytes@.subrange(0, 0) =~= part@);
                    assert(occurs_at(bytes@, part@, 0));
                }
            }
            let rest = str_range(input, at + part.len(), size);
            Some((rest, ()))
        },
    }
}

/// Take until found `literal`. The `literal` will not be consumed.
///
/// The text from the first place at which `literal` stands comes back;
/// nothing comes back where `literal` stands nowhere.
pub fn jump_until<'a>(input: &'a str, literal: &str) -> (r: Option<(&'a str, ())>)
    ensures
        match r {
            Some((rest, _)) => exists|at: int|
                {
                    &&& #[trigger] first_at(encode_utf8(input@), encode_utf8(literal@), at)
                    &&& rest_from(input, at, rest)
                },
            None => forall|at: int| !occurs_at(encode_utf8(input@), encode_utf8(literal@), at),
        },
{
    let bytes = input.as_bytes();
    let part = literal.as_bytes();
    let size = bytes.len();
    match find(bytes, part) {
        None => None,
        Some(at) => {
            proof {
                encode_utf8_valid_utf8(input@);
                encode_utf8_valid_utf8(literal@);
                is_char_boundary_start_end_of_seq(encode_utf8(input@));
                if part@.len() > 0 {
                    lemma_match_boundary(bytes@, part@, at as int);
                } else {
                    assert(bytes@.subrange(0, 0) =~= part@);
                    assert(occurs_at(bytes@, part@, 0));
                }
            }
            let rest = str_range(input, at, size);
            Some((rest, ()))
        },
    }
}

/// Whether another number of a list follows the number that ends at `end`:
/// spaces or tabs, one at least, and then a digit.
pub open spec fn list_goes_on(s: Seq<u8>, end: int) -> bool {
    let next = run_end(s, end, Class::Space);
    next > end && next < s.len() && in_class(Class::Digit, s[next])
}

/// The numbers of the list that starts with the digits at `at`: numbers
/// with spaces or tabs between them.
pub open spec fn list_values(s: Seq<u8>, at: int) -> Seq<nat>
    decreases s.len() - at,
{
    let end = run_end(s, at, Class::Digit);
    let value = decimal(s.subrange(at, end));
    if 0 <= at < s.len() && list_goes_on(s, end) {
        proof {
            lemma_run_end(s, at, Class::Digit);
        }
        seq![value] + list_values(s, run_end(s, end, Class::Space))
    } else {
        seq![value]
    }
}

/// The offset at which the list that starts with the digits at `at` ends.
pub open spec fn list_stop(s: Seq<u8>, at: int) -> int
    decreases s.len() - at,
{
    let end = run_end(s, at, Class::Digit);
    if 0 <= at < s.len() && list_goes_on(s, end) {
        proof {
            lemma_run_end(s, at, Class::Digit);
        }
        list_stop(s, run_end(s, end, Class::Space))
    } else {
        end
    }
}

/// The numbers `values` as numbers without bound.
pub open spec fn unbounded(values: Seq<usize>) -> Seq<nat> {
    values.map_values(|v: usize| v as nat)
}

/// Whether a `usize` holds each of `values`.
pub open spec fn all_fit(values: Seq<nat>) -> bool {
    forall|i: int| 0 <= i < values.len() ==> #[trigger] values[i] <= usize::MAX
}

/// Parse a line containing many unsigned numbers
///
/// Spaces and tabs may stand before the first number and behind the last,
/// and must stand between one number and the next; a line ending must
/// follow. Each number must be one that a `usize` holds.
pub fn read_usize_many(s: &str) -> (r: Option<(&str, Vec<usize>)>)
    ensures
        ({
            let z = encode_utf8(s@);
            let from = run_end(z, 0, Class::Space);
            let stop = list_stop(z, from);
            let blank = run_end(z, stop, Class::Space);
            let shaped = run_end(z, from, Class::Digit) > from && ending_len(z, blank) > 0;
            match r {
                Some((rest, values)) => {
                    &&& shaped
                    &&& unbounded(values@) == list_values(z, from)
                    &&& rest_from(s, blank + ending_len(z, blank), rest)
                },
                None => !shaped || !all_fit(list_values(z, from)),
            }
        }),
{
    let bytes = s.as_bytes();
    let size = bytes.len();
    let ghost z = bytes@;
    let from = skip(bytes, 0, Class::Space);
    let mut at = from;
    let mut values: Vec<usize> = Vec::new();
    let mut end = skip(bytes, at, Class::Digit);
    if end == at {
        return None;
    }
    loop
        invariant
            z == bytes@,
            z == encode_utf8(s@),
            size == z.len(),
            from <= at < end <= size,
            from == run_end(z, 0, Class::Space),
            run_end(z, from as int, Class::Digit) > from,
            end == run_end(z, at as int, Class::Digit),
            list_stop(z, from as int) == list_stop(z, at as int),
            list_values(z, from as int) == unbounded(values@) + list_values(z, at as int),
        decreases size - at,
    {
        proof {
            lemma_run_end(z, at as int, Class::Digit);
            lemma_run_end(z, end as int, Class::Space);
        }
        let value = match number(bytes, at, end) {
            None => {
                proof {
                    assert(list_values(z, at as int)[0] == decimal(
                        z.subrange(at as int, end as int),
                    ));
                    assert(list_values(z, from as int)[values@.len() as int] > usize::MAX);
                    assert(!all_fit(list_values(z, from as int)));
                }
                return None;
            },
            Some(value) => value,
        };
        let ghost got = values@;
        values.push(value);
        let next = skip(bytes, end, Class::Space);
        if next > end && next < size && is_in_class(Class::Digit, bytes[next]) {
            proof {
                let later = list_values(z, next as int);
                assert(list_values(z, at as int) =~= seq![value as nat] + later);
                assert(unbounded(values@) =~= unbounded(got) + seq![value as nat]);
                assert(list_values(z, from as int) =~= unbounded(values@) + later);
            }
            at = next;
            end = skip(bytes, at, Class::Digit);
            proof {
                lemma_run_end(z, at as int, Class::Digit);
            }
        } else {
            proof {
                assert(list_values(z, at as int) =~= seq![value as nat]);
                assert(unbounded(values@) =~= unbounded(got) + seq![value as nat]);
                assert(list_values(z, from as int) =~= unbounded(values@));
                assert(list_stop(z, at as int) == end);
            }
            let n = ending(bytes, next);
            if n == 0 {
                return None;
            }
            proof {
                assert(z[next as int] == LF || z[next as int] == CR);
            }
            let (_, rest) = cut(s, next + n);
            return Some((rest, values));
        }
    }
}

/// Whether the grammar `inner` may answer `answer` when it is given `s`.
pub open spec fn inner_says<'a, T, F: Fn(&'a str) -> Option<(&'a str, T)>>(
    inner: F,
    s: &'a str,
    answer: Option<(&'a str, T)>,
) -> bool {
    call_ensures(inner, (s,), answer)
}

/// A combinator that takes a parser `inner` and produces a parser
/// that also consumes both leading and trailing whitespace, returning
/// the output of `inner`.
///
/// The whitespace is spaces and tabs. What `inner` refuses is refused.
pub fn ws<'a, T, F: Fn(&'a str) -> Option<(&'a str, T)>>(input: &'a str, inner: F) -> (r: Option<
    (&'a str, T),
>)
    requires
        forall|s: &'a str| call_requires(inner, (s,)),
    ensures
        exists|shown: &'a str, answer: Option<(&'a str, T)>|
            {
                &&& #[trigger] inner_says(inner, shown, answer)
                &&& rest_from(input, run_end(encode_utf8(input@), 0, Class::Space), shown)
                &&& match answer {
                    Some((behind, value)) => {
                        &&& r matches Some((rest, found))
                        &&& found == value
                        &&& rest_from(behind, run_end(encode_utf8(behind@), 0, Class::Space), rest)
                    },
                    None => r is None,
                }
            },
{
    let lead = skip(input.as_bytes(), 0, Class::Space);
    proof {
        lemma_run_end(encode_utf8(input@), 0, Class::Space);
    }
    let (_, shown) = cut(input, lead);
    let answer = inner(shown);
    assert(inner_says(inner, shown, answer));
    match answer {
        None => None,
        Some((behind, value)) => {
            let trail = skip(behind.as_bytes(), 0, Class::Space);
            proof {
                lemma_run_end(encode_utf8(behind@), 0, Class::Space);
            }
            let (_, rest) = cut(behind, trail);
            Some((rest, value))
        },
    }
}

} // verus!
