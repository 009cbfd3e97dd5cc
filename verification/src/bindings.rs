//! The calls into the `ropey` and `regex` crates.
//!
//! Nothing in this module is proved. Each function states what the crate's
//! documentation promises of the call it makes; where that is more than a
//! few lines could state, the result of the call gets a name, and the
//! contracts of the library speak of that name.
use vstd::prelude::*;
use vstd::utf8::{encode_utf8, is_char_boundary};

verus! {

/// The error that the `regex` crate reports for a pattern it cannot compile.
#[verifier::external_type_specification]
#[verifier::external_body]
pub struct ExRegexError(regex::Error);

/// The byte offset at which `ropey` lets line `line_idx` of `text` start,
/// the first line being line 0.
pub uninterp spec fn line_to_byte(text: Seq<char>, line_idx: usize) -> usize;

/// The index of the line of `text` in which `ropey` places the byte at
/// `byte_idx`, the first line being line 0.
pub uninterp spec fn byte_to_line(text: Seq<char>, byte_idx: usize) -> usize;

/// Whether `regex` compiles `pattern` under its default limits.
pub uninterp spec fn pattern_ok(pattern: Seq<char>) -> bool;

/// The byte offset at which the first match of `pattern` at or after byte
/// `start` of `haystack` begins, with `^` and `$` matching at line breaks.
pub uninterp spec fn first_match(pattern: Seq<char>, haystack: Seq<char>, start: usize) -> Option<
    usize,
>;

/// The byte offset at which the last of the successive matches of `pattern`
/// in `haystack` begins, with `^` and `$` matching at line breaks.
pub uninterp spec fn last_match(pattern: Seq<char>, haystack: Seq<char>) -> Option<usize>;

/// `ropey::str_utils::line_to_byte_idx`: the byte index of the start of a
/// line. Its documentation has line 0 start the string, each later line
/// start right after a line break, and an index past the last line give the
/// length of the text; its source moves the result onto a character
/// boundary. So the result is a boundary inside the text, and no line
/// starts before an earlier one.
#[verifier::external_body]
pub(crate) fn line_to_byte_idx(text: &str, line_idx: usize) -> (at: usize)
    ensures
        at == line_to_byte(text@, line_idx),
        at <= encode_utf8(text@).len(),
        is_char_boundary(encode_utf8(text@), at as int),
        line_idx == 0 ==> at == 0,
        forall|earlier: usize| earlier <= line_idx ==> line_to_byte(text@, earlier) <= at,
{
    ropey::str_utils::line_to_byte_idx(text, line_idx)
}

/// `ropey::str_utils::byte_to_line_idx`: the index of the line that holds a
/// byte, which its documentation gives as the number of line breaks before
/// that byte; an index past the end gives the last line. A line break takes
/// a byte at least, so the result is no more than the length of the text.
#[verifier::external_body]
pub(crate) fn byte_to_line_idx(text: &str, byte_idx: usize) -> (line_idx: usize)
    ensures
        line_idx == byte_to_line(text@, byte_idx),
        line_idx <= encode_utf8(text@).len(),
{
    ropey::str_utils::byte_to_line_idx(text, byte_idx)
}

/// `ropey::str_utils::char_to_byte_idx`: the byte index of a character,
/// which is the length of the encoding of the characters before it. An
/// index past the end gives the length of the text.
#[verifier::external_body]
pub(crate) fn char_to_byte_idx(text: &str, char_idx: usize) -> (at: usize)
    ensures
        at == encode_utf8(
            text@.subrange(
                0,
                if char_idx <= text@.len() {
                    char_idx as int
                } else {
                    text@.len() as int
                },
            ),
        ).len(),
{
    ropey::str_utils::char_to_byte_idx(text, char_idx)
}

/// `regex::RegexBuilder::build` with `multi_line(true)`, then
/// `Regex::find_at` and `Match::start`: where the first match of `pattern`
/// at or after byte `start` begins. The documentation of `find_at` has it
/// panic for a `start` past the end, and that of `Match::start` promises an
/// offset at which the haystack can be cut.
#[verifier::external_body]
pub(crate) fn find_at(pattern: &str, haystack: &str, start: usize) -> (r: Result<
    Option<usize>,
    regex::Error,
>)
    requires
        start <= encode_utf8(haystack@).len(),
    ensures
        r is Ok <==> pattern_ok(pattern@),
        r matches Ok(found) ==> found == first_match(pattern@, haystack@, start),
        r matches Ok(Some(at)) ==> at <= encode_utf8(haystack@).len(),
{
    let re = regex::RegexBuilder::new(pattern).multi_line(true).build()?;
    Ok(re.find_at(haystack, start).map(|m| m.start()))
}

/// `regex::RegexBuilder::build` with `multi_line(true)`, then the last item
/// of `Regex::find_iter` and `Match::start`: where the last of the
/// successive matches of `pattern` begins.
#[verifier::external_body]
pub(crate) fn find_last(pattern: &str, haystack: &str) -> (r: Result<Option<usize>, regex::Error>)
    ensures
        r is Ok <==> pattern_ok(pattern@),
        r matches Ok(found) ==> found == last_match(pattern@, haystack@),
        r matches Ok(Some(at)) ==> at <= encode_utf8(haystack@).len(),
{
    let re = regex::RegexBuilder::new(pattern).multi_line(true).build()?;
    Ok(re.find_iter(haystack).last().map(|m| m.start()))
}

} // verus!
