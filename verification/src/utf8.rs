//! The bridge between texts held as bytes and the strings handed out.
//!
//! A `String` stands for the bytes of its UTF-8 encoding: contracts speak of
//! `encode_utf8` of a string's view where byte offsets matter.
use vstd::prelude::*;
use vstd::string::StringExecFns;
use vstd::utf8::*;
use crate::text::{
    content, lemma_line_end, lemma_nth_start_bounds, line_at, line_end, normalized, nth_start, CR,
    LF,
};

verus! {

/// `String::from_utf8`, which turns bytes into the string they encode.
/// The contract takes from its documentation that it succeeds exactly on
/// valid UTF-8, and that the string then holds the decoded characters.
#[verifier::external_body]
pub(crate) fn string_from_utf8(bytes: Vec<u8>) -> (r: Option<String>)
    ensures
        r is Some <==> valid_utf8(bytes@),
        r matches Some(s) ==> s@ == decode_utf8(bytes@),
{
    String::from_utf8(bytes).ok()
}

/// The string that `bytes` encode, where they are valid UTF-8.
pub(crate) fn decode(bytes: Vec<u8>) -> (r: Option<String>)
    ensures
        r is Some <==> valid_utf8(bytes@),
        r matches Some(s) ==> encode_utf8(s@) == bytes@ && s@ == decode_utf8(bytes@),
{
    proof {
        if valid_utf8(bytes@) {
            decode_utf8_encode_utf8(bytes@);
        }
    }
    string_from_utf8(bytes)
}

/// Append to `buf` the text that `bytes` encode. Bytes that are not valid
/// UTF-8 leave `buf` as it was.
pub(crate) fn push_bytes(buf: &mut String, bytes: Vec<u8>) -> (ok: bool)
    ensures
        ok == valid_utf8(bytes@),
        ok ==> encode_utf8(final(buf)@) == encode_utf8(old(buf)@) + bytes@,
        ok ==> final(buf)@ == old(buf)@ + decode_utf8(bytes@),
        !ok ==> final(buf)@ == old(buf)@,
{
    match decode(bytes) {
        Some(s) => {
            proof {
                lemma_encode_concat(buf@, s@);
            }
            buf.append(s.as_str());
            true
        },
        None => false,
    }
}

/// The part of `s` between the byte offsets `beg` and `end`.
pub(crate) fn str_range<'a>(s: &'a str, beg: usize, end: usize) -> (part: &'a str)
    requires
        beg <= end <= encode_utf8(s@).len(),
        is_char_boundary(encode_utf8(s@), beg as int),
        is_char_boundary(encode_utf8(s@), end as int),
    ensures
        encode_utf8(part@) == encode_utf8(s@).subrange(beg as int, end as int),
{
    proof {
        encode_utf8_valid_utf8(s@);
        lemma_boundary_suffix(encode_utf8(s@), beg as int, end - beg);
    }
    let (_, rest) = s.split_at(beg);
    let (part, _) = rest.split_at(end - beg);
    proof {
        assert(encode_utf8(part@) =~= encode_utf8(s@).subrange(beg as int, end as int));
    }
    part
}

/// Append a line feed to `buf`.
pub(crate) fn push_line_feed(buf: &mut String)
    ensures
        encode_utf8(final(buf)@) == encode_utf8(old(buf)@).push(LF),
        final(buf)@ == old(buf)@.push('\n'),
{
    proof {
        reveal_strlit("\n");
        let feed = "\n"@;
        assert(feed =~= seq!['\n']);
        assert(is_ascii_chars(feed));
        is_ascii_chars_encode_utf8(feed);
        assert(encode_utf8(feed) =~= seq![LF]);
        lemma_encode_concat(buf@, feed);
        assert(buf@ + feed =~= buf@.push('\n'));
        assert(encode_utf8(buf@) + seq![LF] =~= encode_utf8(buf@).push(LF));
    }
    buf.append("\n");
}

/// Encoding a concatenation is concatenating the encodings.
pub proof fn lemma_encode_concat(a: Seq<char>, b: Seq<char>)
    ensures
        encode_utf8(a + b) == encode_utf8(a) + encode_utf8(b),
    decreases a.len(),
{
    if a.len() == 0 {
        assert(a + b =~= b);
        assert(encode_utf8(a) + encode_utf8(b) =~= encode_utf8(b));
    } else {
        lemma_encode_concat(a.drop_first(), b);
        assert((a + b).drop_first() =~= a.drop_first() + b);
        assert(encode_utf8(a + b) =~= encode_utf8(a) + encode_utf8(b));
    }
}

/// A character boundary of valid bytes stays one when more valid bytes
/// follow, and so does their end.
pub proof fn lemma_boundary_extend(x: Seq<u8>, y: Seq<u8>, i: int)
    requires
        valid_utf8(x),
        valid_utf8(y),
        is_char_boundary(x, i),
    ensures
        valid_utf8(x + y),
        is_char_boundary(x + y, i),
{
    valid_utf8_concat(x, y);
    if 0 < i {
        assert(i <= x.len()) by {
            reveal_with_fuel(is_char_boundary, 1);
        }
        if i < x.len() {
            is_char_boundary_iff_not_is_continuation_byte(x, i);
            is_char_boundary_iff_not_is_continuation_byte(x + y, i);
        } else if y.len() == 0 {
            assert(x + y =~= x);
        } else {
            is_char_boundary_iff_not_is_continuation_byte(y, 0);
            is_char_boundary_iff_not_is_continuation_byte(x + y, i);
        }
    }
}

/// Between two character boundaries of valid bytes lie valid bytes, and a
/// boundary behind the first is a boundary of what follows the first.
pub proof fn lemma_boundary_suffix(z: Seq<u8>, cut: int, j: int)
    requires
        valid_utf8(z),
        0 <= cut,
        0 <= j,
        cut + j <= z.len(),
        is_char_boundary(z, cut),
        is_char_boundary(z, cut + j),
    ensures
        valid_utf8(z.subrange(cut, z.len() as int)),
        is_char_boundary(z.subrange(cut, z.len() as int), j),
        valid_utf8(z.subrange(cut, cut + j)),
{
    let tail = z.subrange(cut, z.len() as int);
    valid_utf8_split(z, cut);
    if 0 < j {
        if cut + j < z.len() {
            is_char_boundary_iff_not_is_continuation_byte(z, cut + j);
            is_char_boundary_iff_not_is_continuation_byte(tail, j);
        } else {
            is_char_boundary_start_end_of_seq(tail);
        }
    }
    valid_utf8_split(tail, j);
    assert(tail.subrange(0, j) =~= z.subrange(cut, cut + j));
}

/// In valid bytes a byte below 128 is a character of its own: a character
/// boundary lies before it and behind it.
pub proof fn lemma_ascii_boundary(z: Seq<u8>, i: int)
    requires
        valid_utf8(z),
        0 <= i < z.len(),
        z[i] <= 0x7f,
    ensures
        is_char_boundary(z, i),
        is_char_boundary(z, i + 1),
{
    is_char_boundary_iff_not_is_continuation_byte(z, i);
    valid_utf8_split(z, i);
    let head = z.subrange(0, i + 1);
    let tail = z.subrange(i, z.len() as int);
    let rest = z.subrange(i + 1, z.len() as int);
    assert(valid_utf8(head)) by {
        assert(partial_valid_utf8(z, i));
        partial_valid_utf8_extend_ascii_block(z, i, i + 1);
        assert(partial_valid_utf8(z, i + 1));
    }
    assert(valid_utf8(rest)) by {
        assert(is_leading_byte_width_1(tail[0]));
        assert(pop_first_scalar(tail) =~= rest);
    }
    is_char_boundary_start_end_of_seq(head);
    lemma_boundary_extend(head, rest, i + 1);
    assert(head + rest =~= z);
}

/// In valid bytes that start at a character boundary, each line is valid
/// by itself, and so it is without its line ending, and with a lone line
/// feed for a carriage return and a line feed.
pub proof fn lemma_line_valid(z: Seq<u8>, from: int)
    requires
        valid_utf8(z),
        0 <= from < z.len(),
        is_char_boundary(z, from),
    ensures
        is_char_boundary(z, line_end(z, from)),
        valid_utf8(z.subrange(from, line_end(z, from))),
        valid_utf8(content(z.subrange(from, line_end(z, from)))),
        valid_utf8(normalized(z.subrange(from, line_end(z, from)))),
{
    lemma_line_end(z, from);
    let end = line_end(z, from);
    if end < z.len() {
        lemma_ascii_boundary(z, end - 1);
    } else {
        is_char_boundary_start_end_of_seq(z);
    }
    lemma_boundary_suffix(z, from, end - from);
    let raw = z.subrange(from, end);
    let n = raw.len() as int;
    is_char_boundary_start_end_of_seq(raw);
    if n >= 1 && raw[n - 1] == LF {
        lemma_ascii_boundary(raw, n - 1);
        valid_utf8_split(raw, n - 1);
        if n >= 2 && raw[n - 2] == CR {
            lemma_ascii_boundary(raw, n - 2);
            valid_utf8_split(raw, n - 2);
            let body = raw.subrange(0, n - 2);
            let feed = raw.subrange(n - 1, n);
            valid_utf8_concat(body, feed);
            assert(body + feed =~= normalized(raw));
        }
    }
}

/// In valid bytes read from a character boundary on, every line starts at a
/// character boundary and is valid by itself. So a text that came from a
/// string, read from its start, has no line that fails to decode.
pub proof fn lemma_lines_valid(z: Seq<u8>, from: int, k: nat)
    requires
        valid_utf8(z),
        0 <= from <= z.len(),
        is_char_boundary(z, from),
    ensures
        is_char_boundary(z, nth_start(z, from, k)),
        nth_start(z, from, k) < z.len() ==> {
            &&& valid_utf8(line_at(z, from, k))
            &&& valid_utf8(content(line_at(z, from, k)))
            &&& valid_utf8(normalized(line_at(z, from, k)))
        },
    decreases k,
{
    lemma_nth_start_bounds(z, from, k);
    if k > 0 {
        let j = (k - 1) as nat;
        lemma_lines_valid(z, from, j);
        lemma_nth_start_bounds(z, from, j);
        if nth_start(z, from, j) < z.len() {
            lemma_line_valid(z, nth_start(z, from, j));
        }
    }
    if nth_start(z, from, k) < z.len() {
        lemma_line_valid(z, nth_start(z, from, k));
    }
}

/// The bytes between two characters of a text encode the characters
/// between them.
pub proof fn lemma_encode_range(chars: Seq<char>, a: int, b: int)
    requires
        0 <= a <= b <= chars.len(),
    ensures
        encode_utf8(chars.subrange(0, a)).len() <= encode_utf8(chars.subrange(0, b)).len()
            <= encode_utf8(chars).len(),
        is_char_boundary(encode_utf8(chars), encode_utf8(chars.subrange(0, a)).len() as int),
        is_char_boundary(encode_utf8(chars), encode_utf8(chars.subrange(0, b)).len() as int),
        encode_utf8(chars).subrange(
            encode_utf8(chars.subrange(0, a)).len() as int,
            encode_utf8(chars.subrange(0, b)).len() as int,
        ) == encode_utf8(chars.subrange(a, b)),
{
    let head = chars.subrange(0, a);
    let mid = chars.subrange(a, b);
    let tail = chars.subrange(b, chars.len() as int);
    assert(head + mid =~= chars.subrange(0, b));
    assert((head + mid) + tail =~= chars);
    lemma_encode_concat(head, mid);
    lemma_encode_concat(head + mid, tail);
    encode_utf8_valid_utf8(head);
    encode_utf8_valid_utf8(mid);
    encode_utf8_valid_utf8(tail);
    encode_utf8_valid_utf8(head + mid);
    is_char_boundary_start_end_of_seq(encode_utf8(head));
    is_char_boundary_start_end_of_seq(encode_utf8(head + mid));
    lemma_boundary_extend(encode_utf8(head), encode_utf8(mid), encode_utf8(head).len() as int);
    lemma_boundary_extend(
        encode_utf8(head + mid),
        encode_utf8(tail),
        encode_utf8(head).len() as int,
    );
    lemma_boundary_extend(
        encode_utf8(head + mid),
        encode_utf8(tail),
        encode_utf8(head + mid).len() as int,
    );
    assert(encode_utf8(chars).subrange(
        encode_utf8(head).len() as int,
        encode_utf8(head + mid).len() as int,
    ) =~= encode_utf8(mid));
}

/// Valid bytes that are the first bytes of other valid bytes end at a
/// character boundary of those.
pub proof fn lemma_prefix_boundary(a: Seq<u8>, b: Seq<u8>)
    requires
        valid_utf8(a),
        valid_utf8(b),
        a.len() <= b.len(),
        b.subrange(0, a.len() as int) == a,
    ensures
        is_char_boundary(b, a.len() as int),
    decreases a.len(),
{
    if a.len() > 0 {
        assert(a[0] == b.subrange(0, a.len() as int)[0]);
        let width = length_of_first_scalar(a);
        assert(width == length_of_first_scalar(b));
        assert(1 <= width <= a.len());
        let a_rest = pop_first_scalar(a);
        let b_rest = pop_first_scalar(b);
        assert(b_rest.subrange(0, a_rest.len() as int) =~= a_rest) by {
            assert forall|i: int| 0 <= i < a_rest.len() implies b_rest[i] == a_rest[i] by {
                assert(b.subrange(0, a.len() as int)[i + width] == a[i + width]);
            }
        }
        lemma_prefix_boundary(a_rest, b_rest);
    }
}

/// Where valid bytes, one at least, stand inside other valid bytes,
/// character boundaries of those lie before and behind them.
pub proof fn lemma_match_boundary(z: Seq<u8>, part: Seq<u8>, at: int)
    requires
        valid_utf8(z),
        valid_utf8(part),
        part.len() > 0,
        0 <= at,
        at + part.len() <= z.len(),
        z.subrange(at, at + part.len()) == part,
    ensures
        is_char_boundary(z, at),
        is_char_boundary(z, at + part.len()),
{
    {
        assert(part[0] == z.subrange(at, at + part.len())[0]);
        assert(!is_continuation_byte(part[0]));
        is_char_boundary_iff_not_is_continuation_byte(z, at);
        valid_utf8_split(z, at);
        let tail = z.subrange(at, z.len() as int);
        assert(tail.subrange(0, part.len() as int) =~= part);
        lemma_prefix_boundary(part, tail);
        if at + part.len() < z.len() {
            is_char_boundary_iff_not_is_continuation_byte(tail, part.len() as int);
            is_char_boundary_iff_not_is_continuation_byte(z, at + part.len());
        } else {
            is_char_boundary_start_end_of_seq(z);
        }
    }
}

} // verus!
