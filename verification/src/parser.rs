//! A parser that reads a text a bunch of lines at a time and hands what it
//! has read to a grammar, until the grammar finds a part in it.
use vstd::prelude::*;
use vstd::string::StringExecFns;
use vstd::utf8::{
    encode_utf8, encode_utf8_valid_utf8, is_char_boundary, is_char_boundary_start_end_of_seq,
    valid_utf8,
};
use crate::error::ParseError;
use crate::partition::garbled;
use crate::reader::TextReader;
use crate::text::{
    lemma_line_end, lemma_nth_start_add, lemma_nth_start_bounds, line_at, line_count, nth_start,
};
use crate::utf8::{push_bytes, str_range};

verus! {

/// What a grammar makes of the text it is shown.
pub enum Parsed<T> {
    /// The text starts with a part, which has the value `value`. The last
    /// `rest` bytes of the text lie behind the part.
    Done { rest: usize, value: T },
    /// The text may start with a part, but more text is needed to tell.
    Incomplete,
    /// The text does not start with a part.
    Error,
    /// The text is broken beyond repair.
    Failure,
}

/// A stream parser for large text file
pub struct TextParser {
    /// The buffer size in number of lines
    buffer_size: usize,
}

impl TextParser {
    /// The number of lines read at a time.
    pub closed spec fn buffer_size(&self) -> usize {
        self.buffer_size
    }

    /// Construct a text parser with buffer size `n`
    pub fn new(n: usize) -> (parser: Self)
        ensures
            parser.buffer_size() == n,
    {
        TextParser { buffer_size: n }
    }

    /// Entry point for parsing from text stream
    ///
    /// # Parameters
    /// - reader: the text, parsed from where its cursor stands
    /// - parser: the grammar, which is shown the text read and not yet
    ///   parsed, and told whether the text has ended
    pub fn parse<T, F: Fn(&str, bool) -> Parsed<T>>(&self, reader: TextReader, parser: F) -> (parts:
        ParsedParts<F>)
        requires
            forall|s: &str, eof: bool| call_requires(parser, (s, eof)),
        ensures
            parts.wf(),
            parts.grammar() == parser,
            parts.stride() == self.buffer_size(),
            parts@ == (Feed {
                text: reader@.text,
                start: reader@.start(),
                at: reader@.start(),
                eof: false,
                closed: false,
            }),
    {
        let parts = ParsedParts {
            reader,
            parser,
            remained: String::new(),
            nlines: self.buffer_size,
            eof: false,
            closed: false,
        };
        proof {
            assert(encode_utf8(parts.remained@) =~= Seq::<u8>::empty());
            assert(parts@.text.subrange(parts@.start, parts@.at) =~= Seq::<u8>::empty());
        }
        parts
    }
}

/// General interface for parsing a large text file
impl Default for TextParser {
    fn default() -> (parser: Self)
        ensures
            parser.buffer_size() == 1000,
    {
        TextParser { buffer_size: 1000 }
    }
}

/// What a stream of parsed parts stands for: a text, the offset from which
/// on it is not parsed yet, and the offset up to which it has been read.
pub struct Feed {
    /// The bytes of the whole text.
    pub text: Seq<u8>,
    /// The offset of the first byte that no part holds yet.
    pub start: int,
    /// The offset up to which the text has been read.
    pub at: int,
    /// Whether the end of the text has been seen.
    pub eof: bool,
    /// Whether the stream has failed and will hand out nothing more.
    pub closed: bool,
}

/// What one call for the next parsed part comes to.
pub enum Fed<T> {
    /// The grammar found a part with the value `value`; the text from
    /// `start` on is not parsed yet.
    Part { value: T, start: int, at: int, eof: bool },
    /// The text has ended, and the grammar finds no part in what is left.
    End,
    /// The text has ended where the grammar needs more.
    Starved,
    /// A line read is not valid UTF-8.
    Garbled,
    /// The grammar rejects the text, or claims a part that is empty or ends
    /// inside a character.
    Refused,
    /// The grammar needs more text, and the parser reads no line at a time.
    Stalled,
}

/// Whether the grammar `parser` may answer `answer` when it is shown `chunk`
/// and told `eof`.
pub open spec fn grammar_says<T, F: Fn(&str, bool) -> Parsed<T>>(
    parser: F,
    chunk: &str,
    eof: bool,
    answer: Parsed<T>,
) -> bool {
    call_ensures(parser, (chunk, eof), answer)
}

/// What the answer `answer` of the grammar on the text from `start` up to
/// `next` ends a call with, or nothing where the call goes on to read. The
/// grammar was told `done`, and the stream reads `n` lines at a time.
pub open spec fn verdict<T>(
    answer: Parsed<T>,
    text: Seq<u8>,
    start: int,
    next: int,
    done: bool,
    n: nat,
) -> Option<Fed<T>> {
    match answer {
        Parsed::Done { rest, value } => if rest < next - start && is_char_boundary(
            text.subrange(start, next),
            next - start - rest,
        ) {
            Some(Fed::Part { value, start: next - rest, at: next, eof: done })
        } else {
            Some(Fed::Refused)
        },
        Parsed::Incomplete => if done {
            Some(Fed::Starved)
        } else if n == 0 {
            Some(Fed::Stalled)
        } else {
            None
        },
        Parsed::Error => if done {
            Some(Fed::End)
        } else {
            Some(Fed::Refused)
        },
        Parsed::Failure => Some(Fed::Refused),
    }
}

/// Whether a stream that has read `k` lines of `text` from `base` on, holds
/// the text from `start` on unparsed, and reads `n` lines at a time, may
/// come to `out`.
///
/// The stream reads `n` more lines, or as many as are left, and shows the
/// grammar all that it holds. A part that the grammar finds ends the call.
/// Where the grammar needs more text the stream reads on, unless the text
/// has ended. Where the grammar finds no part, the stream ends if the text
/// has ended, and fails if it has not.
pub open spec fn reaches<T, F: Fn(&str, bool) -> Parsed<T>>(
    parser: F,
    text: Seq<u8>,
    start: int,
    base: int,
    k: nat,
    eof: bool,
    n: nat,
    out: Fed<T>,
) -> bool
    decreases line_count(text, base) - k,
{
    let left = line_count(text, base) - k;
    let took = if n <= left {
        n as int
    } else {
        left
    };
    let next = nth_start(text, base, (k + took) as nat);
    let done = eof || left < n;
    if left < 0 {
        false
    } else if garbled(text, base, k, (k + took) as nat) {
        out == Fed::<T>::Garbled
    } else {
        exists|chunk: &str, told: bool, answer: Parsed<T>| #[trigger]
            grammar_says(parser, chunk, told, answer) && told == done && encode_utf8(chunk@)
                == text.subrange(start, next) && match verdict(
                answer,
                text,
                start,
                next,
                done,
                n,
            ) {
                Some(end) => out == end,
                None => reaches(parser, text, start, base, k + n, done, n, out),
            }
    }
}

/// The lines counted from a later line on are the lines counted from an
/// earlier one, further on.
pub proof fn lemma_garbled_shift(text: Seq<u8>, base: int, k: nat, took: nat)
    requires
        0 <= base <= text.len(),
    ensures
        garbled(text, nth_start(text, base, k), 0, took) == garbled(text, base, k, k + took),
{
    if garbled(text, nth_start(text, base, k), 0, took) {
        let j = choose|j: nat|
            0 <= j < took && !valid_utf8(#[trigger] line_at(text, nth_start(text, base, k), j));
        lemma_nth_start_add(text, base, k, j);
        lemma_nth_start_add(text, base, k, j + 1);
        assert(line_at(text, base, k + j) == line_at(text, nth_start(text, base, k), j));
    }
    if garbled(text, base, k, k + took) {
        let j = choose|j: nat| k <= j < k + took && !valid_utf8(#[trigger] line_at(text, base, j));
        let i = (j - k) as nat;
        lemma_nth_start_add(text, base, k, i);
        lemma_nth_start_add(text, base, k, i + 1);
        assert(line_at(text, base, j) == line_at(text, nth_start(text, base, k), i));
    }
}

/// Whether the result `r` of a call and the stream `after` it are what the
/// outcome `out` asks for of a call on the stream `before`.
pub open spec fn fed<T>(before: Feed, out: Fed<T>, r: Result<Option<T>, ParseError>, after: Feed) -> bool {
    &&& after.text == before.text
    &&& match out {
        Fed::Part { value, start, at, eof } => {
            &&& r == Ok::<Option<T>, ParseError>(Some(value))
            &&& after == (Feed { text: before.text, start, at, eof, closed: false })
        },
        Fed::End => r == Ok::<Option<T>, ParseError>(None) && after.closed,
        Fed::Starved => r == Err::<Option<T>, ParseError>(ParseError::UnexpectedEof)
            && after.closed,
        Fed::Garbled => r == Err::<Option<T>, ParseError>(ParseError::Decode) && after.closed,
        Fed::Refused => r matches Err(ParseError::Malformed(_)) && after.closed,
        Fed::Stalled => r == Err::<Option<T>, ParseError>(ParseError::InvalidArgument)
            && after.closed,
    }
}

/// One step of a stream: where no line read is garbled and the grammar may
/// give `answer` on the text held, the stream may come to what that answer
/// leads to.
pub proof fn lemma_reaches_step<T, F: Fn(&str, bool) -> Parsed<T>>(
    parser: F,
    text: Seq<u8>,
    start: int,
    base: int,
    k: nat,
    eof: bool,
    n: nat,
    chunk: &str,
    answer: Parsed<T>,
    out: Fed<T>,
)
    requires
        line_count(text, base) - k >= 0,
        ({
            let left = line_count(text, base) - k;
            let took = if n <= left {
                n as int
            } else {
                left
            };
            let next = nth_start(text, base, (k + took) as nat);
            let done = eof || left < n;
            &&& !garbled(text, base, k, (k + took) as nat)
            &&& grammar_says(parser, chunk, done, answer)
            &&& encode_utf8(chunk@) == text.subrange(start, next)
            &&& match verdict(answer, text, start, next, done, n) {
                Some(end) => out == end,
                None => reaches(parser, text, start, base, k + n, done, n, out),
            }
        }),
    ensures
        reaches(parser, text, start, base, k, eof, n, out),
{
    let left = line_count(text, base) - k;
    assert(grammar_says(parser, chunk, eof || left < n, answer));
}

/// The parts that a grammar finds in a text, one after the other.
pub struct ParsedParts<F> {
    reader: TextReader,
    parser: F,
    remained: String,
    nlines: usize,
    eof: bool,
    closed: bool,
}

impl<F> View for ParsedParts<F> {
    type V = Feed;

    closed spec fn view(&self) -> Feed {
        Feed {
            text: self.reader@.text,
            start: self.reader@.start() - encode_utf8(self.remained@).len(),
            at: self.reader@.start(),
            eof: self.eof,
            closed: self.closed,
        }
    }
}

impl<F> ParsedParts<F> {
    /// The grammar that finds the parts.
    pub closed spec fn grammar(&self) -> F {
        self.parser
    }

    /// The number of lines read at a time.
    pub closed spec fn stride(&self) -> usize {
        self.nlines
    }
}

impl<T, F: Fn(&str, bool) -> Parsed<T>> ParsedParts<F> {
    /// Whether the stream is sound: its grammar takes any text, and, unless
    /// the stream is closed, it holds the text between the end of the last
    /// part and the cursor.
    pub closed spec fn wf(&self) -> bool {
        &&& forall|s: &str, eof: bool| call_requires(self.parser, (s, eof))
        &&& !self.closed ==> {
            &&& 0 <= self@.start <= self@.at <= self@.text.len()
            &&& encode_utf8(self.remained@) == self@.text.subrange(self@.start, self@.at)
        }
    }

    /// Read `nlines` more lines, or as many as are left. The answer is
    /// whether the text held as many.
    fn refill(&mut self) -> (r: Result<bool, ParseError>)
        requires
            old(self).wf(),
            !old(self)@.closed,
        ensures
            final(self).wf(),
            final(self).grammar() == old(self).grammar(),
            final(self).stride() == old(self).stride(),
            final(self)@.text == old(self)@.text,
            final(self)@.eof == old(self)@.eof,
            ({
                let text = old(self)@.text;
                let base = old(self)@.at;
                let n = old(self).stride() as nat;
                let left = line_count(text, base);
                let took = if n <= left {
                    n
                } else {
                    left
                };
                match r {
                    Ok(full) => {
                        &&& !final(self)@.closed
                        &&& final(self)@.start == old(self)@.start
                        &&& final(self)@.at == nth_start(text, base, took)
                        &&& !garbled(text, base, 0, took)
                        &&& full == (n <= left)
                    },
                    Err(e) => {
                        &&& e == ParseError::Decode
                        &&& final(self)@.closed
                        &&& garbled(text, base, 0, took)
                    },
                }
            }),
    {
        let ghost before = self@;
        let ghost text = before.text;
        let ghost base = before.at;
        let mut i: usize = 0;
        while i < self.nlines
            invariant
                self.wf(),
                !self.closed,
                self.grammar() == old(self).grammar(),
                self.stride() == old(self).stride(),
                before == old(self)@,
                text == before.text,
                base == before.at,
                self@.text == text,
                self@.eof == before.eof,
                self@.start == before.start,
                self@.at == nth_start(text, base, i as nat),
                i <= self.nlines,
                i <= line_count(text, base),
                !garbled(text, base, 0, i as nat),
            decreases self.nlines - i,
        {
            let ghost at = self.reader@.start();
            proof {
                lemma_nth_start_bounds(text, base, i as nat);
            }
            let raw = self.reader.take_raw();
            if raw.len() == 0 {
                return Ok(false);
            }
            proof {
                lemma_line_end(text, at);
                assert(raw@ == line_at(text, base, i as nat));
                lemma_nth_start_bounds(text, base, (i + 1) as nat);
            }
            if !push_bytes(&mut self.remained, raw) {
                self.closed = true;
                return Err(ParseError::Decode);
            }
            proof {
                assert(encode_utf8(self.remained@) =~= text.subrange(
                    before.start,
                    nth_start(text, base, (i + 1) as nat),
                ));
                assert forall|j: nat| 0 <= j < i + 1 implies valid_utf8(
                    #[trigger] line_at(text, base, j),
                ) by {
                    if j < i {
                        assert(!garbled(text, base, 0, i as nat));
                    }
                }
            }
            i = i + 1;
        }
        proof {
            lemma_nth_start_bounds(text, base, i as nat);
        }
        Ok(true)
    }

    /// The value of the next part that the grammar finds, `None` once the
    /// text has ended and the grammar finds no part in what is left.
    ///
    /// The text kept after a part is the text behind that part. After a
    /// failure, and after the end, the stream is closed and hands out
    /// nothing more.
    pub fn next(&mut self) -> (r: Result<Option<T>, ParseError>)
        requires
            old(self).wf(),
        ensures
            final(self).wf(),
            final(self).grammar() == old(self).grammar(),
            final(self).stride() == old(self).stride(),
            old(self)@.closed ==> r == Ok::<Option<T>, ParseError>(None) && final(self)@ == old(self)@,
            !old(self)@.closed ==> exists|out: Fed<T>|
                {
                    &&& #[trigger] reaches(
                        old(self).grammar(),
                        old(self)@.text,
                        old(self)@.start,
                        old(self)@.at,
                        0,
                        old(self)@.eof,
                        old(self).stride() as nat,
                        out,
                    )
                    &&& fed(old(self)@, out, r, final(self)@)
                },
    {
        if self.closed {
            return Ok(None);
        }
        let ghost before = self@;
        let ghost text = before.text;
        let ghost base = before.at;
        let ghost parser = self.parser;
        let ghost n = self.nlines as nat;
        let ghost mut k: nat = 0;
        loop
            invariant
                self.wf(),
                !self.closed,
                self.grammar() == old(self).grammar(),
                self.stride() == old(self).stride(),
                before == old(self)@,
                !before.closed,
                text == before.text,
                base == before.at,
                parser == old(self).grammar(),
                n == old(self).stride(),
                0 <= base <= text.len(),
                self@.text == text,
                self@.start == before.start,
                self@.at == nth_start(text, base, k),
                k <= line_count(text, base),
                forall|out: Fed<T>| #[trigger]
                    reaches(parser, text, before.start, base, k, self@.eof, n, out) ==> reaches(
                        parser,
                        text,
                        before.start,
                        base,
                        0,
                        before.eof,
                        n,
                        out,
                    ),
            decreases line_count(text, base) - k,
        {
            let ghost left = line_count(text, base) - k;
            let ghost took = if n <= left {
                n
            } else {
                left as nat
            };
            let ghost was = self@.eof;
            proof {
                lemma_nth_start_bounds(text, base, k);
                lemma_nth_start_add(text, base, k, took);
                lemma_garbled_shift(text, base, k, took);
            }
            let full = match self.refill() {
                Err(e) => {
                    assert(reaches(
                        parser,
                        text,
                        before.start,
                        base,
                        k,
                        was,
                        n,
                        Fed::<T>::Garbled,
                    ));
                    return Err(e);
                },
                Ok(full) => full,
            };
            let eof = self.eof || !full;
            let ghost next = nth_start(text, base, k + took);
            let size = self.remained.as_str().as_bytes().len();
            let chunk = self.remained.as_str();
            let answer = (self.parser)(chunk, eof);
            proof {
                assert(grammar_says(parser, chunk, eof, answer));
                assert(encode_utf8(chunk@) == text.subrange(before.start, next));
                match verdict(answer, text, before.start, next, eof, n) {
                    Some(end) => {
                        lemma_reaches_step(
                            parser,
                            text,
                            before.start,
                            base,
                            k,
                            was,
                            n,
                            chunk,
                            answer,
                            end,
                        );
                    },
                    None => {
                        assert forall|out: Fed<T>| #[trigger]
                            reaches(parser, text, before.start, base, k + n, eof, n, out)
                            implies reaches(parser, text, before.start, base, k, was, n, out) by {
                            lemma_reaches_step(
                                parser,
                                text,
                                before.start,
                                base,
                                k,
                                was,
                                n,
                                chunk,
                                answer,
                                out,
                            );
                        }
                    },
                }
            }
            match answer {
                Parsed::Done { rest, value } => {
                    if rest < size && chunk.is_char_boundary(size - rest) {
                        proof {
                            encode_utf8_valid_utf8(chunk@);
                            is_char_boundary_start_end_of_seq(encode_utf8(chunk@));
                        }
                        let tail = str_range(chunk, size - rest, size).to_owned();
                        proof {
                            assert(encode_utf8(tail@) =~= text.subrange(next - rest, next));
                        }
                        self.remained = tail;
                        self.eof = eof;
                        return Ok(Some(value));
                    }
                    self.closed = true;
                    return Err(
                        ParseError::Malformed(String::from_str("the part found is no part")),
                    );
                },
                Parsed::Incomplete => {
                    if eof {
                        self.closed = true;
                        return Err(ParseError::UnexpectedEof);
                    }
                    if self.nlines == 0 {
                        self.closed = true;
                        return Err(ParseError::InvalidArgument);
                    }
                    proof {
                        k = k + n;
                    }
                },
                Parsed::Error => {
                    self.closed = true;
                    if eof {
                        return Ok(None);
                    }
                    return Err(
                        ParseError::Malformed(String::from_str("the text starts with no part")),
                    );
                },
                Parsed::Failure => {
                    self.closed = true;
                    return Err(ParseError::Malformed(String::from_str("the text is broken")));
                },
            }
        }
    }
}

} // verus!
