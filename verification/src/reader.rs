//! A reader that walks a text held in memory line by line.
use vstd::prelude::*;
use vstd::slice::{slice_subrange, slice_to_vec};
use vstd::string::StringExecFns;
use vstd::utf8::{
    encode_utf8, encode_utf8_decode_utf8, encode_utf8_valid_utf8, is_char_boundary, valid_utf8,
};
use crate::error::ParseError;
use crate::text::{
    content, find_line_end, is_line_start, lemma_line_end, lemma_nth_start_bounds, line_at,
    line_count, line_end, normalize, normalized, nth_start, strip_ending, LF,
};
use crate::utf8::{decode, lemma_encode_concat, lemma_lines_valid, push_bytes};

verus! {

/// What a [`TextReader`] stands for: a text and a position in it.
pub struct Cursor {
    /// The bytes of the whole text.
    pub text: Seq<u8>,
    /// The byte offset of the cursor. It may lie past the end of the text.
    pub at: nat,
}

impl Cursor {
    /// The offset at which the next read starts: the cursor, or the end of
    /// the text where the cursor lies past it.
    pub open spec fn start(self) -> int {
        if self.at <= self.text.len() {
            self.at as int
        } else {
            self.text.len() as int
        }
    }

    /// Whether nothing is left to read.
    pub open spec fn at_end(self) -> bool {
        self.at >= self.text.len()
    }

    /// The offset just past the next line.
    pub open spec fn next_end(self) -> int {
        line_end(self.text, self.start())
    }

    /// Where a search of whole lines starts: at the cursor where it stands
    /// at the start of a line or at the end of the text, else at the start
    /// of the line behind the one in which it stands.
    pub open spec fn scan_start(self) -> int {
        if self.at_end() || is_line_start(self.text, self.start()) {
            self.start()
        } else {
            self.next_end()
        }
    }

    /// The next line as it stands in the text, with its line ending.
    pub open spec fn next_raw(self) -> Seq<u8> {
        self.text.subrange(self.start(), self.next_end())
    }

    /// The next line as a read delivers it: with a lone line feed where the
    /// text has a carriage return and a line feed.
    pub open spec fn next_line(self) -> Seq<u8> {
        normalized(self.next_raw())
    }

    /// Whether `line` is what a look at the next line shows: the next line
    /// as a read delivers it, or nothing at the end of the text and where
    /// the line is not valid UTF-8.
    pub open spec fn peeked(self, line: Option<String>) -> bool {
        &&& line is Some <==> !self.at_end() && valid_utf8(self.next_line())
        &&& line matches Some(s) ==> encode_utf8(s@) == self.next_line()
    }

    /// The same cursor at another offset.
    pub open spec fn moved_to(self, at: nat) -> Cursor {
        Cursor { text: self.text, at }
    }

    /// The cursor after everything has been read: at the end of the text,
    /// or where it was if it lay there or further already.
    pub open spec fn drained(self) -> Cursor {
        if self.at_end() {
            self
        } else {
            self.moved_to(self.text.len())
        }
    }

    /// Everything from the cursor to the end of the text.
    pub open spec fn rest(self) -> Seq<u8> {
        self.text.subrange(self.start(), self.text.len() as int)
    }

    /// The number of lines left to read.
    pub open spec fn lines_left(self) -> nat {
        line_count(self.text, self.start())
    }

    /// The `k`-th line left to read as it stands in the text.
    pub open spec fn raw_line(self, k: nat) -> Seq<u8> {
        line_at(self.text, self.start(), k)
    }

    /// The offset at which the `k`-th line left to read starts.
    pub open spec fn line_start(self, k: nat) -> int {
        nth_start(self.text, self.start(), k)
    }

    /// The text from the cursor up to where line `k` after it starts.
    pub open spec fn span(self, k: nat) -> Seq<u8> {
        self.text.subrange(self.start(), self.line_start(k))
    }

    /// Whether each of the first `k` lines left to read is valid UTF-8.
    pub open spec fn readable(self, k: nat) -> bool {
        forall|j: nat| j < k ==> valid_utf8(#[trigger] self.raw_line(j))
    }

    /// The first `k` lines left to read, each as a read delivers it, one
    /// after the other.
    pub open spec fn joined(self, k: nat) -> Seq<u8>
        decreases k,
    {
        if k == 0 {
            Seq::empty()
        } else {
            self.joined((k - 1) as nat) + normalized(self.raw_line((k - 1) as nat))
        }
    }

    /// Whether each of the first `k` lines is valid text on which `f` may
    /// answer no.
    pub open spec fn rejected<F: Fn(&str) -> bool>(self, f: F, k: nat) -> bool {
        forall|j: nat|
            j < k ==> valid_utf8(normalized(#[trigger] self.raw_line(j))) && answers(
                f,
                normalized(self.raw_line(j)),
                false,
            )
    }
}

/// To look at the next line again shows the same line, as long as nothing
/// was read in between: a look leaves the cursor where it was, and what it
/// shows depends on the cursor alone.
pub proof fn lemma_peek_again(c: Cursor, first: Option<String>, second: Option<String>)
    requires
        c.peeked(first),
        c.peeked(second),
    ensures
        first is Some <==> second is Some,
        first matches Some(a) ==> second matches Some(b) && a@ == b@,
{
    if let Some(a) = first {
        if let Some(b) = second {
            encode_utf8_decode_utf8(a@);
            encode_utf8_decode_utf8(b@);
        }
    }
}

/// A text that is valid UTF-8, read from a character boundary on, has no
/// line that fails to decode: not as it stands, not without its line
/// ending, not with a lone line feed for its ending. The text of a reader
/// made from a string is such a text, and its start such a boundary.
pub proof fn lemma_valid_text_decodes(c: Cursor, k: nat)
    requires
        valid_utf8(c.text),
        is_char_boundary(c.text, c.start()),
        k < c.lines_left(),
    ensures
        valid_utf8(c.raw_line(k)),
        valid_utf8(content(c.raw_line(k))),
        valid_utf8(normalized(c.raw_line(k))),
{
    lemma_lines_valid(c.text, c.start(), k);
    lemma_nth_start_bounds(c.text, c.start(), k);
}

/// Whether the predicate `f` may answer `b` when given `s`.
pub open spec fn says<F: Fn(&str) -> bool>(f: F, s: &str, b: bool) -> bool {
    call_ensures(f, (s,), b)
}

/// Whether the predicate `f` may answer `b` on the text that `line` encodes.
pub open spec fn answers<F: Fn(&str) -> bool>(f: F, line: Seq<u8>, b: bool) -> bool {
    exists|s: &str| #[trigger] says(f, s, b) && encode_utf8(s@) == line
}

/// A stream reader for a large text.
#[derive(Debug)]
pub struct TextReader {
    data: Vec<u8>,
    pos: u64,
}

impl View for TextReader {
    type V = Cursor;

    closed spec fn view(&self) -> Cursor {
        Cursor { text: self.data@, at: self.pos as nat }
    }
}

impl TextReader {
    /// Build a text reader for string slice.
    pub fn from_str(s: &str) -> (reader: Self)
        ensures
            reader@.text == encode_utf8(s@),
            reader@.at == 0,
            valid_utf8(reader@.text),
    {
        proof {
            encode_utf8_valid_utf8(s@);
        }
        TextReader { data: s.as_bytes_vec(), pos: 0 }
    }

    /// Build a text reader over bytes that were read elsewhere.
    pub fn new(bytes: Vec<u8>) -> (reader: Self)
        ensures
            reader@.text == bytes@,
            reader@.at == 0,
    {
        TextReader { data: bytes, pos: 0 }
    }

    /// Whether a line of the text starts at byte `at`: `at` lies in the
    /// text, at its start or right after a line feed.
    pub fn starts_line(&self, at: u64) -> (yes: bool)
        ensures
            yes == (at < self@.text.len() && is_line_start(self@.text, at as int)),
    {
        let n = self.data.len();
        if at >= n as u64 {
            return false;
        }
        let i = at as usize;
        i == 0 || self.data[i - 1] == LF
    }

    /// The bytes of the whole text.
    pub fn as_bytes(&self) -> (bytes: &[u8])
        ensures
            bytes@ == self@.text,
    {
        self.data.as_slice()
    }

    /// The length of the text in bytes.
    pub fn len(&self) -> (n: usize)
        ensures
            n == self@.text.len(),
    {
        self.data.len()
    }

    /// The offset from which the next read starts, as an index.
    pub(crate) fn start(&self) -> (p: usize)
        ensures
            p == self@.start(),
            p <= self@.text.len(),
    {
        let n = self.data.len();
        if self.pos <= n as u64 {
            self.pos as usize
        } else {
            n
        }
    }

    /// Take the next line as it stands in the text and move the cursor past
    /// it. At the end of the text nothing is taken.
    pub(crate) fn take_raw(&mut self) -> (raw: Vec<u8>)
        ensures
            final(self)@.text == old(self)@.text,
            raw@ == old(self)@.next_raw(),
            old(self)@.at_end() ==> raw@.len() == 0 && final(self)@ == old(self)@,
            !old(self)@.at_end() ==> raw@.len() > 0 && final(self)@.at == old(self)@.next_end(),
    {
        let from = self.start();
        let end = find_line_end(self.data.as_slice(), from);
        let raw = slice_to_vec(slice_subrange(self.data.as_slice(), from, end));
        if from < end {
            self.pos = end as u64;
        }
        raw
    }

    /// Read a new line into buf.
    ///
    /// A final carriage return and line feed come out as a lone line feed.
    /// The result is the number of bytes that the cursor moved over, which is
    /// 0 at the end of the text and there only. A line that is not valid
    /// UTF-8 is passed over and leaves `buf` untouched.
    pub fn read_line(&mut self, buf: &mut String) -> (r: Result<usize, ParseError>)
        ensures
            final(self)@ == (if old(self)@.at_end() {
                old(self)@
            } else {
                old(self)@.moved_to(old(self)@.next_end() as nat)
            }),
            old(self)@.at_end() ==> r == Ok::<usize, ParseError>(0) && final(buf)@ == old(buf)@,
            !old(self)@.at_end() && valid_utf8(old(self)@.next_line()) ==> {
                &&& r == Ok::<usize, ParseError>(old(self)@.next_raw().len() as usize)
                &&& old(self)@.next_raw().len() > 0
                &&& encode_utf8(final(buf)@) == encode_utf8(old(buf)@) + old(self)@.next_line()
            },
            !old(self)@.at_end() && !valid_utf8(old(self)@.next_line()) ==> {
                &&& r == Err::<usize, ParseError>(ParseError::Decode)
                &&& final(buf)@ == old(buf)@
            },
    {
        let raw = self.take_raw();
        let n = raw.len();
        if n == 0 {
            return Ok(0);
        }
        if push_bytes(buf, normalize(raw)) {
            Ok(n)
        } else {
            Err(ParseError::Decode)
        }
    }

    /// Peek next line without moving cursor.
    ///
    /// Nothing comes back at the end of the text, nor where the next line is
    /// not valid UTF-8.
    pub fn peek_line(&mut self) -> (line: Option<String>)
        ensures
            final(self)@ == old(self)@,
            old(self)@.peeked(line),
    {
        let from = self.start();
        let end = find_line_end(self.data.as_slice(), from);
        if from == end {
            return None;
        }
        let raw = slice_to_vec(slice_subrange(self.data.as_slice(), from, end));
        decode(normalize(raw))
    }

    /// Skip reading until finding a matched line. Return the number
    /// of bytes read in before the matched line. Return error if not
    /// found.
    ///
    /// On success the cursor stands at the start of the first line on which
    /// `f` answered yes. Where no line matches the cursor ends at the end of
    /// the text; a line that is not valid UTF-8 stops the search behind it.
    pub fn seek_line<F: Fn(&str) -> bool>(&mut self, f: F) -> (r: Result<usize, ParseError>)
        requires
            forall|s: &str| call_requires(f, (s,)),
        ensures
            final(self)@.text == old(self)@.text,
            match r {
                Ok(m) => exists|k: nat|
                    {
                        &&& k < old(self)@.lines_left()
                        &&& #[trigger] old(self)@.rejected(f, k)
                        &&& answers(f, normalized(old(self)@.raw_line(k)), true)
                        &&& final(self)@.at == old(self)@.line_start(k)
                        &&& m == old(self)@.line_start(k) - old(self)@.start()
                    },
                Err(ParseError::NotFound) => {
                    &&& old(self)@.rejected(f, old(self)@.lines_left())
                    &&& final(self)@ == old(self)@.drained()
                },
                Err(ParseError::Decode) => exists|k: nat|
                    {
                        &&& k < old(self)@.lines_left()
                        &&& #[trigger] old(self)@.rejected(f, k)
                        &&& !valid_utf8(normalized(old(self)@.raw_line(k)))
                        &&& final(self)@.at == old(self)@.line_start(k + 1)
                    },
                Err(_) => false,
            },
    {
        let first = self.start();
        let mut m: usize = 0;
        let ghost mut k: nat = 0;
        let ghost before = self@;
        loop
            invariant
                forall|s: &str| call_requires(f, (s,)),
                before == old(self)@,
                first == before.start(),
                first <= before.text.len(),
                self@.text == before.text,
                k == 0 ==> self@ == before,
                k > 0 ==> self@.at == before.line_start(k),
                self@.start() == before.line_start(k),
                m == before.line_start(k) - first,
                before.rejected(f, k),
                k <= before.lines_left(),
            decreases before.lines_left() - k,
        {
            proof {
                lemma_nth_start_bounds(before.text, first as int, k);
            }
            let at = self.start();
            let raw = self.take_raw();
            let n = raw.len();
            if n == 0 {
                assert(k == before.lines_left());
                return Err(ParseError::NotFound);
            }
            proof {
                lemma_line_end(before.text, at as int);
                assert(before.line_start(k + 1) == line_end(before.text, before.line_start(k)));
                assert(raw@ == before.raw_line(k));
                assert(self@.at == before.line_start(k + 1));
                assert(m + n == before.line_start(k + 1) - first);
                lemma_nth_start_bounds(before.text, first as int, k + 1);
            }
            let total = self.data.len();
            match decode(normalize(raw)) {
                None => {
                    return Err(ParseError::Decode);
                },
                Some(line) => {
                    let text = line.as_str();
                    let found = f(text);
                    assert(says(f, text, found));
                    assert(answers(f, normalized(before.raw_line(k)), found));
                    if found {
                        self.pos = at as u64;
                        return Ok(m);
                    }
                    assert(m + n <= total);
                    m = m + n;
                    proof {
                        k = k + 1;
                    }
                },
            }
        }
    }

    /// Read lines into `buf` until `f` closure predicates true. Return
    /// total bytes read into `buf`.
    ///
    /// # NOTE
    /// - the line matching predicate is not put into `buf`
    /// - the lines read before a failure stay in `buf`
    pub fn read_until<F: Fn(&str) -> bool>(&mut self, buf: &mut String, f: F) -> (r: Result<
        usize,
        ParseError,
    >)
        requires
            forall|s: &str| call_requires(f, (s,)),
        ensures
            final(self)@.text == old(self)@.text,
            match r {
                Ok(m) => exists|k: nat|
                    {
                        &&& k < old(self)@.lines_left()
                        &&& #[trigger] old(self)@.rejected(f, k)
                        &&& answers(f, normalized(old(self)@.raw_line(k)), true)
                        &&& final(self)@.at == old(self)@.line_start(k)
                        &&& m == old(self)@.line_start(k) - old(self)@.start()
                        &&& encode_utf8(final(buf)@) == encode_utf8(old(buf)@) + old(self)@.joined(k)
                    },
                Err(ParseError::NotFound) => {
                    &&& old(self)@.rejected(f, old(self)@.lines_left())
                    &&& final(self)@ == old(self)@.drained()
                    &&& encode_utf8(final(buf)@) == encode_utf8(old(buf)@) + old(self)@.joined(
                        old(self)@.lines_left(),
                    )
                },
                Err(ParseError::Decode) => exists|k: nat|
                    {
                        &&& k < old(self)@.lines_left()
                        &&& #[trigger] old(self)@.rejected(f, k)
                        &&& !valid_utf8(normalized(old(self)@.raw_line(k)))
                        &&& final(self)@.at == old(self)@.line_start(k + 1)
                        &&& encode_utf8(final(buf)@) == encode_utf8(old(buf)@) + old(self)@.joined(k)
                    },
                Err(_) => false,
            },
    {
        let first = self.start();
        let mut m: usize = 0;
        let ghost mut k: nat = 0;
        let ghost before = self@;
        proof {
            assert(encode_utf8(buf@) + before.joined(0) =~= encode_utf8(buf@));
        }
        loop
            invariant
                forall|s: &str| call_requires(f, (s,)),
                before == old(self)@,
                first == before.start(),
                first <= before.text.len(),
                self@.text == before.text,
                k == 0 ==> self@ == before,
                k > 0 ==> self@.at == before.line_start(k),
                self@.start() == before.line_start(k),
                m == before.line_start(k) - first,
                before.rejected(f, k),
                k <= before.lines_left(),
                encode_utf8(buf@) == encode_utf8(old(buf)@) + before.joined(k),
            decreases before.lines_left() - k,
        {
            proof {
                lemma_nth_start_bounds(before.text, first as int, k);
            }
            let at = self.start();
            let raw = self.take_raw();
            let n = raw.len();
            if n == 0 {
                assert(k == before.lines_left());
                return Err(ParseError::NotFound);
            }
            proof {
                lemma_line_end(before.text, at as int);
                assert(before.line_start(k + 1) == line_end(before.text, before.line_start(k)));
                assert(raw@ == before.raw_line(k));
                assert(self@.at == before.line_start(k + 1));
                assert(m + n == before.line_start(k + 1) - first);
                lemma_nth_start_bounds(before.text, first as int, k + 1);
            }
            let total = self.data.len();
            match decode(normalize(raw)) {
                None => {
                    return Err(ParseError::Decode);
                },
                Some(line) => {
                    let text = line.as_str();
                    let found = f(text);
                    assert(says(f, text, found));
                    assert(answers(f, normalized(before.raw_line(k)), found));
                    if found {
                        self.pos = at as u64;
                        return Ok(m);
                    }
                    proof {
                        lemma_encode_concat(buf@, line@);
                        assert(before.joined(k + 1) == before.joined(k) + normalized(
                            before.raw_line(k),
                        ));
                        assert(encode_utf8(old(buf)@) + before.joined(k + 1) =~= (encode_utf8(
                            old(buf)@,
                        ) + before.joined(k)) + normalized(before.raw_line(k)));
                    }
                    buf.append(text);
                    assert(m + n <= total);
                    m = m + n;
                    proof {
                        k = k + 1;
                    }
                },
            }
        }
    }

    /// Read all text into string `buf` (Note: out of memory issue for large
    /// file)
    ///
    /// The rest of the text is taken as it stands, with its line endings.
    /// The result is the number of bytes read. A rest that is not valid UTF-8
    /// is passed over and leaves `buf` untouched.
    pub fn read_to_string(&mut self, buf: &mut String) -> (r: Result<usize, ParseError>)
        ensures
            final(self)@ == old(self)@.drained(),
            valid_utf8(old(self)@.rest()) ==> {
                &&& r == Ok::<usize, ParseError>(old(self)@.rest().len() as usize)
                &&& encode_utf8(final(buf)@) == encode_utf8(old(buf)@) + old(self)@.rest()
            },
            !valid_utf8(old(self)@.rest()) ==> {
                &&& r == Err::<usize, ParseError>(ParseError::Decode)
                &&& final(buf)@ == old(buf)@
            },
    {
        let from = self.start();
        let total = self.data.len();
        let rest = slice_to_vec(slice_subrange(self.data.as_slice(), from, total));
        if from < total {
            self.pos = total as u64;
        }
        if push_bytes(buf, rest) {
            Ok(total - from)
        } else {
            Err(ParseError::Decode)
        }
    }

    /// Returns the lines of this reader. Each string returned will not have a
    /// line ending.
    ///
    /// A line that is not valid UTF-8 fails the whole call.
    pub fn lines(self) -> (r: Result<Vec<String>, ParseError>)
        ensures
            match r {
                Ok(lines) => {
                    &&& lines@.len() == self@.lines_left()
                    &&& forall|k: int|
                        0 <= k < lines@.len() ==> encode_utf8(#[trigger] lines@[k]@) == content(
                            self@.raw_line(k as nat),
                        )
                },
                Err(ParseError::Decode) => exists|k: nat|
                    k < self@.lines_left() && !valid_utf8(content(#[trigger] self@.raw_line(k))),
                Err(_) => false,
            },
    {
        let mut reader = self;
        let first = reader.start();
        let mut lines: Vec<String> = Vec::new();
        let ghost before = reader@;
        loop
            invariant
                before == self@,
                first == before.start(),
                first <= before.text.len(),
                reader@.text == before.text,
                reader@.start() == before.line_start(lines@.len()),
                lines@.len() <= before.lines_left(),
                forall|k: int|
                    0 <= k < lines@.len() ==> encode_utf8(#[trigger] lines@[k]@) == content(
                        before.raw_line(k as nat),
                    ),
            decreases before.lines_left() - lines@.len(),
        {
            let ghost k = lines@.len();
            proof {
                lemma_nth_start_bounds(before.text, first as int, k);
            }
            let ghost at = reader@.start();
            let raw = reader.take_raw();
            if raw.len() == 0 {
                return Ok(lines);
            }
            proof {
                lemma_line_end(before.text, at);
                assert(before.line_start(k + 1) == line_end(before.text, before.line_start(k)));
                assert(raw@ == before.raw_line(k));
            }
            match decode(strip_ending(raw)) {
                None => {
                    return Err(ParseError::Decode);
                },
                Some(line) => {
                    lines.push(line);
                },
            }
        }
    }

    /// Goto the start of inner file.
    pub fn goto_start(&mut self)
        ensures
            final(self)@ == old(self)@.moved_to(0),
    {
        self.pos = 0;
    }

    /// Goto the end of inner file.
    pub fn goto_end(&mut self)
        ensures
            final(self)@ == old(self)@.moved_to(old(self)@.text.len()),
    {
        self.pos = self.data.len() as u64;
    }

    /// Returns the current seek position from the start of the stream.
    pub fn get_current_position(&mut self) -> (r: Result<u64, ParseError>)
        ensures
            final(self)@ == old(self)@,
            r == Ok::<u64, ParseError>(old(self)@.at as u64),
            old(self)@.at <= u64::MAX,
    {
        Ok(self.pos)
    }

    /// Goto to an absolute position, in bytes, in a text stream.
    ///
    /// A position past the end of the text is accepted: nothing is left to
    /// read from there.
    pub fn goto(&mut self, pos: u64) -> (r: Result<(), ParseError>)
        ensures
            r is Ok,
            final(self)@ == old(self)@.moved_to(pos as nat),
    {
        self.pos = pos;
        Ok(())
    }

    /// Sets the offset to the current position plus the specified
    /// number of bytes. If the seek operation completed successfully,
    /// this method returns the new position from the start of the
    /// stream.
    ///
    /// A move to before the start of the text, or past the largest offset,
    /// is refused and leaves the cursor where it was.
    pub fn goto_relative(&mut self, offset: i64) -> (r: Result<u64, ParseError>)
        ensures
            0 <= old(self)@.at + offset <= u64::MAX ==> {
                &&& r == Ok::<u64, ParseError>((old(self)@.at + offset) as u64)
                &&& final(self)@ == old(self)@.moved_to((old(self)@.at + offset) as nat)
            },
            !(0 <= old(self)@.at + offset <= u64::MAX) ==> {
                &&& r == Err::<u64, ParseError>(ParseError::InvalidArgument)
                &&& final(self)@ == old(self)@
            },
    {
        if offset >= 0 {
            let forward = offset as u64;
            if forward <= u64::MAX - self.pos {
                self.pos = self.pos + forward;
                Ok(self.pos)
            } else {
                Err(ParseError::InvalidArgument)
            }
        } else {
            let back = (-(offset + 1)) as u64 + 1;
            if back <= self.pos {
                self.pos = self.pos - back;
                Ok(self.pos)
            } else {
                Err(ParseError::InvalidArgument)
            }
        }
    }
}

} // verus!
