//! A viewer that looks at a text held in memory by line number.
use vstd::prelude::*;
use vstd::string::StringExecFns;
use vstd::utf8::{
    decode_utf8, encode_utf8, encode_utf8_decode_utf8, encode_utf8_valid_utf8, is_char_boundary,
    is_char_boundary_start_end_of_seq,
};
use crate::bindings::{
    byte_to_line, byte_to_line_idx, char_to_byte_idx, find_at, find_last, first_match, last_match,
    line_to_byte, line_to_byte_idx, pattern_ok,
};
use crate::error::ParseError;
use crate::text::{
    content, find_line_end, lemma_line_end, lemma_nth_start_bounds, line_at, line_count, nth_start,
    CR, LF,
};
use crate::utf8::{lemma_ascii_boundary, lemma_encode_range, lemma_line_valid, str_range};

verus! {

/// What a [`TextViewer`] stands for: a text and the byte offset of a cursor.
pub struct Page {
    /// The characters of the text.
    pub text: Seq<char>,
    /// The byte offset of the cursor.
    pub pos: usize,
}

impl Page {
    /// The bytes of the text.
    pub open spec fn bytes(self) -> Seq<u8> {
        encode_utf8(self.text)
    }

    /// The number of the line that holds byte `at`, counting from line 1.
    pub open spec fn line_num_at(self, at: usize) -> int {
        byte_to_line(self.text, at) + 1
    }

    /// The number of the line at the cursor, counting from line 1.
    pub open spec fn current_line_num(self) -> int {
        self.line_num_at(self.pos)
    }

    /// The number of lines.
    pub open spec fn num_lines(self) -> int {
        self.line_num_at(self.bytes().len() as usize)
    }

    /// The byte offset at which line `n` starts, counting from line 1.
    pub open spec fn line_pos(self, n: int) -> usize {
        line_to_byte(self.text, (n - 1) as usize)
    }

    /// The bytes of the lines from line `n` up to and including line `m`.
    pub open spec fn lines(self, n: int, m: int) -> Seq<u8> {
        self.bytes().subrange(self.line_pos(n) as int, self.line_pos(m + 1) as int)
    }

    /// The bytes of the next `n` lines from the cursor on, the line at the
    /// cursor being the first.
    pub open spec fn selection(self, n: usize) -> Seq<u8> {
        let first = byte_to_line(self.text, self.pos);
        let last = if first + n <= usize::MAX {
            (first + n) as usize
        } else {
            usize::MAX
        };
        self.bytes().subrange(
            line_to_byte(self.text, first) as int,
            line_to_byte(self.text, last) as int,
        )
    }

    /// The same text with the cursor at byte `pos`.
    pub open spec fn at(self, pos: usize) -> Page {
        Page { text: self.text, pos }
    }
}

/// The characters of `line` from column `col_beg` up to column `col_end`,
/// as far as the line has them, the first character standing in column 0.
pub open spec fn column(line: Seq<char>, col_beg: usize, col_end: usize) -> Seq<char> {
    let beg = if col_beg <= line.len() {
        col_beg as int
    } else {
        line.len() as int
    };
    let end = if col_end <= line.len() {
        col_end as int
    } else {
        line.len() as int
    };
    line.subrange(beg, end)
}

/// The columns from `col_beg` up to `col_end` of the first `k` lines of
/// `text`, each line taken without its line ending, with a line feed
/// between one line and the next.
pub open spec fn columns(text: Seq<u8>, k: nat, col_beg: usize, col_end: usize) -> Seq<char>
    decreases k,
{
    if k == 0 {
        Seq::empty()
    } else {
        let piece = column(
            decode_utf8(content(line_at(text, 0, (k - 1) as nat))),
            col_beg,
            col_end,
        );
        if k == 1 {
            piece
        } else {
            columns(text, (k - 1) as nat, col_beg, col_end).push('\n') + piece
        }
    }
}

/// A simple line-based text viewer for quick peeking part of text
#[derive(Debug)]
pub struct TextViewer {
    text: String,
    pos: usize,
}

impl View for TextViewer {
    type V = Page;

    closed spec fn view(&self) -> Page {
        Page { text: self.text@, pos: self.pos }
    }
}

impl TextViewer {
    /// Whether the cursor lies in the text, and the text is short enough for
    /// its lines to be counted.
    #[verifier::type_invariant]
    spec fn inv(self) -> bool {
        self.pos <= encode_utf8(self.text@).len() < usize::MAX
    }

    fn new(text: String) -> (view: Self)
        requires
            encode_utf8(text@).len() < usize::MAX,
        ensures
            view@ == (Page { text: text@, pos: 0 }),
    {
        Self { text, pos: 0 }
    }

    /// Return byte index from line number in string.
    fn line_pos(&self, line_num: usize) -> (at: usize)
        requires
            line_num >= 1,
        ensures
            at == self@.line_pos(line_num as int),
            at <= self@.bytes().len(),
            line_num == 1 ==> at == 0,
            forall|n: int| 1 <= n <= line_num ==> self@.line_pos(n) <= at,
    {
        let at = line_to_byte_idx(self.text.as_str(), line_num - 1);
        assert forall|n: int| 1 <= n <= line_num implies self@.line_pos(n) <= at by {
            assert(((n - 1) as usize) <= line_num - 1);
        }
        at
    }

    /// Return line number from byte index `pos`
    fn pos_to_line_num(&self, pos: usize) -> (n: usize)
        ensures
            n == self@.line_num_at(pos),
            n >= 1,
    {
        proof {
            use_type_invariant(self);
        }
        byte_to_line_idx(self.text.as_str(), pos) + 1
    }

    /// Create a view of text string.
    pub fn from_str(txt: &str) -> (view: Self)
        requires
            encode_utf8(txt@).len() < usize::MAX,
        ensures
            view@ == (Page { text: txt@, pos: 0 }),
    {
        Self::new(txt.to_owned())
    }

    /// Total number of lines
    pub fn num_lines(&self) -> (n: usize)
        ensures
            n == self@.num_lines(),
            n >= 1,
    {
        self.pos_to_line_num(self.text.as_str().as_bytes().len())
    }

    /// Get line number at cursor
    pub fn current_line_num(&self) -> (n: usize)
        ensures
            n == self@.current_line_num(),
            n >= 1,
    {
        self.pos_to_line_num(self.pos)
    }

    /// Return str slice of inner text.
    pub fn text(&self) -> (text: &str)
        ensures
            text@ == self@.text,
    {
        self.text.as_str()
    }

    /// Peek the line at cursor
    pub fn current_line(&self) -> (line: &str)
        ensures
            encode_utf8(line@) == self@.lines(self@.current_line_num(), self@.current_line_num()),
    {
        self.peek_line(self.current_line_num())
    }

    /// Move the cursor to line `n`, counting from line 1 at beginning of the text.
    pub fn goto_line(&mut self, n: usize)
        requires
            n >= 1,
        ensures
            final(self)@ == old(self)@.at(old(self)@.line_pos(n as int)),
    {
        proof {
            use_type_invariant(&*self);
        }
        self.pos = self.line_pos(n);
    }

    /// Move the cursor to the beginning of the first line.
    pub fn goto_first_line(&mut self)
        ensures
            final(self)@ == old(self)@.at(0),
            old(self)@.line_pos(1) == 0,
    {
        proof {
            use_type_invariant(&*self);
        }
        self.pos = self.line_pos(1);
    }

    /// Move the cursor to the beginning of the last line.
    pub fn goto_last_line(&mut self)
        ensures
            final(self)@ == old(self)@.at(old(self)@.line_pos(old(self)@.num_lines())),
    {
        self.goto_line(self.num_lines());
    }

    /// Move the cursor to the beginning of the next line.
    pub fn goto_next_line(&mut self)
        ensures
            final(self)@ == old(self)@.at(old(self)@.line_pos(old(self)@.current_line_num() + 1)),
    {
        proof {
            use_type_invariant(&*self);
        }
        let here = byte_to_line_idx(self.text.as_str(), self.pos);
        self.pos = line_to_byte_idx(self.text.as_str(), here + 1);
    }

    /// Move the cursor to the beginning of the previous line.
    pub fn goto_previous_line(&mut self)
        requires
            old(self)@.current_line_num() > 1,
        ensures
            final(self)@ == old(self)@.at(old(self)@.line_pos(old(self)@.current_line_num() - 1)),
    {
        self.goto_line(self.current_line_num() - 1);
    }

    /// Move the cursor to the beginning of the previous line, unless it
    /// stands in the first line already. The answer is whether it moved.
    pub fn try_goto_previous_line(&mut self) -> (moved: bool)
        ensures
            moved == (old(self)@.current_line_num() > 1),
            moved ==> final(self)@ == old(self)@.at(
                old(self)@.line_pos(old(self)@.current_line_num() - 1),
            ),
            !moved ==> final(self)@ == old(self)@,
    {
        if self.current_line_num() > 1 {
            self.goto_previous_line();
            true
        } else {
            false
        }
    }

    /// Move the cursor to the line matching `pattern`. Regex pattern
    /// is allowed. Return current line number after search.
    ///
    /// The search starts at the cursor and moves it to where the match
    /// begins. Without a match the cursor stays.
    pub fn search_forward(&mut self, pattern: &str) -> (r: Result<usize, ParseError>)
        ensures
            !pattern_ok(pattern@) ==> r == Err::<usize, ParseError>(ParseError::Pattern) && final(self)@ == old(self)@,
            pattern_ok(pattern@) ==> match first_match(pattern@, old(self)@.text, old(self)@.pos) {
                Some(at) => {
                    &&& final(self)@ == old(self)@.at(at)
                    &&& r == Ok::<usize, ParseError>(old(self)@.line_num_at(at) as usize)
                },
                None => {
                    &&& r == Err::<usize, ParseError>(ParseError::NotFound)
                    &&& final(self)@ == old(self)@
                },
            },
    {
        proof {
            use_type_invariant(&*self);
        }
        match find_at(pattern, self.text.as_str(), self.pos) {
            Err(_) => Err(ParseError::Pattern),
            Ok(None) => Err(ParseError::NotFound),
            Ok(Some(at)) => {
                self.pos = at;
                Ok(self.current_line_num())
            },
        }
    }

    /// Search backward from current point for `pattern`. Return
    /// current line number after search.
    ///
    /// The text searched runs from the start up to the end of the line at
    /// the cursor; the cursor moves to where the last match in it begins.
    /// Without a match the cursor stays.
    pub fn search_backward(&mut self, pattern: &str) -> (r: Result<usize, ParseError>)
        ensures
            !pattern_ok(pattern@) ==> r == Err::<usize, ParseError>(ParseError::Pattern) && final(self)@ == old(self)@,
            pattern_ok(pattern@) ==> match last_match(
                pattern@,
                decode_utf8(old(self)@.lines(1, old(self)@.current_line_num())),
            ) {
                Some(at) => {
                    &&& final(self)@ == old(self)@.at(at)
                    &&& r == Ok::<usize, ParseError>(old(self)@.line_num_at(at) as usize)
                },
                None => {
                    &&& r == Err::<usize, ParseError>(ParseError::NotFound)
                    &&& final(self)@ == old(self)@
                },
            },
    {
        proof {
            use_type_invariant(&*self);
        }
        let n = self.current_line_num();
        let found = {
            let s = self.peek_lines(1, n);
            proof {
                encode_utf8_decode_utf8(s@);
            }
            find_last(pattern, s)
        };
        match found {
            Err(_) => Err(ParseError::Pattern),
            Ok(None) => Err(ParseError::NotFound),
            Ok(Some(at)) => {
                self.pos = at;
                Ok(self.current_line_num())
            },
        }
    }

    /// Peek line `n` without moving cursor.
    pub fn peek_line(&self, n: usize) -> (line: &str)
        requires
            n >= 1,
        ensures
            encode_utf8(line@) == self@.lines(n as int, n as int),
    {
        self.peek_lines(n, n)
    }

    /// Peek the text between line `n` and `m` (including line `m`),
    /// without moving cursor.
    pub fn peek_lines(&self, n: usize, m: usize) -> (lines: &str)
        requires
            1 <= n <= m + 1,
        ensures
            encode_utf8(lines@) == self@.lines(n as int, m as int),
            self@.line_pos(n as int) <= self@.line_pos(m + 1) <= self@.bytes().len(),
    {
        let beg = line_to_byte_idx(self.text.as_str(), n - 1);
        // including the line `m`
        let end = line_to_byte_idx(self.text.as_str(), m);
        str_range(self.text.as_str(), beg, end)
    }

    /// Select the next `n` lines from current point, including current line.
    pub fn selection(&self, n: usize) -> (lines: &str)
        ensures
            encode_utf8(lines@) == self@.selection(n),
    {
        proof {
            use_type_invariant(self);
        }
        let first = byte_to_line_idx(self.text.as_str(), self.pos);
        let last = if n <= usize::MAX - first {
            first + n
        } else {
            usize::MAX
        };
        let beg = line_to_byte_idx(self.text.as_str(), first);
        let end = line_to_byte_idx(self.text.as_str(), last);
        str_range(self.text.as_str(), beg, end)
    }

    /// Select part of the string in next `n` lines (including
    /// currrent line), in a rectangular area surrounded by columns in
    /// `col_beg`--`col_end`.
    pub fn column_selection(&self, n: usize, col_beg: usize, col_end: usize) -> (text: String)
        requires
            col_beg <= col_end,
        ensures
            text@ == columns(
                self@.selection(n),
                line_count(self@.selection(n), 0),
                col_beg,
                col_end,
            ),
    {
        let lines = self.selection(n);
        let bytes = lines.as_bytes();
        let total = bytes.len();
        let ghost z = encode_utf8(lines@);
        let mut selection = String::new();
        let mut at: usize = 0;
        let mut first = true;
        let ghost mut k: nat = 0;
        proof {
            encode_utf8_valid_utf8(lines@);
            is_char_boundary_start_end_of_seq(z);
        }
        while at < total
            invariant
                col_beg <= col_end,
                z == encode_utf8(lines@),
                z == self@.selection(n),
                bytes@ == z,
                total == z.len(),
                at == nth_start(z, 0, k),
                at <= total,
                is_char_boundary(z, at as int),
                first == (k == 0),
                k <= line_count(z, 0),
                selection@ == columns(z, k, col_beg, col_end),
            decreases total - at,
        {
            proof {
                encode_utf8_valid_utf8(lines@);
                lemma_nth_start_bounds(z, 0, k);
                lemma_line_end(z, at as int);
                lemma_line_valid(z, at as int);
            }
            let end = find_line_end(bytes, at);
            let mut stop = end;
            if stop - at >= 2 && bytes[stop - 1] == LF && bytes[stop - 2] == CR {
                stop = stop - 2;
                proof {
                    lemma_ascii_boundary(z, stop as int);
                }
            } else if stop - at >= 1 && bytes[stop - 1] == LF {
                stop = stop - 1;
                proof {
                    lemma_ascii_boundary(z, stop as int);
                }
            }
            let x = str_range(lines, at, stop);
            proof {
                assert(encode_utf8(x@) =~= content(line_at(z, 0, k)));
                encode_utf8_decode_utf8(x@);
                let beg = if col_beg <= x@.len() {
                    col_beg as int
                } else {
                    x@.len() as int
                };
                let fin = if col_end <= x@.len() {
                    col_end as int
                } else {
                    x@.len() as int
                };
                lemma_encode_range(x@, beg, fin);
            }
            let from = char_to_byte_idx(x, col_beg);
            let to = char_to_byte_idx(x, col_end);
            let piece = str_range(x, from, to);
            proof {
                encode_utf8_decode_utf8(piece@);
                encode_utf8_decode_utf8(column(x@, col_beg, col_end));
                assert(piece@ == column(x@, col_beg, col_end));
            }
            if !first {
                proof {
                    reveal_strlit("\n");
                    assert("\n"@ =~= seq!['\n']);
                }
                selection.append("\n");
            }
            selection.append(piece);
            proof {
                assert(selection@ =~= columns(z, k + 1, col_beg, col_end));
                k = k + 1;
            }
            first = false;
            at = end;
        }
        proof {
            lemma_nth_start_bounds(z, 0, k);
        }
        selection
    }
}

} // verus!
