//! A reader that marks the lines matching a pattern and jumps between them.
use vstd::prelude::*;
use vstd::utf8::{decode_utf8, encode_utf8, encode_utf8_decode_utf8, valid_utf8};
use crate::bindings::{find_at, first_match, pattern_ok};
use crate::error::ParseError;
use crate::reader::{Cursor, TextReader};
use crate::text::{
    content, is_line_start, lemma_line_end, lemma_nth_start_add, lemma_nth_start_bounds,
    lemma_nth_start_mono, lemma_nth_start_shift, line_at, line_count, line_end, nth_start,
    strip_ending, LF,
};
use crate::utf8::{decode, push_bytes};
use crate::view::{Page, TextViewer};

verus! {

/// What a [`GrepReader`] stands for: a cursor in a text, the offsets that
/// were marked, and the number of markers visited.
pub struct Marks {
    /// The text and the position in it.
    pub cursor: Cursor,
    /// The byte offsets marked by the last search, from the start of the text.
    pub markers: Seq<u64>,
    /// The index of the next marker to visit.
    pub index: nat,
}

impl Marks {
    /// Whether the markers ascend strictly, each one stands at the start of
    /// a line of the text, and the index counts markers at most.
    pub open spec fn wf(self) -> bool {
        &&& self.index <= self.markers.len()
        &&& forall|i: int, j: int|
            0 <= i < j < self.markers.len() ==> self.markers[i] < self.markers[j]
        &&& forall|i: int|
            0 <= i < self.markers.len() ==> self.markers[i] < self.cursor.text.len()
                && is_line_start(self.cursor.text, #[trigger] self.markers[i] as int)
    }

    /// The same reader with its cursor at `at` and `index` markers visited.
    pub open spec fn moved(self, at: nat, index: nat) -> Marks {
        Marks { cursor: self.cursor.moved_to(at), markers: self.markers, index }
    }

    /// The reader after it went to marker `i`, which makes marker `i + 1`
    /// the next.
    pub open spec fn at_marker(self, i: int) -> Marks {
        self.moved(self.markers[i] as nat, (i + 1) as nat)
    }

    /// The reader after it went back to the start of the text.
    pub open spec fn rewound(self) -> Marks {
        self.moved(0, self.index)
    }

    /// Where a read up to the next marker is to stop: at the next marker,
    /// or at the end of the text where no marker is left.
    pub open spec fn stop(self) -> int {
        if self.index < self.markers.len() {
            self.next_marker()
        } else {
            self.cursor.text.len() as int
        }
    }

    /// The text from the cursor up to where line `k` after it starts.
    pub open spec fn span(self, k: nat) -> Seq<u8> {
        self.cursor.span(k)
    }

    /// The marker that comes next, where one is left.
    pub open spec fn next_marker(self) -> int {
        self.markers[self.index as int] as int
    }

    /// Whether a read up to the next marker that took `k` lines may end
    /// with the result `r` and leave the reader as `after`.
    ///
    /// With a marker left, the read takes whole lines until the cursor
    /// stands at or behind the marker, which then counts as visited; the
    /// text may end, or a line be no valid UTF-8, before that. With no
    /// marker left the read takes every line up to the end of the text.
    pub open spec fn read_until(self, k: nat, r: Result<(), ParseError>, after: Marks) -> bool {
        let c = self.cursor;
        &&& after.markers == self.markers
        &&& after.cursor.text == c.text
        &&& match r {
            Ok(_) => if self.index < self.markers.len() {
                &&& k >= 1
                &&& c.line_start((k - 1) as nat) < self.next_marker() <= c.line_start(k)
                &&& after.cursor.at == c.line_start(k)
                &&& after.index == self.index + 1
            } else {
                &&& k == c.lines_left()
                &&& after.cursor == c.drained()
                &&& after.index == self.index
            },
            Err(ParseError::UnexpectedEof) => {
                &&& self.index < self.markers.len()
                &&& k == c.lines_left()
                &&& c.line_start(k) < self.next_marker()
                &&& after.cursor == c.drained()
                &&& after.index == self.index
            },
            Err(ParseError::Decode) => {
                &&& k < c.lines_left()
                &&& !valid_utf8(c.raw_line(k))
                &&& self.index < self.markers.len() ==> c.line_start(k) < self.next_marker()
                &&& after.cursor.at == c.line_start(k + 1)
                &&& after.index == self.index
            },
            Err(_) => false,
        }
    }

    /// Whether a read of `n` lines that took `k` lines may end with the
    /// result `r` and leave the reader as `after`.
    ///
    /// The read takes `n` lines, unless the text ends or a line is no valid
    /// UTF-8 before that.
    pub open spec fn read_lines(self, n: nat, k: nat, r: Result<(), ParseError>, after: Marks) -> bool {
        let c = self.cursor;
        &&& after.markers == self.markers
        &&& after.index == self.index
        &&& after.cursor.text == c.text
        &&& k <= n
        &&& match r {
            Ok(_) => k == n && after.cursor.start() == c.line_start(k),
            Err(ParseError::UnexpectedEof) => {
                &&& k == c.lines_left()
                &&& k < n
                &&& after.cursor.at_end()
            },
            Err(ParseError::Decode) => {
                &&& k < n
                &&& k < c.lines_left()
                &&& !valid_utf8(c.raw_line(k))
                &&& after.cursor.at == c.line_start(k + 1)
            },
            Err(_) => false,
        }
    }

    /// Whether the cursor stands at the next marker, or behind it.
    pub open spec fn past_marker(self) -> bool {
        self.index < self.markers.len() && self.cursor.at >= self.next_marker()
    }

    /// Whether each of the first `k` lines after the cursor is valid UTF-8.
    pub open spec fn readable(self, k: nat) -> bool {
        self.cursor.readable(k)
    }
}

/// Whether the line `raw` matches `pattern`: without its line ending it is
/// valid UTF-8 in which the pattern is found.
pub open spec fn line_matches(pattern: Seq<char>, raw: Seq<u8>) -> bool {
    valid_utf8(content(raw)) && first_match(pattern, decode_utf8(content(raw)), 0) is Some
}

/// The most markers that a search sets when it is given `max_count`.
pub open spec fn cap(max_count: Option<usize>) -> nat {
    match max_count {
        Some(m) => m as nat,
        None => usize::MAX as nat,
    }
}

/// The markers that a search of the first `k` lines of `text` from `from`
/// on sets: the offset of each line that matches `pattern`, in the order of
/// the lines, until there are `limit` of them.
pub open spec fn marks(pattern: Seq<char>, text: Seq<u8>, from: int, k: nat, limit: nat) -> Seq<
    u64,
>
    decreases k,
{
    if k == 0 {
        Seq::empty()
    } else {
        let before = marks(pattern, text, from, (k - 1) as nat, limit);
        if before.len() < limit && line_matches(pattern, line_at(text, from, (k - 1) as nat)) {
            before.push(nth_start(text, from, (k - 1) as nat) as u64)
        } else {
            before
        }
    }
}

/// The offsets that a search reported from where it began, `n` of them,
/// as offsets from the start of a text in which the search began at `base`.
pub open spec fn shifted(offsets: Seq<u64>, base: nat, n: nat) -> Seq<u64> {
    Seq::new(n, |i: int| (offsets[i] + base) as u64)
}

/// Whether the `i`-th of `offsets`, counted from `base`, stands at the start
/// of a line of `text` and is greater than the offset before it.
pub open spec fn lands(text: Seq<u8>, base: nat, offsets: Seq<u64>, i: int) -> bool {
    &&& offsets[i] + base < text.len()
    &&& is_line_start(text, offsets[i] + base)
    &&& i > 0 ==> offsets[i - 1] < offsets[i]
}

/// Whether the first `n` of `offsets`, counted from `base`, ascend strictly
/// and each stand at the start of a line of `text`.
pub open spec fn aligned(text: Seq<u8>, base: nat, offsets: Seq<u64>, n: nat) -> bool {
    forall|i: int| 0 <= i < n ==> #[trigger] lands(text, base, offsets, i)
}

/// Offsets of which each is greater than the one before ascend strictly.
pub proof fn lemma_ascending(text: Seq<u8>, base: nat, offsets: Seq<u64>, n: nat, a: int, b: int)
    requires
        aligned(text, base, offsets, n),
        0 <= a < b < n,
    ensures
        offsets[a] < offsets[b],
    decreases b - a,
{
    assert(lands(text, base, offsets, b));
    if a + 1 < b {
        lemma_ascending(text, base, offsets, n, a, b - 1);
    }
}

/// Once a search has set `limit` markers, more lines add none.
pub proof fn lemma_marks_full(pattern: Seq<char>, text: Seq<u8>, from: int, j: nat, k: nat, limit: nat)
    requires
        j <= k,
        marks(pattern, text, from, j, limit).len() >= limit,
    ensures
        marks(pattern, text, from, k, limit) == marks(pattern, text, from, j, limit),
    decreases k - j,
{
    if j < k {
        lemma_marks_full(pattern, text, from, j, (k - 1) as nat, limit);
    }
}

/// Whether `at` is the offset of one of the first `k` lines of `text` from
/// `from` on, and that line matches `pattern`.
pub open spec fn hits(pattern: Seq<char>, text: Seq<u8>, from: int, k: nat, at: int) -> bool {
    exists|line: nat|
        {
            &&& line < k
            &&& #[trigger] nth_start(text, from, line) == at
            &&& line_matches(pattern, line_at(text, from, line))
        }
}

/// The markers of a search ascend strictly. Each is the offset of a line
/// that was searched and matches the pattern, and lies in the text at the
/// start of that line.
pub proof fn lemma_marks_sorted(pattern: Seq<char>, text: Seq<u8>, from: int, k: nat, limit: nat)
    requires
        0 <= from <= text.len() <= u64::MAX,
        k <= line_count(text, from),
    ensures
        marks(pattern, text, from, k, limit).len() <= limit,
        marks(pattern, text, from, k, limit).len() <= k,
        forall|i: int, j: int|
            0 <= i < j < marks(pattern, text, from, k, limit).len() ==> marks(
                pattern,
                text,
                from,
                k,
                limit,
            )[i] < marks(pattern, text, from, k, limit)[j],
        forall|i: int|
            0 <= i < marks(pattern, text, from, k, limit).len() ==> hits(
                pattern,
                text,
                from,
                k,
                #[trigger] marks(pattern, text, from, k, limit)[i] as int,
            ),
        forall|i: int|
            0 <= i < marks(pattern, text, from, k, limit).len() ==> from <= #[trigger] marks(
                pattern,
                text,
                from,
                k,
                limit,
            )[i] < nth_start(text, from, k) && (marks(pattern, text, from, k, limit)[i] == from
                || text[marks(pattern, text, from, k, limit)[i] - 1] == LF),
    decreases k,
{
    if k > 0 {
        let j = (k - 1) as nat;
        lemma_marks_sorted(pattern, text, from, j, limit);
        lemma_nth_start_bounds(text, from, j);
        let before = marks(pattern, text, from, j, limit);
        let all = marks(pattern, text, from, k, limit);
        let at = nth_start(text, from, j);
        if j > 0 {
            lemma_nth_start_bounds(text, from, (j - 1) as nat);
            let prev = nth_start(text, from, (j - 1) as nat);
            lemma_line_end(text, prev);
        }
        assert forall|i: int| 0 <= i < all.len() implies hits(
            pattern,
            text,
            from,
            k,
            #[trigger] all[i] as int,
        ) by {
            if i < before.len() {
                assert(hits(pattern, text, from, j, before[i] as int));
                let line = choose|line: nat|
                    {
                        &&& line < j
                        &&& #[trigger] nth_start(text, from, line) == before[i]
                        &&& line_matches(pattern, line_at(text, from, line))
                    };
                assert(line < k && nth_start(text, from, line) == all[i]);
            } else {
                assert(j < k && nth_start(text, from, j) == all[i]);
            }
        }
    }
}

/// The markers that a search sets ascend strictly, and the reader that goes
/// to one of them stands at the start of a line that matches the pattern:
/// the line that a read would take next.
pub proof fn lemma_markers_lead_to_matches(
    pattern: Seq<char>,
    before: Marks,
    limit: nat,
    i: int,
    j: int,
)
    requires
        before.cursor.text.len() <= u64::MAX,
        before.markers == marks(
            pattern,
            before.cursor.text,
            before.cursor.scan_start(),
            line_count(before.cursor.text, before.cursor.scan_start()),
            limit,
        ),
        0 <= i < before.markers.len(),
        0 <= j < before.markers.len(),
    ensures
        i < j ==> before.markers[i] < before.markers[j],
        !before.at_marker(i).cursor.at_end(),
        line_matches(pattern, before.at_marker(i).cursor.next_raw()),
{
    let text = before.cursor.text;
    let from = before.cursor.scan_start();
    if !before.cursor.at_end() {
        lemma_line_end(text, before.cursor.start());
    }
    let lines = line_count(text, from);
    lemma_marks_sorted(pattern, text, from, lines, limit);
    lemma_nth_start_bounds(text, from, lines);
    let at = before.markers[i] as int;
    assert(hits(pattern, text, from, lines, at));
    let line = choose|line: nat|
        {
            &&& line < lines
            &&& #[trigger] nth_start(text, from, line) == at
            &&& line_matches(pattern, line_at(text, from, line))
        };
    lemma_nth_start_bounds(text, from, line);
    assert(before.at_marker(i).cursor.next_raw() == line_at(text, from, line));
}

/// A search that comes on no matching line sets no marker.
pub proof fn lemma_no_match_no_marker(
    pattern: Seq<char>,
    text: Seq<u8>,
    from: int,
    k: nat,
    limit: nat,
)
    requires
        forall|line: nat| line < k ==> !line_matches(pattern, #[trigger] line_at(text, from, line)),
    ensures
        marks(pattern, text, from, k, limit).len() == 0,
    decreases k,
{
    if k > 0 {
        lemma_no_match_no_marker(pattern, text, from, (k - 1) as nat, limit);
    }
}

/// To go to a marker, back to the start of the text and to the same marker
/// again is to stand where the first move led: at the marker's offset,
/// with the marker behind it the next.
pub proof fn lemma_seek_again(m: Marks, i: int)
    requires
        0 <= i < m.markers.len(),
    ensures
        m.at_marker(i).rewound().at_marker(i) == m.at_marker(i),
        m.at_marker(i).cursor.at == m.markers[i],
{
}

/// An offset at or behind `from` that follows a line feed, or `from`
/// itself, is where one of the lines counted from `from` starts.
pub proof fn lemma_line_start_reached(text: Seq<u8>, from: int, at: int) -> (k: nat)
    requires
        0 <= from <= at <= text.len(),
        at == from || text[at - 1] == LF,
    ensures
        nth_start(text, from, k) == at,
    decreases at - from,
{
    if at == from {
        0
    } else {
        lemma_line_end(text, from);
        let end = line_end(text, from);
        let rest = lemma_line_start_reached(text, end, at);
        lemma_nth_start_shift(text, from, rest);
        rest + 1
    }
}

/// With the cursor at the start of a line before the next marker, markers
/// that stand at line starts, and text that is valid UTF-8 line by line, a
/// read up to the next marker succeeds, hands out exactly the text between
/// the cursor and the marker, and leaves the cursor on the marker. With no
/// marker left it hands out the text up to the end.
pub proof fn lemma_read_until_exact(before: Marks, k: nat, r: Result<(), ParseError>, after: Marks)
    requires
        before.wf(),
        before.cursor.at <= before.cursor.text.len(),
        before.index < before.markers.len() ==> before.cursor.at < before.next_marker(),
        before.readable(before.cursor.lines_left()),
        k <= before.cursor.lines_left(),
        before.read_until(k, r, after),
    ensures
        r is Ok,
        after.cursor.at == before.stop(),
        after.markers == before.markers,
        after.cursor.text == before.cursor.text,
        after.index == (if before.index < before.markers.len() {
            before.index + 1
        } else {
            before.index
        }),
        after.wf(),
        before.span(k) == before.cursor.text.subrange(before.cursor.at as int, before.stop()),
{
    let text = before.cursor.text;
    let from = before.cursor.at as int;
    lemma_nth_start_bounds(text, from, k);
    lemma_nth_start_bounds(text, from, before.cursor.lines_left());
    if before.index < before.markers.len() {
        let mark = before.next_marker();
        assert(is_line_start(text, before.markers[before.index as int] as int));
        let j = lemma_line_start_reached(text, from, mark);
        lemma_nth_start_bounds(text, from, j);
        if k < before.cursor.lines_left() {
            assert(valid_utf8(before.cursor.raw_line(k)));
        }
        if k >= 1 {
            if j <= k - 1 {
                lemma_nth_start_mono(text, from, j, (k - 1) as nat);
            }
            if j > k {
                lemma_nth_start_mono(text, from, k, j);
            }
        }
    } else {
        if k < before.cursor.lines_left() {
            assert(valid_utf8(before.cursor.raw_line(k)));
        }
    }
}

/// The texts that reads up to the next marker hand out, `spans[j]` being
/// that of call `j`, from call `j` on, one after the other.
pub open spec fn stitched(spans: Seq<Seq<u8>>, j: int) -> Seq<u8>
    decreases spans.len() - j,
{
    if j < 0 || j >= spans.len() {
        Seq::empty()
    } else {
        spans[j] + stitched(spans, j + 1)
    }
}

/// Whether call `i` of a run of reads up to the next marker took
/// `counts[i]` lines, returned `results[i]` and led from `states[i]` to
/// `states[i + 1]`.
pub open spec fn follows(
    states: Seq<Marks>,
    counts: Seq<nat>,
    results: Seq<Result<(), ParseError>>,
    i: int,
) -> bool {
    counts[i] <= states[i].cursor.lines_left() && states[i].read_until(
        counts[i],
        results[i],
        states[i + 1],
    )
}

/// Reads up to the next marker, made one after the other until no marker
/// is left and once more, hand out the whole text from where the cursor
/// stood: no byte is lost and none comes twice. For this the cursor must
/// stand at the start of a line before the next marker when the first call
/// is made, the markers at starts of lines, and every line be valid UTF-8.
///
/// `states[j]` is the reader before call `j`, `counts[j]` the number of
/// lines that the call took and `results[j]` what it returned.
pub proof fn lemma_reads_cover(
    states: Seq<Marks>,
    counts: Seq<nat>,
    results: Seq<Result<(), ParseError>>,
    j: int,
)
    requires
        0 <= j < counts.len(),
        states.len() == counts.len() + 1,
        results.len() == counts.len(),
        states[j].wf(),
        states[j].cursor.at <= states[j].cursor.text.len(),
        states[j].index < states[j].markers.len() ==> states[j].cursor.at < states[j].next_marker(),
        states[j].readable(states[j].cursor.lines_left()),
        counts.len() - j == states[j].markers.len() - states[j].index + 1,
        forall|i: int| j <= i < counts.len() ==> #[trigger] follows(states, counts, results, i),
    ensures
        forall|i: int| j <= i < results.len() ==> (#[trigger] results[i]) is Ok,
        stitched(Seq::new(counts.len(), |i: int| states[i].span(counts[i])), j)
            == states[j].cursor.text.subrange(
            states[j].cursor.at as int,
            states[j].cursor.text.len() as int,
        ),
    decreases counts.len() - j,
{
    let spans = Seq::new(counts.len(), |i: int| states[i].span(counts[i]));
    let before = states[j];
    let after = states[j + 1];
    let text = before.cursor.text;
    assert(follows(states, counts, results, j));
    lemma_read_until_exact(before, counts[j], results[j], after);
    if before.index < before.markers.len() {
        assert(after.cursor.at == before.next_marker());
        assert(before.markers[before.index as int] < text.len());
        lemma_lines_left_readable(before, after);
        lemma_reads_cover(states, counts, results, j + 1);
        assert(stitched(spans, j) =~= text.subrange(before.cursor.at as int, text.len() as int));
    } else {
        assert(stitched(spans, j + 1) =~= Seq::<u8>::empty());
        assert(stitched(spans, j) =~= text.subrange(before.cursor.at as int, text.len() as int));
    }
}

/// Where every line from the cursor on is valid UTF-8, so is every line
/// from the start of a later line on.
pub proof fn lemma_lines_left_readable(before: Marks, after: Marks)
    requires
        before.cursor.text == after.cursor.text,
        before.cursor.at <= after.cursor.at <= before.cursor.text.len(),
        is_line_start(before.cursor.text, after.cursor.at as int),
        before.readable(before.cursor.lines_left()),
    ensures
        after.readable(after.cursor.lines_left()),
{
    let text = before.cursor.text;
    let from = before.cursor.at as int;
    let at = after.cursor.at as int;
    let j = lemma_line_start_reached(text, from, at);
    assert forall|i: nat| i < after.cursor.lines_left() implies valid_utf8(
        #[trigger] after.cursor.raw_line(i),
    ) by {
        lemma_nth_start_add(text, from, j, i);
        lemma_nth_start_add(text, from, j, i + 1);
        lemma_nth_start_bounds(text, at, i);
        lemma_nth_start_bounds(text, from, j + i);
        assert(after.cursor.raw_line(i) == before.cursor.raw_line(j + i));
    }
}

/// Quick grep text by marking the line that matching a pattern,
/// suitable for very large text file.
#[derive(Debug)]
pub struct GrepReader {
    reader: TextReader,
    // marked positions
    position_markers: Vec<u64>,
    // current position
    marker_index: usize,
}

impl View for GrepReader {
    type V = Marks;

    closed spec fn view(&self) -> Marks {
        Marks {
            cursor: self.reader@,
            markers: self.position_markers@,
            index: self.marker_index as nat,
        }
    }
}

impl GrepReader {
    /// Build from a reader, with no marker.
    pub fn new(reader: TextReader) -> (grep: Self)
        ensures
            grep@ == (Marks { cursor: reader@, markers: Seq::empty(), index: 0 }),
            grep@.wf(),
    {
        Self { reader, position_markers: Vec::new(), marker_index: 0 }
    }

    /// Build from the text in a string slice, with no marker.
    pub fn from_str(s: &str) -> (grep: Self)
        ensures
            grep@.cursor.text == encode_utf8(s@),
            grep@.cursor.at == 0,
            grep@.markers.len() == 0,
            grep@.index == 0,
            grep@.wf(),
    {
        Self::new(TextReader::from_str(s))
    }

    /// Goto the start of inner file.
    pub fn goto_start(&mut self)
        ensures
            final(self)@ == old(self)@.rewound(),
            old(self)@.wf() ==> final(self)@.wf(),
    {
        self.reader.goto_start();
    }

    /// Goto the end of inner file.
    pub fn goto_end(&mut self)
        ensures
            final(self)@ == old(self)@.moved(old(self)@.cursor.text.len(), old(self)@.index),
            old(self)@.wf() ==> final(self)@.wf(),
    {
        self.reader.goto_end();
    }

    /// Return the number of marked positions.
    pub fn num_markers(&self) -> (n: usize)
        ensures
            n == self@.markers.len(),
    {
        self.position_markers.len()
    }

    /// Goto the next position that marked. Return marker position on success.
    /// Return Err if already reached the last marker or other errors.
    pub fn goto_next_marker(&mut self) -> (r: Result<u64, ParseError>)
        ensures
            old(self)@.index < old(self)@.markers.len() ==> {
                &&& r == Ok::<u64, ParseError>(old(self)@.markers[old(self)@.index as int])
                &&& final(self)@ == old(self)@.at_marker(old(self)@.index as int)
            },
            old(self)@.index >= old(self)@.markers.len() ==> {
                &&& r == Err::<u64, ParseError>(ParseError::NoMoreMarkers)
                &&& final(self)@ == old(self)@
            },
            old(self)@.wf() ==> final(self)@.wf(),
    {
        let n = self.position_markers.len();
        if self.marker_index < n {
            let pos = self.position_markers[self.marker_index];
            self.marker_index = self.marker_index + 1;
            let _ = self.reader.goto(pos);
            Ok(pos)
        } else {
            Err(ParseError::NoMoreMarkers)
        }
    }

    /// Goto the marked position in `marker_index`. An index that no marker
    /// has is refused and leaves the reader as it was.
    pub fn goto_marker(&mut self, marker_index: usize) -> (r: Result<u64, ParseError>)
        ensures
            marker_index < old(self)@.markers.len() ==> {
                &&& r == Ok::<u64, ParseError>(old(self)@.markers[marker_index as int])
                &&& final(self)@ == old(self)@.at_marker(marker_index as int)
            },
            marker_index >= old(self)@.markers.len() ==> {
                &&& r == Err::<u64, ParseError>(ParseError::InvalidArgument)
                &&& final(self)@ == old(self)@
            },
            old(self)@.wf() ==> final(self)@.wf(),
    {
        if marker_index >= self.position_markers.len() {
            return Err(ParseError::InvalidArgument);
        }
        let pos = self.position_markers[marker_index];
        let _ = self.reader.goto(pos);
        self.marker_index = marker_index + 1;
        Ok(pos)
    }

    /// Return `n` lines in string on success from current
    /// position. Return error if reached EOF early.
    ///
    /// The lines are appended to `buffer` as they stand in the text. What
    /// was read before a failure stays in `buffer`. A line that is not
    /// valid UTF-8 is passed over and ends the call.
    pub fn read_lines(&mut self, n: usize, buffer: &mut String) -> (r: Result<(), ParseError>)
        ensures
            exists|k: nat|
                {
                    &&& k <= old(self)@.cursor.lines_left()
                    &&& #[trigger] old(self)@.readable(k)
                    &&& encode_utf8(final(buffer)@) == encode_utf8(old(buffer)@) + old(self)@.span(k)
                    &&& old(self)@.read_lines(n as nat, k, r, final(self)@)
                },
            old(self)@.wf() ==> final(self)@.wf(),
    {
        let ghost before = self@;
        let ghost first = self.reader@.start();
        proof {
            assert(encode_utf8(buffer@) + before.span(0) =~= encode_utf8(buffer@));
        }
        let mut i: usize = 0;
        while i < n
            invariant
                before == old(self)@,
                first == before.cursor.start(),
                self@.markers == before.markers,
                self@.index == before.index,
                self@.cursor.text == before.cursor.text,
                self@.cursor.start() == before.cursor.line_start(i as nat),
                i <= n,
                i <= before.cursor.lines_left(),
                before.readable(i as nat),
                encode_utf8(buffer@) == encode_utf8(old(buffer)@) + before.span(i as nat),
            decreases n - i,
        {
            let ghost at = self.reader@.start();
            proof {
                lemma_nth_start_bounds(before.cursor.text, first, i as nat);
            }
            let raw = self.reader.take_raw();
            if raw.len() == 0 {
                return Err(ParseError::UnexpectedEof);
            }
            proof {
                lemma_line_end(before.cursor.text, at);
                assert(raw@ == before.cursor.raw_line(i as nat));
                assert(before.span((i + 1) as nat) =~= before.span(i as nat) + raw@);
            }
            if !push_bytes(buffer, raw) {
                return Err(ParseError::Decode);
            }
            i = i + 1;
        }
        Ok(())
    }

    /// Mark positions that matching `pattern`, so that we can seek
    /// these positions later. Regex can be used in `pattern`. Return
    /// the number of marked positions.
    ///
    /// The lines from the cursor on are searched one by one, each without
    /// its line ending; a line that is not valid UTF-8 matches nothing. A
    /// cursor inside a line has the search start with the line behind it.
    /// The markers found take the place of the old ones, and none counts as
    /// visited. The cursor stays where it was. A pattern that the engine
    /// refuses leaves the reader as it was.
    ///
    /// # Paramters
    /// * max_count: exits search if max_count matches reached.
    pub fn mark(&mut self, pattern: &str, max_count: Option<usize>) -> (r: Result<
        usize,
        ParseError,
    >)
        ensures
            !pattern_ok(pattern@) ==> {
                &&& r == Err::<usize, ParseError>(ParseError::Pattern)
                &&& final(self)@ == old(self)@
            },
            pattern_ok(pattern@) ==> {
                &&& final(self)@ == (Marks {
                    cursor: old(self)@.cursor,
                    markers: marks(
                        pattern@,
                        old(self)@.cursor.text,
                        old(self)@.cursor.scan_start(),
                        line_count(old(self)@.cursor.text, old(self)@.cursor.scan_start()),
                        cap(max_count),
                    ),
                    index: 0,
                })
                &&& r == Ok::<usize, ParseError>(final(self)@.markers.len() as usize)
                &&& final(self)@.wf()
            },
    {
        if find_at(pattern, "", 0).is_err() {
            return Err(ParseError::Pattern);
        }
        let limit = match max_count {
            Some(m) => m,
            None => usize::MAX,
        };
        let ghost before = self@;
        let ghost text = before.cursor.text;
        let saved = match self.reader.get_current_position() {
            Ok(pos) => pos,
            Err(_) => 0,
        };
        let size = self.reader.len();
        let start = self.reader.start();
        if start < size && !self.reader.starts_line(start as u64) {
            proof {
                lemma_line_end(text, start as int);
            }
            let _ = self.reader.take_raw();
        }
        let first = self.reader.start();
        let ghost lines = line_count(text, first as int);
        let mut marked: Vec<u64> = Vec::new();
        let mut at: usize = first;
        let ghost mut k: nat = 0;
        loop
            invariant
                before == old(self)@,
                text == before.cursor.text,
                pattern_ok(pattern@),
                limit == cap(max_count),
                saved == before.cursor.at,
                first == before.cursor.scan_start(),
                lines == line_count(text, first as int),
                first <= text.len() == size,
                self@.markers == before.markers,
                self@.index == before.index,
                self.reader@.text == text,
                self.reader@.start() == nth_start(text, first as int, k),
                at == nth_start(text, first as int, k),
                k <= lines,
                marked@ == marks(pattern@, text, first as int, k, limit as nat),
            ensures
                before == old(self)@,
                text == before.cursor.text,
                saved == before.cursor.at,
                first == before.cursor.scan_start(),
                lines == line_count(text, first as int),
                first <= text.len() == size,
                self@.markers == before.markers,
                self@.index == before.index,
                self.reader@.text == text,
                marked@ == marks(pattern@, text, first as int, lines, limit as nat),
            decreases lines - k,
        {
            proof {
                lemma_nth_start_bounds(text, first as int, k);
            }
            if marked.len() >= limit {
                proof {
                    lemma_marks_full(pattern@, text, first as int, k, lines, limit as nat);
                }
                break ;
            }
            let raw = self.reader.take_raw();
            let n = raw.len();
            if n == 0 {
                break ;
            }
            proof {
                lemma_line_end(text, at as int);
                assert(raw@ == line_at(text, first as int, k));
                lemma_nth_start_bounds(text, first as int, k + 1);
            }
            match decode(strip_ending(raw)) {
                Some(line) => {
                    match find_at(pattern, line.as_str(), 0) {
                        Ok(Some(_)) => {
                            marked.push(at as u64);
                        },
                        Ok(None) => {},
                        Err(_) => {
                            return Err(ParseError::Pattern);
                        },
                    }
                },
                None => {},
            }
            at = at + n;
            proof {
                k = k + 1;
            }
        }
        let _ = self.reader.goto(saved);
        proof {
            lemma_nth_start_bounds(text, first as int, lines);
            lemma_marks_sorted(pattern@, text, first as int, lines, limit as nat);
            let found = marks(pattern@, text, first as int, lines, limit as nat);
            assert forall|i: int| 0 <= i < found.len() implies found[i] < text.len()
                && is_line_start(text, #[trigger] found[i] as int) by {
            }
        }
        let count = marked.len();
        self.position_markers = marked;
        self.marker_index = 0;
        Ok(count)
    }

    /// Take the markers from offsets that a search made elsewhere reported,
    /// counted from where the cursor stands. Return the number of marked
    /// positions.
    ///
    /// At most `max_count` offsets are taken, from the front. They must
    /// ascend strictly, and each must stand at the start of a line of the
    /// text. Offsets that do not are refused as a whole and leave the reader
    /// as it was.
    pub fn mark_offsets(&mut self, offsets: Vec<u64>, max_count: Option<usize>) -> (r: Result<
        usize,
        ParseError,
    >)
        ensures
            ({
                let n = if offsets@.len() <= cap(max_count) {
                    offsets@.len()
                } else {
                    cap(max_count)
                };
                let base = old(self)@.cursor.at;
                if aligned(old(self)@.cursor.text, base, offsets@, n) {
                    &&& r == Ok::<usize, ParseError>(n as usize)
                    &&& final(self)@ == (Marks {
                        cursor: old(self)@.cursor,
                        markers: shifted(offsets@, base, n),
                        index: 0,
                    })
                    &&& final(self)@.wf()
                } else {
                    &&& r == Err::<usize, ParseError>(ParseError::Pattern)
                    &&& final(self)@ == old(self)@
                }
            }),
    {
        let limit = match max_count {
            Some(m) => m,
            None => usize::MAX,
        };
        let n = if offsets.len() <= limit {
            offsets.len()
        } else {
            limit
        };
        let base = match self.reader.get_current_position() {
            Ok(pos) => pos,
            Err(_) => 0,
        };
        let ghost text = self@.cursor.text;
        let size = self.reader.len();
        let mut marked: Vec<u64> = Vec::new();
        let mut i: usize = 0;
        while i < n
            invariant
                self@ == old(self)@,
                text == self@.cursor.text,
                base == self@.cursor.at,
                i <= n <= offsets@.len(),
                n == (if offsets@.len() <= cap(max_count) {
                    offsets@.len()
                } else {
                    cap(max_count)
                }),
                size == text.len(),
                aligned(text, base as nat, offsets@, i as nat),
                marked@ == shifted(offsets@, base as nat, i as nat),
            decreases n - i,
        {
            let offset = offsets[i];
            let fits = offset <= u64::MAX - base;
            let lands_here = fits && self.reader.starts_line(base + offset) && (i == 0 || offsets[i
                - 1] < offset);
            proof {
                if fits {
                    assert(self.reader@.text == text);
                } else {
                    assert(offset + base > text.len());
                }
                assert(lands_here == lands(text, base as nat, offsets@, i as int));
            }
            if !lands_here {
                proof {
                    if aligned(text, base as nat, offsets@, n as nat) {
                        assert(lands(text, base as nat, offsets@, i as int));
                    }
                }
                return Err(ParseError::Pattern);
            }
            marked.push(base + offset);
            proof {
                assert(marked@ =~= shifted(offsets@, base as nat, (i + 1) as nat));
            }
            i = i + 1;
        }
        proof {
            let found = shifted(offsets@, base as nat, n as nat);
            assert forall|a: int, b: int| 0 <= a < b < found.len() implies found[a] < found[b] by {
                lemma_ascending(text, base as nat, offsets@, n as nat, a, b);
                assert(lands(text, base as nat, offsets@, a));
                assert(lands(text, base as nat, offsets@, b));
            }
            assert forall|a: int| 0 <= a < found.len() implies found[a] < text.len()
                && is_line_start(text, #[trigger] found[a] as int) by {
                assert(lands(text, base as nat, offsets@, a));
            }
        }
        self.position_markers = marked;
        self.marker_index = 0;
        Ok(n)
    }

    /// Return text from current position to the next marker or file
    /// end. It method will forward the cursor to the next marker.
    ///
    /// Whole lines are appended to `s` as they stand in the text. The call
    /// is refused where the cursor stands at the next marker already, or
    /// behind it. What was read before a failure stays in `s`.
    pub fn read_until_next_marker(&mut self, s: &mut String) -> (r: Result<(), ParseError>)
        ensures
            old(self)@.past_marker() ==> {
                &&& r == Err::<(), ParseError>(ParseError::InvalidArgument)
                &&& final(self)@ == old(self)@
                &&& final(s)@ == old(s)@
            },
            !old(self)@.past_marker() ==> exists|k: nat|
                {
                    &&& k <= old(self)@.cursor.lines_left()
                    &&& #[trigger] old(self)@.readable(k)
                    &&& encode_utf8(final(s)@) == encode_utf8(old(s)@) + old(self)@.span(k)
                    &&& old(self)@.read_until(k, r, final(self)@)
                },
            old(self)@.wf() ==> final(self)@.wf(),
    {
        let ghost before = self@;
        let ghost text = before.cursor.text;
        let i = self.marker_index;
        let marked = i < self.position_markers.len();
        let mut delta: u64 = 0;
        if marked {
            let pos_cur = match self.reader.get_current_position() {
                Ok(pos) => pos,
                Err(_) => 0,
            };
            let pos_mark = self.position_markers[i];
            if pos_cur >= pos_mark {
                return Err(ParseError::InvalidArgument);
            }
            delta = pos_mark - pos_cur;
        }
        let first = self.reader.start();
        let size = self.reader.len();
        let mut nsum: usize = 0;
        let ghost mut k: nat = 0;
        proof {
            assert(encode_utf8(s@) + before.span(0) =~= encode_utf8(s@));
        }
        loop
            invariant
                before == old(self)@,
                text == before.cursor.text,
                marked == (before.index < before.markers.len()),
                marked ==> before.cursor.at < before.next_marker() && delta == before.next_marker()
                    - before.cursor.at,
                first == before.cursor.start(),
                first <= size == text.len(),
                self@.markers == before.markers,
                self@.index == before.index,
                self.marker_index == i,
                marked ==> i < usize::MAX,
                self.reader@.text == text,
                k > 0 ==> first == before.cursor.at,
                k == 0 ==> self.reader@ == before.cursor,
                k > 0 ==> self.reader@.at == before.cursor.line_start(k),
                self.reader@.start() == before.cursor.line_start(k),
                nsum == before.cursor.line_start(k) - first,
                k <= before.cursor.lines_left(),
                before.readable(k),
                marked ==> before.cursor.line_start(k) < before.next_marker(),
                encode_utf8(s@) == encode_utf8(old(s)@) + before.span(k),
            decreases before.cursor.lines_left() - k,
        {
            let ghost at = self.reader@.start();
            proof {
                lemma_nth_start_bounds(text, first as int, k);
            }
            let raw = self.reader.take_raw();
            let n = raw.len();
            if n == 0 {
                if marked {
                    return Err(ParseError::UnexpectedEof);
                } else {
                    return Ok(());
                }
            }
            proof {
                lemma_line_end(text, at);
                assert(raw@ == before.cursor.raw_line(k));
                assert(before.span(k + 1) =~= before.span(k) + raw@);
                lemma_nth_start_bounds(text, first as int, k + 1);
            }
            if !push_bytes(s, raw) {
                return Err(ParseError::Decode);
            }
            nsum = nsum + n;
            proof {
                k = k + 1;
            }
            assert(first == before.cursor.at);
            if marked && nsum as u64 >= delta {
                self.marker_index = i + 1;
                assert(before.readable(k));
                return Ok(());
            }
        }
    }

    /// View next `n` lines like in a normal text viewer. This method
    /// will forward the cursor by `n` lines.
    ///
    /// A failure to read the lines is handed on, and the lines read are
    /// lost with it. Lines too long for a view to count them are refused.
    pub fn view_lines(&mut self, n: usize) -> (r: Result<TextViewer, ParseError>)
        ensures
            exists|k: nat|
                {
                    &&& k <= old(self)@.cursor.lines_left()
                    &&& #[trigger] old(self)@.readable(k)
                    &&& match r {
                        Ok(view) => {
                            &&& old(self)@.read_lines(n as nat, k, Ok(()), final(self)@)
                            &&& view@ == (Page { text: decode_utf8(old(self)@.span(k)), pos: 0 })
                            &&& encode_utf8(view@.text) == old(self)@.span(k)
                            &&& old(self)@.span(k).len() < usize::MAX
                        },
                        Err(ParseError::InvalidArgument) => {
                            &&& old(self)@.read_lines(n as nat, k, Ok(()), final(self)@)
                            &&& old(self)@.span(k).len() >= usize::MAX
                        },
                        Err(e) => old(self)@.read_lines(n as nat, k, Err(e), final(self)@),
                    }
                },
            old(self)@.wf() ==> final(self)@.wf(),
    {
        let mut s = String::new();
        proof {
            assert(encode_utf8(s@) =~= Seq::<u8>::empty());
        }
        let ghost before = self@;
        let r = self.read_lines(n, &mut s);
        proof {
            let k = choose|k: nat|
                {
                    &&& k <= before.cursor.lines_left()
                    &&& #[trigger] before.readable(k)
                    &&& encode_utf8(s@) == Seq::<u8>::empty() + before.span(k)
                    &&& before.read_lines(n as nat, k, r, self@)
                };
            assert(encode_utf8(s@) =~= before.span(k));
            encode_utf8_decode_utf8(s@);
        }
        match r {
            Err(e) => Err(e),
            Ok(_) => {
                if s.as_str().as_bytes().len() < usize::MAX {
                    Ok(TextViewer::from_str(s.as_str()))
                } else {
                    Err(ParseError::InvalidArgument)
                }
            },
        }
    }

    /// View all lines until next marker like in a normal text viewer.
    /// It method will forward the cursor to the next marker.
    ///
    /// A failure to read the lines is handed on, and the lines read are
    /// lost with it. Lines too long for a view to count them are refused.
    pub fn view_until_next_marker(&mut self) -> (r: Result<TextViewer, ParseError>)
        ensures
            old(self)@.past_marker() ==> {
                &&& r matches Err(ParseError::InvalidArgument)
                &&& final(self)@ == old(self)@
            },
            !old(self)@.past_marker() ==> exists|k: nat|
                {
                    &&& k <= old(self)@.cursor.lines_left()
                    &&& #[trigger] old(self)@.readable(k)
                    &&& match r {
                        Ok(view) => {
                            &&& old(self)@.read_until(k, Ok(()), final(self)@)
                            &&& view@ == (Page { text: decode_utf8(old(self)@.span(k)), pos: 0 })
                            &&& encode_utf8(view@.text) == old(self)@.span(k)
                            &&& old(self)@.span(k).len() < usize::MAX
                        },
                        Err(ParseError::InvalidArgument) => {
                            &&& old(self)@.read_until(k, Ok(()), final(self)@)
                            &&& old(self)@.span(k).len() >= usize::MAX
                        },
                        Err(e) => old(self)@.read_until(k, Err(e), final(self)@),
                    }
                },
            old(self)@.wf() ==> final(self)@.wf(),
    {
        let mut s = String::new();
        proof {
            assert(encode_utf8(s@) =~= Seq::<u8>::empty());
        }
        let ghost before = self@;
        let r = self.read_until_next_marker(&mut s);
        proof {
            if !before.past_marker() {
                let k = choose|k: nat|
                    {
                        &&& k <= before.cursor.lines_left()
                        &&& #[trigger] before.readable(k)
                        &&& encode_utf8(s@) == Seq::<u8>::empty() + before.span(k)
                        &&& before.read_until(k, r, self@)
                    };
                assert(encode_utf8(s@) =~= before.span(k));
                encode_utf8_decode_utf8(s@);
            }
        }
        match r {
            Err(e) => Err(e),
            Ok(_) => {
                if s.as_str().as_bytes().len() < usize::MAX {
                    Ok(TextViewer::from_str(s.as_str()))
                } else {
                    Err(ParseError::InvalidArgument)
                }
            },
        }
    }

    /// Gets a mutable reference to the underlying reader.
    pub fn get_mut(&mut self) -> (reader: &mut TextReader)
        ensures
            reader@ == old(self)@.cursor,
            final(self)@ == (Marks {
                cursor: final(reader)@,
                markers: old(self)@.markers,
                index: old(self)@.index,
            }),
    {
        &mut self.reader
    }
}

} // verus!
