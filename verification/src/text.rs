//! The model of a text as a sequence of bytes that line feeds cut into lines.
//!
//! A line runs up to and including its line feed; the last line of a text
//! may lack one. All positions are byte offsets from the start of the text.
use vstd::prelude::*;

verus! {

/// Line feed, the byte that ends a line.
pub const LF: u8 = 10;

/// Carriage return, which may precede the line feed.
pub const CR: u8 = 13;

/// The offset just past the line that starts at `from`: one past the first
/// line feed at or after `from`, or the length of the text where none follows.
pub open spec fn line_end(s: Seq<u8>, from: int) -> int
    decreases s.len() - from,
{
    if from < 0 || from >= s.len() {
        s.len() as int
    } else if s[from] == LF {
        from + 1
    } else {
        line_end(s, from + 1)
    }
}

/// The offset at which the `k`-th line after `from` starts, counting the
/// line at `from` as line 0. Past the last line it stays at the end.
pub open spec fn nth_start(s: Seq<u8>, from: int, k: nat) -> int
    decreases k,
{
    if k == 0 {
        from
    } else {
        line_end(s, nth_start(s, from, (k - 1) as nat))
    }
}

/// The number of lines in the text from `from` on.
pub open spec fn line_count(s: Seq<u8>, from: int) -> nat
    decreases s.len() - from,
{
    if from < 0 || from >= s.len() {
        0
    } else if s[from] == LF {
        1 + line_count(s, from + 1)
    } else if from + 1 == s.len() {
        1
    } else {
        line_count(s, from + 1)
    }
}

/// The `k`-th line after `from`, with its line ending.
pub open spec fn line_at(s: Seq<u8>, from: int, k: nat) -> Seq<u8> {
    s.subrange(nth_start(s, from, k), nth_start(s, from, k + 1))
}

/// Whether a line could start at `at`: at the start of the text or right
/// after a line feed.
pub open spec fn is_line_start(s: Seq<u8>, at: int) -> bool {
    0 <= at <= s.len() && (at == 0 || s[at - 1] == LF)
}

/// A line with a final carriage return and line feed turned into a lone
/// line feed; any other line as it is.
pub open spec fn normalized(raw: Seq<u8>) -> Seq<u8> {
    let n = raw.len() as int;
    if n >= 2 && raw[n - 1] == LF && raw[n - 2] == CR {
        raw.subrange(0, n - 2).push(LF)
    } else {
        raw
    }
}

/// A line without its line ending: the final line feed is dropped, and a
/// carriage return before it too.
pub open spec fn content(raw: Seq<u8>) -> Seq<u8> {
    let n = raw.len() as int;
    if n >= 2 && raw[n - 1] == LF && raw[n - 2] == CR {
        raw.subrange(0, n - 2)
    } else if n >= 1 && raw[n - 1] == LF {
        raw.subrange(0, n - 1)
    } else {
        raw
    }
}

/// A line that starts inside the text is not empty, ends inside the text,
/// and holds a line feed in its last byte only.
pub proof fn lemma_line_end(s: Seq<u8>, from: int)
    requires
        0 <= from < s.len(),
    ensures
        from < line_end(s, from) <= s.len(),
        forall|i: int| from <= i < line_end(s, from) - 1 ==> s[i] != LF,
        line_end(s, from) < s.len() ==> s[line_end(s, from) - 1] == LF,
        s[line_end(s, from) - 1] == LF || line_end(s, from) == s.len(),
    decreases s.len() - from,
{
    if s[from] != LF {
        if from + 1 < s.len() {
            lemma_line_end(s, from + 1);
        } else {
            assert(line_end(s, from + 1) == s.len());
        }
    }
}

/// The line at `from` is the first of the lines from `from` on.
pub proof fn lemma_line_count_step(s: Seq<u8>, from: int)
    requires
        0 <= from < s.len(),
    ensures
        line_count(s, from) == 1 + line_count(s, line_end(s, from)),
    decreases s.len() - from,
{
    if s[from] != LF {
        if from + 1 < s.len() {
            lemma_line_count_step(s, from + 1);
        } else {
            assert(line_end(s, from + 1) == s.len());
            assert(line_count(s, s.len() as int) == 0);
        }
    }
}

/// A text has no more lines than bytes.
pub proof fn lemma_line_count_bound(s: Seq<u8>, from: int)
    requires
        0 <= from <= s.len(),
    ensures
        line_count(s, from) <= s.len() - from,
    decreases s.len() - from,
{
    if from < s.len() {
        lemma_line_count_bound(s, from + 1);
    }
}

/// Line starts never move backwards, and never leave the text.
pub proof fn lemma_nth_start_bounds(s: Seq<u8>, from: int, k: nat)
    requires
        0 <= from <= s.len(),
    ensures
        from <= nth_start(s, from, k) <= s.len(),
        nth_start(s, from, k) <= nth_start(s, from, k + 1),
        k < line_count(s, from) ==> nth_start(s, from, k) < nth_start(s, from, k + 1),
        k < line_count(s, from) <==> nth_start(s, from, k) < s.len(),
        k <= line_count(s, from) ==> line_count(s, nth_start(s, from, k)) == line_count(s, from)
            - k,
    decreases k,
{
    if k > 0 {
        lemma_nth_start_bounds(s, from, (k - 1) as nat);
        let p = nth_start(s, from, (k - 1) as nat);
        if p < s.len() {
            lemma_line_end(s, p);
            lemma_line_count_step(s, p);
        }
    }
    let q = nth_start(s, from, k);
    if q < s.len() {
        lemma_line_end(s, q);
        lemma_line_count_step(s, q);
    }
}

/// A later line starts no earlier.
pub proof fn lemma_nth_start_mono(s: Seq<u8>, from: int, j: nat, k: nat)
    requires
        0 <= from <= s.len(),
        j <= k,
    ensures
        nth_start(s, from, j) <= nth_start(s, from, k),
    decreases k - j,
{
    if j < k {
        lemma_nth_start_bounds(s, from, j);
        lemma_nth_start_mono(s, from, j + 1, k);
    }
}

/// Counting `k + 1` lines from `from` is counting `k` lines from the end
/// of the first.
pub proof fn lemma_nth_start_shift(s: Seq<u8>, from: int, k: nat)
    ensures
        nth_start(s, from, k + 1) == nth_start(s, line_end(s, from), k),
    decreases k,
{
    reveal_with_fuel(nth_start, 3);
    if k > 0 {
        lemma_nth_start_shift(s, from, (k - 1) as nat);
    }
}

/// Counting `j` lines and then `k` more is counting `j + k` lines.
pub proof fn lemma_nth_start_add(s: Seq<u8>, from: int, j: nat, k: nat)
    ensures
        nth_start(s, nth_start(s, from, j), k) == nth_start(s, from, j + k),
    decreases k,
{
    if k > 0 {
        lemma_nth_start_add(s, from, j, (k - 1) as nat);
    }
}

/// The line `raw` with a final carriage return and line feed turned into a
/// lone line feed.
pub fn normalize(raw: Vec<u8>) -> (line: Vec<u8>)
    ensures
        line@ == normalized(raw@),
{
    let n = raw.len();
    if n >= 2 && raw[n - 1] == LF && raw[n - 2] == CR {
        let mut line = raw;
        line.truncate(n - 2);
        line.push(LF);
        line
    } else {
        raw
    }
}

/// The line `raw` without its line ending.
pub fn strip_ending(raw: Vec<u8>) -> (line: Vec<u8>)
    ensures
        line@ == content(raw@),
{
    let n = raw.len();
    let mut line = raw;
    if n >= 2 && line[n - 1] == LF && line[n - 2] == CR {
        line.truncate(n - 2);
    } else if n >= 1 && line[n - 1] == LF {
        line.truncate(n - 1);
    }
    line
}

/// The offset just past the line that starts at `from`.
pub fn find_line_end(data: &[u8], from: usize) -> (end: usize)
    requires
        from <= data@.len(),
    ensures
        end == line_end(data@, from as int),
        from <= end <= data@.len(),
        from < data@.len() ==> from < end,
{
    let n = data.len();
    let mut i = from;
    while i < n && data[i] != LF
        invariant
            n == data@.len(),
            from <= i <= n,
            line_end(data@, from as int) == line_end(data@, i as int),
        decreases n - i,
    {
        i = i + 1;
    }
    if i < n {
        i + 1
    } else {
        n
    }
}

} // verus!
