//! Split large text stream into multiple parts.
//!
//! A splitting policy looks at the lines gathered so far and says whether
//! more lines are needed or where the part ends. [`Partitions`] reads the
//! lines, asks the policy and hands out the parts one at a time.
use vstd::prelude::*;
use vstd::string::StringExecFns;
use vstd::utf8::{
    encode_utf8, encode_utf8_valid_utf8, is_char_boundary, is_char_boundary_start_end_of_seq,
    valid_utf8,
};
use crate::error::ParseError;
use crate::reader::{answers, says, Cursor, TextReader};
use crate::text::{
    lemma_line_count_bound, lemma_line_end, lemma_nth_start_add, lemma_nth_start_bounds,
    lemma_nth_start_mono, line_at, line_count, line_end, nth_start,
};
use crate::utf8::{lemma_boundary_extend, lemma_boundary_suffix, push_bytes, str_range};

verus! {

/// The sum of the first `k` of `sizes`.
pub open spec fn total(sizes: Seq<usize>, k: nat) -> int
    decreases k,
{
    if k == 0 || k > sizes.len() {
        0
    } else {
        total(sizes, (k - 1) as nat) + sizes[k - 1]
    }
}

/// One more size changes no sum of the sizes before it.
pub proof fn lemma_total_push(sizes: Seq<usize>, x: usize, k: nat)
    requires
        k <= sizes.len(),
    ensures
        total(sizes.push(x), k) == total(sizes, k),
    decreases k,
{
    if k > 0 {
        lemma_total_push(sizes, x, (k - 1) as nat);
    }
}

/// One more size adds to the sum of all.
pub proof fn lemma_total_pushed(sizes: Seq<usize>, x: usize)
    ensures
        total(sizes.push(x), sizes.len() + 1) == total(sizes, sizes.len()) + x,
{
    lemma_total_push(sizes, x, sizes.len());
    assert(sizes.push(x)[sizes.len() as int] == x);
}

/// The sums of the sizes from the `k`-th on are the sums of all, less the
/// sum of the first `k`.
pub proof fn lemma_total_skip(sizes: Seq<usize>, k: nat, j: nat)
    requires
        k + j <= sizes.len(),
    ensures
        total(sizes.subrange(k as int, sizes.len() as int), j) == total(sizes, k + j) - total(
            sizes,
            k,
        ),
    decreases j,
{
    if j > 0 {
        lemma_total_skip(sizes, k, (j - 1) as nat);
    }
}

/// A helper struct for handling buffered text.
pub struct ReadContext<'a> {
    /// Buffered text.
    chunk: &'a str,
    /// byte size for each line of text.
    nlist: &'a [usize],
}

impl<'a> ReadContext<'a> {
    /// The bytes of the buffered text.
    pub closed spec fn chunk(&self) -> Seq<u8> {
        encode_utf8(self.chunk@)
    }

    /// The byte size of each buffered line.
    pub closed spec fn sizes(&self) -> Seq<usize> {
        self.nlist@
    }

    /// The byte offset in the buffered text at which line `k` starts, the
    /// first line being line 0.
    pub open spec fn offset(&self, k: nat) -> int {
        total(self.sizes(), k)
    }

    /// Whether each line lies in the buffered text and starts and ends
    /// between two characters.
    pub open spec fn wf(&self) -> bool {
        forall|k: nat|
            k <= self.sizes().len() ==> #[trigger] self.offset(k) <= self.chunk().len()
                && is_char_boundary(self.chunk(), self.offset(k))
    }

    /// The bytes of the line numbered as `n` (1-based).
    pub open spec fn line_bytes(&self, n: nat) -> Seq<u8> {
        self.chunk().subrange(self.offset((n - 1) as nat), self.offset(n))
    }

    /// Gather the text `buf` and the byte size of each of its lines.
    pub fn new(buf: &'a str, nlist: &'a [usize]) -> (context: Self)
        ensures
            context.chunk() == encode_utf8(buf@),
            context.sizes() == nlist@,
    {
        Self { chunk: buf, nlist }
    }

    /// Return the number of lines that already read in.
    pub fn number_of_lines(&self) -> (n: usize)
        ensures
            n == self.sizes().len(),
    {
        self.nlist.len()
    }

    /// Return the line numbered as `n` (1-based)
    pub fn line(&self, n: usize) -> (line: &'a str)
        requires
            self.wf(),
            1 <= n <= self.sizes().len(),
        ensures
            encode_utf8(line@) == self.line_bytes(n as nat),
    {
        let size = self.chunk.as_bytes().len();
        let mut ns: usize = 0;
        let mut i: usize = 0;
        while i < n - 1
            invariant
                self.wf(),
                size == self.chunk().len(),
                1 <= n <= self.sizes().len(),
                i <= n - 1,
                ns == self.offset(i as nat),
                self.nlist@ == self.sizes(),
            decreases n - 1 - i,
        {
            assert(self.offset((i + 1) as nat) == self.offset(i as nat) + self.sizes()[i as int]);
            assert(self.offset((i + 1) as nat) <= self.chunk().len());
            ns = ns + self.nlist[i];
            i = i + 1;
        }
        let nb = self.nlist[n - 1];
        proof {
            assert(self.offset(n as nat) == self.offset((n - 1) as nat) + nb);
            assert(self.offset(n as nat) <= self.chunk().len() && is_char_boundary(
                self.chunk(),
                self.offset(n as nat),
            ));
            assert(is_char_boundary(self.chunk(), self.offset((n - 1) as nat)));
        }
        str_range(self.chunk, ns, ns + nb)
    }

    /// Return buffered text.
    pub fn text(&self) -> (text: &'a str)
        ensures
            encode_utf8(text@) == self.chunk(),
    {
        self.chunk
    }
}

/// Read text stream at line basis
pub enum ReadAction {
    /// Need next n lines to decide
    Need(usize),
    /// Read part done, return the first n lines as a part
    Done(usize),
    /// Error description
    Error(String),
}

/// Instruct the reader how to read a part of text by inspecting `ReadContext`
pub trait ReadPart {
    /// Whether the policy is fit to be asked. A policy is, unless it says
    /// otherwise.
    open spec fn ready(&self) -> bool {
        true
    }

    /// How to read next lines?
    ///
    /// Without an answer of its own a policy always needs one more line,
    /// which makes one part of the whole text.
    fn read_next<'a>(&self, context: ReadContext<'a>) -> (action: ReadAction)
        requires
            self.ready(),
            context.wf(),
            context.sizes().len() >= 1,
        default_ensures
            action == ReadAction::Need(1),
    {
        ReadAction::Need(1)
    }

    /// Read `n` lines at each time.
    fn n_stride(&self) -> (n: usize)
        default_ensures
            n == 1,
    {
        1
    }
}

/// Read in `n` lines at each time.
pub struct Chunks(pub usize);

impl ReadPart for Chunks {
    open spec fn ready(&self) -> bool {
        true
    }

    fn read_next<'a>(&self, context: ReadContext<'a>) -> (action: ReadAction)
        ensures
            context.sizes().len() == self.0 ==> action == ReadAction::Done(self.0),
            context.sizes().len() != self.0 ==> action is Error,
    {
        let n = context.number_of_lines();
        if n == self.0 {
            ReadAction::Done(n)
        } else {
            ReadAction::Error(String::from_str("the lines read are not one chunk"))
        }
    }

    fn n_stride(&self) -> (n: usize)
        ensures
            n == self.0,
    {
        self.0
    }
}

/// Terminated with a tail line
pub struct Terminated<F>(pub F);

impl<F> ReadPart for Terminated<F> where F: Fn(&str) -> bool {
    open spec fn ready(&self) -> bool {
        forall|s: &str| call_requires(self.0, (s,))
    }

    fn read_next<'a>(&self, context: ReadContext<'a>) -> (action: ReadAction)
        ensures
            exists|tail: bool|
                {
                    &&& #[trigger] answers(
                        self.0,
                        context.line_bytes(context.sizes().len()),
                        tail,
                    )
                    &&& action == (if tail {
                        ReadAction::Done(context.sizes().len() as usize)
                    } else {
                        ReadAction::Need(1)
                    })
                },
    {
        let n = context.number_of_lines();
        let last_line = context.line(n);
        let tail = (self.0)(last_line);
        assert(says(self.0, last_line, tail));
        assert(answers(self.0, context.line_bytes(context.sizes().len()), tail));
        if tail {
            ReadAction::Done(n)
        } else {
            ReadAction::Need(1)
        }
    }

    fn n_stride(&self) -> (n: usize)
        ensures
            n == 1,
    {
        1
    }
}

/// Preceded with a head line
pub struct Preceded<F>(pub F) where F: Fn(&str) -> bool;

impl<F> ReadPart for Preceded<F> where F: Fn(&str) -> bool {
    open spec fn ready(&self) -> bool {
        forall|s: &str| call_requires(self.0, (s,))
    }

    fn read_next<'a>(&self, context: ReadContext<'a>) -> (action: ReadAction)
        ensures
            context.sizes().len() <= 1 ==> action == ReadAction::Need(1),
            context.sizes().len() > 1 ==> exists|head: bool|
                {
                    &&& #[trigger] answers(
                        self.0,
                        context.line_bytes(context.sizes().len()),
                        head,
                    )
                    &&& action == (if head {
                        ReadAction::Done((context.sizes().len() - 1) as usize)
                    } else {
                        ReadAction::Need(1)
                    })
                },
    {
        let n = context.number_of_lines();
        // n > 1: need at least two lines to decide
        if n > 1 {
            let next_line = context.line(n);
            let head = (self.0)(next_line);
            assert(says(self.0, next_line, head));
            assert(answers(self.0, context.line_bytes(context.sizes().len()), head));
            if head {
                return ReadAction::Done(n - 1);
            }
        }
        ReadAction::Need(1)
    }

    fn n_stride(&self) -> (n: usize)
        ensures
            n == 1,
    {
        1
    }
}

/// What a stream of parts stands for: a text, the offset at which the lines
/// not yet handed out start, and how many of them the stream holds already.
pub struct Stream {
    /// The bytes of the whole text.
    pub text: Seq<u8>,
    /// The offset of the first line that no part holds yet.
    pub start: int,
    /// The number of lines read and kept for the next part.
    pub held: nat,
    /// Whether the stream has failed and will hand out nothing more.
    pub closed: bool,
}

impl Stream {
    /// The number of lines that no part holds yet.
    pub open spec fn lines_left(self) -> nat {
        line_count(self.text, self.start)
    }

    /// The offset at which line `k` starts, line 0 being the first that no
    /// part holds yet.
    pub open spec fn line_start(self, k: nat) -> int {
        nth_start(self.text, self.start, k)
    }

    /// The first `k` of the lines that no part holds yet, as one text.
    pub open spec fn head(self, k: nat) -> Seq<u8> {
        self.text.subrange(self.start, self.line_start(k))
    }

    /// The stream after its first `lines` lines went out as a part and
    /// `held` lines were kept.
    pub open spec fn cut(self, lines: nat, held: nat) -> Stream {
        Stream { text: self.text, start: self.line_start(lines), held, closed: false }
    }
}

/// What one call for the next part comes to.
pub enum Outcome {
    /// The first `lines` lines make a part; `held` lines behind them stay
    /// in the stream for the next.
    Part { lines: nat, held: nat },
    /// Nothing is left.
    End,
    /// The stream failed.
    Fail(ParseError),
}

/// Whether `chunk` and `sizes` hold the first `n` lines of `text` from
/// `start` on, each of them between two characters of `chunk`.
pub open spec fn holds_lines(
    chunk: Seq<u8>,
    sizes: Seq<usize>,
    text: Seq<u8>,
    start: int,
    n: nat,
) -> bool {
    &&& sizes.len() == n
    &&& chunk == text.subrange(start, nth_start(text, start, n))
    &&& forall|k: nat|
        k <= n ==> #[trigger] total(sizes, k) == nth_start(text, start, k) - start && total(
            sizes,
            k,
        ) <= chunk.len() && is_char_boundary(chunk, total(sizes, k))
}

/// Whether `context` shows the first `n` lines of `text` from `start` on.
pub open spec fn shows(context: ReadContext, text: Seq<u8>, start: int, n: nat) -> bool {
    holds_lines(context.chunk(), context.sizes(), text, start, n)
}

/// Whether `policy` may answer `action` when it is shown `context`.
pub open spec fn decides<P: ReadPart>(policy: &P, context: ReadContext, action: ReadAction) -> bool {
    call_ensures(P::read_next, (policy, context), action)
}

/// Whether `policy` may give `n` as the number of lines to read at first.
pub open spec fn strides<P: ReadPart>(policy: &P, n: usize) -> bool {
    call_ensures(P::n_stride, (policy,), n)
}

/// Whether a line among those numbered from `from` up to `upto` is not
/// valid UTF-8.
pub open spec fn garbled(text: Seq<u8>, start: int, from: nat, upto: nat) -> bool {
    exists|j: nat| from <= j < upto && !valid_utf8(#[trigger] line_at(text, start, j))
}

/// What the answer `action` of a policy that was shown `held` lines ends a
/// call with, or nothing where the policy asks for more lines.
pub open spec fn ruling(action: ReadAction, held: nat) -> Option<Outcome> {
    match action {
        ReadAction::Need(_) => None,
        ReadAction::Done(k) => if 1 <= k <= held {
            Some(Outcome::Part { lines: k as nat, held: (held - k) as nat })
        } else {
            Some(Outcome::Fail(ParseError::InvalidArgument))
        },
        ReadAction::Error(message) => Some(Outcome::Fail(ParseError::Malformed(message))),
    }
}

/// Whether a stream that holds `have` lines of `text` from `start` on, and
/// is to read `want` more before it asks `policy`, may come to `out`.
///
/// With no line left the stream ends. Else the lines are read one by one.
/// A line that is not valid UTF-8 fails the stream. Where the text ends
/// before `want` lines were read, all lines left make the last part.
/// Otherwise the policy is shown the lines held: it asks for more lines, or
/// cuts a part off the front, or reports an error. To ask for no line, or
/// to cut no line or more lines than are held, fails the stream.
pub open spec fn yields<P: ReadPart>(
    policy: &P,
    text: Seq<u8>,
    start: int,
    have: nat,
    want: nat,
    out: Outcome,
) -> bool
    decreases line_count(text, start) - have,
{
    let left = line_count(text, start);
    let upto = if have + want <= left {
        have + want
    } else {
        left
    };
    if left == 0 {
        out == Outcome::End
    } else if want == 0 {
        out == Outcome::Fail(ParseError::InvalidArgument)
    } else if garbled(text, start, have, upto) {
        out == Outcome::Fail(ParseError::Decode)
    } else if have + want > left {
        out == (Outcome::Part { lines: left, held: 0 })
    } else {
        exists|context: ReadContext, action: ReadAction| #[trigger]
            decides(policy, context, action) && shows(context, text, start, have + want)
                && match ruling(action, have + want) {
                Some(end) => out == end,
                None => yields(policy, text, start, have + want, action->Need_0 as nat, out),
            }
    }
}

/// Whether the result `r` of a call and the stream `after` it are what the
/// outcome `out` asks for of a call on the stream `before`.
pub open spec fn settles(
    before: Stream,
    out: Outcome,
    r: Result<Option<String>, ParseError>,
    after: Stream,
) -> bool {
    match out {
        Outcome::Part { lines, held } => {
            &&& r matches Ok(Some(part))
            &&& encode_utf8(part@) == before.head(lines)
            &&& after == before.cut(lines, held)
        },
        Outcome::End => r == Ok::<Option<String>, ParseError>(None) && after == before,
        Outcome::Fail(e) => {
            &&& r == Err::<Option<String>, ParseError>(e)
            &&& after.closed
            &&& after.text == before.text
        },
    }
}

/// The stream of parts over what the cursor `c` has left to read, before any
/// line was read.
pub open spec fn fresh(c: Cursor) -> Stream {
    Stream { text: c.text, start: c.start(), held: 0, closed: false }
}

/// Whether the calls for the next part, made one after the other on
/// `stream` until it ends, may hand out parts of `cuts[0]`, `cuts[1]`, ...
/// lines.
pub open spec fn splits<P: ReadPart>(policy: &P, stream: Stream, cuts: Seq<nat>) -> bool
    decreases cuts.len(),
{
    exists|stride: usize, out: Outcome|
        {
            &&& #[trigger] strides(policy, stride)
            &&& #[trigger] yields(
                policy,
                stream.text,
                stream.start,
                stream.held,
                stride as nat,
                out,
            )
            &&& if cuts.len() == 0 {
                out == Outcome::End
            } else {
                match out {
                    Outcome::Part { lines, held } => lines == cuts[0] && splits(
                        policy,
                        stream.cut(lines, held),
                        cuts.drop_first(),
                    ),
                    _ => false,
                }
            }
        }
}

/// The sum of `cuts`.
pub open spec fn sum(cuts: Seq<nat>) -> nat
    decreases cuts.len(),
{
    if cuts.len() == 0 {
        0
    } else {
        cuts[0] + sum(cuts.drop_first())
    }
}

/// The parts of `cuts[0]`, `cuts[1]`, ... lines of `text` from `start` on,
/// one after the other, as one text.
pub open spec fn glued(text: Seq<u8>, start: int, cuts: Seq<nat>) -> Seq<u8>
    decreases cuts.len(),
{
    if cuts.len() == 0 {
        Seq::empty()
    } else {
        text.subrange(start, nth_start(text, start, cuts[0])) + glued(
            text,
            nth_start(text, start, cuts[0]),
            cuts.drop_first(),
        )
    }
}

/// A part holds one line at least, and with the lines kept no more lines
/// than are left. A stream ends only where no line is left.
pub proof fn lemma_yields_in_bounds<P: ReadPart>(
    policy: &P,
    text: Seq<u8>,
    start: int,
    have: nat,
    want: nat,
    out: Outcome,
)
    requires
        0 <= start <= text.len(),
        have <= line_count(text, start),
        yields(policy, text, start, have, want, out),
    ensures
        out matches Outcome::Part { lines, held } ==> 1 <= lines && have <= lines + held
            <= line_count(text, start),
        out == Outcome::End ==> line_count(text, start) == 0,
    decreases line_count(text, start) - have,
{
    let left = line_count(text, start);
    let upto = if have + want <= left {
        have + want
    } else {
        left
    };
    if left == 0 || want == 0 {
    } else if garbled(text, start, have, upto) {
    } else if have + want > left {
    } else {
        let (context, action) = choose|context: ReadContext, action: ReadAction| #[trigger]
            decides(policy, context, action) && shows(context, text, start, have + want)
                && match ruling(action, have + want) {
                Some(end) => out == end,
                None => yields(policy, text, start, have + want, action->Need_0 as nat, out),
            };
        match action {
            ReadAction::Need(k) => {
                lemma_yields_in_bounds(policy, text, start, have + want, k as nat, out);
            },
            _ => {},
        }
    }
}

/// No line is lost and none comes twice: the parts that a stream hands out
/// until it ends hold one line each at least, and glued together they are
/// the text from where the stream began up to the end.
pub proof fn lemma_parts_cover<P: ReadPart>(policy: &P, stream: Stream, cuts: Seq<nat>)
    requires
        0 <= stream.start <= stream.text.len(),
        stream.held <= stream.lines_left(),
        splits(policy, stream, cuts),
    ensures
        forall|i: int| 0 <= i < cuts.len() ==> cuts[i] >= 1,
        sum(cuts) == stream.lines_left(),
        glued(stream.text, stream.start, cuts) == stream.text.subrange(
            stream.start,
            stream.text.len() as int,
        ),
    decreases cuts.len(),
{
    let (stride, out) = choose|stride: usize, out: Outcome|
        {
            &&& #[trigger] strides(policy, stride)
            &&& #[trigger] yields(
                policy,
                stream.text,
                stream.start,
                stream.held,
                stride as nat,
                out,
            )
            &&& if cuts.len() == 0 {
                out == Outcome::End
            } else {
                match out {
                    Outcome::Part { lines, held } => lines == cuts[0] && splits(
                        policy,
                        stream.cut(lines, held),
                        cuts.drop_first(),
                    ),
                    _ => false,
                }
            }
        };
    lemma_yields_in_bounds(policy, stream.text, stream.start, stream.held, stride as nat, out);
    let text = stream.text;
    if cuts.len() == 0 {
        lemma_nth_start_bounds(text, stream.start, 0);
        assert(stream.start == text.len());
        assert(text.subrange(stream.start, text.len() as int) =~= Seq::<u8>::empty());
    } else {
        match out {
            Outcome::Part { lines, held } => {
                let next = stream.cut(lines, held);
                lemma_nth_start_bounds(text, stream.start, lines);
                lemma_parts_cover(policy, next, cuts.drop_first());
                assert forall|i: int| 0 <= i < cuts.len() implies cuts[i] >= 1 by {
                    if i > 0 {
                        assert(cuts[i] == cuts.drop_first()[i - 1]);
                    }
                }
                assert(glued(text, stream.start, cuts) =~= text.subrange(
                    stream.start,
                    text.len() as int,
                ));
            },
            _ => {},
        }
    }
}

/// A stream cut every `n` lines hands out parts of `n` lines each, but for
/// the last, which may hold fewer; and it keeps no line back.
pub proof fn lemma_chunks_even(policy: &Chunks, stream: Stream, cuts: Seq<nat>)
    requires
        0 <= stream.start <= stream.text.len(),
        stream.held == 0,
        splits(policy, stream, cuts),
    ensures
        forall|i: int| 0 <= i < cuts.len() - 1 ==> cuts[i] == policy.0,
        cuts.len() > 0 ==> 1 <= cuts.last() <= policy.0,
    decreases cuts.len(),
{
    let (stride, out) = choose|stride: usize, out: Outcome|
        {
            &&& #[trigger] strides(policy, stride)
            &&& #[trigger] yields(
                policy,
                stream.text,
                stream.start,
                stream.held,
                stride as nat,
                out,
            )
            &&& if cuts.len() == 0 {
                out == Outcome::End
            } else {
                match out {
                    Outcome::Part { lines, held } => lines == cuts[0] && splits(
                        policy,
                        stream.cut(lines, held),
                        cuts.drop_first(),
                    ),
                    _ => false,
                }
            }
        };
    if cuts.len() > 0 {
        lemma_chunk(policy, stream.text, stream.start, stride, out);
        match out {
            Outcome::Part { lines, held } => {
                let next = stream.cut(lines, held);
                let rest = cuts.drop_first();
                lemma_nth_start_bounds(stream.text, stream.start, lines);
                lemma_chunks_even(policy, next, rest);
                if rest.len() > 0 {
                    lemma_parts_cover(policy, next, rest);
                    assert(rest[0] >= 1);
                    assert(sum(rest) >= 1);
                    assert(cuts.last() == rest.last());
                    assert forall|i: int| 0 <= i < cuts.len() - 1 implies cuts[i] == policy.0 by {
                        if i > 0 {
                            assert(cuts[i] == rest[i - 1]);
                        }
                    }
                }
            },
            _ => {},
        }
    }
}

/// The next part of a stream cut every `n` lines that keeps no line: `n`
/// lines where as many are left, else all that are left.
pub proof fn lemma_chunk(policy: &Chunks, text: Seq<u8>, start: int, stride: usize, out: Outcome)
    requires
        0 <= start <= text.len(),
        strides(policy, stride),
        yields(policy, text, start, 0, stride as nat, out),
    ensures
        stride == policy.0,
        out matches Outcome::Part { lines, held } ==> held == 0 && 1 <= lines && (if policy.0
            <= line_count(text, start) {
            lines == policy.0
        } else {
            lines == line_count(text, start)
        }),
        out == Outcome::End ==> line_count(text, start) == 0,
{
    let left = line_count(text, start);
    let want = stride as nat;
    if left == 0 || want == 0 {
    } else if garbled(text, start, 0, if want <= left {
        want
    } else {
        left
    }) {
    } else if want > left {
    } else {
        let (context, action) = choose|context: ReadContext, action: ReadAction| #[trigger]
            decides(policy, context, action) && shows(context, text, start, 0 + want)
                && match ruling(action, 0 + want) {
                Some(end) => out == end,
                None => yields(policy, text, start, 0 + want, action->Need_0 as nat, out),
            };
        assert(context.sizes().len() == policy.0);
    }
}

/// A stream over a text with no line left hands out no part: it ends the
/// first time it is asked, whatever its policy.
pub proof fn lemma_empty_ends<P: ReadPart>(
    policy: &P,
    text: Seq<u8>,
    start: int,
    stride: usize,
    out: Outcome,
)
    requires
        line_count(text, start) == 0,
        yields(policy, text, start, 0, stride as nat, out),
    ensures
        out == Outcome::End,
{
}

/// What a context shows as its line `n` is line `n - 1` of the text.
pub proof fn lemma_shown_line(context: ReadContext, text: Seq<u8>, start: int, held: nat, n: nat)
    requires
        0 <= start <= text.len(),
        shows(context, text, start, held),
        1 <= n <= held,
    ensures
        context.line_bytes(n) == line_at(text, start, (n - 1) as nat),
{
    let last = (n - 1) as nat;
    assert(total(context.sizes(), last) == nth_start(text, start, last) - start);
    assert(total(context.sizes(), n) == nth_start(text, start, n) - start);
    lemma_nth_start_bounds(text, start, last);
    lemma_nth_start_mono(text, start, n, held);
    lemma_nth_start_bounds(text, start, held);
    assert(context.line_bytes(n) =~= line_at(text, start, last));
}

/// Whether `f` may answer no on each of the lines of `text` from `start`
/// on that are numbered from `from` up to `upto`.
pub open spec fn passed_over<F: Fn(&str) -> bool>(
    f: F,
    text: Seq<u8>,
    start: int,
    from: nat,
    upto: nat,
) -> bool {
    forall|j: nat| from <= j < upto ==> answers(f, #[trigger] line_at(text, start, j), false)
}

/// A stream that cuts behind tail lines hands out a part that ends with the
/// first line on which the predicate answers yes, or with the last line of
/// the text where it answers yes on none; and it keeps no line back.
pub proof fn lemma_terminated_part<F: Fn(&str) -> bool>(
    policy: &Terminated<F>,
    text: Seq<u8>,
    start: int,
    have: nat,
    out: Outcome,
)
    requires
        0 <= start <= text.len() <= usize::MAX,
        have <= line_count(text, start),
        passed_over(policy.0, text, start, 0, have),
        yields(policy, text, start, have, 1, out),
    ensures
        out matches Outcome::Part { lines, held } ==> {
            &&& held == 0
            &&& have < lines <= line_count(text, start) || lines == have == line_count(
                text,
                start,
            )
            &&& passed_over(policy.0, text, start, 0, (lines - 1) as nat)
            &&& lines == line_count(text, start) || answers(
                policy.0,
                line_at(text, start, (lines - 1) as nat),
                true,
            )
        },
    decreases line_count(text, start) - have,
{
    let left = line_count(text, start);
    lemma_line_count_bound(text, start);
    if have + 1 <= left && !garbled(text, start, have, have + 1) {
        let (context, action) = choose|context: ReadContext, action: ReadAction| #[trigger]
            decides(policy, context, action) && shows(context, text, start, have + 1)
                && match ruling(action, have + 1) {
                Some(end) => out == end,
                None => yields(policy, text, start, have + 1, action->Need_0 as nat, out),
            };
        lemma_shown_line(context, text, start, have + 1, have + 1);
        let shown = context.line_bytes(context.sizes().len());
        let tail = choose|tail: bool|
            {
                &&& #[trigger] answers(policy.0, shown, tail)
                &&& action == (if tail {
                    ReadAction::Done(context.sizes().len() as usize)
                } else {
                    ReadAction::Need(1)
                })
            };
        assert(shown == line_at(text, start, have));
        if !tail {
            assert(passed_over(policy.0, text, start, 0, have + 1));
            lemma_terminated_part(policy, text, start, have + 1, out);
        }
    }
}

/// A stream that cuts before head lines hands out a part that ends before
/// the first line, behind the first of the part, on which the predicate
/// answers yes, and keeps that line for the next part; or a part that ends
/// with the last line of the text where the predicate answers yes on none.
pub proof fn lemma_preceded_part<F: Fn(&str) -> bool>(
    policy: &Preceded<F>,
    text: Seq<u8>,
    start: int,
    have: nat,
    out: Outcome,
)
    requires
        0 <= start <= text.len() <= usize::MAX,
        have <= line_count(text, start),
        passed_over(policy.0, text, start, 1, have),
        yields(policy, text, start, have, 1, out),
    ensures
        out matches Outcome::Part { lines, held } ==> {
            &&& 1 <= lines
            &&& lines + held <= line_count(text, start)
            &&& passed_over(policy.0, text, start, 1, lines)
            &&& held <= 1
            &&& held == 1 ==> answers(policy.0, line_at(text, start, lines), true)
            &&& held == 0 ==> lines == line_count(text, start)
        },
    decreases line_count(text, start) - have,
{
    let left = line_count(text, start);
    lemma_line_count_bound(text, start);
    if have + 1 <= left && !garbled(text, start, have, have + 1) {
        let (context, action) = choose|context: ReadContext, action: ReadAction| #[trigger]
            decides(policy, context, action) && shows(context, text, start, have + 1)
                && match ruling(action, have + 1) {
                Some(end) => out == end,
                None => yields(policy, text, start, have + 1, action->Need_0 as nat, out),
            };
        if have + 1 > 1 {
            lemma_shown_line(context, text, start, have + 1, have + 1);
            let shown = context.line_bytes(context.sizes().len());
            let head = choose|head: bool|
                {
                    &&& #[trigger] answers(policy.0, shown, head)
                    &&& action == (if head {
                        ReadAction::Done((context.sizes().len() - 1) as usize)
                    } else {
                        ReadAction::Need(1)
                    })
                };
            assert(shown == line_at(text, start, have));
            if !head {
                assert(passed_over(policy.0, text, start, 1, have + 1));
                lemma_preceded_part(policy, text, start, have + 1, out);
            }
        } else {
            assert(action == ReadAction::Need(1));
            assert(passed_over(policy.0, text, start, 1, have + 1));
            lemma_preceded_part(policy, text, start, have + 1, out);
        }
    }
}

/// An iterator over part of text stream.
pub struct Partitions<P> {
    reader: TextReader,
    part: P,
    buf: String,
    nlist: Vec<usize>,
    closed: bool,
}

impl<P> View for Partitions<P> {
    type V = Stream;

    closed spec fn view(&self) -> Stream {
        Stream {
            text: self.reader@.text,
            start: self.reader@.start() - encode_utf8(self.buf@).len(),
            held: self.nlist@.len(),
            closed: self.closed,
        }
    }
}

impl<P: ReadPart> Partitions<P> {
    /// The policy that cuts the parts.
    pub closed spec fn policy(&self) -> P {
        self.part
    }

    /// Whether the stream is sound: its policy is fit to be asked, and,
    /// unless it has failed, it holds whole lines of its text.
    pub closed spec fn wf(&self) -> bool {
        &&& self.part.ready()
        &&& !self.closed ==> {
            &&& 0 <= self@.start <= self@.text.len()
            &&& self@.held <= self@.lines_left()
            &&& self.reader@.start() == self@.line_start(self@.held)
            &&& holds_lines(
                encode_utf8(self.buf@),
                self.nlist@,
                self@.text,
                self@.start,
                self@.held,
            )
        }
    }

    /// A stream over what `reader` has left to read, cut by `part`.
    pub(crate) fn new(reader: TextReader, part: P) -> (parts: Self)
        requires
            part.ready(),
        ensures
            parts.wf(),
            parts.policy() == part,
            parts@ == fresh(reader@),
    {
        let parts = Self { reader, part, buf: String::new(), nlist: Vec::new(), closed: false };
        proof {
            assert(encode_utf8(parts.buf@) =~= Seq::<u8>::empty());
            assert(parts@.text.subrange(parts@.start, parts@.start) =~= Seq::<u8>::empty());
            is_char_boundary_start_end_of_seq(encode_utf8(parts.buf@));
        }
        parts
    }

    /// Read in `n` lines into `buf`. The answer is whether the text held as
    /// many.
    fn read_n_lines(&mut self, n: usize) -> (r: Result<bool, ParseError>)
        requires
            old(self).wf(),
            !old(self)@.closed,
        ensures
            final(self).wf(),
            final(self).policy() == old(self).policy(),
            final(self)@.text == old(self)@.text,
            match r {
                Ok(full) => {
                    &&& final(self)@ == (Stream { held: final(self)@.held, ..old(self)@ })
                    &&& old(self)@.held <= final(self)@.held <= old(self)@.held + n
                    &&& !garbled(
                        old(self)@.text,
                        old(self)@.start,
                        old(self)@.held,
                        final(self)@.held,
                    )
                    &&& full ==> final(self)@.held == old(self)@.held + n
                    &&& !full ==> final(self)@.held == old(self)@.lines_left() && final(self)@.held < old(self)@.held + n
                },
                Err(e) => {
                    &&& e == ParseError::Decode
                    &&& final(self)@.closed
                    &&& garbled(
                        old(self)@.text,
                        old(self)@.start,
                        old(self)@.held,
                        if old(self)@.held + n <= old(self)@.lines_left() {
                            (old(self)@.held + n) as nat
                        } else {
                            old(self)@.lines_left()
                        },
                    )
                },
            },
    {
        let ghost before = self@;
        let mut i: usize = 0;
        while i < n
            invariant
                self.wf(),
                self.policy() == old(self).policy(),
                before == old(self)@,
                !before.closed,
                self@ == (Stream { held: (before.held + i) as nat, ..before }),
                !garbled(before.text, before.start, before.held, (before.held + i) as nat),
                i <= n,
            decreases n - i,
        {
            let ghost h = self@.held;
            let ghost at = self.reader@.start();
            let ghost chunk = encode_utf8(self.buf@);
            let ghost sizes = self.nlist@;
            proof {
                lemma_nth_start_bounds(before.text, before.start, h);
                encode_utf8_valid_utf8(self.buf@);
            }
            let raw = self.reader.take_raw();
            let size = raw.len();
            if size == 0 {
                return Ok(false);
            }
            proof {
                lemma_line_end(before.text, at);
                assert(raw@ == line_at(before.text, before.start, h));
            }
            if !push_bytes(&mut self.buf, raw) {
                self.closed = true;
                return Err(ParseError::Decode);
            }
            self.nlist.push(size);
            proof {
                let next = line_end(before.text, at);
                assert(encode_utf8(self.buf@) =~= before.text.subrange(before.start, next));
                encode_utf8_valid_utf8(self.buf@);
                assert forall|k: nat| k <= h + 1 implies #[trigger] total(self.nlist@, k)
                    == nth_start(before.text, before.start, k) - before.start && total(
                    self.nlist@,
                    k,
                ) <= encode_utf8(self.buf@).len() && is_char_boundary(
                    encode_utf8(self.buf@),
                    total(self.nlist@, k),
                ) by {
                    if k <= h {
                        lemma_total_push(sizes, size, k);
                        assert(is_char_boundary(chunk, total(sizes, k)));
                        lemma_boundary_extend(chunk, raw@, total(sizes, k));
                    } else {
                        lemma_total_pushed(sizes, size);
                        is_char_boundary_start_end_of_seq(encode_utf8(self.buf@));
                    }
                }
                assert forall|j: nat| before.held <= j < h + 1 implies valid_utf8(
                    #[trigger] line_at(before.text, before.start, j),
                ) by {
                    if j < h {
                        assert(!garbled(before.text, before.start, before.held, h));
                    }
                }
            }
            i = i + 1;
        }
        Ok(true)
    }

    /// Take the first `k` lines held out of the buffer as a part.
    fn take_lines(&mut self, k: usize) -> (part: String)
        requires
            old(self).wf(),
            !old(self)@.closed,
            1 <= k <= old(self)@.held,
        ensures
            final(self).wf(),
            final(self).policy() == old(self).policy(),
            encode_utf8(part@) == old(self)@.head(k as nat),
            final(self)@ == old(self)@.cut(k as nat, (old(self)@.held - k) as nat),
    {
        let ghost before = self@;
        let ghost chunk = encode_utf8(self.buf@);
        let ghost sizes = self.nlist@;
        let size = self.buf.as_str().as_bytes().len();
        let mut ns: usize = 0;
        let mut i: usize = 0;
        while i < k
            invariant
                self.wf(),
                !self.closed,
                before == self@,
                sizes == self.nlist@,
                chunk == encode_utf8(self.buf@),
                size == chunk.len(),
                i <= k <= before.held,
                ns == total(sizes, i as nat),
            decreases k - i,
        {
            proof {
                lemma_nth_start_bounds(before.text, before.start, (i + 1) as nat);
                assert(total(sizes, (i + 1) as nat) == nth_start(
                    before.text,
                    before.start,
                    (i + 1) as nat,
                ) - before.start);
                assert(total(sizes, before.held) == chunk.len());
                lemma_nth_start_bounds(before.text, before.start, before.held);
                lemma_nth_start_mono(before.text, before.start, (i + 1) as nat, before.held);
            }
            ns = ns + self.nlist[i];
            i = i + 1;
        }
        proof {
            encode_utf8_valid_utf8(self.buf@);
            assert(is_char_boundary(chunk, total(sizes, k as nat)));
        }
        let (head, tail) = self.buf.as_str().split_at(ns);
        let part = head.to_owned();
        let rest = tail.to_owned();
        self.buf = rest;
        let kept = self.nlist.split_off(k);
        self.nlist = kept;
        proof {
            let cut = nth_start(before.text, before.start, k as nat);
            lemma_nth_start_bounds(before.text, before.start, k as nat);
            assert(cut == before.start + ns);
            assert(encode_utf8(part@) =~= before.head(k as nat));
            assert(encode_utf8(self.buf@) =~= before.text.subrange(
                cut,
                nth_start(before.text, before.start, before.held),
            ));
            lemma_nth_start_add(before.text, before.start, k as nat, (before.held - k) as nat);
            assert forall|j: nat| j <= before.held - k implies #[trigger] total(self.nlist@, j)
                == nth_start(before.text, cut, j) - cut && total(self.nlist@, j) <= encode_utf8(
                self.buf@,
            ).len() && is_char_boundary(encode_utf8(self.buf@), total(self.nlist@, j)) by {
                lemma_total_skip(sizes, k as nat, j);
                lemma_nth_start_add(before.text, before.start, k as nat, j);
                assert(is_char_boundary(chunk, total(sizes, (k + j) as nat)));
                lemma_nth_start_mono(before.text, before.start, k as nat, (k + j) as nat);
                lemma_boundary_suffix(chunk, ns as int, total(sizes, (k + j) as nat) - ns);
                assert(encode_utf8(self.buf@) =~= chunk.subrange(ns as int, chunk.len() as int));
            }
        }
        part
    }

    /// The next part of the text, `None` once nothing is left.
    ///
    /// The stream reads as many lines as the policy's stride says, shows the
    /// policy what it holds and does what the policy answers, again and
    /// again, until a part is cut or the text ends. A part is a whole number
    /// of lines, taken from the front of what no part held before; the
    /// lines behind it stay in the stream. After a failure the stream is
    /// closed and hands out nothing more.
    pub fn next(&mut self) -> (r: Result<Option<String>, ParseError>)
        requires
            old(self).wf(),
        ensures
            final(self).wf(),
            final(self).policy() == old(self).policy(),
            old(self)@.closed ==> r == Ok::<Option<String>, ParseError>(None) && final(self)@
                == old(self)@,
            !old(self)@.closed ==> exists|stride: usize, out: Outcome|
                {
                    &&& #[trigger] strides(&old(self).policy(), stride)
                    &&& #[trigger] yields(
                        &old(self).policy(),
                        old(self)@.text,
                        old(self)@.start,
                        old(self)@.held,
                        stride as nat,
                        out,
                    )
                    &&& settles(old(self)@, out, r, final(self)@)
                },
    {
        if self.closed {
            return Ok(None);
        }
        let ghost before = self@;
        let ghost policy = self.part;
        let stride = self.part.n_stride();
        assert(strides(&policy, stride));
        let mut want = stride;
        loop
            invariant
                self.wf(),
                self.policy() == old(self).policy(),
                policy == old(self).policy(),
                before == old(self)@,
                !before.closed,
                strides(&policy, stride),
                self@ == (Stream { held: self@.held, ..before }),
                before.held <= self@.held,
                forall|out: Outcome| #[trigger]
                    yields(&policy, before.text, before.start, self@.held, want as nat, out)
                        ==> yields(
                        &policy,
                        before.text,
                        before.start,
                        before.held,
                        stride as nat,
                        out,
                    ),
            decreases before.lines_left() - self@.held,
        {
            let ghost have = self@.held;
            if want == 0 {
                proof {
                    lemma_nth_start_bounds(before.text, before.start, have);
                }
                if self.nlist.len() == 0 && self.reader.start() >= self.reader.len() {
                    assert(yields(&policy, before.text, before.start, have, 0, Outcome::End));
                    return Ok(None);
                }
                self.closed = true;
                assert(yields(
                    &policy,
                    before.text,
                    before.start,
                    have,
                    0,
                    Outcome::Fail(ParseError::InvalidArgument),
                ));
                return Err(ParseError::InvalidArgument);
            }
            match self.read_n_lines(want) {
                Err(e) => {
                    assert(yields(
                        &policy,
                        before.text,
                        before.start,
                        have,
                        want as nat,
                        Outcome::Fail(ParseError::Decode),
                    ));
                    return Err(e);
                },
                Ok(false) => {
                    let held = self.nlist.len();
                    if held == 0 {
                        assert(yields(
                            &policy,
                            before.text,
                            before.start,
                            have,
                            want as nat,
                            Outcome::End,
                        ));
                        return Ok(None);
                    }
                    assert(yields(
                        &policy,
                        before.text,
                        before.start,
                        have,
                        want as nat,
                        Outcome::Part { lines: held as nat, held: 0 },
                    ));
                    let part = self.take_lines(held);
                    return Ok(Some(part));
                },
                Ok(true) => {},
            }
            let held = self.nlist.len();
            let context = ReadContext::new(self.buf.as_str(), self.nlist.as_slice());
            assert(shows(context, before.text, before.start, held as nat));
            let action = self.part.read_next(context);
            proof {
                assert(decides(&policy, context, action));
                match ruling(action, held as nat) {
                    Some(end) => {
                        assert(yields(&policy, before.text, before.start, have, want as nat, end));
                    },
                    None => {
                        let more = action->Need_0 as nat;
                        assert forall|out: Outcome| #[trigger]
                            yields(&policy, before.text, before.start, held as nat, more, out)
                            implies yields(
                            &policy,
                            before.text,
                            before.start,
                            have,
                            want as nat,
                            out,
                        ) by {
                            assert(decides(&policy, context, action));
                        }
                    },
                }
            }
            match action {
                ReadAction::Need(k) => {
                    want = k;
                },
                ReadAction::Done(k) => {
                    if k == 0 || k > held {
                        self.closed = true;
                        return Err(ParseError::InvalidArgument);
                    }
                    let part = self.take_lines(k);
                    return Ok(Some(part));
                },
                ReadAction::Error(message) => {
                    self.closed = true;
                    return Err(ParseError::Malformed(message));
                },
            }
        }
    }
}

impl TextReader {
    /// Returns an iterator over part of text, using a generic text partioner
    /// `p`.
    pub fn partitions<P: ReadPart>(self, p: P) -> (parts: Partitions<P>)
        requires
            p.ready(),
        ensures
            parts.wf(),
            parts.policy() == p,
            parts@ == fresh(self@),
    {
        Partitions::new(self, p)
    }

    /// Returns an iterator over each part of text in `n` lines.
    pub fn chunks(self, n: usize) -> (parts: Partitions<Chunks>)
        ensures
            parts.wf(),
            parts.policy() == Chunks(n),
            parts@ == fresh(self@),
    {
        Partitions::new(self, Chunks(n))
    }

    /// Returns an iterator over a part of text terminated with a tail line.
    pub fn partitions_terminated<F>(self, f: F) -> (parts: Partitions<Terminated<F>>) where
        F: Fn(&str) -> bool,

        requires
            forall|s: &str| call_requires(f, (s,)),
        ensures
            parts.wf(),
            parts.policy() == Terminated(f),
            parts@ == fresh(self@),
    {
        Partitions::new(self, Terminated(f))
    }

    /// Returns an iterator over a part of text preceded with a head line.
    pub fn partitions_preceded<F>(self, f: F) -> (parts: Partitions<Preceded<F>>) where
        F: Fn(&str) -> bool,

        requires
            forall|s: &str| call_requires(f, (s,)),
        ensures
            parts.wf(),
            parts.policy() == Preceded(f),
            parts@ == fresh(self@),
    {
        Partitions::new(self, Preceded(f))
    }
}

} // verus!
