//! Simple ways to cut a text into bunches of lines.
use vstd::prelude::*;
use vstd::string::StringExecFns;
use vstd::utf8::{encode_utf8, valid_utf8};
use crate::error::ParseError;
use crate::reader::{answers, says, Cursor, TextReader};
use crate::text::{
    content, lemma_line_end, lemma_nth_start_bounds, line_at, line_count, nth_start,
    strip_ending, LF,
};
use crate::utf8::{decode, lemma_encode_concat, push_bytes, push_line_feed};

verus! {

impl Cursor {
    /// Whether `f` may answer no on the text of the first `j` lines left to
    /// read, for each `j` from 1 up to but not including `k`.
    pub open spec fn unfinished<F: Fn(&str) -> bool>(self, f: F, k: nat) -> bool {
        forall|j: nat| 1 <= j < k ==> answers(f, #[trigger] self.span(j), false)
    }
}

impl TextReader {
    /// Return the next `nlines` lines as one text, or as many as are left,
    /// and `None` at the end of the text.
    ///
    /// A line that is not valid UTF-8 is passed over and fails the call.
    pub fn read_chunk(&mut self, nlines: usize) -> (r: Result<Option<String>, ParseError>)
        ensures
            final(self)@.text == old(self)@.text,
            ({
                let c = old(self)@;
                let k = if nlines <= c.lines_left() {
                    nlines as nat
                } else {
                    c.lines_left()
                };
                if c.readable(k) {
                    &&& final(self)@.start() == c.line_start(k)
                    &&& k == 0 ==> r == Ok::<Option<String>, ParseError>(None) && final(self)@ == c
                    &&& k > 0 ==> (r matches Ok(Some(chunk)) && encode_utf8(chunk@) == c.span(k))
                } else {
                    r == Err::<Option<String>, ParseError>(ParseError::Decode)
                }
            }),
    {
        let ghost before = self@;
        let ghost first = self@.start();
        let mut chunk = String::new();
        let mut i: usize = 0;
        proof {
            assert(encode_utf8(chunk@) =~= before.span(0));
        }
        loop
            invariant
                before == old(self)@,
                first == before.start(),
                self@.text == before.text,
                i == 0 ==> self@ == before,
                self@.start() == before.line_start(i as nat),
                i <= nlines,
                i <= before.lines_left(),
                before.readable(i as nat),
                encode_utf8(chunk@) == before.span(i as nat),
            decreases nlines - i,
        {
            let ghost at = self@.start();
            proof {
                lemma_nth_start_bounds(before.text, first, i as nat);
            }
            if i == nlines {
                return if i == 0 {
                    Ok(None)
                } else {
                    Ok(Some(chunk))
                };
            }
            let raw = self.take_raw();
            if raw.len() == 0 {
                return if i == 0 {
                    Ok(None)
                } else {
                    Ok(Some(chunk))
                };
            }
            proof {
                lemma_line_end(before.text, at);
                assert(raw@ == before.raw_line(i as nat));
                assert(before.span((i + 1) as nat) =~= before.span(i as nat) + raw@);
                lemma_nth_start_bounds(before.text, first, (i + 1) as nat);
            }
            if !push_bytes(&mut chunk, raw) {
                return Err(ParseError::Decode);
            }
            i = i + 1;
        }
    }

    /// Return the lines read up to and with the first at which
    /// `collect_done` answers yes on all that was read, or all lines left
    /// where it never does, and `None` at the end of the text.
    ///
    /// A line that is not valid UTF-8 is passed over and fails the call.
    pub fn read_by_chunk<F: Fn(&str) -> bool>(&mut self, collect_done: F) -> (r: Result<
        Option<String>,
        ParseError,
    >)
        requires
            forall|s: &str| call_requires(collect_done, (s,)),
        ensures
            final(self)@.text == old(self)@.text,
            exists|k: nat|
                {
                    &&& k <= old(self)@.lines_left()
                    &&& #[trigger] old(self)@.readable(k)
                    &&& old(self)@.unfinished(collect_done, k)
                    &&& match r {
                        Ok(None) => k == 0 && old(self)@.lines_left() == 0 && final(self)@ == old(self)@,
                        Ok(Some(chunk)) => {
                            &&& k >= 1
                            &&& encode_utf8(chunk@) == old(self)@.span(k)
                            &&& final(self)@.start() == old(self)@.line_start(k)
                            &&& k == old(self)@.lines_left() || answers(
                                collect_done,
                                old(self)@.span(k),
                                true,
                            )
                        },
                        Err(ParseError::Decode) => {
                            &&& k < old(self)@.lines_left()
                            &&& !valid_utf8(old(self)@.raw_line(k))
                            &&& final(self)@.at == old(self)@.line_start(k + 1)
                        },
                        Err(_) => false,
                    }
                },
    {
        let ghost before = self@;
        let ghost first = self@.start();
        let ghost mut k: nat = 0;
        let mut chunk = String::new();
        let mut empty = true;
        proof {
            assert(encode_utf8(chunk@) =~= before.span(0));
        }
        loop
            invariant
                forall|s: &str| call_requires(collect_done, (s,)),
                before == old(self)@,
                first == before.start(),
                self@.text == before.text,
                k == 0 ==> self@ == before,
                self@.start() == before.line_start(k),
                k <= before.lines_left(),
                empty == (k == 0),
                before.readable(k),
                before.unfinished(collect_done, k + 1),
                encode_utf8(chunk@) == before.span(k),
            decreases before.lines_left() - k,
        {
            let ghost at = self@.start();
            proof {
                lemma_nth_start_bounds(before.text, first, k);
            }
            let raw = self.take_raw();
            if raw.len() == 0 {
                if empty {
                    return Ok(None);
                }
                return Ok(Some(chunk));
            }
            proof {
                lemma_line_end(before.text, at);
                assert(raw@ == before.raw_line(k));
                assert(before.span(k + 1) =~= before.span(k) + raw@);
                lemma_nth_start_bounds(before.text, first, k + 1);
            }
            if !push_bytes(&mut chunk, raw) {
                return Err(ParseError::Decode);
            }
            proof {
                k = k + 1;
                assert(before.readable(k));
            }
            empty = false;
            let done = {
                let text = chunk.as_str();
                let done = collect_done(text);
                assert(says(collect_done, text, done));
                done
            };
            assert(answers(collect_done, before.span(k), done));
            if done {
                assert(before.unfinished(collect_done, k));
                assert(self@.start() == before.line_start(k));
                return Ok(Some(chunk));
            }
        }
    }
}

/// What a stream of records stands for: a text, the offset up to which it
/// has been read, and the label line kept for the next record.
pub struct Records {
    /// The bytes of the whole text.
    pub text: Seq<u8>,
    /// The offset up to which the text has been read.
    pub at: int,
    /// The label line that starts the next record, with a line feed, or
    /// nothing.
    pub label: Seq<u8>,
}

/// What one call for the next record comes to.
pub enum Gathered {
    /// A record with the text `data`; the stream has read up to `at` and
    /// keeps `label`.
    Record { data: Seq<u8>, at: int, label: Seq<u8> },
    /// Nothing is left; the stream keeps `label`.
    End { label: Seq<u8> },
    /// A line read is not valid UTF-8.
    Garbled,
}

/// Whether a stream of records that is to read line `j` of `text` from
/// `base` on, has gathered `data` for the record and keeps `label` for the
/// next one, may come to `out`.
///
/// Each line is taken without its line ending and gets a line feed. A line
/// on which `f` answers no joins the record. A line on which `f` answers
/// yes is a label: it ends the record, if that holds anything, and is kept
/// to start the next one. The end of the text ends the record too; a record
/// that holds nothing is not handed out.
pub open spec fn gathers<F: Fn(&str) -> bool>(
    f: F,
    text: Seq<u8>,
    base: int,
    j: nat,
    data: Seq<u8>,
    label: Seq<u8>,
    out: Gathered,
) -> bool
    decreases line_count(text, base) - j,
{
    if j >= line_count(text, base) {
        if data.len() == 0 {
            out == (Gathered::End { label })
        } else {
            out == (Gathered::Record { data, at: text.len() as int, label: Seq::empty() })
        }
    } else {
        let line = content(line_at(text, base, j));
        if !valid_utf8(line) {
            out == Gathered::Garbled
        } else {
            exists|shown: Seq<u8>, is_label: bool| #[trigger]
                answers(f, shown, is_label) && shown == line && if is_label {
                    if data.len() > 0 {
                        out == (Gathered::Record {
                            data,
                            at: nth_start(text, base, j + 1),
                            label: line.push(LF),
                        })
                    } else {
                        gathers(f, text, base, j + 1, data, line.push(LF), out)
                    }
                } else {
                    gathers(f, text, base, j + 1, data + line.push(LF), label, out)
                }
        }
    }
}

/// One step of a stream of records: where `f` may answer `is_label` on
/// line `j`, the stream may come to what that answer leads to.
pub proof fn lemma_gathers_step<F: Fn(&str) -> bool>(
    f: F,
    text: Seq<u8>,
    base: int,
    j: nat,
    data: Seq<u8>,
    label: Seq<u8>,
    is_label: bool,
    out: Gathered,
)
    requires
        j < line_count(text, base),
        valid_utf8(content(line_at(text, base, j))),
        answers(f, content(line_at(text, base, j)), is_label),
        ({
            let line = content(line_at(text, base, j));
            if is_label {
                if data.len() > 0 {
                    out == (Gathered::Record {
                        data,
                        at: nth_start(text, base, j + 1),
                        label: line.push(LF),
                    })
                } else {
                    gathers(f, text, base, j + 1, data, line.push(LF), out)
                }
            } else {
                gathers(f, text, base, j + 1, data + line.push(LF), label, out)
            }
        }),
    ensures
        gathers(f, text, base, j, data, label, out),
{
    let line = content(line_at(text, base, j));
    assert(answers(f, line, is_label));
}

/// The records of a text that label lines split.
pub struct DataRecords<F> where F: Fn(&str) -> bool {
    label: String,
    reader: TextReader,
    is_data_label: F,
}

impl<F: Fn(&str) -> bool> View for DataRecords<F> {
    type V = Records;

    closed spec fn view(&self) -> Records {
        Records {
            text: self.reader@.text,
            at: self.reader@.start(),
            label: encode_utf8(self.label@),
        }
    }
}

impl<F: Fn(&str) -> bool> DataRecords<F> {
    /// The predicate that tells the label lines.
    pub closed spec fn labels(&self) -> F {
        self.is_data_label
    }

    /// Whether the predicate takes any line.
    pub closed spec fn wf(&self) -> bool {
        forall|s: &str| call_requires(self.is_data_label, (s,))
    }

    fn new(reader: TextReader, f: F) -> (records: Self)
        requires
            forall|s: &str| call_requires(f, (s,)),
        ensures
            records.wf(),
            records.labels() == f,
            records@ == (Records { text: reader@.text, at: reader@.start(), label: Seq::empty() }),
    {
        let records = Self { label: String::new(), reader, is_data_label: f };
        proof {
            assert(encode_utf8(records.label@) =~= Seq::<u8>::empty());
        }
        records
    }

    /// The next record, `None` once nothing is left to hand out.
    ///
    /// A record starts with the label line kept from the call before, and
    /// runs up to the next label line or the end of the text. Its lines end
    /// in a line feed each, whatever their ending in the text. A label line
    /// that is read while the record holds nothing is kept for the next
    /// call like any other, but starts no record in this one.
    pub fn next(&mut self) -> (r: Result<Option<String>, ParseError>)
        requires
            old(self).wf(),
        ensures
            final(self).wf(),
            final(self).labels() == old(self).labels(),
            final(self)@.text == old(self)@.text,
            exists|out: Gathered|
                {
                    &&& #[trigger] gathers(
                        old(self).labels(),
                        old(self)@.text,
                        old(self)@.at,
                        0,
                        old(self)@.label,
                        old(self)@.label,
                        out,
                    )
                    &&& match out {
                        Gathered::Record { data, at, label } => {
                            &&& r matches Ok(Some(record))
                            &&& encode_utf8(record@) == data
                            &&& final(self)@ == (Records { text: old(self)@.text, at, label })
                        },
                        Gathered::End { label } => {
                            &&& r == Ok::<Option<String>, ParseError>(None)
                            &&& final(self)@ == (Records {
                                text: old(self)@.text,
                                at: old(self)@.text.len() as int,
                                label,
                            })
                        },
                        Gathered::Garbled => r == Err::<Option<String>, ParseError>(
                            ParseError::Decode,
                        ),
                    }
                },
    {
        let ghost before = self@;
        let ghost text = before.text;
        let ghost base = before.at;
        let ghost f = self.is_data_label;
        let ghost mut j: nat = 0;
        let mut data_lines = self.label.clone();
        loop
            invariant
                self.wf(),
                self.labels() == old(self).labels(),
                f == old(self).labels(),
                before == old(self)@,
                text == before.text,
                base == before.at,
                0 <= base <= text.len(),
                self@.text == text,
                self@.at == nth_start(text, base, j),
                j == 0 ==> self@.at == base,
                j <= line_count(text, base),
                forall|out: Gathered| #[trigger]
                    gathers(f, text, base, j, encode_utf8(data_lines@), self@.label, out)
                        ==> gathers(f, text, base, 0, before.label, before.label, out),
            decreases line_count(text, base) - j,
        {
            let ghost at = self.reader@.start();
            let ghost data = encode_utf8(data_lines@);
            let ghost kept = self@.label;
            proof {
                lemma_nth_start_bounds(text, base, j);
            }
            let raw = self.reader.take_raw();
            if raw.len() == 0 {
                let size = data_lines.as_str().as_bytes().len();
                if size == 0 {
                    assert(gathers(f, text, base, j, data, kept, Gathered::End { label: kept }));
                    return Ok(None);
                }
                self.label = String::new();
                proof {
                    assert(encode_utf8(self.label@) =~= Seq::<u8>::empty());
                    assert(gathers(
                        f,
                        text,
                        base,
                        j,
                        data,
                        kept,
                        Gathered::Record { data, at: text.len() as int, label: Seq::empty() },
                    ));
                }
                return Ok(Some(data_lines));
            }
            proof {
                lemma_line_end(text, at);
                assert(raw@ == line_at(text, base, j));
                lemma_nth_start_bounds(text, base, j + 1);
            }
            let ghost line = content(raw@);
            match decode(strip_ending(raw)) {
                None => {
                    assert(gathers(f, text, base, j, data, kept, Gathered::Garbled));
                    return Err(ParseError::Decode);
                },
                Some(shown) => {
                    let is_label = {
                        let s = shown.as_str();
                        let is_label = (self.is_data_label)(s);
                        assert(says(f, s, is_label));
                        is_label
                    };
                    assert(answers(f, line, is_label));
                    if is_label {
                        let mut head = shown;
                        push_line_feed(&mut head);
                        self.label = head;
                        let size = data_lines.as_str().as_bytes().len();
                        if size > 0 {
                            proof {
                                lemma_gathers_step(
                                    f,
                                    text,
                                    base,
                                    j,
                                    data,
                                    kept,
                                    is_label,
                                    Gathered::Record {
                                        data,
                                        at: nth_start(text, base, j + 1),
                                        label: line.push(LF),
                                    },
                                );
                            }
                            return Ok(Some(data_lines));
                        }
                        proof {
                            assert forall|out: Gathered| #[trigger]
                                gathers(f, text, base, j + 1, data, line.push(LF), out)
                                implies gathers(f, text, base, j, data, kept, out) by {
                                lemma_gathers_step(f, text, base, j, data, kept, is_label, out);
                            }
                        }
                    } else {
                        proof {
                            lemma_encode_concat(data_lines@, shown@);
                        }
                        data_lines.append(shown.as_str());
                        push_line_feed(&mut data_lines);
                        proof {
                            assert(encode_utf8(data_lines@) =~= data + line.push(LF));
                            assert forall|out: Gathered| #[trigger]
                                gathers(f, text, base, j + 1, data + line.push(LF), kept, out)
                                implies gathers(f, text, base, j, data, kept, out) by {
                                lemma_gathers_step(f, text, base, j, data, kept, is_label, out);
                            }
                        }
                    }
                    proof {
                        j = j + 1;
                    }
                },
            }
        }
    }
}

impl TextReader {
    /// Split into multiple parts separated by a data label line.
    pub fn split_if<F>(self, label_fn: F) -> (records: DataRecords<F>) where F: Fn(&str) -> bool
        requires
            forall|s: &str| call_requires(label_fn, (s,)),
        ensures
            records.wf(),
            records.labels() == label_fn,
            records@ == (Records { text: self@.text, at: self@.start(), label: Seq::empty() }),
    {
        DataRecords::new(self, label_fn)
    }
}

} // verus!
