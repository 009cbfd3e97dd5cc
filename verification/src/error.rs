//! The ways in which an operation of this library can fail.
use vstd::prelude::*;
use vstd::string::StringExecFns;

verus! {

/// Why an operation gave no result.
#[derive(Debug, PartialEq, Eq)]
pub enum ParseError {
    /// The text ended before the lines that were asked for had been read.
    UnexpectedEof,
    /// No line up to the end of the text satisfied the predicate.
    NotFound,
    /// Every marker has been visited already, or none was set.
    NoMoreMarkers,
    /// The pattern is not one that the search engine accepts.
    Pattern,
    /// A splitting policy reported that the text has not the shape it expects.
    Malformed(String),
    /// A position or an index lies outside the range in which it has a meaning.
    InvalidArgument,
    /// Bytes that should be text are not valid UTF-8.
    Decode,
}

impl ParseError {
    /// What the failure means, in words. For a text that has not the shape
    /// a splitting policy expects, these are the words of the policy.
    pub fn message(&self) -> (words: String)
        ensures
            match self {
                ParseError::UnexpectedEof => words@ == "the text ended before the lines asked for"@,
                ParseError::NotFound => words@ == "no matched line found"@,
                ParseError::NoMoreMarkers => words@
                    == "already reached the last marker or no marker at all"@,
                ParseError::Pattern => words@ == "invalid pattern"@,
                ParseError::Malformed(told) => words@ == told@,
                ParseError::InvalidArgument => words@ == "position or index out of range"@,
                ParseError::Decode => words@ == "the text is not valid UTF-8"@,
            },
    {
        match self {
            ParseError::UnexpectedEof => String::from_str(
                "the text ended before the lines asked for",
            ),
            ParseError::NotFound => String::from_str("no matched line found"),
            ParseError::NoMoreMarkers => String::from_str(
                "already reached the last marker or no marker at all",
            ),
            ParseError::Pattern => String::from_str("invalid pattern"),
            ParseError::Malformed(told) => told.clone(),
            ParseError::InvalidArgument => String::from_str("position or index out of range"),
            ParseError::Decode => String::from_str("the text is not valid UTF-8"),
        }
    }
}

} // verus!
