//! Streaming text tools for large, line-oriented data files.
//!
//! A [`TextReader`] walks a text line by line, a [`partition::Partitions`]
//! stream cuts it into parts under a splitting policy, a [`GrepReader`]
//! marks the lines that match a pattern and jumps between them, and a
//! [`TextViewer`] looks at a small text by line number. A [`TextParser`]
//! feeds a grammar with lines until it finds a part, and [`parsers`] holds
//! small grammars for the lines of data files.
//!
//! A text is a sequence of bytes that line feeds cut into lines; all
//! positions are byte offsets. Strings handed out hold valid UTF-8; bytes
//! that are not make the operation that meets them fail.
pub mod error;
pub mod text;
pub mod utf8;
pub mod reader;
pub mod partition;
pub mod bindings;
pub mod view;
pub mod grep;
pub mod parser;
pub mod adhoc;
pub mod parsers;

pub use crate::error::ParseError;
pub use crate::reader::TextReader;
pub use crate::view::TextViewer;
pub use crate::grep::GrepReader;
pub use crate::parser::TextParser;
