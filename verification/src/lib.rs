//! Incremental recognizer for the header section of a line-oriented text
//! protocol.
//!
//! A caller hands [`headers::headers`] the bytes received so far. The call
//! returns the headers that are complete, whether the blank line that closes
//! the section was seen, and the bytes that were not consumed. When the
//! section is not closed yet, the caller appends newly received bytes to that
//! remainder and calls again.
//!
//! - [`headers`] holds the recognizers, from a line terminator up to the
//!   whole block.
//! - [`grammar`] says what each recognizer returns, as a function over
//!   `Seq<u8>`.
//! - [`primitives`] holds the calls into the `nom` crate that the
//!   recognizers are built from, with the contracts assumed of them.
//! - [`shape`], [`extension`] and [`laws`] hold what is proved of the
//!   grammar: the invariants of what is recognized, that a decision is not
//!   changed by appending bytes, and that a section is parsed the same way
//!   whether it arrives at once, in two feeds, or with bytes behind it.
//! - [`charset`] and [`types`] hold the byte classes and the records.

pub mod charset;
pub mod extension;
pub mod grammar;
pub mod headers;
pub mod laws;
pub mod primitives;
pub mod shape;
pub mod types;

pub use charset::{is_colon, is_eol, is_space};
pub use types::{Header, Name, ParseError, Value};
