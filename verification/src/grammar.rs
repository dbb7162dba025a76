//! The grammar of a header section, as functions over `Seq<u8>`.
//!
//! Each function says what the recognizer of the same name in
//! [`crate::headers`] returns: the input that is left and what was
//! recognized, `Incomplete` where more bytes are needed to decide, or
//! `Failure` where no further bytes could make the input acceptable.

use crate::charset::{eol_byte, lemma_span, space_byte, span, COLON, CR, LF, SP};
use crate::primitives::tag_result;
use crate::types::{HeaderSpec, ParseError};
use vstd::prelude::*;

verus! {

/// The remaining input and the bytes that were recognized.
pub type Split = Result<(Seq<u8>, Seq<u8>), ParseError>;

/// The remaining input, a line terminator, and the whitespace behind it
/// where the terminator begins a fold.
pub type Ending = Result<(Seq<u8>, (Seq<u8>, Option<Seq<u8>>)), ParseError>;

/// What a parse of a header block yields.
pub struct Block {
    /// The headers that were recognized, in the order of the input.
    pub headers: Seq<HeaderSpec>,
    /// The terminator of the blank line that closes the section, if the
    /// parse reached it.
    pub closing: Option<Seq<u8>>,
    /// The input that was not consumed.
    pub rest: Seq<u8>,
}

/// The bytes at which a name ends.
pub open spec fn at_colon() -> spec_fn(u8) -> bool {
    |c: u8| c == COLON
}

/// The bytes at which the content of a physical line ends.
pub open spec fn at_eol() -> spec_fn(u8) -> bool {
    |c: u8| eol_byte(c)
}

/// The bytes at which a run of horizontal whitespace ends.
pub open spec fn at_non_space() -> spec_fn(u8) -> bool {
    |c: u8| !space_byte(c)
}

/// The first alternative, unless it fails: then the second. An alternative
/// that is incomplete is never passed over.
pub open spec fn or_else(first: Split, second: Split) -> Split {
    match first {
        Err(ParseError::Failure) => second,
        _ => first,
    }
}

/// A line terminator at the beginning of `s`: `LF CR CR LF`, `CR LF`, `LF`
/// or `CR`, tried in this order. With `streaming`, bytes may still be
/// appended to `s`, and an input that ends inside a form being tried is
/// incomplete. Without it the end of `s` is final.
pub open spec fn terminator(s: Seq<u8>, streaming: bool) -> Split {
    or_else(
        tag_result(seq![LF, CR, CR, LF], s, streaming),
        or_else(
            tag_result(seq![CR, LF], s, streaming),
            or_else(tag_result(seq![LF], s, streaming), tag_result(seq![CR], s, streaming)),
        ),
    )
}

/// The bytes of `s` in front of its first byte satisfying `stop`, which must
/// be present: until it is, more input is needed.
pub open spec fn until(s: Seq<u8>, stop: spec_fn(u8) -> bool) -> Split {
    let n = span(s, stop) as int;
    if n == s.len() {
        Err(ParseError::Incomplete)
    } else {
        Ok((s.skip(n), s.take(n)))
    }
}

/// The run of horizontal whitespace at the beginning of `s`, which may be
/// empty. The run is known to have ended only when another byte follows.
pub open spec fn spaces0(s: Seq<u8>) -> Split {
    until(s, at_non_space())
}

/// The run of horizontal whitespace at the beginning of `s`, which must not
/// be empty.
pub open spec fn spaces1(s: Seq<u8>) -> Split {
    if s.len() > 0 && !space_byte(s[0]) {
        Err(ParseError::Failure)
    } else {
        until(s, at_non_space())
    }
}

/// A fold: a line terminator with horizontal whitespace behind it.
pub open spec fn folding(s: Seq<u8>) -> Result<(Seq<u8>, (Seq<u8>, Seq<u8>)), ParseError> {
    match terminator(s, true) {
        Err(e) => Err(e),
        Ok((rest, end)) => match spaces1(rest) {
            Err(e) => Err(e),
            Ok((rest, fold)) => Ok((rest, (end, fold))),
        },
    }
}

/// A line terminator that does not begin a fold: the byte behind it must be
/// there and must not be horizontal whitespace.
pub open spec fn eol(s: Seq<u8>) -> Split {
    match terminator(s, true) {
        Err(e) => Err(e),
        Ok((rest, end)) => match spaces1(rest) {
            Ok(_) => Err(ParseError::Failure),
            Err(ParseError::Incomplete) => Err(ParseError::Incomplete),
            Err(ParseError::Failure) => Ok((rest, end)),
        },
    }
}

/// A line terminator, together with the whitespace of the fold that it
/// begins, or with `None` where it ends the logical line.
pub open spec fn folding_or_eol(s: Seq<u8>) -> Ending {
    match terminator(s, true) {
        Err(e) => Err(e),
        Ok((rest, end)) => match spaces1(rest) {
            Ok((rest, fold)) => Ok((rest, (end, Some(fold)))),
            Err(ParseError::Incomplete) => Err(ParseError::Incomplete),
            Err(ParseError::Failure) => Ok((rest, (end, None))),
        },
    }
}

/// One physical line of a value: its content up to the first CR or LF, and
/// how the line ends.
pub open spec fn value_bytes(s: Seq<u8>) -> Result<
    (Seq<u8>, (Seq<u8>, (Seq<u8>, Option<Seq<u8>>))),
    ParseError,
> {
    match until(s, at_eol()) {
        Err(e) => Err(e),
        Ok((rest, line)) => match folding_or_eol(rest) {
            Err(e) => Err(e),
            Ok((rest, ending)) => Ok((rest, (line, ending))),
        },
    }
}

/// The lines of a value merged so far, `acc`, and the outcome `more` of
/// parsing the lines that follow a fold, put together: one space stands for
/// the fold.
pub open spec fn joined(acc: Seq<u8>, more: Split) -> Split {
    match more {
        Err(e) => Err(e),
        Ok((rest, tail)) => Ok((rest, acc + seq![SP] + tail)),
    }
}

/// A logical value: the contents of its physical lines, joined by one space
/// for each fold. Terminators and the whitespace of the folds are left out.
pub open spec fn value(s: Seq<u8>) -> Split
    decreases s.len(),
{
    match value_bytes(s) {
        Err(e) => Err(e),
        Ok((rest, (line, (_, fold)))) => if fold.is_none() {
            Ok((rest, line))
        } else {
            proof {
                lemma_value_bytes_consumes(s);
            }
            joined(line, value(rest))
        },
    }
}

/// A colon with optional horizontal whitespace behind it.
pub open spec fn separator(s: Seq<u8>) -> Result<(Seq<u8>, (Seq<u8>, Seq<u8>)), ParseError> {
    match tag_result(seq![COLON], s, true) {
        Err(e) => Err(e),
        Ok((rest, colon)) => match spaces0(rest) {
            Err(e) => Err(e),
            Ok((rest, pad)) => Ok((rest, (colon, pad))),
        },
    }
}

/// A header name: the bytes in front of the first colon. Input that begins
/// with horizontal whitespace is a continuation line and never a name.
pub open spec fn name(s: Seq<u8>) -> Split {
    if s.len() > 0 && space_byte(s[0]) {
        Err(ParseError::Failure)
    } else {
        until(s, at_colon())
    }
}

/// One header: name, separator and value, each beginning where the one
/// before it ended.
///
/// The definition is opaque, so that proofs about whole sections need not
/// look inside a header; `reveal(header)` shows it.
#[verifier::opaque]
pub open spec fn header(s: Seq<u8>) -> Result<(Seq<u8>, HeaderSpec), ParseError> {
    match name(s) {
        Err(e) => Err(e),
        Ok((rest, n)) => match separator(rest) {
            Err(e) => Err(e),
            Ok((rest, _)) => match value(rest) {
                Err(e) => Err(e),
                Ok((rest, v)) => Ok((rest, HeaderSpec::plain(n, v))),
            },
        },
    }
}

/// The outcome `block` with the headers `done` in front of its own.
pub open spec fn after(done: Seq<HeaderSpec>, block: Result<Block, ParseError>) -> Result<
    Block,
    ParseError,
> {
    match block {
        Err(e) => Err(e),
        Ok(b) => Ok(Block { headers: done + b.headers, closing: b.closing, rest: b.rest }),
    }
}

/// What follows a header: the blank line that closes the section, for which
/// the end of `s` is final, or further headers. Where the next header is
/// incomplete, the parse stops in front of it and leaves it in `rest`.
pub open spec fn continuation(s: Seq<u8>) -> Result<Block, ParseError>
    decreases s.len(),
{
    match terminator(s, false) {
        Ok((rest, end)) => Ok(Block { headers: Seq::empty(), closing: Some(end), rest }),
        Err(_) => match header(s) {
            Ok((rest, h)) => {
                proof {
                    lemma_header_consumes(s);
                }
                after(seq![h], continuation(rest))
            },
            Err(ParseError::Incomplete) => Ok(
                Block { headers: Seq::empty(), closing: None, rest: s },
            ),
            Err(ParseError::Failure) => Err(ParseError::Failure),
        },
    }
}

/// A header block: one header, then what follows it.
pub open spec fn headers(s: Seq<u8>) -> Result<Block, ParseError> {
    match header(s) {
        Err(e) => Err(e),
        Ok((rest, first)) => after(seq![first], continuation(rest)),
    }
}

/// A terminator that was recognized consumed at least one byte.
pub proof fn lemma_terminator_consumes(s: Seq<u8>, streaming: bool)
    ensures
        terminator(s, streaming) matches Ok((rest, end)) ==> 0 < end.len() <= s.len() && rest
            == s.skip(end.len() as int),
{
}

/// A line of a value that was recognized consumed at least its terminator.
pub proof fn lemma_value_bytes_consumes(s: Seq<u8>)
    ensures
        value_bytes(s) matches Ok((rest, _)) ==> rest.len() < s.len(),
{
    lemma_span(s, at_eol());
    if let Ok((rest, _)) = until(s, at_eol()) {
        lemma_terminator_consumes(rest, true);
        if let Ok((rest, _)) = terminator(rest, true) {
            lemma_span(rest, at_non_space());
        }
    }
}

/// A value that was recognized consumed at least its terminator.
pub proof fn lemma_value_consumes(s: Seq<u8>)
    ensures
        value(s) matches Ok((rest, _)) ==> rest.len() < s.len(),
    decreases s.len(),
{
    lemma_value_bytes_consumes(s);
    if let Ok((rest, (_, (_, Some(_))))) = value_bytes(s) {
        lemma_value_consumes(rest);
    }
}

/// A header that was recognized consumed at least one byte.
pub proof fn lemma_header_consumes(s: Seq<u8>)
    ensures
        header(s) matches Ok((rest, _)) ==> rest.len() < s.len(),
{
    reveal(header);
    lemma_span(s, at_colon());
    if let Ok((rest, _)) = name(s) {
        if let Ok((rest, _)) = tag_result(seq![COLON], rest, true) {
            lemma_span(rest, at_non_space());
            if let Ok((rest, _)) = spaces0(rest) {
                lemma_value_consumes(rest);
            }
        }
    }
}

} // verus!
