//! The recognizers, from a single line terminator up to a whole header
//! block. Each returns the input that it did not consume together with what
//! it recognized, and each is proved to return what the function of the same
//! name in [`crate::grammar`] says.

use crate::charset::{is_colon, is_space, lemma_span_unique, COLON, CR, LF, SP};
use crate::grammar;
use crate::primitives::{space0, space1, split_view, tag_complete, tag_streaming, take_till};
use crate::shape::{
    lemma_final_terminator, lemma_header_shape, lemma_headers_shape, lemma_name_shape,
};
use crate::types::{header_views, HeaderSpec};
use vstd::prelude::*;
use vstd::slice::slice_to_vec;

pub use crate::charset::is_eol;
pub use crate::types::{Header, Name, ParseError, Value};

verus! {

/// Compares the beginning of `input` with `pattern`, treating the end of
/// `input` as provisional if `streaming` and as final otherwise.
fn tag<'a>(pattern: &[u8], input: &'a [u8], streaming: bool) -> (r: Result<
    (&'a [u8], &'a [u8]),
    ParseError,
>)
    ensures
        split_view(r) == crate::primitives::tag_result(pattern@, input@, streaming),
{
    if streaming {
        tag_streaming(pattern, input)
    } else {
        tag_complete(pattern, input)
    }
}

/// Parse one line terminator. The four forms are tried from the longest to
/// the shortest, so that a long terminator is never taken for a short one
/// followed by stray bytes. With `streaming`, an input that ends inside a
/// form that could still match is incomplete; without it, the end of the
/// input is final.
pub fn terminator<'a>(input: &'a [u8], streaming: bool) -> (r: Result<
    (&'a [u8], &'a [u8]),
    ParseError,
>)
    ensures
        split_view(r) == grammar::terminator(input@, streaming),
{
    let lf_cr_cr_lf: [u8; 4] = [LF, CR, CR, LF];
    let cr_lf: [u8; 2] = [CR, LF];
    let lf: [u8; 1] = [LF];
    let cr: [u8; 1] = [CR];
    match tag(lf_cr_cr_lf.as_slice(), input, streaming) {
        Err(ParseError::Failure) => {},
        r => {
            return r;
        },
    }
    match tag(cr_lf.as_slice(), input, streaming) {
        Err(ParseError::Failure) => {},
        r => {
            return r;
        },
    }
    match tag(lf.as_slice(), input, streaming) {
        Err(ParseError::Failure) => {},
        r => {
            return r;
        },
    }
    tag(cr.as_slice(), input, streaming)
}

/// Parse one complete end of line character or character set. The end of
/// the input is final: a terminator that could be the beginning of a longer
/// one is taken as it stands.
pub fn complete_eol<'a>(input: &'a [u8]) -> (r: Result<(&'a [u8], &'a [u8]), ParseError>)
    ensures
        split_view(r) == grammar::terminator(input@, false),
        r is Ok <==> input@.len() > 0 && is_eol(input@[0]),
        r matches Err(e) ==> e == ParseError::Failure,
{
    proof {
        lemma_final_terminator(input@);
    }
    terminator(input, false)
}

/// The run of horizontal whitespace at the beginning of `input`, which may
/// be empty.
fn spaces0<'a>(input: &'a [u8]) -> (r: Result<(&'a [u8], &'a [u8]), ParseError>)
    ensures
        split_view(r) == grammar::spaces0(input@),
{
    let r = space0(input);
    proof {
        let n = match r {
            Ok((_, run)) => run@.len() as int,
            Err(_) => input@.len() as int,
        };
        lemma_span_unique(input@, grammar::at_non_space(), n);
    }
    r
}

/// The run of horizontal whitespace at the beginning of `input`, which must
/// not be empty.
fn spaces1<'a>(input: &'a [u8]) -> (r: Result<(&'a [u8], &'a [u8]), ParseError>)
    ensures
        split_view(r) == grammar::spaces1(input@),
{
    let r = space1(input);
    proof {
        let n = match r {
            Ok((_, run)) => run@.len() as int,
            Err(ParseError::Incomplete) => input@.len() as int,
            Err(ParseError::Failure) => 0,
        };
        lemma_span_unique(input@, grammar::at_non_space(), n);
    }
    r
}

/// The sequences that a remainder and a pair of slices stand for.
pub open spec fn parts_view(r: Result<(&[u8], (&[u8], &[u8])), ParseError>) -> Result<
    (Seq<u8>, (Seq<u8>, Seq<u8>)),
    ParseError,
> {
    match r {
        Ok((rest, (end, fold))) => Ok((rest@, (end@, fold@))),
        Err(e) => Err(e),
    }
}

/// The sequences that the result of `folding_or_eol` stands for.
pub open spec fn ending_view(
    r: Result<(&[u8], (&[u8], Option<&[u8]>)), ParseError>,
) -> grammar::Ending {
    match r {
        Ok((rest, (end, Some(fold)))) => Ok((rest@, (end@, Some(fold@)))),
        Ok((rest, (end, None))) => Ok((rest@, (end@, None))),
        Err(e) => Err(e),
    }
}

/// The sequences that the result of `value_bytes` stands for.
pub open spec fn line_view(
    r: Result<(&[u8], (&[u8], (&[u8], Option<&[u8]>))), ParseError>,
) -> Result<(Seq<u8>, (Seq<u8>, (Seq<u8>, Option<Seq<u8>>))), ParseError> {
    match r {
        Ok((rest, (line, (end, Some(fold))))) => Ok((rest@, (line@, (end@, Some(fold@))))),
        Ok((rest, (line, (end, None)))) => Ok((rest@, (line@, (end@, None)))),
        Err(e) => Err(e),
    }
}

/// Parse header folding bytes (eol + whitespace).
pub fn folding<'a>(input: &'a [u8]) -> (r: Result<(&'a [u8], (&'a [u8], &'a [u8])), ParseError>)
    ensures
        parts_view(r) == grammar::folding(input@),
{
    match terminator(input, true) {
        Err(e) => Err(e),
        Ok((rest, end)) => match spaces1(rest) {
            Err(e) => Err(e),
            Ok((rest, fold)) => Ok((rest, (end, fold))),
        },
    }
}

/// Parse one header end of line, and guarantee that it is not folding.
/// Horizontal whitespace behind the terminator makes it a fold, which is a
/// failure here once a byte of another kind follows the whitespace.
pub fn eol<'a>(input: &'a [u8]) -> (r: Result<(&'a [u8], &'a [u8]), ParseError>)
    ensures
        split_view(r) == grammar::eol(input@),
{
    match terminator(input, true) {
        Err(e) => Err(e),
        Ok((rest, end)) => match spaces1(rest) {
            Ok(_) => Err(ParseError::Failure),
            Err(ParseError::Incomplete) => Err(ParseError::Incomplete),
            Err(ParseError::Failure) => Ok((rest, end)),
        },
    }
}

/// Parse folding bytes or an eol. The second component of the result tells
/// the two apart: it holds the whitespace of a fold, and is `None` for a
/// terminator that ends the logical line.
pub fn folding_or_eol<'a>(input: &'a [u8]) -> (r: Result<
    (&'a [u8], (&'a [u8], Option<&'a [u8]>)),
    ParseError,
>)
    ensures
        ending_view(r) == grammar::folding_or_eol(input@),
{
    match terminator(input, true) {
        Err(e) => Err(e),
        Ok((rest, end)) => match spaces1(rest) {
            Ok((rest, fold)) => Ok((rest, (end, Some(fold)))),
            Err(ParseError::Incomplete) => Err(ParseError::Incomplete),
            Err(ParseError::Failure) => Ok((rest, (end, None))),
        },
    }
}

/// The bytes in front of the first CR or LF, which must be present.
fn until_eol<'a>(input: &'a [u8]) -> (r: Result<(&'a [u8], &'a [u8]), ParseError>)
    ensures
        split_view(r) == grammar::until(input@, grammar::at_eol()),
{
    let r = take_till(is_eol, input);
    proof {
        let n = match r {
            Ok((_, line)) => line@.len() as int,
            Err(_) => input@.len() as int,
        };
        lemma_span_unique(input@, grammar::at_eol(), n);
    }
    r
}

/// The bytes in front of the first colon, which must be present.
fn until_colon<'a>(input: &'a [u8]) -> (r: Result<(&'a [u8], &'a [u8]), ParseError>)
    ensures
        split_view(r) == grammar::until(input@, grammar::at_colon()),
{
    let r = take_till(is_colon, input);
    proof {
        let n = match r {
            Ok((_, line)) => line@.len() as int,
            Err(_) => input@.len() as int,
        };
        lemma_span_unique(input@, grammar::at_colon(), n);
    }
    r
}

/// Parse a header value.
/// Returns the bytes and the value terminator, either eol or folding
/// eg. (bytes, (eol_bytes, Option<fold_bytes>))
pub fn value_bytes<'a>(input: &'a [u8]) -> (r: Result<
    (&'a [u8], (&'a [u8], (&'a [u8], Option<&'a [u8]>))),
    ParseError,
>)
    ensures
        line_view(r) == grammar::value_bytes(input@),
{
    match until_eol(input) {
        Err(e) => Err(e),
        Ok((rest, line)) => match folding_or_eol(rest) {
            Err(e) => Err(e),
            Ok((rest, ending)) => Ok((rest, (line, ending))),
        },
    }
}

/// Parse a complete header value, including any folded headers.
pub fn value<'a>(input: &'a [u8]) -> (r: Result<(&'a [u8], Value), ParseError>)
    ensures
        match r {
            Ok((rest, v)) => grammar::value(input@) == Ok::<_, ParseError>((rest@, v.value@))
                && v.flags == 0,
            Err(e) => grammar::value(input@) == Err::<(Seq<u8>, Seq<u8>), _>(e),
        },
{
    let (rest, line, fold) = match value_bytes(input) {
        Err(e) => {
            return Err(e);
        },
        Ok((rest, (line, (_, fold)))) => (rest, line, fold),
    };
    let mut value = slice_to_vec(line);
    if fold.is_none() {
        return Ok((rest, Value { value, flags: 0 }));
    }
    let mut i = rest;
    loop
        invariant
            grammar::value(input@) == grammar::joined(value@, grammar::value(i@)),
        decreases i@.len(),
    {
        proof {
            grammar::lemma_value_bytes_consumes(i@);
        }
        match value_bytes(i) {
            Err(e) => {
                return Err(e);
            },
            Ok((rest, (line, (_, fold)))) => {
                let ghost before = value@;
                value.push(SP);
                value.extend_from_slice(line);
                assert(value@ =~= before + seq![SP] + line@);
                if fold.is_none() {
                    return Ok((rest, Value { value, flags: 0 }));
                }
                assert(grammar::value(input@) == grammar::joined(
                    value@,
                    grammar::value(rest@),
                )) by {
                    if let Ok((r, tail)) = grammar::value(rest@) {
                        assert(before + seq![SP] + (line@ + seq![SP] + tail) =~= (before + seq![SP]
                            + line@) + seq![SP] + tail);
                    }
                }
                i = rest;
            },
        }
    }
}

/// Parse a separator (colon + space) between header name and value.
pub fn separator<'a>(input: &'a [u8]) -> (r: Result<(&'a [u8], (&'a [u8], &'a [u8])), ParseError>)
    ensures
        parts_view(r) == grammar::separator(input@),
{
    let colon: [u8; 1] = [COLON];
    match tag_streaming(colon.as_slice(), input) {
        Err(e) => Err(e),
        Ok((rest, colon)) => match spaces0(rest) {
            Err(e) => Err(e),
            Ok((rest, pad)) => Ok((rest, (colon, pad))),
        },
    }
}

/// Parse one header name up to the `:`. Input that begins with a space or
/// a tab is rejected at once, whatever follows: it is a continuation line.
/// An input without a colon is incomplete, however many line terminators it
/// holds: the grammar puts no limit on the bytes of a name, so that the
/// colon may still arrive.
pub fn name<'a>(input: &'a [u8]) -> (r: Result<(&'a [u8], Name), ParseError>)
    ensures
        match r {
            Ok((rest, n)) => grammar::name(input@) == Ok::<_, ParseError>((rest@, n.name@))
                && n.flags == 0,
            Err(e) => grammar::name(input@) == Err::<(Seq<u8>, Seq<u8>), _>(e),
        },
        r matches Err(ParseError::Failure) <==> input@.len() > 0 && is_space(input@[0]),
{
    proof {
        lemma_name_shape(input@);
    }
    if input.len() > 0 && is_space(input[0]) {
        return Err(ParseError::Failure);
    }
    match until_colon(input) {
        Err(e) => Err(e),
        Ok((rest, bytes)) => Ok((rest, Name { name: slice_to_vec(bytes), flags: 0 })),
    }
}

/// Parse a header `name: value`. The first part that is incomplete or
/// fails decides the result; no partial header is returned.
pub fn header<'a>(input: &'a [u8]) -> (r: Result<(&'a [u8], Header), ParseError>)
    ensures
        match r {
            Ok((rest, h)) => grammar::header(input@) == Ok::<_, ParseError>((rest@, h@)),
            Err(e) => grammar::header(input@) == Err::<(Seq<u8>, HeaderSpec), _>(e),
        },
        r matches Err(ParseError::Failure) <==> input@.len() > 0 && is_space(input@[0]),
{
    proof {
        reveal(grammar::header);
        lemma_header_shape(input@);
    }
    let (rest, name) = match name(input) {
        Err(e) => {
            return Err(e);
        },
        Ok(found) => found,
    };
    let rest = match separator(rest) {
        Err(e) => {
            return Err(e);
        },
        Ok((rest, _)) => rest,
    };
    match value(rest) {
        Err(e) => Err(e),
        Ok((rest, value)) => Ok((rest, Header { name, value })),
    }
}

/// Parse multiple headers and indicate if end of headers was found.
///
/// On success the result holds the input that was not consumed, the headers
/// in the order of the input, and whether the blank line that closes the
/// section was seen. If it was, the remainder begins behind that line. If
/// it was not, the input ran out inside a header: the remainder begins with
/// that header, and a later call on the remainder followed by further bytes
/// goes on from there.
///
/// The call is an error only when the first header is: `Incomplete` when
/// the input ends before the first header does, `Failure` when the input
/// begins with horizontal whitespace. After an error the caller still holds
/// the whole input.
///
/// A section holds at least one header. A caller that allows a section
/// without headers tests with [`complete_eol`] whether the input begins
/// with the blank line, before it calls this function.
pub fn headers<'a>(input: &'a [u8]) -> (r: Result<(&'a [u8], (Vec<Header>, bool)), ParseError>)
    ensures
        match r {
            Ok((rest, (found, closed))) => {
                &&& grammar::headers(input@) matches Ok(block)
                &&& found@.len() == block.headers.len()
                &&& forall|i: int|
                    0 <= i < found@.len() ==> (#[trigger] found@[i])@ == block.headers[i]
                &&& closed == block.closing.is_some()
                &&& rest@ == block.rest
            },
            Err(e) => grammar::headers(input@) == Err::<grammar::Block, _>(e),
        },
        r matches Err(ParseError::Failure) <==> input@.len() > 0 && is_space(input@[0]),
{
    proof {
        lemma_headers_shape(input@);
    }
    let (rest, first) = match header(input) {
        Err(e) => {
            return Err(e);
        },
        Ok(found) => found,
    };
    let mut out: Vec<Header> = Vec::with_capacity(16);
    out.push(first);
    let mut i = rest;
    assert(header_views(out@) =~= seq![first@]);
    loop
        invariant
            grammar::headers(input@) == grammar::after(
                header_views(out@),
                grammar::continuation(i@),
            ),
            grammar::headers(input@) is Ok,
            !(input@.len() > 0 && is_space(input@[0])),
        decreases i@.len(),
    {
        match complete_eol(i) {
            Ok((rest, _)) => {
                return Ok((rest, (out, true)));
            },
            Err(_) => {},
        }
        proof {
            grammar::lemma_header_consumes(i@);
        }
        match header(i) {
            Ok((rest, next)) => {
                let ghost before = header_views(out@);
                out.push(next);
                assert(header_views(out@) =~= before + seq![next@]);
                assert(grammar::headers(input@) == grammar::after(
                    header_views(out@),
                    grammar::continuation(rest@),
                )) by {
                    if let Ok(b) = grammar::continuation(rest@) {
                        assert(before + (seq![next@] + b.headers) =~= (before + seq![next@])
                            + b.headers);
                    }
                }
                i = rest;
            },
            Err(ParseError::Incomplete) => {
                assert(header_views(out@) + Seq::<HeaderSpec>::empty() =~= header_views(out@));
                return Ok((i, (out, false)));
            },
            Err(ParseError::Failure) => {
                // What follows a header does not begin with horizontal
                // whitespace, so that this arm is never taken.
                assert(false);
                return Err(ParseError::Failure);
            },
        }
    }
}

} // verus!
