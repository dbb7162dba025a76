//! The byte-level recognizers of the `nom` crate that the grammar is built
//! from, each behind a function whose contract restates what `nom` documents.
//!
//! Nothing in this file is proved: the contracts are taken on trust from the
//! source of `nom`. Everything built on top of them is verified.

use crate::charset::space_byte;
use crate::types::ParseError;
use vstd::prelude::*;

verus! {

/// What `nom::bytes::complete::tag` and `nom::bytes::streaming::tag` return
/// for `pattern` on `input`: the input split behind the pattern where it
/// begins with the pattern. Where it does not, the streaming form reports
/// `Incomplete` if the input is a beginning of the pattern, so that more
/// bytes could still complete it; every other case is a `Failure`.
pub open spec fn tag_result(pattern: Seq<u8>, input: Seq<u8>, streaming: bool) -> Result<
    (Seq<u8>, Seq<u8>),
    ParseError,
> {
    if pattern.is_prefix_of(input) {
        Ok((input.skip(pattern.len() as int), pattern))
    } else if streaming && input.is_prefix_of(pattern) {
        Err(ParseError::Incomplete)
    } else {
        Err(ParseError::Failure)
    }
}

/// The pair of sequences that a pair of slices stands for.
pub open spec fn split_view(r: Result<(&[u8], &[u8]), ParseError>) -> Result<
    (Seq<u8>, Seq<u8>),
    ParseError,
> {
    match r {
        Ok((rest, found)) => Ok((rest@, found@)),
        Err(e) => Err(e),
    }
}

/// Calls `nom::bytes::complete::tag`, which compares the beginning of the
/// input with the pattern and treats the end of the input as final: the
/// result is the remaining input and the matched bytes, or a failure.
#[verifier::external_body]
pub(crate) fn tag_complete<'a>(pattern: &[u8], input: &'a [u8]) -> (r: Result<
    (&'a [u8], &'a [u8]),
    ParseError,
>)
    ensures
        split_view(r) == tag_result(pattern@, input@, false),
{
    match nom::bytes::complete::tag::<_, _, nom::error::Error<&[u8]>>(pattern)(input) {
        Ok((rest, found)) => Ok((rest, found)),
        Err(nom::Err::Incomplete(_)) => Err(ParseError::Incomplete),
        Err(nom::Err::Error(_)) => Err(ParseError::Failure),
        Err(nom::Err::Failure(_)) => Err(ParseError::Failure),
    }
}

/// Calls `nom::bytes::streaming::tag`, which compares the beginning of the
/// input with the pattern and asks for more bytes where the input ends
/// before the pattern does without having differed from it.
#[verifier::external_body]
pub(crate) fn tag_streaming<'a>(pattern: &[u8], input: &'a [u8]) -> (r: Result<
    (&'a [u8], &'a [u8]),
    ParseError,
>)
    ensures
        split_view(r) == tag_result(pattern@, input@, true),
{
    match nom::bytes::streaming::tag::<_, _, nom::error::Error<&[u8]>>(pattern)(input) {
        Ok((rest, found)) => Ok((rest, found)),
        Err(nom::Err::Incomplete(_)) => Err(ParseError::Incomplete),
        Err(nom::Err::Error(_)) => Err(ParseError::Failure),
        Err(nom::Err::Failure(_)) => Err(ParseError::Failure),
    }
}

/// Calls `nom::bytes::streaming::take_till`, which hands each byte to `stop`
/// until `stop` answers `true`. It splits the input in front of that byte.
/// Where `stop` answered `false` for every byte of the input, the stopping
/// byte may still arrive, and the result is `Incomplete`.
#[verifier::external_body]
pub(crate) fn take_till<'a, F: Fn(u8) -> bool>(stop: F, input: &'a [u8]) -> (r: Result<
    (&'a [u8], &'a [u8]),
    ParseError,
>)
    requires
        forall|c: u8| call_requires(stop, (c,)),
    ensures
        match r {
            Ok((rest, taken)) => {
                let n = taken@.len() as int;
                &&& n < input@.len()
                &&& taken@ == input@.take(n)
                &&& rest@ == input@.skip(n)
                &&& call_ensures(stop, (input@[n],), true)
                &&& forall|i: int| 0 <= i < n ==> call_ensures(stop, (#[trigger] input@[i],), false)
            },
            Err(e) => {
                &&& e == ParseError::Incomplete
                &&& forall|i: int|
                    0 <= i < input@.len() ==> call_ensures(stop, (#[trigger] input@[i],), false)
            },
        },
{
    match nom::bytes::streaming::take_till::<_, _, nom::error::Error<&[u8]>>(stop)(input) {
        Ok((rest, taken)) => Ok((rest, taken)),
        Err(nom::Err::Incomplete(_)) => Err(ParseError::Incomplete),
        Err(nom::Err::Error(_)) => Err(ParseError::Failure),
        Err(nom::Err::Failure(_)) => Err(ParseError::Failure),
    }
}

/// Calls `nom::character::streaming::space0`, which splits the input behind
/// its leading spaces and tabs, of which there may be none. Where the input
/// ends before a byte of another kind was seen, the run may still go on, and
/// the result is `Incomplete`.
#[verifier::external_body]
pub(crate) fn space0<'a>(input: &'a [u8]) -> (r: Result<(&'a [u8], &'a [u8]), ParseError>)
    ensures
        match r {
            Ok((rest, spaces)) => {
                let n = spaces@.len() as int;
                &&& n < input@.len()
                &&& spaces@ == input@.take(n)
                &&& rest@ == input@.skip(n)
                &&& !space_byte(input@[n])
                &&& forall|i: int| 0 <= i < n ==> space_byte(#[trigger] input@[i])
            },
            Err(e) => {
                &&& e == ParseError::Incomplete
                &&& forall|i: int| 0 <= i < input@.len() ==> space_byte(#[trigger] input@[i])
            },
        },
{
    match nom::character::streaming::space0::<_, nom::error::Error<&[u8]>>(input) {
        Ok((rest, spaces)) => Ok((rest, spaces)),
        Err(nom::Err::Incomplete(_)) => Err(ParseError::Incomplete),
        Err(nom::Err::Error(_)) => Err(ParseError::Failure),
        Err(nom::Err::Failure(_)) => Err(ParseError::Failure),
    }
}

/// Calls `nom::character::streaming::space1`, which splits the input behind
/// its leading spaces and tabs and fails where the first byte is of another
/// kind. Where the input ends before a byte of another kind was seen, the
/// result is `Incomplete`; that includes the empty input.
#[verifier::external_body]
pub(crate) fn space1<'a>(input: &'a [u8]) -> (r: Result<(&'a [u8], &'a [u8]), ParseError>)
    ensures
        match r {
            Ok((rest, spaces)) => {
                let n = spaces@.len() as int;
                &&& 0 < n < input@.len()
                &&& spaces@ == input@.take(n)
                &&& rest@ == input@.skip(n)
                &&& !space_byte(input@[n])
                &&& forall|i: int| 0 <= i < n ==> space_byte(#[trigger] input@[i])
            },
            Err(ParseError::Incomplete) => forall|i: int|
                0 <= i < input@.len() ==> space_byte(#[trigger] input@[i]),
            Err(ParseError::Failure) => input@.len() > 0 && !space_byte(input@[0]),
        },
{
    match nom::character::streaming::space1::<_, nom::error::Error<&[u8]>>(input) {
        Ok((rest, spaces)) => Ok((rest, spaces)),
        Err(nom::Err::Incomplete(_)) => Err(ParseError::Incomplete),
        Err(nom::Err::Error(_)) => Err(ParseError::Failure),
        Err(nom::Err::Failure(_)) => Err(ParseError::Failure),
    }
}

} // verus!
