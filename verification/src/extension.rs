//! What a recognizer has decided stays decided when bytes are appended to
//! its input.
//!
//! A recognizer that reads its input as provisional answers `Incomplete`
//! wherever bytes yet to come could change the outcome. So an input on
//! which it succeeds or fails gives the same outcome when it is extended,
//! with the appended bytes added to what is left. The lemmas of this file
//! prove that for each function of the grammar up to a whole header.

use crate::charset::{is_span, lemma_span, lemma_span_unique, span, COLON, CR, LF};
use crate::grammar::{
    at_colon, at_eol, at_non_space, eol, folding, folding_or_eol, header, name, spaces0, spaces1,
    terminator, until, value, value_bytes,
};
use crate::primitives::tag_result;
use crate::types::ParseError;
use vstd::prelude::*;

verus! {

/// A pattern that the input begins with is still there after appending,
/// and an input that differs from the pattern still differs.
pub proof fn lemma_tag_extends(pattern: Seq<u8>, s: Seq<u8>, t: Seq<u8>)
    ensures
        tag_result(pattern, s, true) matches Ok((rest, found)) ==> tag_result(
            pattern,
            s + t,
            true,
        ) == Ok::<_, ParseError>((rest + t, found)),
        tag_result(pattern, s, true) == Err::<(Seq<u8>, Seq<u8>), _>(ParseError::Failure)
            ==> tag_result(pattern, s + t, true) == Err::<(Seq<u8>, Seq<u8>), _>(
            ParseError::Failure,
        ),
{
    let n = pattern.len() as int;
    if pattern.is_prefix_of(s) {
        assert((s + t).subrange(0, n) =~= s.subrange(0, n));
        assert((s + t).skip(n) =~= s.skip(n) + t);
    } else if !s.is_prefix_of(pattern) {
        if pattern.is_prefix_of(s + t) {
            if n <= s.len() {
                assert((s + t).subrange(0, n) =~= s.subrange(0, n));
            } else {
                assert(s =~= pattern.subrange(0, s.len() as int));
            }
        }
        if (s + t).is_prefix_of(pattern) {
            assert(s =~= pattern.subrange(0, s.len() as int));
        }
    }
}

/// A terminator that was recognized in provisional input is not replaced
/// by another when bytes are appended.
pub proof fn lemma_terminator_extends(s: Seq<u8>, t: Seq<u8>)
    ensures
        terminator(s, true) matches Ok((rest, end)) ==> terminator(s + t, true) == Ok::<
            _,
            ParseError,
        >((rest + t, end)),
        terminator(s, true) == Err::<(Seq<u8>, Seq<u8>), _>(ParseError::Failure) ==> terminator(
            s + t,
            true,
        ) == Err::<(Seq<u8>, Seq<u8>), _>(ParseError::Failure),
{
    lemma_tag_extends(seq![LF, CR, CR, LF], s, t);
    lemma_tag_extends(seq![CR, LF], s, t);
    lemma_tag_extends(seq![LF], s, t);
    lemma_tag_extends(seq![CR], s, t);
}

/// A run that ended inside the input ends at the same byte after appending.
pub proof fn lemma_until_extends(s: Seq<u8>, t: Seq<u8>, stop: spec_fn(u8) -> bool)
    ensures
        until(s, stop) matches Ok((rest, run)) ==> until(s + t, stop) == Ok::<_, ParseError>(
            (rest + t, run),
        ),
        until(s, stop) != Err::<(Seq<u8>, Seq<u8>), _>(ParseError::Failure),
{
    lemma_span(s, stop);
    let n = span(s, stop) as int;
    if n < s.len() {
        assert(is_span(s + t, stop, n)) by {
            assert forall|i: int| 0 <= i < n implies !stop(#[trigger] (s + t)[i]) by {
                assert((s + t)[i] == s[i]);
            }
            assert((s + t)[n] == s[n]);
        }
        lemma_span_unique(s + t, stop, n);
        assert((s + t).skip(n) =~= s.skip(n) + t);
        assert((s + t).take(n) =~= s.take(n));
    }
}

/// `spaces1` and `spaces0` keep their outcome when bytes are appended.
pub proof fn lemma_spaces_extend(s: Seq<u8>, t: Seq<u8>)
    ensures
        spaces0(s) matches Ok((rest, run)) ==> spaces0(s + t) == Ok::<_, ParseError>(
            (rest + t, run),
        ),
        spaces0(s) != Err::<(Seq<u8>, Seq<u8>), _>(ParseError::Failure),
        spaces1(s) matches Ok((rest, run)) ==> spaces1(s + t) == Ok::<_, ParseError>(
            (rest + t, run),
        ),
        spaces1(s) == Err::<(Seq<u8>, Seq<u8>), _>(ParseError::Failure) ==> spaces1(s + t)
            == Err::<(Seq<u8>, Seq<u8>), _>(ParseError::Failure),
{
    lemma_until_extends(s, t, at_non_space());
    if s.len() > 0 {
        assert((s + t)[0] == s[0]);
    }
}

/// How a line ends is not reconsidered when bytes are appended.
pub proof fn lemma_ending_extends(s: Seq<u8>, t: Seq<u8>)
    ensures
        folding(s) matches Ok((rest, found)) ==> folding(s + t) == Ok::<_, ParseError>(
            (rest + t, found),
        ),
        folding(s) == Err::<(Seq<u8>, (Seq<u8>, Seq<u8>)), _>(ParseError::Failure) ==> folding(
            s + t,
        ) == Err::<(Seq<u8>, (Seq<u8>, Seq<u8>)), _>(ParseError::Failure),
        eol(s) matches Ok((rest, found)) ==> eol(s + t) == Ok::<_, ParseError>((rest + t, found)),
        eol(s) == Err::<(Seq<u8>, Seq<u8>), _>(ParseError::Failure) ==> eol(s + t) == Err::<
            (Seq<u8>, Seq<u8>),
            _,
        >(ParseError::Failure),
        folding_or_eol(s) matches Ok((rest, found)) ==> folding_or_eol(s + t) == Ok::<
            _,
            ParseError,
        >((rest + t, found)),
        folding_or_eol(s) == Err::<(Seq<u8>, (Seq<u8>, Option<Seq<u8>>)), _>(ParseError::Failure)
            ==> folding_or_eol(s + t) == Err::<(Seq<u8>, (Seq<u8>, Option<Seq<u8>>)), _>(
            ParseError::Failure,
        ),
{
    lemma_terminator_extends(s, t);
    if let Ok((rest, _)) = terminator(s, true) {
        lemma_spaces_extend(rest, t);
    }
}

/// A physical line that was recognized is the same line after appending.
pub proof fn lemma_value_bytes_extends(s: Seq<u8>, t: Seq<u8>)
    ensures
        value_bytes(s) matches Ok((rest, found)) ==> value_bytes(s + t) == Ok::<_, ParseError>(
            (rest + t, found),
        ),
        value_bytes(s) == Err::<(Seq<u8>, (Seq<u8>, (Seq<u8>, Option<Seq<u8>>))), _>(
            ParseError::Failure,
        ) ==> value_bytes(s + t) == Err::<(Seq<u8>, (Seq<u8>, (Seq<u8>, Option<Seq<u8>>))), _>(
            ParseError::Failure,
        ),
{
    lemma_until_extends(s, t, at_eol());
    if let Ok((rest, _)) = until(s, at_eol()) {
        lemma_ending_extends(rest, t);
    }
}

/// A value that was recognized is the same value after appending.
pub proof fn lemma_value_extends(s: Seq<u8>, t: Seq<u8>)
    ensures
        value(s) matches Ok((rest, found)) ==> value(s + t) == Ok::<_, ParseError>(
            (rest + t, found),
        ),
        value(s) == Err::<(Seq<u8>, Seq<u8>), _>(ParseError::Failure) ==> value(s + t) == Err::<
            (Seq<u8>, Seq<u8>),
            _,
        >(ParseError::Failure),
    decreases s.len(),
{
    lemma_value_bytes_extends(s, t);
    if let Ok((rest, (_, (_, Some(_))))) = value_bytes(s) {
        crate::grammar::lemma_value_bytes_consumes(s);
        lemma_value_extends(rest, t);
    }
}

/// A header that was recognized is the same header after appending, and
/// input that cannot begin a header still cannot.
pub proof fn lemma_header_extends(s: Seq<u8>, t: Seq<u8>)
    ensures
        header(s) matches Ok((rest, found)) ==> header(s + t) == Ok::<_, ParseError>(
            (rest + t, found),
        ),
        header(s) == Err::<(Seq<u8>, crate::types::HeaderSpec), _>(ParseError::Failure)
            ==> header(s + t) == Err::<(Seq<u8>, crate::types::HeaderSpec), _>(
            ParseError::Failure,
        ),
{
    reveal(header);
    lemma_until_extends(s, t, at_colon());
    if s.len() > 0 {
        assert((s + t)[0] == s[0]);
    }
    if let Ok((rest, _)) = name(s) {
        lemma_tag_extends(seq![COLON], rest, t);
        if let Ok((rest, _)) = tag_result(seq![COLON], rest, true) {
            lemma_spaces_extend(rest, t);
            if let Ok((rest, _)) = spaces0(rest) {
                lemma_value_extends(rest, t);
            }
        }
    }
}

} // verus!
