//! What the recognized pieces look like: the invariants of names, values
//! and remainders, and the one way in which a parse can fail.

use crate::charset::{eol_byte, lemma_span, space_byte, COLON, CR, LF};
use crate::grammar::{
    at_colon, at_eol, at_non_space, continuation, eol, folding, folding_or_eol, header, headers,
    name, spaces0, terminator, until, value, value_bytes, Block,
};
use crate::types::{HeaderSpec, ParseError};
use vstd::prelude::*;

verus! {

/// Whether `end` is one of the four forms of a line terminator.
pub open spec fn is_terminator(end: Seq<u8>) -> bool {
    ||| end == seq![LF, CR, CR, LF]
    ||| end == seq![CR, LF]
    ||| end == seq![LF]
    ||| end == seq![CR]
}

/// Whether `rest` is what is left of `s` when some bytes were taken from
/// its beginning.
pub open spec fn is_rest_of(rest: Seq<u8>, s: Seq<u8>) -> bool {
    rest.len() <= s.len() && rest == s.skip(s.len() - rest.len())
}

/// Sequences that begin with different bytes are not beginnings of each
/// other.
pub proof fn lemma_first_bytes_differ(a: Seq<u8>, b: Seq<u8>)
    requires
        a.len() > 0,
        b.len() > 0,
        a[0] != b[0],
    ensures
        !a.is_prefix_of(b),
        !b.is_prefix_of(a),
{
    if a.is_prefix_of(b) {
        assert(a[0] == b.subrange(0, a.len() as int)[0]);
    }
    if b.is_prefix_of(a) {
        assert(b[0] == a.subrange(0, b.len() as int)[0]);
    }
}

/// Behind a common first byte, one sequence is a beginning of another
/// exactly when it is one without that byte.
pub proof fn lemma_prefix_behind_byte(c: u8, a: Seq<u8>, b: Seq<u8>)
    ensures
        (seq![c] + a).is_prefix_of(seq![c] + b) <==> a.is_prefix_of(b),
{
    let n = a.len() as int;
    if a.is_prefix_of(b) {
        assert((seq![c] + b).subrange(0, n + 1) =~= seq![c] + b.subrange(0, n));
    }
    if (seq![c] + a).is_prefix_of(seq![c] + b) {
        assert(b.subrange(0, n) =~= (seq![c] + b).subrange(0, n + 1).skip(1));
        assert(a =~= (seq![c] + a).skip(1));
    }
}

/// What is left of what is left of `s` is left of `s`.
proof fn lemma_rest_of_rest(inner: Seq<u8>, outer: Seq<u8>, s: Seq<u8>)
    requires
        is_rest_of(inner, outer),
        is_rest_of(outer, s),
    ensures
        is_rest_of(inner, s),
{
    assert(inner =~= s.skip(s.len() - inner.len()));
}

/// What `until` takes and what it leaves make up its input.
proof fn lemma_until_shape(s: Seq<u8>, stop: spec_fn(u8) -> bool)
    ensures
        until(s, stop) matches Ok((rest, run)) ==> {
            &&& s == run + rest
            &&& is_rest_of(rest, s)
            &&& rest.len() > 0
            &&& stop(rest[0])
            &&& forall|i: int| 0 <= i < run.len() ==> !stop(#[trigger] run[i])
        },
{
    lemma_span(s, stop);
    if let Ok((rest, run)) = until(s, stop) {
        assert(s =~= run + rest);
    }
}

/// A terminator that was recognized is one of the four forms, and it is
/// the beginning of the input.
pub proof fn lemma_terminator_shape(s: Seq<u8>, streaming: bool)
    ensures
        terminator(s, streaming) matches Ok((rest, end)) ==> is_terminator(end) && s == end + rest
            && is_rest_of(rest, s),
{
    if let Ok((rest, end)) = terminator(s, streaming) {
        assert(s =~= end + rest);
    }
}

/// Where the end of the input is final, a terminator is recognized exactly
/// when the input begins with CR or LF.
pub proof fn lemma_final_terminator(s: Seq<u8>)
    ensures
        terminator(s, false) is Ok <==> s.len() > 0 && eol_byte(s[0]),
        terminator(s, false) matches Err(e) ==> e == ParseError::Failure,
{
    if s.len() > 0 {
        if s[0] == LF {
            assert(seq![LF] =~= s.subrange(0, 1));
        } else if s[0] == CR {
            assert(seq![CR] =~= s.subrange(0, 1));
        } else {
            lemma_first_bytes_differ(seq![LF, CR, CR, LF], s);
            lemma_first_bytes_differ(seq![CR, LF], s);
            lemma_first_bytes_differ(seq![LF], s);
            lemma_first_bytes_differ(seq![CR], s);
        }
    }
}

/// Where the end of the input is provisional, input that begins with CR or
/// LF holds a terminator or the beginning of one.
pub proof fn lemma_terminator_at_eol(s: Seq<u8>)
    requires
        s.len() > 0,
        eol_byte(s[0]),
    ensures
        terminator(s, true) != Err::<(Seq<u8>, Seq<u8>), _>(ParseError::Failure),
{
    if s[0] == LF {
        assert(seq![LF] =~= s.subrange(0, 1));
    } else {
        assert(seq![CR] =~= s.subrange(0, 1));
    }
}

/// The two readings of the end of the input agree wherever the provisional
/// one decides: a terminator that it recognizes, the final reading
/// recognizes too, and input that it rejects, the final reading rejects.
pub proof fn lemma_readings_agree(s: Seq<u8>)
    ensures
        terminator(s, true) is Ok ==> terminator(s, false) == terminator(s, true),
        terminator(s, true) == Err::<(Seq<u8>, Seq<u8>), _>(ParseError::Failure) ==> terminator(
            s,
            false,
        ) == terminator(s, true),
{
}

/// How a line ends is found by trying a fold first and a plain end of line
/// where that does not succeed.
pub proof fn lemma_fold_or_else_eol(s: Seq<u8>)
    ensures
        folding_or_eol(s) == match folding(s) {
            Ok((rest, (end, fold))) => Ok::<_, ParseError>((rest, (end, Some(fold)))),
            Err(_) => match eol(s) {
                Ok((rest, end)) => Ok((rest, (end, None))),
                Err(e) => Err(e),
            },
        },
{
}

/// A physical line holds no CR and no LF, and reading it never fails.
proof fn lemma_value_bytes_shape(s: Seq<u8>)
    ensures
        value_bytes(s) != Err::<(Seq<u8>, (Seq<u8>, (Seq<u8>, Option<Seq<u8>>))), _>(
            ParseError::Failure,
        ),
        value_bytes(s) matches Ok((rest, (line, (_, fold)))) ==> {
            &&& is_rest_of(rest, s)
            &&& rest.len() < s.len()
            &&& forall|i: int| 0 <= i < line.len() ==> !eol_byte(#[trigger] line[i])
            &&& fold.is_none() ==> rest.len() > 0 && !space_byte(rest[0])
        },
{
    lemma_until_shape(s, at_eol());
    if let Ok((rest1, line)) = until(s, at_eol()) {
        lemma_terminator_at_eol(rest1);
        lemma_terminator_shape(rest1, true);
        if let Ok((rest2, _)) = terminator(rest1, true) {
            lemma_rest_of_rest(rest2, rest1, s);
            lemma_until_shape(rest2, at_non_space());
            if let Ok((rest3, _)) = crate::grammar::spaces1(rest2) {
                lemma_rest_of_rest(rest3, rest2, s);
            }
        }
    }
}

/// A value holds no CR and no LF. Reading one never fails, and leaves the
/// byte that showed where it ends, which is not horizontal whitespace.
pub proof fn lemma_value_shape(s: Seq<u8>)
    ensures
        value(s) != Err::<(Seq<u8>, Seq<u8>), _>(ParseError::Failure),
        value(s) matches Ok((rest, v)) ==> {
            &&& is_rest_of(rest, s)
            &&& 0 < rest.len() < s.len()
            &&& !space_byte(rest[0])
            &&& forall|i: int| 0 <= i < v.len() ==> !eol_byte(#[trigger] v[i])
        },
    decreases s.len(),
{
    lemma_value_bytes_shape(s);
    if let Ok((rest, (_, (_, Some(_))))) = value_bytes(s) {
        lemma_value_shape(rest);
        if let Ok((last, _)) = value(rest) {
            lemma_rest_of_rest(last, rest, s);
        }
    }
}

/// A name holds no colon and does not begin with horizontal whitespace.
/// Behind it stands the colon.
pub proof fn lemma_name_shape(s: Seq<u8>)
    ensures
        name(s) == Err::<(Seq<u8>, Seq<u8>), _>(ParseError::Failure) <==> s.len() > 0
            && space_byte(s[0]),
        name(s) matches Ok((rest, n)) ==> {
            &&& s == n + rest
            &&& rest.len() > 0
            &&& rest[0] == COLON
            &&& forall|i: int| 0 <= i < n.len() ==> #[trigger] n[i] != COLON
            &&& n.len() > 0 ==> !space_byte(n[0])
        },
{
    lemma_until_shape(s, at_colon());
}

/// The invariants of a header, and the one way in which reading one fails.
///
/// A header fails exactly on input that begins with horizontal whitespace.
/// In a header that was read, the name holds no colon and does not begin
/// with horizontal whitespace, the value holds no CR and no LF, and both
/// flags are zero. What is left of the input begins with a byte that is
/// not horizontal whitespace.
pub proof fn lemma_header_shape(s: Seq<u8>)
    ensures
        header(s) == Err::<(Seq<u8>, HeaderSpec), _>(ParseError::Failure) <==> s.len() > 0
            && space_byte(s[0]),
        header(s) matches Ok((rest, h)) ==> {
            &&& is_rest_of(rest, s)
            &&& 0 < rest.len() < s.len()
            &&& !space_byte(rest[0])
            &&& well_formed(h)
        },
{
    reveal(header);
    lemma_name_shape(s);
    if let Ok((rest1, n)) = name(s) {
        assert(is_rest_of(rest1, s)) by {
            lemma_until_shape(s, at_colon());
        }
        assert(seq![COLON] =~= rest1.subrange(0, 1));
        let rest2 = rest1.skip(1);
        assert(is_rest_of(rest2, rest1));
        lemma_rest_of_rest(rest2, rest1, s);
        lemma_until_shape(rest2, at_non_space());
        if let Ok((rest3, _)) = spaces0(rest2) {
            lemma_rest_of_rest(rest3, rest2, s);
            lemma_value_shape(rest3);
            if let Ok((rest4, _)) = value(rest3) {
                lemma_rest_of_rest(rest4, rest3, s);
            }
        }
    }
}

/// The invariants of a header that a parse yields.
pub open spec fn well_formed(h: HeaderSpec) -> bool {
    &&& forall|i: int| 0 <= i < h.name.len() ==> #[trigger] h.name[i] != COLON
    &&& h.name.len() > 0 ==> !space_byte(h.name[0])
    &&& forall|i: int| 0 <= i < h.value.len() ==> !eol_byte(#[trigger] h.value[i])
    &&& h.name_flags == 0
    &&& h.value_flags == 0
}

/// Whether `block` is as a parse leaves it: each header is well formed, a
/// section that was closed was closed by one of the four terminators, and
/// a section that was not closed was left in front of a header that is
/// incomplete.
pub open spec fn well_formed_block(block: Block) -> bool {
    &&& forall|i: int| 0 <= i < block.headers.len() ==> well_formed(#[trigger] block.headers[i])
    &&& match block.closing {
        Some(end) => is_terminator(end),
        None => header(block.rest) == Err::<(Seq<u8>, HeaderSpec), _>(ParseError::Incomplete),
    }
}

/// Behind a header, a parse does not fail: it finds the closing blank line
/// or stops in front of a header that is incomplete.
pub proof fn lemma_continuation_shape(x: Seq<u8>)
    requires
        x.len() == 0 || !space_byte(x[0]),
    ensures
        continuation(x) matches Ok(block) && well_formed_block(block) && is_rest_of(block.rest, x),
    decreases x.len(),
{
    lemma_terminator_shape(x, false);
    lemma_final_terminator(x);
    lemma_header_shape(x);
    if terminator(x, false) is Err {
        match header(x) {
            Ok((rest, h)) => {
                lemma_continuation_shape(rest);
                let tail = continuation(rest)->Ok_0;
                let block = continuation(x)->Ok_0;
                lemma_rest_of_rest(tail.rest, rest, x);
                assert forall|i: int| 0 <= i < block.headers.len() implies well_formed(
                    #[trigger] block.headers[i],
                ) by {
                    if i > 0 {
                        assert(block.headers[i] == tail.headers[i - 1]);
                    }
                }
            },
            Err(_) => {
                assert(x =~= x.skip(0));
            },
        }
    }
}

/// What a parse of a header block can yield.
///
/// Only the first header can make the parse an error: it is `Incomplete`
/// where the input ends before the first header does, a `Failure` exactly
/// where the input begins with horizontal whitespace, and never an error
/// once the first header was read. A parse that succeeds yields at least
/// one header, consumes at least one byte, and leaves a block that is well
/// formed, with a remainder that is an end of the input.
pub proof fn lemma_headers_shape(s: Seq<u8>)
    ensures
        headers(s) matches Err(e) ==> header(s) == Err::<(Seq<u8>, HeaderSpec), _>(e),
        headers(s) is Ok <==> header(s) is Ok,
        headers(s) == Err::<Block, _>(ParseError::Failure) <==> s.len() > 0 && space_byte(s[0]),
        headers(s) matches Ok(block) ==> {
            &&& block.headers.len() > 0
            &&& well_formed_block(block)
            &&& is_rest_of(block.rest, s)
            &&& block.rest.len() < s.len()
        },
{
    lemma_header_shape(s);
    if let Ok((rest, h)) = header(s) {
        lemma_continuation_shape(rest);
        let tail = continuation(rest)->Ok_0;
        let block = headers(s)->Ok_0;
        lemma_rest_of_rest(tail.rest, rest, s);
        assert forall|i: int| 0 <= i < block.headers.len() implies well_formed(
            #[trigger] block.headers[i],
        ) by {
            if i > 0 {
                assert(block.headers[i] == tail.headers[i - 1]);
            }
        }
    }
}

} // verus!
