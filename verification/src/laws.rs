//! Properties of the grammar that relate several parses to each other.

use crate::charset::{eol_byte, lemma_span, space_byte, COLON, CR, LF};
use crate::extension::lemma_header_extends;
use crate::grammar::{
    at_colon, at_eol, at_non_space, continuation, header, headers, lemma_header_consumes,
    terminator, until, value, value_bytes, Block,
};
use crate::shape::{
    is_terminator, lemma_continuation_shape, lemma_final_terminator, lemma_first_bytes_differ,
    lemma_header_shape, lemma_prefix_behind_byte, lemma_terminator_shape,
};
use crate::types::{HeaderSpec, ParseError};
use vstd::prelude::*;

verus! {

/// Whether `s` is a whole header section and nothing more: its parse finds
/// the headers `found`, then the blank line that closes the section, whose
/// terminator is `end`, and leaves no input.
pub open spec fn is_section(s: Seq<u8>, found: Seq<HeaderSpec>, end: Seq<u8>) -> bool {
    headers(s) == Ok::<_, ParseError>(
        Block { headers: found, closing: Some(end), rest: Seq::empty() },
    )
}

/// The part of the law on trailing bytes that concerns what follows the
/// first header.
proof fn lemma_continuation_with_trailing_bytes(
    x: Seq<u8>,
    found: Seq<HeaderSpec>,
    end: Seq<u8>,
    t: Seq<u8>,
)
    requires
        continuation(x) == Ok::<_, ParseError>(
            Block { headers: found, closing: Some(end), rest: Seq::empty() },
        ),
        terminator(end + t, false) == Ok::<_, ParseError>((t, end)),
    ensures
        continuation(x + t) == Ok::<_, ParseError>(
            Block { headers: found, closing: Some(end), rest: t },
        ),
    decreases x.len(),
{
    lemma_final_terminator(x);
    lemma_terminator_shape(x, false);
    match terminator(x, false) {
        Ok((rest, _)) => {
            assert(x =~= end);
        },
        Err(_) => {
            lemma_header_consumes(x);
            lemma_header_extends(x, t);
            if let Ok((rest, h)) = header(x) {
                lemma_final_terminator(x + t);
                assert((x + t)[0] == x[0]);
                let tail = continuation(rest)->Ok_0.headers;
                assert(found == seq![h] + tail);
                lemma_continuation_with_trailing_bytes(rest, tail, end, t);
            }
        },
    }
}

/// Bytes behind a header section do not change how the section is parsed.
///
/// Let `s` be a whole header section: its parse reaches the blank line that
/// closes it and leaves nothing. Then `s` followed by any bytes `t` yields
/// the same headers, the section is seen to be closed, and the remainder is
/// exactly `t`.
///
/// One kind of `t` is left out, because the end of the input is final for
/// the terminator of the closing blank line: bytes that make this terminator
/// a longer one, as `LF` does behind a section that ends in a single `CR`.
pub proof fn lemma_trailing_bytes(s: Seq<u8>, found: Seq<HeaderSpec>, end: Seq<u8>, t: Seq<u8>)
    requires
        is_section(s, found, end),
        terminator(end + t, false) == Ok::<_, ParseError>((t, end)),
    ensures
        headers(s + t) == Ok::<_, ParseError>(
            Block { headers: found, closing: Some(end), rest: t },
        ),
{
    lemma_header_extends(s, t);
    if let Ok((rest, h)) = header(s) {
        let tail = continuation(rest)->Ok_0.headers;
        assert(found == seq![h] + tail);
        lemma_continuation_with_trailing_bytes(rest, tail, end, t);
    }
}

/// The part of the law on split feeds that concerns what follows the first
/// header: `x` is what the first feed holds behind a header, `y` the second
/// feed.
proof fn lemma_continuation_of_split_feed(
    x: Seq<u8>,
    y: Seq<u8>,
    found: Seq<HeaderSpec>,
    end: Seq<u8>,
)
    requires
        continuation(x + y) == Ok::<_, ParseError>(
            Block { headers: found, closing: Some(end), rest: Seq::empty() },
        ),
        x.len() > 0,
        end.len() <= y.len(),
    ensures
        ({
            &&& continuation(x) matches Ok(first)
            &&& first.closing.is_none()
            &&& headers(first.rest + y) matches Ok(second)
            &&& is_section(first.rest + y, second.headers, end)
            &&& first.headers + second.headers == found
        }),
    decreases x.len(),
{
    let z = x + y;
    lemma_final_terminator(z);
    lemma_final_terminator(x);
    lemma_terminator_shape(z, false);
    assert(z[0] == x[0]);
    match terminator(z, false) {
        Ok((rest, _)) => {
            assert(z =~= end);
        },
        Err(_) => {
            lemma_header_consumes(z);
            lemma_header_consumes(x);
            lemma_header_extends(x, y);
            lemma_header_shape(x);
            let (rest, h) = header(z)->Ok_0;
            let tail = continuation(rest)->Ok_0.headers;
            assert(found == seq![h] + tail);
            match header(x) {
                Ok((left, _)) => {
                    lemma_continuation_of_split_feed(left, y, tail, end);
                    let first = continuation(left)->Ok_0;
                    let second = headers(first.rest + y)->Ok_0;
                    assert((seq![h] + first.headers) + second.headers =~= seq![h] + (
                    first.headers + second.headers));
                },
                Err(_) => {
                    assert(Seq::<HeaderSpec>::empty() + found =~= found);
                    assert(headers(z) == Ok::<_, ParseError>(
                        Block { headers: found, closing: Some(end), rest: Seq::empty() },
                    ));
                },
            }
        },
    }
}

/// A section that arrives in two feeds is parsed as if it had arrived in
/// one.
///
/// Let `s` be a whole header section and `k` a position in it. The parse of
/// the first `k` bytes either asks for more bytes, having found no header,
/// or returns some headers and a remainder without having seen the section
/// closed. In the second case the parse of that remainder followed by the
/// bytes from `k` on finds the closing blank line and leaves nothing, and
/// the headers of the two parses, in this order, are the headers of `s`.
///
/// The positions behind the first byte of the closing terminator and in
/// front of its last byte are left out. For that terminator the end of the
/// input is final, so that a first feed that ends inside it holds a shorter
/// terminator, and the section is taken to be closed there. Where `k` is
/// the length of `s`, the first parse is the parse of `s`.
pub proof fn lemma_split_feed(s: Seq<u8>, found: Seq<HeaderSpec>, end: Seq<u8>, k: int)
    requires
        is_section(s, found, end),
        0 <= k <= s.len() - end.len(),
    ensures
        match headers(s.take(k)) {
            Err(e) => e == ParseError::Incomplete,
            Ok(first) => {
                &&& first.closing.is_none()
                &&& headers(first.rest + s.skip(k)) matches Ok(second)
                &&& is_section(first.rest + s.skip(k), second.headers, end)
                &&& first.headers + second.headers == found
            },
        },
{
    let a = s.take(k);
    let b = s.skip(k);
    assert(a + b =~= s);
    lemma_header_extends(a, b);
    lemma_header_shape(a);
    let (rest, h) = header(s)->Ok_0;
    let tail = continuation(rest)->Ok_0.headers;
    assert(found == seq![h] + tail);
    if let Ok((left, _)) = header(a) {
        lemma_continuation_of_split_feed(left, b, tail, end);
        let first = continuation(left)->Ok_0;
        let second = headers(first.rest + b)->Ok_0;
        assert((seq![h] + first.headers) + second.headers =~= seq![h] + (first.headers
            + second.headers));
    }
}

/// What a later call yields for the remainder `rest` of an earlier call,
/// followed by the bytes `t` that have arrived since: the outcome of that
/// call, or, where it asks for more bytes, its whole input as the remainder.
pub open spec fn resumed(rest: Seq<u8>, t: Seq<u8>) -> Result<Block, ParseError> {
    match headers(rest + t) {
        Ok(block) => Ok(block),
        Err(_) => Ok(Block { headers: Seq::empty(), closing: None, rest: rest + t }),
    }
}

/// The part of the law on resuming that concerns what follows the first
/// header.
proof fn lemma_continuation_resumes(x: Seq<u8>, t: Seq<u8>)
    requires
        x.len() > 0,
        !space_byte(x[0]),
        continuation(x) matches Ok(first) && first.closing.is_none(),
    ensures
        continuation(x + t) == crate::grammar::after(
            continuation(x)->Ok_0.headers,
            resumed(continuation(x)->Ok_0.rest, t),
        ),
    decreases x.len(),
{
    let first = continuation(x)->Ok_0;
    lemma_final_terminator(x);
    lemma_final_terminator(x + t);
    assert((x + t)[0] == x[0]);
    lemma_header_shape(x);
    lemma_header_shape(x + t);
    lemma_header_extends(x, t);
    lemma_header_consumes(x);
    lemma_header_consumes(x + t);
    lemma_continuation_shape(x + t);
    match header(x) {
        Ok((rest, h)) => {
            let tail = continuation(rest)->Ok_0;
            lemma_continuation_resumes(rest, t);
            assert(first.headers == seq![h] + tail.headers);
            if let Ok(later) = resumed(tail.rest, t) {
                assert(seq![h] + (tail.headers + later.headers) =~= (seq![h] + tail.headers)
                    + later.headers);
            }
        },
        Err(_) => {
            if let Ok(later) = resumed(x, t) {
                assert(Seq::<HeaderSpec>::empty() + later.headers =~= later.headers);
            }
        },
    }
}

/// A parse that stopped in front of an incomplete header can be resumed.
///
/// Let the parse of `s` have returned some headers and a remainder without
/// having seen the section closed, and let the bytes `t` arrive. Then the
/// parse of `s` followed by `t` yields the headers of the first parse
/// followed by what a call on the remainder followed by `t` yields. This
/// holds for each feed in turn, however many there are.
pub proof fn lemma_parse_resumes(s: Seq<u8>, t: Seq<u8>)
    requires
        headers(s) matches Ok(first) && first.closing.is_none(),
    ensures
        headers(s + t) == crate::grammar::after(
            headers(s)->Ok_0.headers,
            resumed(headers(s)->Ok_0.rest, t),
        ),
{
    let first = headers(s)->Ok_0;
    lemma_header_extends(s, t);
    lemma_header_shape(s);
    if let Ok((rest, h)) = header(s) {
        let tail = continuation(rest)->Ok_0;
        lemma_continuation_resumes(rest, t);
        assert(first.headers == seq![h] + tail.headers);
        if let Ok(later) = resumed(tail.rest, t) {
            assert(seq![h] + (tail.headers + later.headers) =~= (seq![h] + tail.headers)
                + later.headers);
        }
    }
}

/// Each of the four forms is recognized as itself in front of any bytes
/// `next`, unless it is the beginning of a longer form that `next`
/// completes, or, where the end of the input is provisional, that `next`
/// could still complete.
pub proof fn lemma_terminator_forms(next: Seq<u8>, streaming: bool)
    ensures
        terminator(seq![LF, CR, CR, LF] + next, streaming) == Ok::<_, ParseError>(
            (next, seq![LF, CR, CR, LF]),
        ),
        terminator(seq![CR, LF] + next, streaming) == Ok::<_, ParseError>((next, seq![CR, LF])),
        terminator(seq![LF] + next, streaming) == Ok::<_, ParseError>((next, seq![LF])) <==> !(
        seq![CR, CR, LF].is_prefix_of(next) || (streaming && next.is_prefix_of(
            seq![CR, CR, LF],
        ))),
        terminator(seq![CR] + next, streaming) == Ok::<_, ParseError>((next, seq![CR])) <==> !(
        seq![LF].is_prefix_of(next) || (streaming && next.len() == 0)),
{
    let l4 = seq![LF, CR, CR, LF];
    let l3 = seq![CR, CR, LF];
    let l2 = seq![CR, LF];
    let l1 = seq![LF];
    let c1 = seq![CR];
    assert((l4 + next).subrange(0, 4) =~= l4 && (l4 + next).skip(4) =~= next);
    assert((l2 + next).subrange(0, 2) =~= l2 && (l2 + next).skip(2) =~= next);
    assert((l1 + next).subrange(0, 1) =~= l1 && (l1 + next).skip(1) =~= next);
    assert((c1 + next).subrange(0, 1) =~= c1 && (c1 + next).skip(1) =~= next);
    lemma_first_bytes_differ(l4, l2 + next);
    lemma_first_bytes_differ(l4, c1 + next);
    lemma_first_bytes_differ(l1, c1 + next);
    lemma_first_bytes_differ(l2, l1 + next);
    assert(l4 =~= l1 + l3);
    lemma_prefix_behind_byte(LF, l3, next);
    lemma_prefix_behind_byte(LF, next, l3);
    assert(l2 =~= c1 + l1);
    lemma_prefix_behind_byte(CR, l1, next);
    lemma_prefix_behind_byte(CR, next, l1);
    if next.len() > 0 && next.is_prefix_of(l1) {
        assert(l1 =~= next.subrange(0, 1));
    }
    if next.len() == 0 {
        assert(next =~= l1.subrange(0, 0));
    }
}

/// A line whose content holds no CR and no LF ends at its terminator: the
/// content is what `until` takes, and the terminator is what it leaves.
proof fn lemma_line_content(line: Seq<u8>, end: Seq<u8>, next: Seq<u8>)
    requires
        is_terminator(end),
        forall|i: int| 0 <= i < line.len() ==> !eol_byte(#[trigger] line[i]),
    ensures
        until(line + end + next, at_eol()) == Ok::<_, ParseError>((end + next, line)),
{
    let s = line + end + next;
    let n = line.len() as int;
    assert(s[n] == end[0]);
    assert forall|i: int| 0 <= i < n implies !at_eol()(#[trigger] s[i]) by {
        assert(s[i] == line[i]);
    }
    crate::charset::lemma_span_unique(s, at_eol(), n);
    assert(s.skip(n) =~= end + next);
    assert(s.take(n) =~= line);
}

/// Any of the four terminators ends a logical line, whichever terminators
/// ended the lines before it.
///
/// Let `line` hold no CR and no LF, let `end` be one of the four forms, and
/// let `next` begin with a byte that is not horizontal whitespace and leave
/// `end` as it is. Then the value at the beginning of `line`, `end`, `next`
/// is `line`, and `next` is what is left.
pub proof fn lemma_any_terminator_ends_a_value(line: Seq<u8>, end: Seq<u8>, next: Seq<u8>)
    requires
        is_terminator(end),
        forall|i: int| 0 <= i < line.len() ==> !eol_byte(#[trigger] line[i]),
        terminator(end + next, true) == Ok::<_, ParseError>((next, end)),
        next.len() > 0,
        !space_byte(next[0]),
    ensures
        value(line + end + next) == Ok::<_, ParseError>((next, line)),
{
    lemma_line_content(line, end, next);
    lemma_span(next, at_non_space());
}

/// A terminator is left as it is by a byte behind it that is neither CR
/// nor LF.
pub proof fn lemma_terminator_before_other_byte(end: Seq<u8>, rest: Seq<u8>, streaming: bool)
    requires
        is_terminator(end),
        rest.len() > 0,
        !eol_byte(rest[0]),
    ensures
        terminator(end + rest, streaming) == Ok::<_, ParseError>((rest, end)),
{
    lemma_terminator_forms(rest, streaming);
    lemma_first_bytes_differ(seq![LF], rest);
    lemma_first_bytes_differ(seq![CR, CR, LF], rest);
}

/// A run of horizontal whitespace in front of a byte of another kind is
/// what `spaces1` takes.
proof fn lemma_pad(pad: Seq<u8>, next: Seq<u8>)
    requires
        pad.len() > 0,
        forall|i: int| 0 <= i < pad.len() ==> space_byte(#[trigger] pad[i]),
        next.len() > 0,
        !space_byte(next[0]),
    ensures
        crate::grammar::spaces1(pad + next) == Ok::<_, ParseError>((next, pad)),
{
    let s = pad + next;
    let n = pad.len() as int;
    assert(s[n] == next[0]);
    assert(s[0] == pad[0]);
    assert forall|i: int| 0 <= i < n implies !at_non_space()(#[trigger] s[i]) by {
        assert(s[i] == pad[i]);
    }
    crate::charset::lemma_span_unique(s, at_non_space(), n);
    assert(s.skip(n) =~= next);
    assert(s.take(n) =~= pad);
}

/// Any of the four terminators begins a fold where horizontal whitespace
/// follows it, whichever terminators ended the lines before it.
///
/// Let `line` hold no CR and no LF, let `end` be one of the four forms, let
/// `pad` be one or more spaces and tabs, and let `next` begin with a byte
/// of another kind. Then the value at the beginning of `line`, `end`,
/// `pad`, `next` is `line`, one space, and the value at the beginning of
/// `next`.
pub proof fn lemma_any_terminator_folds_a_value(
    line: Seq<u8>,
    end: Seq<u8>,
    pad: Seq<u8>,
    next: Seq<u8>,
)
    requires
        is_terminator(end),
        forall|i: int| 0 <= i < line.len() ==> !eol_byte(#[trigger] line[i]),
        pad.len() > 0,
        forall|i: int| 0 <= i < pad.len() ==> space_byte(#[trigger] pad[i]),
        next.len() > 0,
        !space_byte(next[0]),
    ensures
        value(line + end + pad + next) == crate::grammar::joined(line, value(next)),
{
    let s = line + end + pad + next;
    assert(s =~= line + end + (pad + next));
    lemma_line_content(line, end, pad + next);
    assert((pad + next)[0] == pad[0]);
    lemma_terminator_before_other_byte(end, pad + next, true);
    lemma_pad(pad, next);
    assert(value_bytes(s) == Ok::<_, ParseError>((next, (line, (end, Some(pad))))));
}

/// Bytes that hold no colon and do not begin with horizontal whitespace
/// are the name in front of a colon.
proof fn lemma_name_from_parts(n: Seq<u8>, rest: Seq<u8>)
    requires
        forall|i: int| 0 <= i < n.len() ==> #[trigger] n[i] != COLON,
        n.len() > 0 ==> !space_byte(n[0]),
    ensures
        crate::grammar::name(n + seq![COLON] + rest) == Ok::<_, ParseError>(
            (seq![COLON] + rest, n),
        ),
{
    let s = n + seq![COLON] + rest;
    let k = n.len() as int;
    assert(s[k] == COLON);
    assert forall|i: int| 0 <= i < k implies !at_colon()(#[trigger] s[i]) by {
        assert(s[i] == n[i]);
    }
    if k > 0 {
        assert(s[0] == n[0]);
    }
    crate::charset::lemma_span_unique(s, at_colon(), k);
    assert(s.skip(k) =~= seq![COLON] + rest);
    assert(s.take(k) =~= n);
}

/// A colon, spaces and tabs, and a byte of another kind behind them are a
/// separator in front of that byte.
proof fn lemma_separator_from_parts(pad: Seq<u8>, rest: Seq<u8>)
    requires
        forall|i: int| 0 <= i < pad.len() ==> space_byte(#[trigger] pad[i]),
        rest.len() > 0,
        !space_byte(rest[0]),
    ensures
        crate::grammar::separator(seq![COLON] + (pad + rest)) == Ok::<_, ParseError>(
            (rest, (seq![COLON], pad)),
        ),
{
    let s = seq![COLON] + (pad + rest);
    let behind_colon = pad + rest;
    assert(s.subrange(0, 1) =~= seq![COLON]);
    assert(s.skip(1) =~= behind_colon);
    let m = pad.len() as int;
    assert(behind_colon[m] == rest[0]);
    assert forall|i: int| 0 <= i < m implies !at_non_space()(#[trigger] behind_colon[i]) by {
        assert(behind_colon[i] == pad[i]);
    }
    crate::charset::lemma_span_unique(behind_colon, at_non_space(), m);
    assert(behind_colon.skip(m) =~= rest);
    assert(behind_colon.take(m) =~= pad);
}

/// A header that is put together from its parts is read back as it was.
///
/// Let `n` hold no colon and not begin with horizontal whitespace, let
/// `pad` be spaces and tabs, of which there may be none, and let `rest`
/// begin with a byte of another kind. Then the header at the beginning of
/// `n`, a colon, `pad`, `rest` has the name `n` and the value at the
/// beginning of `rest`.
pub proof fn lemma_header_from_parts(n: Seq<u8>, pad: Seq<u8>, rest: Seq<u8>)
    requires
        forall|i: int| 0 <= i < n.len() ==> #[trigger] n[i] != COLON,
        n.len() > 0 ==> !space_byte(n[0]),
        forall|i: int| 0 <= i < pad.len() ==> space_byte(#[trigger] pad[i]),
        rest.len() > 0,
        !space_byte(rest[0]),
    ensures
        header(n + seq![COLON] + pad + rest) == match value(rest) {
            Ok((left, v)) => Ok::<_, ParseError>((left, HeaderSpec::plain(n, v))),
            Err(e) => Err(e),
        },
{
    reveal(header);
    assert(n + seq![COLON] + pad + rest =~= n + seq![COLON] + (pad + rest));
    lemma_name_from_parts(n, pad + rest);
    lemma_separator_from_parts(pad, rest);
}

/// Input that begins with horizontal whitespace is a continuation line. It
/// is never taken for a header: not by `name`, not by `header`, and not by
/// `headers`, which all fail on it whatever follows.
pub proof fn lemma_continuation_line_is_no_header(s: Seq<u8>)
    requires
        s.len() > 0,
        space_byte(s[0]),
    ensures
        crate::grammar::name(s) == Err::<(Seq<u8>, Seq<u8>), _>(ParseError::Failure),
        header(s) == Err::<(Seq<u8>, HeaderSpec), _>(ParseError::Failure),
        headers(s) == Err::<Block, _>(ParseError::Failure),
{
    reveal(header);
}

} // verus!
