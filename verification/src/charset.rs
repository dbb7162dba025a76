//! The byte classes that structure a header section, and the length of the
//! run of bytes that precedes the first byte of a class.

use vstd::prelude::*;

verus! {

/// Line feed.
pub const LF: u8 = 0x0a;

/// Carriage return.
pub const CR: u8 = 0x0d;

/// Space.
pub const SP: u8 = 0x20;

/// Horizontal tab.
pub const HT: u8 = 0x09;

/// The byte that ends a header name.
pub const COLON: u8 = 0x3a;

/// Whether `c` is one of the two bytes that line terminators are made of.
pub open spec fn eol_byte(c: u8) -> bool {
    c == CR || c == LF
}

/// Whether `c` is horizontal whitespace: a space or a tab.
pub open spec fn space_byte(c: u8) -> bool {
    c == SP || c == HT
}

/// Test if the byte is CR or LF.
#[verifier::when_used_as_spec(eol_byte)]
pub fn is_eol(c: u8) -> (b: bool)
    ensures
        b == eol_byte(c),
{
    c == CR || c == LF
}

/// Test if the byte is a space or a horizontal tab.
#[verifier::when_used_as_spec(space_byte)]
pub fn is_space(c: u8) -> (b: bool)
    ensures
        b == space_byte(c),
{
    c == SP || c == HT
}

/// Test if the byte is the colon that separates a name from its value.
pub fn is_colon(c: u8) -> (b: bool)
    ensures
        b == (c == COLON),
{
    c == COLON
}

/// The number of bytes of `s` that precede its first byte satisfying `stop`,
/// or the length of `s` where no byte does.
pub open spec fn span(s: Seq<u8>, stop: spec_fn(u8) -> bool) -> nat
    decreases s.len(),
{
    if s.len() == 0 || stop(s[0]) {
        0
    } else {
        1 + span(s.skip(1), stop)
    }
}

/// Whether `n` is the position of the first byte of `s` that satisfies
/// `stop`, or the length of `s` where there is none.
pub open spec fn is_span(s: Seq<u8>, stop: spec_fn(u8) -> bool, n: int) -> bool {
    &&& 0 <= n <= s.len()
    &&& forall|i: int| 0 <= i < n ==> !stop(#[trigger] s[i])
    &&& n < s.len() ==> stop(s[n])
}

/// `span` stops at the first byte satisfying `stop` and not before.
pub proof fn lemma_span(s: Seq<u8>, stop: spec_fn(u8) -> bool)
    ensures
        is_span(s, stop, span(s, stop) as int),
    decreases s.len(),
{
    if s.len() == 0 || stop(s[0]) {
    } else {
        let tail = s.skip(1);
        lemma_span(tail, stop);
        let n = span(s, stop) as int;
        assert forall|i: int| 0 <= i < n implies !stop(#[trigger] s[i]) by {
            if i > 0 {
                assert(s[i] == tail[i - 1]);
            }
        }
        if n < s.len() {
            assert(s[n] == tail[n - 1]);
        }
    }
}

/// Only one position can be the span of `s`.
pub proof fn lemma_span_unique(s: Seq<u8>, stop: spec_fn(u8) -> bool, n: int)
    requires
        is_span(s, stop, n),
    ensures
        span(s, stop) == n,
{
    lemma_span(s, stop);
    let m = span(s, stop) as int;
    if m < n {
        assert(!stop(s[m]));
    } else if n < m {
        assert(!stop(s[n]));
    }
}

} // verus!
