//! The records that a parse produces, and the two ways in which a recognizer
//! can decline its input.

use vstd::prelude::*;

verus! {

/// Why a recognizer did not produce a result.
#[derive(Debug, Clone, Copy, PartialEq, Eq, Structural)]
pub enum ParseError {
    /// The bytes seen so far are a valid beginning, but too few to decide.
    /// The caller retries from the same position once more bytes have arrived.
    Incomplete,
    /// No continuation of the bytes seen so far can be accepted.
    Failure,
}

/// The name of a header: the bytes in front of the colon.
#[derive(Debug, PartialEq)]
pub struct Name {
    pub name: Vec<u8>,
    /// Reserved for a later classification pass; always zero after a parse.
    pub flags: u8,
}

/// The value of a header, with folded lines merged into one logical line.
#[derive(Debug, PartialEq)]
pub struct Value {
    pub value: Vec<u8>,
    /// Reserved for a later classification pass; always zero after a parse.
    pub flags: u8,
}

/// One header: a name and its value.
#[derive(Debug, PartialEq)]
pub struct Header {
    pub name: Name,
    pub value: Value,
}

/// What a [`Header`] holds, as mathematical values.
pub struct HeaderSpec {
    pub name: Seq<u8>,
    pub name_flags: u8,
    pub value: Seq<u8>,
    pub value_flags: u8,
}

impl HeaderSpec {
    /// The header that a parse yields for the given name and value bytes.
    pub open spec fn plain(name: Seq<u8>, value: Seq<u8>) -> HeaderSpec {
        HeaderSpec { name, name_flags: 0, value, value_flags: 0 }
    }
}

impl View for Header {
    type V = HeaderSpec;

    open spec fn view(&self) -> HeaderSpec {
        HeaderSpec {
            name: self.name.name@,
            name_flags: self.name.flags,
            value: self.value.value@,
            value_flags: self.value.flags,
        }
    }
}

/// The headers of `v`, in order, as mathematical values.
pub open spec fn header_views(v: Seq<Header>) -> Seq<HeaderSpec> {
    Seq::new(v.len(), |i: int| v[i]@)
}

} // verus!
