use vstd::prelude::*;
use crate::version::number::string_push_str;

verus! {

/// What went wrong while parsing a version or a version range.
#[derive(Debug, Clone, Copy, PartialEq, Eq, Structural)]
pub enum Inner {
    VersionSegmentTooBig,
    UnexpectedEnd,
    InvalidChar(char),
}

/// The error of every version and range parser of this crate.
#[derive(Debug, Clone, Copy, PartialEq, Eq, Structural)]
pub struct ParseRangeError {
    pub inner: Inner,
}

impl ParseRangeError {
    pub open spec fn too_big_spec() -> Self {
        ParseRangeError { inner: Inner::VersionSegmentTooBig }
    }

    pub open spec fn invalid_char_spec(c: char) -> Self {
        ParseRangeError { inner: Inner::InvalidChar(c) }
    }

    pub open spec fn unexpected_end_spec() -> Self {
        ParseRangeError { inner: Inner::UnexpectedEnd }
    }

    pub fn too_big() -> (r: Self)
        ensures
            r.inner == Inner::VersionSegmentTooBig,
    {
        Self { inner: Inner::VersionSegmentTooBig }
    }

    pub fn invalid_char(c: char) -> (r: Self)
        ensures
            r.inner == Inner::InvalidChar(c),
    {
        Self { inner: Inner::InvalidChar(c) }
    }

    pub fn unexpected_end() -> (r: Self)
        ensures
            r.inner == Inner::UnexpectedEnd,
    {
        Self { inner: Inner::UnexpectedEnd }
    }
}

/// The text `Debug` writes for a character: quoted, with escapes.
pub uninterp spec fn char_debug_text(c: char) -> Seq<char>;

/// `format!("{:?}", c)` for a character.
/// Claimed: the `Debug` text of `c`, which depends on `c` alone.
#[verifier::external_body]
fn char_debug(c: char) -> (r: String)
    ensures
        r@ == char_debug_text(c),
{
    format!("{:?}", c)
}

impl ParseRangeError {
    /// The text `Display` writes.
    pub fn to_string(&self) -> (r: String)
        ensures
            r@ == match self.inner {
                Inner::VersionSegmentTooBig => "version segment too big"@,
                Inner::UnexpectedEnd => "unexpected end"@,
                Inner::InvalidChar(c) => "invalid char: "@ + char_debug_text(c),
            },
    {
        let mut out = String::new();
        match self.inner {
            Inner::VersionSegmentTooBig => string_push_str(&mut out, "version segment too big"),
            Inner::UnexpectedEnd => string_push_str(&mut out, "unexpected end"),
            Inner::InvalidChar(c) => {
                string_push_str(&mut out, "invalid char: ");
                string_push_str(&mut out, char_debug(c).as_str());
            },
        }
        out
    }
}

} // verus!
