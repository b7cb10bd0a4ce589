use vstd::prelude::*;
use crate::version::error::ParseRangeError;

verus! {

/// How a parser of this crate ends on a text: with a value and the rest of the text, with an
/// error, or by reaching an identifier that `semver` refuses.
pub enum Step<T> {
    Parsed(T, Seq<char>),
    Failed(ParseRangeError),
    Rejected,
}

/// Why an exec parser stopped without a value.
#[derive(Debug, Clone, Copy, PartialEq, Eq, Structural)]
pub enum ParseStop {
    /// The text is malformed.
    Error(ParseRangeError),
    /// The text holds a prerelease or build identifier that `semver` refuses.
    Rejected,
}

} // verus!
