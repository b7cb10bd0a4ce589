use vstd::prelude::*;

verus! {

/// A character allowed inside a dot-separated identifier of a prerelease or build text.
pub open spec fn is_ident_char(c: char) -> bool {
    let u = c as u32;
    (0x30 <= u <= 0x39) || (0x61 <= u <= 0x7A) || (0x41 <= u <= 0x5A) || u == 0x2D
}

pub open spec fn is_digit_char(c: char) -> bool {
    0x30 <= (c as u32) <= 0x39
}

/// `s` is one identifier: non-empty and made of identifier characters only.
pub open spec fn is_identifier(s: Seq<char>) -> bool {
    s.len() > 0 && forall|i: int| 0 <= i < s.len() ==> is_ident_char(#[trigger] s[i])
}

/// An all-digit identifier of two or more digits that starts with `0`.
pub open spec fn has_leading_zero(s: Seq<char>) -> bool {
    s.len() > 1 && s[0] == '0' && forall|i: int| 0 <= i < s.len() ==> is_digit_char(#[trigger] s[i])
}

/// The identifiers of a dot-separated text (`"a.b"` gives `["a", "b"]`, `""` gives `[""]`).
pub open spec fn split_dots(s: Seq<char>) -> Seq<Seq<char>>
    decreases s.len(),
{
    if s.len() == 0 {
        seq![Seq::<char>::empty()]
    } else {
        let rest = split_dots(s.drop_first());
        if s[0] == '.' {
            seq![Seq::<char>::empty()] + rest
        } else {
            rest.update(0, seq![s[0]] + rest[0])
        }
    }
}

/// The texts that `semver::Prerelease::new` accepts.
pub open spec fn prerelease_text_valid(s: Seq<char>) -> bool {
    s.len() == 0 || {
        let ids = split_dots(s);
        forall|i: int| 0 <= i < ids.len() ==> is_identifier(#[trigger] ids[i]) && !has_leading_zero(ids[i])
    }
}

/// The texts that `semver::BuildMetadata::new` accepts.
pub open spec fn build_text_valid(s: Seq<char>) -> bool {
    s.len() == 0 || {
        let ids = split_dots(s);
        forall|i: int| 0 <= i < ids.len() ==> is_identifier(#[trigger] ids[i])
    }
}

/// Whether `semver::Prerelease::new` accepts `text`.
/// Claimed: it accepts exactly the empty text and the dot-separated lists of non-empty
/// identifiers of ASCII letters, digits and `-` with no all-digit identifier of two or more
/// digits that starts with `0`.
#[verifier::external_body]
pub fn semver_accepts_prerelease(text: &str) -> (r: bool)
    ensures
        r == prerelease_text_valid(text@),
{
    semver::Prerelease::new(text).is_ok()
}

/// Whether `semver::BuildMetadata::new` accepts `text`.
/// Claimed: it accepts exactly the empty text and the dot-separated lists of non-empty
/// identifiers of ASCII letters, digits and `-`.
#[verifier::external_body]
pub fn semver_accepts_build(text: &str) -> (r: bool)
    ensures
        r == build_text_valid(text@),
{
    semver::BuildMetadata::new(text).is_ok()
}

} // verus!
