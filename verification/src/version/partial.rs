use vstd::prelude::*;
use crate::version::buf::{ParsingBuf, lemma_char_eq, trim_ws};
use crate::version::lexer::{
    LOWER_X, NOT_EXISTS, STAR, UPPER_X, VERSION_SEGMENT_MAX, parse_id, parse_range_segment,
    spec_parse_id, spec_range_segment,
};
use crate::version::number::{decimal, push_decimal, string_push, string_push_str};
use crate::version::semver_text::{
    build_text_valid, prerelease_text_valid, semver_accepts_build, semver_accepts_prerelease,
};
use crate::version::step::{ParseStop, Step};
use crate::version::version::{Version, VersionView, spec_prerelease, starts_with_byte};

verus! {

broadcast use vstd::utf8::group_utf8_lib;

/// A version in a range, where each of the three numbers may be missing (`NOT_EXISTS`) or a
/// wildcard (`STAR`, `UPPER_X`, `LOWER_X`).
#[derive(Debug)]
pub struct PartialVersion {
    pub major: u64,
    pub minor: u64,
    pub patch: u64,
    pub pre: String,
    pub build: String,
}

/// The mathematical value of a [`PartialVersion`].
pub ghost struct PartialVersionView {
    pub major: u64,
    pub minor: u64,
    pub patch: u64,
    pub pre: Seq<char>,
    pub build: Seq<char>,
}

impl View for PartialVersion {
    type V = PartialVersionView;

    open spec fn view(&self) -> PartialVersionView {
        PartialVersionView {
            major: self.major,
            minor: self.minor,
            patch: self.patch,
            pre: self.pre@,
            build: self.build@,
        }
    }
}

impl Clone for PartialVersion {
    fn clone(&self) -> (r: Self)
        ensures
            r@ == self@,
    {
        PartialVersion {
            major: self.major,
            minor: self.minor,
            patch: self.patch,
            pre: self.pre.clone(),
            build: self.build.clone(),
        }
    }
}

/// A segment that holds a number (not missing, not a wildcard).
pub open spec fn seg(x: u64) -> Option<u64> {
    if x <= VERSION_SEGMENT_MAX {
        Some(x)
    } else {
        None
    }
}

/// The number of a segment, or `default` for a missing or wildcard segment.
pub open spec fn seg_or(x: u64, default: u64) -> u64 {
    if x <= VERSION_SEGMENT_MAX {
        x
    } else {
        default
    }
}

impl PartialVersionView {
    /// The version with every missing or wildcard segment replaced by `0`.
    pub open spec fn to_zeros(self) -> VersionView {
        VersionView {
            major: seg_or(self.major, 0),
            minor: seg_or(self.minor, 0),
            patch: seg_or(self.patch, 0),
            pre: self.pre,
            build: self.build,
        }
    }

    /// The version itself, when all three segments are numbers.
    pub open spec fn to_full(self) -> Option<VersionView> {
        if seg(self.major) is Some && seg(self.minor) is Some && seg(self.patch) is Some {
            Some(VersionView { major: self.major, minor: self.minor, patch: self.patch, pre: self.pre, build: self.build })
        } else {
            None
        }
    }

    /// The prerelease text is one that `semver` accepts (always so for parsed values).
    pub open spec fn wf(self) -> bool {
        prerelease_text_valid(self.pre)
    }
}

/// An optional `+` and build text; in a range, a build identifier that starts with `0` and
/// holds a non-digit is refused too.
pub open spec fn spec_partial_build(s: Seq<char>) -> Step<Seq<char>> {
    if s.len() > 0 && s[0] == '+' {
        match spec_parse_id(s.drop_first(), false) {
            Err(e) => Step::Failed(e),
            Ok((id, rest)) => if build_text_valid(id) {
                Step::Parsed(id, rest)
            } else {
                Step::Rejected
            },
        }
    } else {
        Step::Parsed(Seq::<char>::empty(), s)
    }
}

/// After the patch segment: the prerelease and build texts.
pub open spec fn spec_partial_tail(
    major: u64,
    minor: u64,
    patch: u64,
    s: Seq<char>,
) -> Step<PartialVersionView> {
    match spec_prerelease(s) {
        Step::Failed(e) => Step::Failed(e),
        Step::Rejected => Step::Rejected,
        Step::Parsed(pre, r1) => match spec_partial_build(r1) {
            Step::Failed(e) => Step::Failed(e),
            Step::Rejected => Step::Rejected,
            Step::Parsed(build, r2) => Step::Parsed(
                PartialVersionView { major, minor, patch, pre, build },
                r2,
            ),
        },
    }
}

/// The text with an optional leading `v` dropped, after leading whitespace.
pub open spec fn drop_v(s: Seq<char>) -> Seq<char> {
    let t = trim_ws(s);
    if t.len() > 0 && t[0] == 'v' {
        t.drop_first()
    } else {
        t
    }
}

/// A partial version at the start of `s` (after whitespace and an optional `v`): one, two or
/// three segments; the prerelease and build texts only after a third segment.
pub open spec fn spec_partial_version(s: Seq<char>) -> Step<PartialVersionView> {
    match spec_range_segment(drop_v(s)) {
        Err(e) => Step::Failed(e),
        Ok((major, r1)) => {
            let minor_step = if r1.len() > 0 && r1[0] == '.' {
                spec_range_segment(r1.drop_first())
            } else {
                Ok((NOT_EXISTS, r1))
            };
            match minor_step {
                Err(e) => Step::Failed(e),
                Ok((minor, r2)) => if r2.len() > 0 && r2[0] == '.' {
                    match spec_range_segment(r2.drop_first()) {
                        Err(e) => Step::Failed(e),
                        Ok((patch, r3)) => spec_partial_tail(major, minor, patch, r3),
                    }
                } else {
                    Step::Parsed(
                        PartialVersionView {
                            major,
                            minor,
                            patch: NOT_EXISTS,
                            pre: Seq::<char>::empty(),
                            build: Seq::<char>::empty(),
                        },
                        r2,
                    )
                },
            }
        },
    }
}

/// The text of one segment: nothing when missing, else `prefix` and the number or wildcard.
pub open spec fn segment_text(value: u64, prefix: Seq<char>) -> Seq<char> {
    if value == NOT_EXISTS {
        Seq::<char>::empty()
    } else if value == STAR {
        prefix + seq!['*']
    } else if value == UPPER_X {
        prefix + seq!['X']
    } else if value == LOWER_X {
        prefix + seq!['x']
    } else {
        prefix + decimal(value as nat)
    }
}

/// The text that `Display` writes for a partial version.
pub open spec fn partial_text(p: PartialVersionView) -> Seq<char> {
    segment_text(p.major, Seq::<char>::empty()) + segment_text(p.minor, seq!['.'])
        + segment_text(p.patch, seq!['.'])
        + (if p.pre.len() > 0 { seq!['-'] + p.pre } else { Seq::<char>::empty() })
        + (if p.build.len() > 0 { seq!['+'] + p.build } else { Seq::<char>::empty() })
}

/// Appends the text of one segment.
fn write_segment(out: &mut String, value: u64, prefix: &str)
    ensures
        final(out)@ == old(out)@ + segment_text(value, prefix@),
{
    if value != NOT_EXISTS {
        string_push_str(out, prefix);
        if value == STAR {
            string_push(out, '*');
        } else if value == UPPER_X {
            string_push(out, 'X');
        } else if value == LOWER_X {
            string_push(out, 'x');
        } else {
            push_decimal(out, value);
        }
    }
    assert(final(out)@ =~= old(out)@ + segment_text(value, prefix@));
}

impl PartialVersion {
    pub fn segment(segment: u64) -> (r: Option<u64>)
        ensures
            r == seg(segment),
    {
        if segment <= VERSION_SEGMENT_MAX {
            Some(segment)
        } else {
            None
        }
    }

    pub fn segment_or(segment: u64, or: u64) -> (r: u64)
        ensures
            r == seg_or(segment, or),
    {
        if segment <= VERSION_SEGMENT_MAX {
            segment
        } else {
            or
        }
    }

    pub fn major(&self) -> (r: Option<u64>)
        ensures
            r == seg(self.major),
    {
        Self::segment(self.major)
    }

    pub fn major_or(&self, default: u64) -> (r: u64)
        ensures
            r == seg_or(self.major, default),
    {
        Self::segment_or(self.major, default)
    }

    pub fn minor(&self) -> (r: Option<u64>)
        ensures
            r == seg(self.minor),
    {
        Self::segment(self.minor)
    }

    pub fn minor_or(&self, default: u64) -> (r: u64)
        ensures
            r == seg_or(self.minor, default),
    {
        Self::segment_or(self.minor, default)
    }

    pub fn patch(&self) -> (r: Option<u64>)
        ensures
            r == seg(self.patch),
    {
        Self::segment(self.patch)
    }

    pub fn patch_or(&self, default: u64) -> (r: u64)
        ensures
            r == seg_or(self.patch, default),
    {
        Self::segment_or(self.patch, default)
    }

    /// The version itself, when all three segments are numbers.
    pub fn to_full(&self) -> (r: Option<Version>)
        ensures
            match self@.to_full() {
                Some(v) => r is Some && r->Some_0@ == v,
                None => r is None,
            },
    {
        match (self.major(), self.minor(), self.patch()) {
            (Some(major), Some(minor), Some(patch)) => Some(Version {
                major,
                minor,
                patch,
                pre: self.pre.clone(),
                build: self.build.clone(),
            }),
            _ => None,
        }
    }

    /// The version with every missing or wildcard segment replaced by `0`.
    pub fn to_zeros(&self) -> (r: Version)
        ensures
            r@ == self@.to_zeros(),
    {
        Version {
            major: self.major_or(0),
            minor: self.minor_or(0),
            patch: self.patch_or(0),
            pre: self.pre.clone(),
            build: self.build.clone(),
        }
    }

    /// `From<Version>`: every segment present.
    pub fn from_version(value: Version) -> (r: PartialVersion)
        ensures
            r@ == (PartialVersionView {
                major: value.major,
                minor: value.minor,
                patch: value.patch,
                pre: value.pre@,
                build: value.build@,
            }),
    {
        PartialVersion {
            major: value.major,
            minor: value.minor,
            patch: value.patch,
            pre: value.pre,
            build: value.build,
        }
    }

    /// Reads a partial version at the start of `bytes`.
    pub fn parse(bytes: &mut ParsingBuf) -> (r: Result<PartialVersion, ParseStop>)
        ensures
            match spec_partial_version(old(bytes)@) {
                Step::Parsed(v, rest) => r is Ok && r->Ok_0@ == v && final(bytes)@ == rest,
                Step::Failed(e) => r == Err::<PartialVersion, ParseStop>(ParseStop::Error(e)),
                Step::Rejected => r == Err::<PartialVersion, ParseStop>(ParseStop::Rejected),
            },
    {
        bytes.skip_ws();
        let ghost t = bytes@;
        if starts_with_byte(bytes, 0x76) {
            proof { lemma_char_eq(t[0], 'v'); }
            bytes.skip();
        }
        let major = match parse_range_segment(bytes) {
            Ok(v) => v,
            Err(e) => return Err(ParseStop::Error(e)),
        };
        let ghost r1 = bytes@;
        let minor = if starts_with_byte(bytes, 0x2E) {
            proof { lemma_char_eq(r1[0], '.'); }
            bytes.skip();
            match parse_range_segment(bytes) {
                Ok(v) => v,
                Err(e) => return Err(ParseStop::Error(e)),
            }
        } else {
            NOT_EXISTS
        };
        let ghost r2 = bytes@;
        if starts_with_byte(bytes, 0x2E) {
            proof { lemma_char_eq(r2[0], '.'); }
            bytes.skip();
            let patch = match parse_range_segment(bytes) {
                Ok(v) => v,
                Err(e) => return Err(ParseStop::Error(e)),
            };
            let ghost r3 = bytes@;
            let pre = if starts_with_byte(bytes, 0x2D) {
                proof { lemma_char_eq(r3[0], '-'); }
                bytes.skip();
                let id = match parse_id(bytes, false) {
                    Ok(id) => id,
                    Err(e) => return Err(ParseStop::Error(e)),
                };
                if !semver_accepts_prerelease(id) {
                    return Err(ParseStop::Rejected);
                }
                id.to_owned()
            } else {
                String::new()
            };
            let ghost r4 = bytes@;
            let build = if starts_with_byte(bytes, 0x2B) {
                proof { lemma_char_eq(r4[0], '+'); }
                bytes.skip();
                let id = match parse_id(bytes, false) {
                    Ok(id) => id,
                    Err(e) => return Err(ParseStop::Error(e)),
                };
                if !semver_accepts_build(id) {
                    return Err(ParseStop::Rejected);
                }
                id.to_owned()
            } else {
                String::new()
            };
            Ok(PartialVersion { major, minor, patch, pre, build })
        } else {
            Ok(PartialVersion { major, minor, patch: NOT_EXISTS, pre: String::new(), build: String::new() })
        }
    }

    /// The text `Display` writes: the present segments joined by `.`, then `-pre` and `+build`
    /// when present.
    pub fn to_string(&self) -> (r: String)
        ensures
            r@ == partial_text(self@),
    {
        let mut out = String::new();
        proof {
            reveal_strlit("");
            reveal_strlit(".");
        }
        write_segment(&mut out, self.major, "");
        write_segment(&mut out, self.minor, ".");
        write_segment(&mut out, self.patch, ".");
        let ghost numbers = out@;
        assert(numbers =~= segment_text(self.major, Seq::<char>::empty()) + segment_text(self.minor, seq!['.'])
            + segment_text(self.patch, seq!['.']));
        if !self.pre.as_str().is_empty() {
            string_push(&mut out, '-');
            string_push_str(&mut out, self.pre.as_str());
            assert(out@ =~= numbers + (seq!['-'] + self.pre@));
        }
        let ghost with_pre = out@;
        assert(with_pre =~= numbers + (if self.pre@.len() > 0 { seq!['-'] + self.pre@ } else { Seq::<char>::empty() }));
        if !self.build.as_str().is_empty() {
            string_push(&mut out, '+');
            string_push_str(&mut out, self.build.as_str());
            assert(out@ =~= with_pre + (seq!['+'] + self.build@));
        }
        assert(out@ =~= with_pre + (if self.build@.len() > 0 { seq!['+'] + self.build@ } else { Seq::<char>::empty() }));
        out
    }
}

} // verus!
