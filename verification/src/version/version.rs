use vstd::prelude::*;
use crate::version::buf::{ParsingBuf, first_byte, is_ascii_char, lead_byte, lemma_lead_byte, lemma_char_eq, trim_ws};
use crate::version::error::ParseRangeError;
use crate::version::lexer::{
    parse_id, parse_version_segment, spec_parse_id, spec_version_segment,
};
use crate::version::number::{decimal, push_decimal, string_push, string_push_str};
use crate::version::semver_text::{
    build_text_valid, prerelease_text_valid, semver_accepts_build, semver_accepts_prerelease,
};
use crate::version::step::{ParseStop, Step};

verus! {

broadcast use vstd::utf8::group_utf8_lib;

/// A version: three numbers, a prerelease text and a build text (both empty when absent).
#[derive(Debug)]
pub struct Version {
    pub major: u64,
    pub minor: u64,
    pub patch: u64,
    pub pre: String,
    pub build: String,
}

/// The mathematical value of a [`Version`].
pub ghost struct VersionView {
    pub major: u64,
    pub minor: u64,
    pub patch: u64,
    pub pre: Seq<char>,
    pub build: Seq<char>,
}

impl View for Version {
    type V = VersionView;

    open spec fn view(&self) -> VersionView {
        VersionView { major: self.major, minor: self.minor, patch: self.patch, pre: self.pre@, build: self.build@ }
    }
}

impl Clone for Version {
    fn clone(&self) -> (r: Self)
        ensures
            r@ == self@,
    {
        Version {
            major: self.major,
            minor: self.minor,
            patch: self.patch,
            pre: self.pre.clone(),
            build: self.build.clone(),
        }
    }
}

/// Expects `ch` at the start of `s`.
pub open spec fn spec_read(s: Seq<char>, ch: char) -> Result<Seq<char>, ParseRangeError> {
    if s.len() == 0 {
        Err(ParseRangeError::unexpected_end_spec())
    } else if s[0] == ch {
        Ok(s.drop_first())
    } else {
        Err(ParseRangeError::invalid_char_spec(s[0]))
    }
}

/// `major.minor.patch` after leading whitespace.
pub open spec fn spec_version_numbers(s: Seq<char>) -> Result<(u64, u64, u64, Seq<char>), ParseRangeError> {
    match spec_version_segment(trim_ws(s)) {
        Err(e) => Err(e),
        Ok((major, r1)) => match spec_read(r1, '.') {
            Err(e) => Err(e),
            Ok(r2) => match spec_version_segment(r2) {
                Err(e) => Err(e),
                Ok((minor, r3)) => match spec_read(r3, '.') {
                    Err(e) => Err(e),
                    Ok(r4) => match spec_version_segment(r4) {
                        Err(e) => Err(e),
                        Ok((patch, r5)) => Ok((major, minor, patch, r5)),
                    },
                },
            },
        },
    }
}

/// An optional `-` and prerelease text; refused by `semver` when it has a numeric identifier
/// with a leading zero.
pub open spec fn spec_prerelease(s: Seq<char>) -> Step<Seq<char>> {
    if s.len() > 0 && s[0] == '-' {
        match spec_parse_id(s.drop_first(), false) {
            Err(e) => Step::Failed(e),
            Ok((id, rest)) => if prerelease_text_valid(id) {
                Step::Parsed(id, rest)
            } else {
                Step::Rejected
            },
        }
    } else {
        Step::Parsed(Seq::<char>::empty(), s)
    }
}

/// An optional `+` and build text.
pub open spec fn spec_build(s: Seq<char>) -> Step<Seq<char>> {
    if s.len() > 0 && s[0] == '+' {
        match spec_parse_id(s.drop_first(), true) {
            Err(e) => Step::Failed(e),
            Ok((id, rest)) => if build_text_valid(id) {
                Step::Parsed(id, rest)
            } else {
                Step::Rejected
            },
        }
    } else {
        Step::Parsed(Seq::<char>::empty(), s)
    }
}

/// A version at the start of `s`, and what follows it.
pub open spec fn spec_version(s: Seq<char>) -> Step<VersionView> {
    match spec_version_numbers(s) {
        Err(e) => Step::Failed(e),
        Ok((major, minor, patch, r5)) => match spec_prerelease(r5) {
            Step::Failed(e) => Step::Failed(e),
            Step::Rejected => Step::Rejected,
            Step::Parsed(pre, r6) => match spec_build(r6) {
                Step::Failed(e) => Step::Failed(e),
                Step::Rejected => Step::Rejected,
                Step::Parsed(build, r7) => Step::Parsed(
                    VersionView { major, minor, patch, pre, build },
                    r7,
                ),
            },
        },
    }
}

/// A whole text that is one version.
pub open spec fn spec_version_text(s: Seq<char>) -> Step<VersionView> {
    match spec_version(s) {
        Step::Parsed(v, rest) => if rest.len() > 0 {
            Step::Failed(ParseRangeError::invalid_char_spec(rest[0]))
        } else {
            Step::Parsed(v, rest)
        },
        other => other,
    }
}

/// The text that `Display` writes for a version.
pub open spec fn version_text(v: VersionView) -> Seq<char> {
    decimal(v.major as nat) + seq!['.'] + decimal(v.minor as nat) + seq!['.'] + decimal(v.patch as nat)
        + (if v.pre.len() > 0 { seq!['-'] + v.pre } else { Seq::<char>::empty() })
        + (if v.build.len() > 0 { seq!['+'] + v.build } else { Seq::<char>::empty() })
}

/// Reads `ch` (ASCII) if the text starts with it.
fn read_char(bytes: &mut ParsingBuf, ch: char) -> (r: Result<(), ParseRangeError>)
    requires
        is_ascii_char(ch),
    ensures
        match spec_read(old(bytes)@, ch) {
            Ok(rest) => r is Ok && final(bytes)@ == rest,
            Err(e) => r == Err::<(), ParseRangeError>(e),
        },
{
    bytes.read(ch)
}

/// Whether the text starts with the ASCII character whose code is `code`.
pub fn starts_with_byte(bytes: &ParsingBuf, code: u8) -> (r: bool)
    requires
        code < 0x80,
    ensures
        r == (bytes@.len() > 0 && bytes@[0] as u32 == code as u32),
{
    match bytes.first() {
        Some(b) => {
            proof {
                lemma_lead_byte(bytes@[0]);
            }
            b == code
        },
        None => false,
    }
}

impl Version {
    pub fn new(major: u64, minor: u64, patch: u64) -> (r: Version)
        ensures
            r@ == (VersionView { major, minor, patch, pre: Seq::<char>::empty(), build: Seq::<char>::empty() }),
    {
        Version { major, minor, patch, pre: String::new(), build: String::new() }
    }

    pub fn new_pre(major: u64, minor: u64, patch: u64, pre: String) -> (r: Version)
        ensures
            r@ == (VersionView { major, minor, patch, pre: pre@, build: Seq::<char>::empty() }),
    {
        Version { major, minor, patch, pre, build: String::new() }
    }

    /// The version without prerelease and build texts.
    pub fn base_version(&self) -> (r: Version)
        ensures
            r@ == (VersionView { major: self.major, minor: self.minor, patch: self.patch, pre: Seq::<char>::empty(), build: Seq::<char>::empty() }),
    {
        Version::new(self.major, self.minor, self.patch)
    }

    pub fn is_pre(&self) -> (r: bool)
        ensures
            r == (self.pre@.len() > 0),
    {
        !self.is_stable()
    }

    pub fn is_stable(&self) -> (r: bool)
        ensures
            r == (self.pre@.len() == 0),
    {
        self.pre.as_str().is_empty()
    }

    /// Reads a version at the start of `bytes` (after leading whitespace).
    pub fn parse(bytes: &mut ParsingBuf) -> (r: Result<Version, ParseStop>)
        ensures
            match spec_version(old(bytes)@) {
                Step::Parsed(v, rest) => r is Ok && r->Ok_0@ == v && final(bytes)@ == rest,
                Step::Failed(e) => r == Err::<Version, ParseStop>(ParseStop::Error(e)),
                Step::Rejected => r == Err::<Version, ParseStop>(ParseStop::Rejected),
            },
    {
        bytes.skip_ws();
        let major = match parse_version_segment(bytes) {
            Ok(v) => v,
            Err(e) => return Err(ParseStop::Error(e)),
        };
        match read_char(bytes, '.') {
            Ok(()) => {},
            Err(e) => return Err(ParseStop::Error(e)),
        }
        let minor = match parse_version_segment(bytes) {
            Ok(v) => v,
            Err(e) => return Err(ParseStop::Error(e)),
        };
        match read_char(bytes, '.') {
            Ok(()) => {},
            Err(e) => return Err(ParseStop::Error(e)),
        }
        let patch = match parse_version_segment(bytes) {
            Ok(v) => v,
            Err(e) => return Err(ParseStop::Error(e)),
        };
        let ghost r5 = bytes@;
        let pre = if starts_with_byte(bytes, 0x2D) {
            proof { lemma_char_eq(r5[0], '-'); }
            bytes.skip();
            let id = match parse_id(bytes, false) {
                Ok(id) => id,
                Err(e) => return Err(ParseStop::Error(e)),
            };
            if !semver_accepts_prerelease(id) {
                return Err(ParseStop::Rejected);
            }
            id.to_owned()
        } else {
            String::new()
        };
        let ghost r6 = bytes@;
        let build = if starts_with_byte(bytes, 0x2B) {
            proof { lemma_char_eq(r6[0], '+'); }
            bytes.skip();
            let id = match parse_id(bytes, true) {
                Ok(id) => id,
                Err(e) => return Err(ParseStop::Error(e)),
            };
            if !semver_accepts_build(id) {
                return Err(ParseStop::Rejected);
            }
            id.to_owned()
        } else {
            String::new()
        };
        Ok(Version { major, minor, patch, pre, build })
    }

    /// Parses a whole text as one version; whatever follows the version is an error.
    pub fn parse_text(s: &str) -> (r: Result<Version, ParseStop>)
        ensures
            match spec_version_text(s@) {
                Step::Parsed(v, rest) => r is Ok && r->Ok_0@ == v,
                Step::Failed(e) => r == Err::<Version, ParseStop>(ParseStop::Error(e)),
                Step::Rejected => r == Err::<Version, ParseStop>(ParseStop::Rejected),
            },
    {
        let mut buffer = ParsingBuf::new(s);
        let result = Version::parse(&mut buffer)?;
        if !buffer.is_empty() {
            return Err(ParseStop::Error(ParseRangeError::invalid_char(buffer.first_char())));
        }
        Ok(result)
    }

    /// `FromStr`: parses a whole text as one version. A text on which `semver` refuses the
    /// prerelease or build identifiers is outside the domain.
    pub fn from_str(s: &str) -> (r: Result<Version, ParseRangeError>)
        requires
            !(spec_version_text(s@) is Rejected),
        ensures
            match spec_version_text(s@) {
                Step::Parsed(v, rest) => r is Ok && r->Ok_0@ == v,
                Step::Failed(e) => r == Err::<Version, ParseRangeError>(e),
                Step::Rejected => false,
            },
    {
        match Version::parse_text(s) {
            Ok(v) => Ok(v),
            Err(ParseStop::Error(e)) => Err(e),
            Err(ParseStop::Rejected) => {
                assert(false);
                Err(ParseRangeError::unexpected_end())
            },
        }
    }

    /// The text `Display` writes: `major.minor.patch`, then `-pre` and `+build` when present.
    pub fn to_string(&self) -> (r: String)
        ensures
            r@ == version_text(self@),
    {
        let mut out = String::new();
        push_decimal(&mut out, self.major);
        string_push(&mut out, '.');
        push_decimal(&mut out, self.minor);
        string_push(&mut out, '.');
        push_decimal(&mut out, self.patch);
        if !self.pre.as_str().is_empty() {
            string_push(&mut out, '-');
            string_push_str(&mut out, self.pre.as_str());
        }
        if !self.build.as_str().is_empty() {
            string_push(&mut out, '+');
            string_push_str(&mut out, self.build.as_str());
        }
        proof {
            let v = self@;
            assert(out@ =~= version_text(v));
        }
        out
    }
}

} // verus!
