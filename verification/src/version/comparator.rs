use vstd::prelude::*;
use crate::version::buf::{ParsingBuf, lemma_char_eq, trim_ws};
use crate::version::error::ParseRangeError;
use crate::version::number::{string_push, string_push_str};
use crate::version::ordering::{
    version_ge, version_gt, version_le, version_lt, version_order, version_same_precedence,
};
use crate::version::partial::{
    PartialVersion, PartialVersionView, partial_text, seg, seg_or, spec_partial_version,
};
use crate::version::semver_text::prerelease_text_valid;
use crate::version::step::{ParseStop, Step};
use crate::version::version::{Version, VersionView, starts_with_byte};

verus! {

broadcast use vstd::utf8::group_utf8_lib;

/// One comparator of a range: an operator and its partial version(s).
#[derive(Debug)]
pub enum Comparator {
    /// `~v`
    Tilde(PartialVersion),
    /// `^v`
    Caret(PartialVersion),
    /// `=v`
    Exact(PartialVersion),
    /// `>v`
    GreaterThan(PartialVersion),
    /// `>=v`
    GreaterThanOrEqual(PartialVersion),
    /// `<v`
    LessThan(PartialVersion),
    /// `<=v`
    LessThanOrEqual(PartialVersion),
    /// `a - b`
    Hyphen(PartialVersion, PartialVersion),
    /// `v` without an operator
    Star(PartialVersion),
}

/// The mathematical value of a [`Comparator`].
pub ghost enum ComparatorView {
    Tilde(PartialVersionView),
    Caret(PartialVersionView),
    Exact(PartialVersionView),
    GreaterThan(PartialVersionView),
    GreaterThanOrEqual(PartialVersionView),
    LessThan(PartialVersionView),
    LessThanOrEqual(PartialVersionView),
    Hyphen(PartialVersionView, PartialVersionView),
    Star(PartialVersionView),
}

impl View for Comparator {
    type V = ComparatorView;

    open spec fn view(&self) -> ComparatorView {
        match self {
            Comparator::Tilde(p) => ComparatorView::Tilde(p@),
            Comparator::Caret(p) => ComparatorView::Caret(p@),
            Comparator::Exact(p) => ComparatorView::Exact(p@),
            Comparator::GreaterThan(p) => ComparatorView::GreaterThan(p@),
            Comparator::GreaterThanOrEqual(p) => ComparatorView::GreaterThanOrEqual(p@),
            Comparator::LessThan(p) => ComparatorView::LessThan(p@),
            Comparator::LessThanOrEqual(p) => ComparatorView::LessThanOrEqual(p@),
            Comparator::Hyphen(a, b) => ComparatorView::Hyphen(a@, b@),
            Comparator::Star(p) => ComparatorView::Star(p@),
        }
    }
}

impl Clone for Comparator {
    fn clone(&self) -> (r: Self)
        ensures
            r@ == self@,
    {
        match self {
            Comparator::Tilde(p) => Comparator::Tilde(p.clone()),
            Comparator::Caret(p) => Comparator::Caret(p.clone()),
            Comparator::Exact(p) => Comparator::Exact(p.clone()),
            Comparator::GreaterThan(p) => Comparator::GreaterThan(p.clone()),
            Comparator::GreaterThanOrEqual(p) => Comparator::GreaterThanOrEqual(p.clone()),
            Comparator::LessThan(p) => Comparator::LessThan(p.clone()),
            Comparator::LessThanOrEqual(p) => Comparator::LessThanOrEqual(p.clone()),
            Comparator::Hyphen(a, b) => Comparator::Hyphen(a.clone(), b.clone()),
            Comparator::Star(p) => Comparator::Star(p.clone()),
        }
    }
}

impl ComparatorView {
    /// The (first) partial version of the comparator.
    pub open spec fn operand(self) -> PartialVersionView {
        match self {
            ComparatorView::Tilde(p) => p,
            ComparatorView::Caret(p) => p,
            ComparatorView::Exact(p) => p,
            ComparatorView::GreaterThan(p) => p,
            ComparatorView::GreaterThanOrEqual(p) => p,
            ComparatorView::LessThan(p) => p,
            ComparatorView::LessThanOrEqual(p) => p,
            ComparatorView::Hyphen(a, _) => a,
            ComparatorView::Star(p) => p,
        }
    }

    /// Every partial version in it has a prerelease text that `semver` accepts.
    pub open spec fn wf(self) -> bool {
        match self {
            ComparatorView::Hyphen(a, b) => a.wf() && b.wf(),
            _ => self.operand().wf(),
        }
    }
}

/// A version with empty prerelease and build texts.
pub open spec fn plain_version(major: u64, minor: u64, patch: u64) -> VersionView {
    VersionView { major, minor, patch, pre: Seq::<char>::empty(), build: Seq::<char>::empty() }
}

/// For a partial version with all three numbers: that version (with its prerelease text).
/// Otherwise the first version above everything it covers: the next minor, the next major,
/// or the largest version when even the major is missing.
pub open spec fn full_or_next(p: PartialVersionView) -> Result<VersionView, VersionView> {
    match seg(p.major) {
        Some(major) => match seg(p.minor) {
            Some(minor) => match seg(p.patch) {
                Some(patch) => Ok(VersionView { major, minor, patch, pre: p.pre, build: Seq::<char>::empty() }),
                None => Err(plain_version(major, (minor + 1) as u64, 0)),
            },
            None => Err(plain_version((major + 1) as u64, 0, 0)),
        },
        None => Err(plain_version(u64::MAX, u64::MAX, u64::MAX)),
    }
}

/// `v > p`: above the version `p` names, or at or above the next one after a partial `p`.
pub open spec fn spec_greater_than(v: VersionView, p: PartialVersionView) -> bool {
    match full_or_next(p) {
        Ok(full) => version_order(v, full) > 0,
        Err(next) => version_order(v, next) >= 0,
    }
}

/// `v >= p`: at or above `p` with missing segments read as `0`.
pub open spec fn spec_greater_than_or_equal(v: VersionView, p: PartialVersionView) -> bool {
    match p.to_full() {
        Some(full) => version_order(v, full) >= 0,
        None => version_order(v, p.to_zeros()) >= 0,
    }
}

/// `v < p`: below `p` with missing segments read as `0`.
pub open spec fn spec_less_than(v: VersionView, p: PartialVersionView) -> bool {
    match p.to_full() {
        Some(full) => version_order(v, full) < 0,
        None => version_order(v, p.to_zeros()) < 0,
    }
}

/// `v <= p`: at or below the version `p` names, or below the next one after a partial `p`.
pub open spec fn spec_less_than_or_equal(v: VersionView, p: PartialVersionView) -> bool {
    match full_or_next(p) {
        Ok(full) => version_order(v, full) <= 0,
        Err(next) => version_order(v, next) < 0,
    }
}

/// Whether `v` is in the interval a comparator stands for, prereleases not yet considered.
pub open spec fn spec_matches_internal(c: ComparatorView, v: VersionView) -> bool {
    match c {
        ComparatorView::Tilde(p) => {
            &&& version_order(v, p.to_zeros()) >= 0
            &&& v.major == seg_or(p.major, 0)
            &&& (seg(p.minor) is Some ==> v.minor == p.minor)
        },
        ComparatorView::Caret(p) => {
            &&& version_order(v, p.to_zeros()) >= 0
            &&& (seg(p.major) is Some ==> {
                &&& v.major == p.major
                &&& (p.major == 0 && seg(p.minor) is Some ==> {
                    &&& v.minor == p.minor
                    &&& (seg(p.patch) is Some && p.minor == 0 ==> v.patch == p.patch)
                })
            })
        },
        ComparatorView::Exact(p) => match full_or_next(p) {
            Ok(full) => version_order(full, v) == 0,
            Err(next) => version_order(p.to_zeros(), v) <= 0 && version_order(v, next) < 0,
        },
        ComparatorView::Star(p) => match full_or_next(p) {
            Ok(full) => version_order(full, v) == 0,
            Err(next) => version_order(p.to_zeros(), v) <= 0 && version_order(v, next) < 0,
        },
        ComparatorView::GreaterThan(p) => spec_greater_than(v, p),
        ComparatorView::GreaterThanOrEqual(p) => spec_greater_than_or_equal(v, p),
        ComparatorView::LessThan(p) => spec_less_than(v, p),
        ComparatorView::LessThanOrEqual(p) => spec_less_than_or_equal(v, p),
        ComparatorView::Hyphen(lower, upper) => spec_greater_than_or_equal(v, lower)
            && spec_less_than_or_equal(v, upper),
    }
}

/// A prerelease `v` may match because `p` (missing segments as `0`) is a prerelease of the
/// same `major.minor.patch`.
pub open spec fn names_prerelease_of(p: PartialVersionView, v: VersionView) -> bool {
    let z = p.to_zeros();
    z.pre.len() > 0 && z.major == v.major && z.minor == v.minor && z.patch == v.patch
}

/// Whether `v` matches the comparator: it is in the interval, and it is stable, or
/// prereleases are allowed, or the comparator names a prerelease of the same
/// `major.minor.patch`.
pub open spec fn spec_matches(c: ComparatorView, v: VersionView, allow_prerelease: bool) -> bool {
    &&& spec_matches_internal(c, v)
    &&& {
        ||| allow_prerelease
        ||| v.pre.len() == 0
        ||| names_prerelease_of(c.operand(), v)
        ||| (c matches ComparatorView::Hyphen(_, upper) && names_prerelease_of(upper, v))
    }
}

/// Wraps a parsed partial version into a comparator.
pub open spec fn with_operator(
    st: Step<PartialVersionView>,
    make: spec_fn(PartialVersionView) -> ComparatorView,
) -> Step<ComparatorView> {
    match st {
        Step::Parsed(p, rest) => Step::Parsed(make(p), rest),
        Step::Failed(e) => Step::Failed(e),
        Step::Rejected => Step::Rejected,
    }
}

/// A comparator without an operator: one partial version, or two joined by `-`.
pub open spec fn spec_bare_comparator(t: Seq<char>) -> Step<ComparatorView> {
    match spec_partial_version(t) {
        Step::Failed(e) => Step::Failed(e),
        Step::Rejected => Step::Rejected,
        Step::Parsed(first, r) => {
            let r2 = trim_ws(r);
            if r2.len() > 0 && r2[0] == '-' {
                with_operator(
                    spec_partial_version(r2.drop_first()),
                    |second: PartialVersionView| ComparatorView::Hyphen(first, second),
                )
            } else {
                Step::Parsed(ComparatorView::Star(first), r2)
            }
        },
    }
}

/// A comparator at the start of `s`, after leading whitespace.
pub open spec fn spec_comparator(s: Seq<char>) -> Step<ComparatorView> {
    let t = trim_ws(s);
    if t.len() == 0 {
        Step::Failed(ParseRangeError::unexpected_end_spec())
    } else if t[0] == '~' {
        with_operator(spec_partial_version(t.drop_first()), |p: PartialVersionView| ComparatorView::Tilde(p))
    } else if t[0] == '^' {
        with_operator(spec_partial_version(t.drop_first()), |p: PartialVersionView| ComparatorView::Caret(p))
    } else if t[0] == '=' {
        with_operator(spec_partial_version(t.drop_first()), |p: PartialVersionView| ComparatorView::Exact(p))
    } else if t[0] == '>' {
        let u = t.drop_first();
        if u.len() > 0 && u[0] == '=' {
            with_operator(
                spec_partial_version(trim_ws(u.drop_first())),
                |p: PartialVersionView| ComparatorView::GreaterThanOrEqual(p),
            )
        } else {
            with_operator(spec_partial_version(trim_ws(u)), |p: PartialVersionView| ComparatorView::GreaterThan(p))
        }
    } else if t[0] == '<' {
        let u = t.drop_first();
        if u.len() > 0 && u[0] == '=' {
            with_operator(
                spec_partial_version(trim_ws(u.drop_first())),
                |p: PartialVersionView| ComparatorView::LessThanOrEqual(p),
            )
        } else {
            with_operator(spec_partial_version(trim_ws(u)), |p: PartialVersionView| ComparatorView::LessThan(p))
        }
    } else {
        spec_bare_comparator(t)
    }
}

/// The text that `Display` writes for a comparator.
pub open spec fn comparator_text(c: ComparatorView) -> Seq<char> {
    match c {
        ComparatorView::Tilde(p) => seq!['~'] + partial_text(p),
        ComparatorView::Caret(p) => seq!['^'] + partial_text(p),
        ComparatorView::Exact(p) => seq!['='] + partial_text(p),
        ComparatorView::GreaterThan(p) => seq!['>'] + partial_text(p),
        ComparatorView::GreaterThanOrEqual(p) => seq!['>', '='] + partial_text(p),
        ComparatorView::LessThan(p) => seq!['<'] + partial_text(p),
        ComparatorView::LessThanOrEqual(p) => seq!['<', '='] + partial_text(p),
        ComparatorView::Hyphen(a, b) => partial_text(a) + seq!['-'] + partial_text(b),
        ComparatorView::Star(p) => partial_text(p),
    }
}

/// The version `p` names, or the first one above what it covers.
fn full_or_next_version(p: &PartialVersion) -> (r: Result<Version, Version>)
    ensures
        match full_or_next(p@) {
            Ok(full) => r is Ok && r->Ok_0@ == full,
            Err(next) => r is Err && r->Err_0@ == next,
        },
{
    if let Some(major) = p.major() {
        if let Some(minor) = p.minor() {
            if let Some(patch) = p.patch() {
                Ok(Version::new_pre(major, minor, patch, p.pre.clone()))
            } else {
                Err(Version::new(major, minor + 1, 0))
            }
        } else {
            Err(Version::new(major + 1, 0, 0))
        }
    } else {
        Err(Version::new(u64::MAX, u64::MAX, u64::MAX))
    }
}

fn greater_than(version: &Version, p: &PartialVersion) -> (r: bool)
    requires
        prerelease_text_valid(version@.pre),
        p@.wf(),
    ensures
        r == spec_greater_than(version@, p@),
{
    match full_or_next_version(p) {
        Ok(full) => version_gt(version, &full),
        Err(next) => version_ge(version, &next),
    }
}

fn greater_than_or_equal(version: &Version, p: &PartialVersion) -> (r: bool)
    requires
        prerelease_text_valid(version@.pre),
        p@.wf(),
    ensures
        r == spec_greater_than_or_equal(version@, p@),
{
    match p.to_full() {
        Some(full) => version_ge(version, &full),
        None => version_ge(version, &p.to_zeros()),
    }
}

fn less_than(version: &Version, p: &PartialVersion) -> (r: bool)
    requires
        prerelease_text_valid(version@.pre),
        p@.wf(),
    ensures
        r == spec_less_than(version@, p@),
{
    match p.to_full() {
        Some(full) => version_lt(version, &full),
        None => version_lt(version, &p.to_zeros()),
    }
}

fn less_than_or_equal(version: &Version, p: &PartialVersion) -> (r: bool)
    requires
        prerelease_text_valid(version@.pre),
        p@.wf(),
    ensures
        r == spec_less_than_or_equal(version@, p@),
{
    match full_or_next_version(p) {
        Ok(full) => version_le(version, &full),
        Err(next) => version_lt(version, &next),
    }
}

/// `=p` and a bare `p`: the very version, or the interval from `p` (zeros) to the next one.
fn matches_exact(version: &Version, p: &PartialVersion) -> (r: bool)
    requires
        prerelease_text_valid(version@.pre),
        p@.wf(),
    ensures
        r == spec_matches_internal(ComparatorView::Exact(p@), version@),
{
    match full_or_next_version(p) {
        Ok(full) => version_same_precedence(&full, version),
        Err(next) => version_le(&p.to_zeros(), version) && version_lt(version, &next),
    }
}

/// Whether `p` (missing segments as `0`) is a prerelease of the same `major.minor.patch` as
/// `version`.
fn prerelease_named(p: &PartialVersion, version: &Version) -> (r: bool)
    ensures
        r == names_prerelease_of(p@, version@),
{
    let in_version = p.to_zeros();
    in_version.is_pre() && in_version.base_version() == version.base_version()
}

impl Comparator {
    /// The (first) partial version of the comparator.
    pub fn operand(&self) -> (r: &PartialVersion)
        ensures
            r@ == self@.operand(),
    {
        match self {
            Comparator::Tilde(c) => c,
            Comparator::Caret(c) => c,
            Comparator::Exact(c) => c,
            Comparator::GreaterThan(c) => c,
            Comparator::GreaterThanOrEqual(c) => c,
            Comparator::LessThan(c) => c,
            Comparator::LessThanOrEqual(c) => c,
            Comparator::Star(c) => c,
            Comparator::Hyphen(c, _) => c,
        }
    }

    /// Whether `version` is in the interval this comparator stands for (prereleases not yet
    /// considered).
    pub fn matches_internal(&self, version: &Version) -> (r: bool)
        requires
            self@.wf(),
            prerelease_text_valid(version@.pre),
        ensures
            r == spec_matches_internal(self@, version@),
    {
        match self {
            Comparator::Tilde(v) => {
                if !version_ge(version, &v.to_zeros()) {
                    return false;
                }
                if version.major != v.major_or(0) {
                    return false;
                }
                if let Some(minor) = v.minor() {
                    if version.minor != minor {
                        return false;
                    }
                }
                true
            },
            Comparator::Caret(v) => {
                if !version_ge(version, &v.to_zeros()) {
                    return false;
                }
                if v.major().is_none() {
                    return true;
                }
                if version.major != v.major_or(0) {
                    return false;
                }
                if v.major_or(0) == 0 {
                    if let Some(minor) = v.minor() {
                        if version.minor != minor {
                            return false;
                        }
                        if let Some(patch) = v.patch() {
                            if minor == 0 {
                                if version.patch != patch {
                                    return false;
                                }
                            }
                        }
                    }
                }
                true
            },
            Comparator::Star(v) => matches_exact(version, v),
            Comparator::Exact(v) => matches_exact(version, v),
            Comparator::GreaterThan(v) => greater_than(version, v),
            Comparator::GreaterThanOrEqual(v) => greater_than_or_equal(version, v),
            Comparator::LessThan(v) => less_than(version, v),
            Comparator::LessThanOrEqual(v) => less_than_or_equal(version, v),
            Comparator::Hyphen(lower, upper) => {
                greater_than_or_equal(version, lower) && less_than_or_equal(version, upper)
            },
        }
    }

    /// Whether `version` matches: in the interval, and stable unless prereleases are allowed
    /// or the comparator names a prerelease of the same `major.minor.patch`.
    pub fn matches(&self, version: &Version, allow_prerelease: bool) -> (r: bool)
        requires
            self@.wf(),
            prerelease_text_valid(version@.pre),
        ensures
            r == spec_matches(self@, version@, allow_prerelease),
    {
        if !self.matches_internal(version) {
            return false;
        }
        if allow_prerelease || version.is_stable() {
            return true;
        }
        if prerelease_named(self.operand(), version) {
            return true;
        }
        if let Comparator::Hyphen(_, upper) = self {
            if prerelease_named(upper, version) {
                return true;
            }
        }
        false
    }

    /// Reads a comparator at the start of `bytes`.
    pub fn parse(bytes: &mut ParsingBuf) -> (r: Result<Comparator, ParseStop>)
        ensures
            match spec_comparator(old(bytes)@) {
                Step::Parsed(c, rest) => r is Ok && r->Ok_0@ == c && final(bytes)@ == rest,
                Step::Failed(e) => r == Err::<Comparator, ParseStop>(ParseStop::Error(e)),
                Step::Rejected => r == Err::<Comparator, ParseStop>(ParseStop::Rejected),
            },
    {
        bytes.skip_ws();
        let ghost t = bytes@;
        if bytes.is_empty() {
            return Err(ParseStop::Error(ParseRangeError::unexpected_end()));
        }
        if starts_with_byte(bytes, 0x7E) {
            proof { lemma_char_eq(t[0], '~'); }
            bytes.skip();
            match PartialVersion::parse(bytes) {
                Ok(p) => Ok(Comparator::Tilde(p)),
                Err(e) => Err(e),
            }
        } else if starts_with_byte(bytes, 0x5E) {
            proof { lemma_char_eq(t[0], '^'); }
            bytes.skip();
            match PartialVersion::parse(bytes) {
                Ok(p) => Ok(Comparator::Caret(p)),
                Err(e) => Err(e),
            }
        } else if starts_with_byte(bytes, 0x3D) {
            proof { lemma_char_eq(t[0], '='); }
            bytes.skip();
            match PartialVersion::parse(bytes) {
                Ok(p) => Ok(Comparator::Exact(p)),
                Err(e) => Err(e),
            }
        } else if starts_with_byte(bytes, 0x3E) {
            proof { lemma_char_eq(t[0], '>'); }
            bytes.skip();
            let ghost u = bytes@;
            if starts_with_byte(bytes, 0x3D) {
                proof { lemma_char_eq(u[0], '='); }
                bytes.skip();
                bytes.skip_ws();
                match PartialVersion::parse(bytes) {
                    Ok(p) => Ok(Comparator::GreaterThanOrEqual(p)),
                    Err(e) => Err(e),
                }
            } else {
                bytes.skip_ws();
                match PartialVersion::parse(bytes) {
                    Ok(p) => Ok(Comparator::GreaterThan(p)),
                    Err(e) => Err(e),
                }
            }
        } else if starts_with_byte(bytes, 0x3C) {
            proof { lemma_char_eq(t[0], '<'); }
            bytes.skip();
            let ghost u = bytes@;
            if starts_with_byte(bytes, 0x3D) {
                proof { lemma_char_eq(u[0], '='); }
                bytes.skip();
                bytes.skip_ws();
                match PartialVersion::parse(bytes) {
                    Ok(p) => Ok(Comparator::LessThanOrEqual(p)),
                    Err(e) => Err(e),
                }
            } else {
                bytes.skip_ws();
                match PartialVersion::parse(bytes) {
                    Ok(p) => Ok(Comparator::LessThan(p)),
                    Err(e) => Err(e),
                }
            }
        } else {
            let first = match PartialVersion::parse(bytes) {
                Ok(p) => p,
                Err(e) => return Err(e),
            };
            bytes.skip_ws();
            let ghost r2 = bytes@;
            if starts_with_byte(bytes, 0x2D) {
                proof { lemma_char_eq(r2[0], '-'); }
                bytes.skip_ws();
                bytes.skip();
                match PartialVersion::parse(bytes) {
                    Ok(second) => Ok(Comparator::Hyphen(first, second)),
                    Err(e) => Err(e),
                }
            } else {
                Ok(Comparator::Star(first))
            }
        }
    }

    /// The text `Display` writes: the operator, then the partial version(s).
    pub fn to_string(&self) -> (r: String)
        ensures
            r@ == comparator_text(self@),
    {
        proof {
            reveal_strlit(">=");
            reveal_strlit("<=");
        }
        let mut out = String::new();
        match self {
            Comparator::Tilde(v) => {
                string_push(&mut out, '~');
                string_push_str(&mut out, v.to_string().as_str());
            },
            Comparator::Caret(v) => {
                string_push(&mut out, '^');
                string_push_str(&mut out, v.to_string().as_str());
            },
            Comparator::Exact(v) => {
                string_push(&mut out, '=');
                string_push_str(&mut out, v.to_string().as_str());
            },
            Comparator::GreaterThan(v) => {
                string_push(&mut out, '>');
                string_push_str(&mut out, v.to_string().as_str());
            },
            Comparator::GreaterThanOrEqual(v) => {
                string_push_str(&mut out, ">=");
                string_push_str(&mut out, v.to_string().as_str());
            },
            Comparator::LessThan(v) => {
                string_push(&mut out, '<');
                string_push_str(&mut out, v.to_string().as_str());
            },
            Comparator::LessThanOrEqual(v) => {
                string_push_str(&mut out, "<=");
                string_push_str(&mut out, v.to_string().as_str());
            },
            Comparator::Hyphen(a, b) => {
                string_push_str(&mut out, a.to_string().as_str());
                string_push(&mut out, '-');
                string_push_str(&mut out, b.to_string().as_str());
            },
            Comparator::Star(v) => {
                string_push_str(&mut out, v.to_string().as_str());
            },
        }
        assert(out@ =~= comparator_text(self@));
        out
    }
}

/// A caret comparator `^M.m.p` allows only changes that keep its left-most non-zero segment:
/// every version it matches is at least `M.m.p`, has the major `M`; under `^0.m` or `^0.m.p` it
/// has the minor `m` too (for every `m`, so `^0.1.2` matches no `0.2.x`), and under `^0.0.p`
/// also the patch `p`.
pub proof fn lemma_caret_bounds(p: PartialVersionView, v: VersionView, allow_prerelease: bool)
    requires
        spec_matches(ComparatorView::Caret(p), v, allow_prerelease),
    ensures
        version_order(v, p.to_zeros()) >= 0,
        seg(p.major) is Some ==> v.major == p.major,
        seg(p.major) is Some && p.major == 0 && seg(p.minor) is Some ==> v.major == 0 && v.minor == p.minor,
        seg(p.major) is Some && p.major == 0 && seg(p.minor) is Some && p.minor == 0 && seg(p.patch) is Some
            ==> v.minor == 0 && v.patch == p.patch,
{
}

/// Conversely, every stable version within those bounds matches a caret comparator.
pub proof fn lemma_caret_admits(p: PartialVersionView, v: VersionView)
    requires
        v.pre.len() == 0,
        version_order(v, p.to_zeros()) >= 0,
        seg(p.major) is Some ==> v.major == p.major,
        seg(p.major) is Some && p.major == 0 && seg(p.minor) is Some ==> v.minor == p.minor,
        seg(p.major) is Some && p.major == 0 && seg(p.minor) is Some && p.minor == 0 && seg(p.patch) is Some
            ==> v.patch == p.patch,
    ensures
        spec_matches(ComparatorView::Caret(p), v, false),
{
}

/// A tilde comparator `~M.m.p` allows patch-level changes: every version it matches is at least
/// `M.m.p` and has the major `M`, and the minor `m` when one is given.
pub proof fn lemma_tilde_bounds(p: PartialVersionView, v: VersionView, allow_prerelease: bool)
    requires
        spec_matches(ComparatorView::Tilde(p), v, allow_prerelease),
    ensures
        version_order(v, p.to_zeros()) >= 0,
        v.major == p.to_zeros().major,
        seg(p.minor) is Some ==> v.minor == p.minor,
{
}

} // verus!
