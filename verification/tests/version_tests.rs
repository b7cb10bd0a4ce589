use std::cmp::Ordering;
use vrc_get::version::buf::ParsingBuf;
use vrc_get::version::number::{u16_from_str, u64_from_str, u8_from_str};
use vrc_get::version::step::ParseStop;
use vrc_get::version::{version_identical, ParseRangeError, Version, VersionRange};
use vrc_get::version::error::Inner;

fn version(text: &str) -> Version {
    Version::from_str(text).expect(text)
}

fn range(text: &str) -> VersionRange {
    VersionRange::from_str(text).expect(text)
}

#[test]
fn test_cmp() {
    fn test(greater: &str, lesser: &str) {
        let greater = Version::from_str(greater).expect(greater);
        let lesser = Version::from_str(lesser).expect(lesser);
        assert!(greater > lesser, "{} > {}", greater.to_string(), lesser.to_string());
    }
    // test set are from node-semver
    // Copyright (c) Isaac Z. Schlueter and Contributors
    // Originally under The ISC License
    test("0.0.0", "0.0.0-foo");
    test("0.0.1", "0.0.0");
    test("1.0.0", "0.9.9");
    test("0.10.0", "0.9.0");
    test("1.2.3", "1.2.3-asdf");
    test("1.2.3", "1.2.3-4");
    test("1.2.3", "1.2.3-4-foo");
    test("1.2.3-5-foo", "1.2.3-5");
    test("1.2.3-5", "1.2.3-4");
    test("1.2.3-5-foo", "1.2.3-5-Foo");
    test("3.0.0", "2.7.2+asdf");
    test("1.2.3-a.10", "1.2.3-a.5");
    test("1.2.3-a.b", "1.2.3-a.5");
    test("1.2.3-a.b", "1.2.3-a");
    test("1.2.3-a.b.c.10.d.5", "1.2.3-a.b.c.5.d.100");
    test("1.2.3-r2", "1.2.3-r100");
    test("1.2.3-r100", "1.2.3-R2");
}

#[test]
fn order_is_antisymmetric_and_ignores_build() {
    let a = version("1.2.3-alpha");
    let b = version("1.2.3-beta");
    assert_eq!(a.cmp(&b), Ordering::Less);
    assert_eq!(b.cmp(&a), Ordering::Greater);
    let x = version("1.0.0+one");
    let y = version("1.0.0+two");
    assert_eq!(x.cmp(&y), Ordering::Equal);
    assert!(x == y);
    assert!(!version_identical(&x, &y));
    assert!(version_identical(&x, &version("1.0.0+one")));
    assert_eq!(x.partial_cmp(&y), Some(Ordering::Equal));
    assert!(version("1.2.3+a") == version("1.2.3+b"));
    assert!(version("1.2.3-a") != version("1.2.3-b"));
}

#[test]
fn order_is_transitive_on_examples() {
    let a = version("1.0.0-alpha");
    let b = version("1.0.0-alpha.1");
    let c = version("1.0.0-beta");
    let d = version("1.0.0");
    assert!(a < b && b < c && c < d);
    assert!(a < c && a < d && b < d);
}

#[test]
fn version_text_round_trip_examples() {
    for text in ["1.2.3", "0.0.0", "10.20.30-beta.1+build.5", "1.0.0+meta"] {
        assert_eq!(version(text).to_string(), text);
    }
    assert_eq!(Version::new(1, 2, 3).to_string(), "1.2.3");
    assert_eq!(Version::new_pre(1, 2, 3, "rc.1".to_string()).to_string(), "1.2.3-rc.1");
    assert!(version("1.2.3-rc.1").is_pre());
    assert!(version("1.2.3+b").is_stable());
    assert_eq!(version("  1.2.3-a+b").base_version().to_string(), "1.2.3");
}

#[test]
fn version_parse_errors() {
    assert_eq!(
        Version::from_str("1.0").unwrap_err(),
        ParseRangeError { inner: Inner::UnexpectedEnd }
    );
    assert_eq!(
        Version::from_str("a.0.0").unwrap_err(),
        ParseRangeError { inner: Inner::InvalidChar('a') }
    );
    assert_eq!(
        Version::from_str("01.0.0").unwrap_err(),
        ParseRangeError { inner: Inner::InvalidChar('1') }
    );
    assert_eq!(
        Version::from_str("99999999999999999999.0.0").unwrap_err(),
        ParseRangeError { inner: Inner::VersionSegmentTooBig }
    );
    assert_eq!(
        Version::from_str("18446744073709551612.0.0").unwrap_err(),
        ParseRangeError { inner: Inner::VersionSegmentTooBig }
    );
    assert_eq!(
        Version::from_str("1.0.0 x").unwrap_err(),
        ParseRangeError { inner: Inner::InvalidChar(' ') }
    );
    assert_eq!(
        Version::from_str("1.0.0-").unwrap_err(),
        ParseRangeError { inner: Inner::UnexpectedEnd }
    );
    assert_eq!(
        Version::from_str("1.0.0-0a").unwrap_err(),
        ParseRangeError { inner: Inner::InvalidChar('0') }
    );
    assert_eq!(version("18446744073709551611.0.0").major, 18446744073709551611);
}

#[test]
fn prerelease_refused_by_semver_is_reported() {
    assert_eq!(Version::parse_text("1.0.0-01").unwrap_err(), ParseStop::Rejected);
    assert_eq!(
        Version::parse_text("1.0.0-1.0a").unwrap_err(),
        ParseStop::Error(ParseRangeError { inner: Inner::InvalidChar('0') })
    );
    assert!(Version::parse_text("1.0.0-1.a0").is_ok());
    assert!(Version::parse_text("1.0.0+01").is_ok());
}

#[test]
fn test_match_positive() {
    fn test(range: &str, version: &str) {
        let range = VersionRange::from_str(range).expect(range);
        let version = Version::from_str(version).expect(version);
        assert!(range.matches(&version), "{} matches {}", range.to_string(), version.to_string());
    }
    // test set are from node-semver
    // Copyright (c) Isaac Z. Schlueter and Contributors
    // Originally under The ISC License
    test("1.0.0 - 2.0.0", "1.2.3");
    test("^1.2.3+build", "1.2.3");
    test("^1.2.3+build", "1.3.0");
    test("1.2.3-pre+asdf - 2.4.3-pre+asdf", "1.2.3");
    test("1.2.3+asdf - 2.4.3+asdf", "1.2.3");
    test("1.0.0", "1.0.0");
    test(">=*", "0.2.4");
    test("", "1.0.0");
    test(">1.0.0", "1.1.0");
    test("<=2.0.0", "2.0.0");
    test("<=2.0.0", "1.9999.9999");
    test("<=2.0.0", "0.2.9");
    test("<2.0.0", "1.9999.9999");
    test("<2.0.0", "0.2.9");
    test(">= 1.0.0", "1.0.0");
    test(">=  1.0.0", "1.0.1");
    test(">=   1.0.0", "1.1.0");
    test("> 1.0.0", "1.0.1");
    test(">  1.0.0", "1.1.0");
    test("<=   2.0.0", "2.0.0");
    test("<= 2.0.0", "1.9999.9999");
    test("<=  2.0.0", "0.2.9");
    test("<    2.0.0", "1.9999.9999");
    test("<\t2.0.0", "0.2.9");
    test(">=0.1.97", "0.1.97");
    test("0.1.20 || 1.2.4", "1.2.4");
    test(">=0.2.3 || <0.0.1", "0.0.0");
    test(">=0.2.3 || <0.0.1", "0.2.3");
    test(">=0.2.3 || <0.0.1", "0.2.4");
    test("||", "1.3.4");
    test("2.x.x", "2.1.3");
    test("1.2.x", "1.2.3");
    test("1.2.x || 2.x", "2.1.3");
    test("1.2.x || 2.x", "1.2.3");
    test("x", "1.2.3");
    test("2.*.*", "2.1.3");
    test("1.2.*", "1.2.3");
    test("1.2.* || 2.*", "2.1.3");
    test("1.2.* || 2.*", "1.2.3");
    test("*", "1.2.3");
    test("2", "2.1.2");
    test("2.3", "2.3.1");
    test("~0.0.1", "0.0.1");
    test("~0.0.1", "0.0.2");
    test("~x", "0.0.9");
    test("~2", "2.0.9");
    test("~2.4", "2.4.0");
    test("~2.4", "2.4.5");
    test("~1", "1.2.3");
    test("~1.0", "1.0.2");
    test("~ 1.0", "1.0.2");
    test("~ 1.0.3", "1.0.12");
    test(">=1", "1.0.0");
    test(">= 1", "1.0.0");
    test("<1.2", "1.1.1");
    test("< 1.2", "1.1.1");
    test("~v0.5.4-pre", "0.5.5");
    test("~v0.5.4-pre", "0.5.4");
    test("=0.7.x", "0.7.2");
    test("<=0.7.x", "0.7.2");
    test(">=0.7.x", "0.7.2");
    test("<=0.7.x", "0.6.2");
    test("~1.2.1 >=1.2.3", "1.2.3");
    test("~1.2.1 =1.2.3", "1.2.3");
    test("~1.2.1 1.2.3", "1.2.3");
    test("~1.2.1 >=1.2.3 1.2.3", "1.2.3");
    test("~1.2.1 1.2.3 >=1.2.3", "1.2.3");
    test(">=1.2.1 1.2.3", "1.2.3");
    test("1.2.3 >=1.2.1", "1.2.3");
    test(">=1.2.3 >=1.2.1", "1.2.3");
    test(">=1.2.1 >=1.2.3", "1.2.3");
    test(">=1.2", "1.2.8");
    test("^1.2.3", "1.8.1");
    test("^0.1.2", "0.1.2");
    test("^0.1", "0.1.2");
    test("^0.0.1", "0.0.1");
    test("^1.2", "1.4.2");
    test("^1.2 ^1", "1.4.2");
    test("^1.2.3-alpha", "1.2.3-pre");
    test("^1.2.0-alpha", "1.2.0-pre");
    test("^0.0.1-alpha", "0.0.1-beta");
    test("^0.0.1-alpha", "0.0.1");
    test("^0.1.1-alpha", "0.1.1-beta");
    test("^x", "1.2.3");
    test("x - 1.0.0", "0.9.7");
    test("x - 1.x", "0.9.7");
    test("1.0.0 - x", "1.9.7");
    test("1.x - x", "1.9.7");
    test("<=7.x", "7.9.9");
}

#[test]
fn test_match_negative() {
    fn test(range: &str, version: &str) {
        let range = VersionRange::from_str(range).expect(range);
        let version = Version::from_str(version).expect(version);
        assert!(
            !range.matches(&version),
            "{} should not matches {}",
            range.to_string(),
            version.to_string()
        );
    }
    // test set are from node-semver
    // Copyright (c) Isaac Z. Schlueter and Contributors
    // Originally under The ISC License
    test("1.0.0 - 2.0.0", "2.2.3");
    test("1.2.3+asdf - 2.4.3+asdf", "1.2.3-pre.2");
    test("1.2.3+asdf - 2.4.3+asdf", "2.4.3-alpha");
    test("^1.2.3+build", "2.0.0");
    test("^1.2.3+build", "1.2.0");
    test("^1.2.3", "1.2.3-pre");
    test("^1.2", "1.2.0-pre");
    test(">1.2", "1.3.0-beta");
    test("<=1.2.3", "1.2.3-beta");
    test("^1.2.3", "1.2.3-beta");
    test("=0.7.x", "0.7.0-asdf");
    test(">=0.7.x", "0.7.0-asdf");
    test("<=0.7.x", "0.7.0-asdf");
    test("1.0.0", "1.0.1");
    test(">=1.0.0", "0.0.0");
    test(">=1.0.0", "0.0.1");
    test(">=1.0.0", "0.1.0");
    test(">1.0.0", "0.0.1");
    test(">1.0.0", "0.1.0");
    test("<=2.0.0", "3.0.0");
    test("<=2.0.0", "2.9999.9999");
    test("<=2.0.0", "2.2.9");
    test("<2.0.0", "2.9999.9999");
    test("<2.0.0", "2.2.9");
    test(">=0.1.97", "0.1.93");
    test("0.1.20 || 1.2.4", "1.2.3");
    test(">=0.2.3 || <0.0.1", "0.0.3");
    test(">=0.2.3 || <0.0.1", "0.2.2");
    test("2.x.x", "3.1.3");
    test("1.2.x", "1.3.3");
    test("1.2.x || 2.x", "3.1.3");
    test("1.2.x || 2.x", "1.1.3");
    test("2.*.*", "1.1.3");
    test("2.*.*", "3.1.3");
    test("1.2.*", "1.3.3");
    test("1.2.* || 2.*", "3.1.3");
    test("1.2.* || 2.*", "1.1.3");
    test("2", "1.1.2");
    test("2.3", "2.4.1");
    test("~0.0.1", "0.1.0-alpha");
    test("~0.0.1", "0.1.0");
    test("~2.4", "2.5.0");
    test("~2.4", "2.3.9");
    test("~1", "0.2.3");
    test("~1.0", "1.1.0");
    test("<1", "1.0.0");
    test(">=1.2", "1.1.1");
    test("~v0.5.4-beta", "0.5.4-alpha");
    test("=0.7.x", "0.8.2");
    test(">=0.7.x", "0.6.2");
    test("<0.7.x", "0.7.2");
    test("<1.2.3", "1.2.3-beta");
    test("=1.2.3", "1.2.3-beta");
    test(">1.2", "1.2.8");
    test("^0.0.1", "0.0.2-alpha");
    test("^0.0.1", "0.0.2");
    test("^1.2.3", "2.0.0-alpha");
    test("^1.2.3", "1.2.2");
    test("^1.2", "1.1.9");
    test("^1.0.0", "2.0.0-rc1");
    test("1 - 2", "2.0.0-pre");
    test("1 - 2", "1.0.0-pre");
    test("1.0 - 2", "1.0.0-pre");
    test("1.1.x", "1.0.0-a");
    test("1.1.x", "1.1.0-a");
    test("1.1.x", "1.2.0-a");
    test("1.x", "1.0.0-a");
    test("1.x", "1.1.0-a");
    test("1.x", "1.2.0-a");
    test(">=1.0.0 <1.1.0", "1.1.0");
    test(">=1.0.0 <1.1.0", "1.1.0-pre");
    test(">=1.0.0 <1.1.0-pre", "1.1.0-pre");
}

#[test]
fn allowing_prereleases_only_adds_matches() {
    let r = range("^1.2.3");
    let v = version("1.2.4-beta");
    assert!(!r.matches(&v));
    assert!(r.match_pre(&v, true));
    let w = version("1.3.0");
    assert!(r.matches(&w) && r.match_pre(&w, true));
}

#[test]
fn same_or_later_matches_versions_at_or_above() {
    let r = VersionRange::same_or_later(version("1.2.0"));
    assert!(r.matches(&version("1.2.0")));
    assert!(r.matches(&version("1.3.0")));
    assert!(!r.matches(&version("1.1.9")));
    assert!(!r.matches(&version("1.3.0-beta")));
    assert!(r.match_pre(&version("1.3.0-beta"), true));
    let p = VersionRange::same_or_later(version("1.2.0-beta"));
    assert!(p.matches(&version("1.2.0-rc")));
    assert!(!p.matches(&version("1.2.1-rc")));
    assert_eq!(r.to_string(), ">=1.2.0");
}

#[test]
fn range_text_and_errors() {
    assert_eq!(range("1.0.0 - 2.0.0").to_string(), "1.0.0-2.0.0");
    assert_eq!(range(">= 1.x  <2 || ~1.2.3-a+b").to_string(), ">=1.x <2 || ~1.2.3-a+b");
    assert_eq!(range("  ^v1.*").to_string(), "^1.*");
    assert_eq!(range("||").to_string(), " || ");
    assert_eq!(
        VersionRange::from_str("1.0.0 || ").unwrap_err(),
        ParseRangeError { inner: Inner::UnexpectedEnd }
    );
    assert_eq!(
        VersionRange::from_str(">=1.0.0 |").unwrap_err(),
        ParseRangeError { inner: Inner::InvalidChar('|') }
    );
    assert_eq!(VersionRange::parse_text("1.0.0-01").unwrap_err(), ParseStop::Rejected);
}

#[test]
fn parse_range_error_messages() {
    assert_eq!(ParseRangeError { inner: Inner::VersionSegmentTooBig }.to_string(), "version segment too big");
    assert_eq!(ParseRangeError { inner: Inner::UnexpectedEnd }.to_string(), "unexpected end");
    assert_eq!(ParseRangeError { inner: Inner::InvalidChar('a') }.to_string(), "invalid char: 'a'");
    assert_eq!(ParseRangeError { inner: Inner::InvalidChar('\n') }.to_string(), "invalid char: '\\n'");
}

#[test]
fn written_versions_read_back() {
    let samples = [
        Version::new(0, 0, 0),
        Version::new(1, 20, 300),
        Version::new_pre(2, 0, 1, "beta.0.x-y".to_string()),
        Version { major: 3, minor: 4, patch: 5, pre: "rc.1".to_string(), build: "001.sha-abc".to_string() },
        Version { major: 7, minor: 0, patch: 9, pre: String::new(), build: "build.5".to_string() },
    ];
    for v in samples {
        let text = v.to_string();
        let back = Version::from_str(&text).expect(&text);
        assert_eq!((back.major, back.minor, back.patch), (v.major, v.minor, v.patch));
        assert_eq!(back.pre, v.pre);
        assert_eq!(back.build, v.build);
    }
    assert_eq!(Version::new_pre(1, 0, 0, "0a".to_string()).to_string(), "1.0.0-0a");
    assert!(Version::from_str("1.0.0-0a").is_err());
}

#[test]
fn written_ranges_read_back() {
    for text in [">=1.0.0 <2.0.0 || ^3.1", "~1.2.3-beta.1", "1.x", "1 - 2.0", "*", "", "=1.0.0+build.5", "<=2.0.0-rc.1 || >3"] {
        let r = range(text);
        let written = r.to_string();
        let back = range(&written);
        assert_eq!(back.to_string(), written, "{text}");
        for v in ["1.0.0", "1.5.0", "2.0.0", "3.1.4", "4.0.0", "1.2.3-beta.2", "2.0.0-rc.1"] {
            assert_eq!(back.matches(&version(v)), r.matches(&version(v)), "{text} {v}");
        }
    }
    // a hyphen range whose lower end has a patch segment is written without spaces, which
    // reads as a prerelease version
    let r = range("1.0.0 - 2.0.0");
    assert_eq!(r.to_string(), "1.0.0-2.0.0");
    assert!(range("1.0.0-2.0.0").matches(&version("1.0.0-2.0.0")));
    assert!(r.matches(&version("1.5.0")));
    assert!(!range("1.0.0-2.0.0").matches(&version("1.5.0")));
}

#[test]
fn parsing_buf_takes_up_to_a_byte_boundary() {
    let mut buf = ParsingBuf::new("\u{e9}1x");
    assert_eq!(buf.take(2), "\u{e9}");
    assert_eq!(buf.buf, "1x");
    assert!(buf.read('x').is_err());
    assert_eq!(buf.buf, "1x");
    assert!(buf.read('1').is_ok());
    assert_eq!(buf.buf, "x");
    assert_eq!(buf.take(1), "x");
    assert!(buf.read('x').is_err());
    assert_eq!(buf.buf, "");
}

#[test]
fn joined_ranges_match_either_side() {
    let a = range(">=2.0.0");
    let b = range("<1.0.0");
    let joined = range(">=2.0.0||<1.0.0");
    for text in ["2.1.0", "0.5.0", "1.5.0", "2.0.0", "1.0.0"] {
        let v = version(text);
        assert_eq!(joined.matches(&v), a.matches(&v) || b.matches(&v), "{}", text);
    }
    assert!(joined.matches(&version("0.5.0")));
    assert!(!joined.matches(&version("1.5.0")));
}

#[test]
fn the_empty_range_matches_everything() {
    let empty = range("");
    for text in ["0.0.0", "1.2.3", "1.0.0-beta", "99.0.0+build"] {
        assert!(empty.matches(&version(text)), "{}", text);
    }
}

#[test]
fn every_parsed_version_prints_back_to_itself() {
    for text in ["0.0.0", "1.2.3", "  1.2.3", "1.2.3-alpha.1+build.5", "10.20.30-0.a-b+001", "1.0.0+x"] {
        let v = version(text);
        let again = version(&v.to_string());
        assert!(version_identical(&v, &again), "{}", text);
    }
}

#[test]
fn unsigned_numbers_read_as_from_str_reads_them() {
    assert_eq!(u64_from_str("0"), Some(0));
    assert_eq!(u64_from_str("+12"), Some(12));
    assert_eq!(u64_from_str("18446744073709551615"), Some(u64::MAX));
    assert_eq!(u64_from_str("18446744073709551616"), None);
    assert_eq!(u64_from_str("99999999999999999999999"), None);
    assert_eq!(u64_from_str(""), None);
    assert_eq!(u64_from_str("+"), None);
    assert_eq!(u64_from_str("1a"), None);
    assert_eq!(u64_from_str("-1"), None);
    assert_eq!(u16_from_str("65535"), Some(65535));
    assert_eq!(u16_from_str("65536"), None);
    assert_eq!(u8_from_str("255"), Some(255));
    assert_eq!(u8_from_str("256"), None);
    for text in ["0", "+7", "007", "18446744073709551615", "18446744073709551616", "", "+", "x1"] {
        assert_eq!(u64_from_str(text), text.parse::<u64>().ok(), "{}", text);
    }
}
