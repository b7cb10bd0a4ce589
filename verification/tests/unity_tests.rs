use vrc_get::version::{ReleaseType, UnityVersion};

#[test]
fn parse_unity_version() {
    fn good(string: &str, major: u16, minor: u8, revision: u8, type_: ReleaseType, increment: u8) {
        let version = UnityVersion::parse(string).unwrap();
        assert_eq!(version.major, major);
        assert_eq!(version.minor, minor);
        assert_eq!(version.revision, revision);
        assert_eq!(version.type_, type_);
        assert_eq!(version.increment, increment);
    }

    fn bad(string: &str) {
        assert!(UnityVersion::parse(string).is_none());
    }

    good("5.6.6f1", 5, 6, 6, ReleaseType::Normal, 1);

    good("2019.1.0a1", 2019, 1, 0, ReleaseType::Alpha, 1);
    good("2019.1.0b1", 2019, 1, 0, ReleaseType::Beta, 1);
    good("2019.4.31f1", 2019, 4, 31, ReleaseType::Normal, 1);
    good("2023.3.6f1", 2023, 3, 6, ReleaseType::Normal, 1);
    good("2023.3.6c1", 2023, 3, 6, ReleaseType::China, 1);
    good("2023.3.6p1", 2023, 3, 6, ReleaseType::Patch, 1);
    good("2023.3.6x1", 2023, 3, 6, ReleaseType::Experimental, 1);

    good("2019.1.0a1-EXTRA", 2019, 1, 0, ReleaseType::Alpha, 1);

    bad("2022");
    bad("2019.0");
    bad("5.6.6");
    bad("2023.4.6f");
}

#[test]
fn unity_version_edges() {
    assert_eq!(UnityVersion::parse("+2019.1.0a1"), Some(UnityVersion::new(2019, 1, 0, ReleaseType::Alpha, 1)));
    assert!(UnityVersion::parse("70000.1.0f1").is_none());
    assert!(UnityVersion::parse("2019.256.0f1").is_none());
    assert!(UnityVersion::parse("2019.1.0f256").is_none());
    assert!(UnityVersion::parse("2019.1.é0f1").is_none());
    assert_eq!(UnityVersion::parse("6000.0.23f1-x"), Some(UnityVersion::new(6000, 0, 23, ReleaseType::Normal, 1)));
    let v = UnityVersion::parse("2022.3.22f1").unwrap();
    assert_eq!(v.major(), 2022);
    assert_eq!(v.minor(), 3);
    assert_eq!(v.to_string(), "2022.3.22f1");
    assert_eq!(UnityVersion::new(6000, 1, 2, ReleaseType::China, 3).to_string(), "6000.1.2c3");
}

#[test]
fn release_type_from_byte() {
    assert_eq!(ReleaseType::try_from(b'a').ok(), Some(ReleaseType::Alpha));
    assert_eq!(ReleaseType::try_from(b'x').ok(), Some(ReleaseType::Experimental));
    assert!(ReleaseType::try_from(b'z').is_err());
    assert_eq!(ReleaseType::Patch.to_char(), 'p');
}

#[test]
fn written_unity_versions_read_back() {
    for v in [
        UnityVersion::new(2022, 3, 22, ReleaseType::Normal, 1),
        UnityVersion::new(6, 0, 0, ReleaseType::Beta, 12),
        UnityVersion::new(u16::MAX, u8::MAX, 0, ReleaseType::Experimental, u8::MAX),
        UnityVersion::new(2019, 4, 31, ReleaseType::China, 0),
    ] {
        assert_eq!(UnityVersion::parse(&v.to_string()), Some(v));
    }
    assert_eq!(UnityVersion::new(2022, 3, 22, ReleaseType::Patch, 1).to_string(), "2022.3.22p1");
}
