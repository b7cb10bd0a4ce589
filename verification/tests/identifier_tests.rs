use std::mem::{align_of, size_of};
use vrc_get::version::Identifier;

#[test]
fn test_identifier_size_align() {
    assert_eq!(size_of::<Identifier>(), 8);
    assert_eq!(align_of::<Identifier>(), 8);
}

#[test]
fn test_new() {
    assert_eq!(Identifier::new("beta.1").as_str(), "beta.1");
    assert!(Identifier::new("beta.1").is_inline());

    assert_eq!(Identifier::new("alpha.2").as_str(), "alpha.2");
    assert!(Identifier::new("alpha.2").is_inline());

    assert_eq!(Identifier::new("").as_str(), "");
    assert!(Identifier::new("").is_empty());

    assert_eq!(Identifier::new("long-representation").as_str(), "long-representation");
    assert!(Identifier::new("long-representation").is_heap());
}

#[test]
fn test_eq() {
    for literal in ["beta.1", "alpha.2", "", "long-representation"] {
        assert_eq!(Identifier::new(literal), Identifier::new(literal));
    }
    assert_ne!(Identifier::new("beta.1"), Identifier::new("beta.2"));
    assert_eq!(Identifier::new("12345678").clone(), Identifier::new("12345678"));
    assert!(Identifier::new("12345678").is_inline());
    assert!(Identifier::new("123456789").is_heap());
}
