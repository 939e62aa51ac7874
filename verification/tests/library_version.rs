use dandrum_engine::library_version::LibraryVersion;

#[test]
fn dotted_numbers_parse() {
    let version = LibraryVersion::parse("1.10.0").expect("a dotted version parses");
    assert_eq!(Some(version), LibraryVersion::parse("1.10.0"));
    assert_ne!(LibraryVersion::parse("1.10.0"), LibraryVersion::parse("1.1.0"));
}

#[test]
fn zero_and_malformed_versions_are_rejected() {
    assert!(LibraryVersion::parse("0.0.0").is_none());
    assert!(LibraryVersion::parse("latest").is_none());
    assert!(LibraryVersion::parse("1..2").is_none());
    assert!(LibraryVersion::parse("").is_none());
    assert!(LibraryVersion::parse("1.-2").is_none());
}

#[test]
fn plus_signs_parse_as_unsigned_integers_do() {
    let version = LibraryVersion::parse("+1.2").expect("u64 parsing accepts a leading plus");
    assert_eq!(Some(version), LibraryVersion::parse("1.2"));
}

#[test]
fn versions_order_numerically_then_by_length() {
    let a = LibraryVersion::parse("1.3.9").unwrap();
    let b = LibraryVersion::parse("1.10.0").unwrap();
    let c = LibraryVersion::parse("1.10").unwrap();
    assert!(a.is_older_than(&b));
    assert!(!b.is_older_than(&a));
    assert!(c.is_older_than(&b));
    assert!(!a.is_older_than(&a));
}
