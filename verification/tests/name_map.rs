use dandrum_engine::name_map::{name_less, NameMap};

#[test]
fn entries_stay_in_name_order() {
    let mut map = NameMap::new();
    map.insert("b", 2);
    map.insert("a", 1);
    map.insert("c", 3);
    assert_eq!(map.len(), 3);
    assert_eq!(map.name_at(0), "a");
    assert_eq!(map.name_at(1), "b");
    assert_eq!(map.name_at(2), "c");
    assert_eq!(*map.value_at(2), 3);
}

#[test]
fn insert_replaces_the_value_of_an_existing_name() {
    let mut map = NameMap::new();
    map.insert("level", 1u64);
    map.insert("level", 7u64);
    assert_eq!(map.len(), 1);
    assert_eq!(map.get("level"), Some(&7));
    assert_eq!(map.get("missing"), None);
    assert_eq!(map.position("level"), Some(0));
    assert_eq!(map.position("missing"), None);
}

#[test]
fn names_compare_by_characters_then_length() {
    assert!(name_less("a", "b"));
    assert!(name_less("a", "ab"));
    assert!(!name_less("ab", "a"));
    assert!(!name_less("x", "x"));
}
