use tfidf::string_map::StringMap;
use tfidf::term_freq::TermFreq;

#[test]
fn new_map_is_empty() {
    let map: StringMap<u32> = StringMap::new();
    assert_eq!(map.len(), 0);
    assert!(map.is_empty());
    assert_eq!(map.get("a"), None);
    assert!(!map.contains_key("a"));
    assert_eq!(map.position("a"), None);
}

#[test]
fn inserted_values_are_found() {
    let mut map: StringMap<u32> = StringMap::new();
    map.insert("one".to_string(), 1);
    map.insert("two".to_string(), 2);
    map.insert("three".to_string(), 3);
    assert_eq!(map.len(), 3);
    assert!(!map.is_empty());
    assert_eq!(map.get("one"), Some(&1));
    assert_eq!(map.get("two"), Some(&2));
    assert_eq!(map.get("three"), Some(&3));
    assert_eq!(map.get("four"), None);
    assert!(map.contains_key("two"));
    assert!(!map.contains_key("Two"));
}

#[test]
fn inserting_a_key_again_replaces_its_value() {
    let mut map: StringMap<u32> = StringMap::new();
    map.insert("k".to_string(), 1);
    map.insert("other".to_string(), 7);
    map.insert("k".to_string(), 2);
    assert_eq!(map.len(), 2);
    assert_eq!(map.get("k"), Some(&2));
    assert_eq!(map.get("other"), Some(&7));
    assert_eq!(map.position("k"), Some(0));
    assert_eq!(map.position("other"), Some(1));
}

#[test]
fn entries_are_walked_by_position() {
    let mut map: StringMap<u32> = StringMap::new();
    map.insert("b".to_string(), 20);
    map.insert("a".to_string(), 10);
    assert_eq!(map.key_at(0), "b");
    assert_eq!(map.value_at(0), &20);
    assert_eq!(map.key_at(1), "a");
    assert_eq!(map.value_at(1), &10);
}

#[test]
fn the_empty_string_is_a_key() {
    let mut map: StringMap<u32> = StringMap::new();
    map.insert(String::new(), 5);
    assert_eq!(map.get(""), Some(&5));
    assert_eq!(map.get(" "), None);
}

#[test]
fn a_copy_has_the_same_entries() {
    let mut map: StringMap<u32> = StringMap::new();
    map.insert("x".to_string(), 1);
    map.insert("y".to_string(), 2);
    let mut copy = map.duplicate();
    assert_eq!(copy.len(), 2);
    assert_eq!(copy.get("x"), Some(&1));
    assert_eq!(copy.key_at(1), "y");
    copy.insert("x".to_string(), 9);
    assert_eq!(map.get("x"), Some(&1));
    assert_eq!(copy.get("x"), Some(&9));
}

#[test]
fn new_table_holds_no_word() {
    let table = TermFreq::new();
    assert_eq!(table.count("a"), 0);
    assert!(!table.contains("a"));
    assert_eq!(table.distinct(), 0);
}

#[test]
fn recording_a_word_raises_its_count_by_one() {
    let mut table = TermFreq::new();
    table.record("a".to_string());
    assert_eq!(table.count("a"), 1);
    table.record("b".to_string());
    table.record("a".to_string());
    assert_eq!(table.count("a"), 2);
    assert_eq!(table.count("b"), 1);
    assert_eq!(table.count("c"), 0);
    assert!(table.contains("a") && table.contains("b") && !table.contains("c"));
    assert_eq!(table.distinct(), 2);
    assert_eq!(table.word_at(0), "a");
    assert_eq!(table.word_at(1), "b");
}

#[test]
fn a_copied_table_counts_the_same() {
    let mut table = TermFreq::new();
    table.record("a".to_string());
    table.record("a".to_string());
    let mut copy = table.duplicate();
    assert_eq!(copy.count("a"), 2);
    copy.record("a".to_string());
    assert_eq!(copy.count("a"), 3);
    assert_eq!(table.count("a"), 2);
}
