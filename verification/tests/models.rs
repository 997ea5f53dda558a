use ferro_pipeit::models::StringMap;

#[test]
fn string_map_insert_replaces_in_place() {
    let mut m: StringMap<u32> = StringMap::new();
    assert!(m.is_empty());
    assert_eq!(m.insert("a".to_string(), 1), None);
    assert_eq!(m.insert("b".to_string(), 2), None);
    assert_eq!(m.insert("a".to_string(), 3), Some(1));
    assert_eq!(m.len(), 2);
    assert_eq!(m.key_at(0), "a");
    assert_eq!(*m.value_at(0), 3);
    assert_eq!(m.key_at(1), "b");
    assert_eq!(m.get(&"b".to_string()), Some(&2));
    assert_eq!(m.get(&"c".to_string()), None);
    assert_eq!(m.find(&"b".to_string()), Some(1));
    assert!(m.contains_key(&"a".to_string()));
    assert!(!m.contains_key(&"z".to_string()));
}

#[test]
fn string_map_clone_keeps_entries() {
    let mut m: StringMap<String> = StringMap::new();
    m.insert("x".to_string(), "1".to_string());
    m.insert("y".to_string(), "2".to_string());
    let c = m.clone();
    assert_eq!(c.len(), 2);
    assert_eq!(c.key_at(1), "y");
    assert_eq!(c.value_at(0), "1");
    assert_eq!(c.value_at(1), "2");
}
