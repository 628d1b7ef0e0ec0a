use version_control::str_map::StrMap;

fn keys(m: &StrMap<String>) -> Vec<(String, String)> {
    (0..m.len()).map(|i| {
        let (k, v) = m.entry(i);
        (k.clone(), v.clone())
    }).collect()
}

#[test]
fn new_map_is_empty() {
    let m: StrMap<String> = StrMap::new();
    assert!(m.is_empty());
    assert_eq!(m.len(), 0);
    assert!(m.get("a").is_none());
}

#[test]
fn insert_appends_new_keys_in_order() {
    let mut m = StrMap::new();
    m.insert("b".to_string(), "1".to_string());
    m.insert("a".to_string(), "2".to_string());
    assert_eq!(keys(&m), vec![("b".to_string(), "1".to_string()), ("a".to_string(), "2".to_string())]);
    assert_eq!(m.get("a"), Some(&"2".to_string()));
    assert!(m.contains_key("b"));
    assert!(!m.contains_key("c"));
}

#[test]
fn insert_replaces_value_in_place() {
    let mut m = StrMap::new();
    m.insert("x".to_string(), "1".to_string());
    m.insert("y".to_string(), "2".to_string());
    m.insert("x".to_string(), "3".to_string());
    assert_eq!(m.len(), 2);
    assert_eq!(keys(&m), vec![("x".to_string(), "3".to_string()), ("y".to_string(), "2".to_string())]);
    assert_eq!(m.position("y"), Some(1));
}

#[test]
fn clear_removes_all() {
    let mut m = StrMap::new();
    m.insert("x".to_string(), vec![1u8]);
    m.clear();
    assert!(m.is_empty());
    assert!(m.get("x").is_none());
}

#[test]
fn non_ascii_keys_compare_by_text() {
    let mut m = StrMap::new();
    m.insert("héllo/ü".to_string(), 7u8);
    assert_eq!(m.get("héllo/ü"), Some(&7u8));
    assert!(m.get("hello/u").is_none());
}
