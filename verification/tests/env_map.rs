use sam_env_diff::env_map::EnvMap;

#[test]
fn insert_overwrites() {
    let mut m = EnvMap::new();
    assert!(m.is_empty());
    m.insert("A".to_string(), "1".to_string());
    m.insert("B".to_string(), "2".to_string());
    m.insert("A".to_string(), "3".to_string());
    assert_eq!(m.len(), 2);
    assert_eq!(m.get("A").unwrap(), "3");
    assert_eq!(m.get("B").unwrap(), "2");
    assert!(m.get("C").is_none());
    assert!(m.contains_key("B"));
    assert!(!m.contains_key("b"));
}

#[test]
fn keys_listed_once() {
    let mut m = EnvMap::new();
    m.insert("Z".to_string(), "1".to_string());
    m.insert("A".to_string(), "2".to_string());
    m.insert("Z".to_string(), "3".to_string());
    let mut keys = m.keys();
    keys.sort();
    assert_eq!(keys, vec!["A".to_string(), "Z".to_string()]);
}

#[test]
fn clone_keeps_contents() {
    let mut m = EnvMap::new();
    m.insert("K".to_string(), "v".to_string());
    let c = m.clone();
    assert_eq!(c.len(), 1);
    assert_eq!(c.get("K").unwrap(), "v");
}
