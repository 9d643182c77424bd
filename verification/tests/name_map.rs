use vyges_power::name_map::NameMap;

#[test]
fn names_keep_their_first_place() {
    let mut m: NameMap<u32> = NameMap::new();
    assert_eq!(m.len(), 0);
    assert!(m.get("a").is_none());
    m.insert("b".to_string(), 1);
    m.insert("a".to_string(), 2);
    m.insert("b".to_string(), 3);
    assert_eq!(m.len(), 2);
    assert_eq!(m.get("b"), Some(&3));
    assert!(m.contains("a") && !m.contains("c"));
    assert_eq!(m.name_at(0), "b");
    assert_eq!(m.name_at(1), "a");
    assert_eq!((*m.value_at(0), *m.value_at(1)), (3, 2));
}

#[test]
fn a_copy_keeps_the_order() {
    let mut m: NameMap<String> = NameMap::new();
    m.insert("b".to_string(), "x".to_string());
    m.insert("a".to_string(), "y".to_string());
    let mut c = m.clone();
    c.insert("b".to_string(), "z".to_string());
    assert_eq!(c.len(), 2);
    assert_eq!(c.name_at(0), "b");
    assert_eq!(c.value_at(0), "z");
    assert_eq!(c.value_at(1), "y");
    assert_eq!(m.value_at(0), "x");
}
