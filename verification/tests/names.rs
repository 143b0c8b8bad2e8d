use oderom::names::{text_less, NameSet, RenameMap};

#[test]
fn a_name_set_walks_its_names_in_ascending_order_without_repeats() {
    let mut s = NameSet::new();
    assert!(s.insert("r".to_string()));
    assert!(s.insert("M".to_string()));
    assert!(s.insert("theta".to_string()));
    assert!(!s.insert("r".to_string()));
    assert_eq!(s.items(), &vec!["M".to_string(), "r".to_string(), "theta".to_string()]);
    assert_eq!(s.len(), 3);
    assert!(s.contains("theta"));
    assert!(!s.contains("phi"));
}

#[test]
fn text_order_is_by_code_point_with_a_prefix_first() {
    assert!(text_less("E", "E$"));
    assert!(text_less("M", "a"));
    assert!(!text_less("ab", "ab"));
    assert!(text_less("", "a"));
    assert!(!text_less("b", "ab"));
}

#[test]
fn a_rename_map_replaces_a_value_and_reports_the_old_one() {
    let mut m = RenameMap::new();
    assert_eq!(m.insert("x".to_string(), "y".to_string()), None);
    assert_eq!(m.insert("x".to_string(), "z".to_string()), Some("y".to_string()));
    assert_eq!(m.get("x"), Some(&"z".to_string()));
    assert_eq!(m.len(), 1);
    let later = RenameMap::from_pairs(vec![("a".to_string(), "1".to_string()), ("a".to_string(), "2".to_string())]);
    assert_eq!(later.get("a"), Some(&"2".to_string()));
}
