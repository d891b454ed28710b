use sagume::set::StringSet;

fn set_of(items: &[&str]) -> StringSet {
    let mut set = StringSet::new();
    for item in items {
        set.insert(item.to_string());
    }
    set
}

#[test]
fn a_set_keeps_each_member_once_in_order() {
    let mut set = StringSet::new();
    assert!(set.insert("b".into()));
    assert!(set.insert("a".into()));
    assert!(!set.insert("b".into()));
    assert_eq!(set.len(), 2);
    assert_eq!(set.to_vec(), vec!["b", "a"]);
    assert!(set.contains("a"));
    assert!(!set.contains("c"));
    assert_eq!(set.position("a"), Some(1));
    assert_eq!(set.position("c"), None);
    assert_eq!(set.get(0), "b");
}

#[test]
fn union_and_intersection() {
    let mut a = set_of(&["x", "y", "z"]);
    let b = set_of(&["z", "w", "x"]);
    assert_eq!(a.intersection(&b).to_vec(), vec!["x", "z"]);
    a.union_with(&b);
    assert_eq!(a.to_vec(), vec!["x", "y", "z", "w"]);
    assert_eq!(a.copy().to_vec(), a.to_vec());
    assert!(a.intersection(&StringSet::new()).to_vec().is_empty());
}
