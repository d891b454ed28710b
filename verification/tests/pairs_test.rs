use sagume::pairs::PairIndex;

#[test]
fn a_pair_finds_its_position() {
    let mut table = PairIndex::new();
    assert_eq!(table.get("a", "x"), None);
    table.insert("a", "x", 7);
    table.insert("b", "x", 8);
    table.insert("a", "y", 9);
    assert_eq!(table.get("a", "x"), Some(7));
    assert_eq!(table.get("b", "x"), Some(8));
    assert_eq!(table.get("a", "y"), Some(9));
    assert_eq!(table.get("b", "y"), None);
    assert_eq!(table.get("x", "a"), None);
}

#[test]
fn pairs_are_kept_apart_whatever_they_hold() {
    let mut table = PairIndex::new();
    table.insert("a/b", "c", 1);
    table.insert("a", "b/c", 2);
    table.insert("", "", 3);
    assert_eq!(table.get("a/b", "c"), Some(1));
    assert_eq!(table.get("a", "b/c"), Some(2));
    assert_eq!(table.get("", ""), Some(3));
}
