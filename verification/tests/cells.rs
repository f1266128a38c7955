use csvim::cells::CellMap;

#[test]
fn cells_are_kept_by_row_and_column() {
    let mut map = CellMap::new();
    assert_eq!(map.get(0, 0), None);
    map.insert(0, 1, "a".to_string());
    map.insert(1, 0, "b".to_string());
    map.insert(u32::MAX, u32::MAX, "c".to_string());
    assert_eq!(map.get(0, 1).map(|s| s.as_str()), Some("a"));
    assert_eq!(map.get(1, 0).map(|s| s.as_str()), Some("b"));
    assert_eq!(map.get(u32::MAX, u32::MAX).map(|s| s.as_str()), Some("c"));
    assert_eq!(map.get(0, 0), None);
    assert_eq!(map.get(1, 1), None);
    assert!(map.contains(0, 1));
    assert!(!map.contains(1, 1));
}

#[test]
fn a_later_text_replaces_an_earlier_one() {
    let mut map = CellMap::new();
    map.insert(3, 4, "old".to_string());
    map.insert(3, 4, "new".to_string());
    assert_eq!(map.get(3, 4).map(|s| s.as_str()), Some("new"));
}

#[test]
fn empty_text_is_not_kept() {
    let mut map = CellMap::new();
    map.insert(0, 0, String::new());
    assert!(!map.contains(0, 0));
    map.insert(0, 0, "x".to_string());
    map.insert(0, 0, String::new());
    assert_eq!(map.get(0, 0).map(|s| s.as_str()), Some("x"));
}

#[test]
fn places_in_the_order_of_their_first_text() {
    let mut map = CellMap::new();
    assert!(map.positions().is_empty());
    map.insert(2, 2, "a".to_string());
    map.insert(0, 1, "b".to_string());
    map.insert(2, 2, "c".to_string());
    map.insert(5, 5, String::new());
    assert_eq!(map.positions(), &vec![(2, 2), (0, 1)]);
}
