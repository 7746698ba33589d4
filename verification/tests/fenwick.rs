use schemweave::fenwick::CrossingFenwick;

#[test]
fn fenwick_prefix_counts_items_below_each_boundary() {
    let mut tree = CrossingFenwick::new(10);
    for index in [0, 3, 3, 7, 9] {
        tree.add(index);
    }
    let expected = [0, 1, 1, 1, 3, 3, 3, 3, 4, 4, 5];
    for (end, &count) in expected.iter().enumerate() {
        assert_eq!(tree.prefix(end), count, "prefix {end}");
    }
}

#[test]
fn fenwick_remove_undoes_add() {
    let mut tree = CrossingFenwick::new(16);
    for index in 0..16 {
        tree.add(index);
    }
    tree.add(5);
    tree.remove(5);
    tree.remove(0);
    tree.remove(15);
    assert_eq!(tree.prefix(0), 0);
    assert_eq!(tree.prefix(1), 0);
    assert_eq!(tree.prefix(6), 5);
    assert_eq!(tree.prefix(15), 14);
    assert_eq!(tree.prefix(16), 14);
}

#[test]
fn empty_fenwick_counts_nothing() {
    let tree = CrossingFenwick::new(0);
    assert_eq!(tree.prefix(0), 0);
    let tree = CrossingFenwick::new(7);
    for end in 0..=7 {
        assert_eq!(tree.prefix(end), 0);
    }
}
