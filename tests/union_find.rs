use zertz_core::union_find::UnionFind;

#[test]
fn one_item_union_find() {
    let elems = vec![1];
    let mut union_find = UnionFind::from(elems);

    assert_eq!(union_find.find(&1), 0);
}

#[test]
fn complex_union_find() {
    let elems = vec![1, 2, 3, 4, 5, 6, 7, 8];
    let mut union_find = UnionFind::from(elems);

    union_find.union(&1, &2);
    union_find.union(&4, &5);
    union_find.union(&6, &1);
    union_find.union(&3, &7);
    union_find.union(&7, &8);
    union_find.union(&2, &5);

    assert_eq!(union_find.find(&1), union_find.find(&6));
    assert_eq!(union_find.find(&2), union_find.find(&6));
    assert_eq!(union_find.find(&3), union_find.find(&3));
    assert_eq!(union_find.find(&4), union_find.find(&6));
    assert_eq!(union_find.find(&5), union_find.find(&6));
    assert_eq!(union_find.find(&6), union_find.find(&6));
    assert_eq!(union_find.find(&7), union_find.find(&3));
    assert_eq!(union_find.find(&8), union_find.find(&3));

    union_find.clear();

    union_find.union(&2, &3);
    union_find.union(&1, &5);
    union_find.union(&6, &7);
    union_find.union(&7, &5);

    assert_eq!(union_find.find(&1), union_find.find(&1));
    assert_eq!(union_find.find(&2), union_find.find(&2));
    assert_eq!(union_find.find(&3), union_find.find(&2));
    assert_eq!(union_find.find(&4), union_find.find(&4));
    assert_eq!(union_find.find(&5), union_find.find(&1));
    assert_eq!(union_find.find(&6), union_find.find(&1));
    assert_eq!(union_find.find(&7), union_find.find(&1));
    assert_eq!(union_find.find(&8), union_find.find(&8));
}

#[test]
fn union_find_one_item_union_find() {
    let elems = vec![1];
    let mut union_find = UnionFind::from(elems);

    assert_eq!(union_find.try_find(&1), Some(0));
}

#[test]
fn union_find_complex_union_find() {
    let elems = vec![1, 2, 3, 4, 5, 6, 7, 8];
    let mut union_find = UnionFind::from(elems);

    union_find.union(&1, &2);
    union_find.union(&4, &5);
    union_find.union(&6, &1);
    union_find.union(&3, &7);
    union_find.union(&7, &8);
    union_find.union(&2, &5);

    assert_eq!(union_find.try_find(&1), union_find.try_find(&6));
    assert_eq!(union_find.try_find(&2), union_find.try_find(&6));
    assert_eq!(union_find.try_find(&3), union_find.try_find(&3));
    assert_eq!(union_find.try_find(&4), union_find.try_find(&6));
    assert_eq!(union_find.try_find(&5), union_find.try_find(&6));
    assert_eq!(union_find.try_find(&6), union_find.try_find(&6));
    assert_eq!(union_find.try_find(&7), union_find.try_find(&3));
    assert_eq!(union_find.try_find(&8), union_find.try_find(&3));
}

#[test]
fn missing_element_is_not_found() {
    let mut union_find = UnionFind::from(vec![3, 4]);
    assert_eq!(union_find.try_find(&9), None);
}

#[test]
fn union_by_rank_keeps_the_higher_root() {
    let mut union_find = UnionFind::from(vec![10, 20, 30]);
    // Equal ranks: the first argument's root stays root.
    union_find.union(&10, &20);
    assert_eq!(union_find.find(&20), 0);
    // Rank 1 against rank 0: the higher-rank root stays root either way.
    union_find.union(&30, &10);
    assert_eq!(union_find.find(&30), 0);
}

#[test]
fn components_lists_one_element_per_class() {
    let mut union_find = UnionFind::from(vec![5, 6, 7, 8]);
    union_find.union(&5, &6);
    union_find.union(&7, &8);
    assert_eq!(union_find.components(), vec![5, 7]);
    union_find.clear();
    assert_eq!(union_find.components(), vec![5, 6, 7, 8]);
}

#[test]
fn duplicate_element_keeps_later_slot() {
    let mut union_find = UnionFind::from(vec![4, 9, 4]);
    assert_eq!(union_find.find(&4), 2);
    assert_eq!(union_find.find(&9), 1);
}
