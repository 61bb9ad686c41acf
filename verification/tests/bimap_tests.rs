use bimap::internal::KvStore;
use bimap::ordered::Ordered;
use bimap::unordered::{Unordered, UnorderedMap};
use bimap::{BiBTreeMap, BiHashMap, BiMap, Overwritten};
use std::collections::hash_map::RandomState;

#[test]
fn test() {
    let mut bimap = BiMap::<char, u8>::new();

    bimap.insert_unchecked('a', 1);
    bimap.insert_unchecked('b', 2);
    bimap.insert_unchecked('c', 3);

    assert_eq!(bimap.get_by_left(&'a'), Some(&1));
    assert_eq!(bimap.get_by_left(&'x'), None);

    assert_eq!(bimap.get_by_right(&2), Some(&'b'));
    assert_eq!(bimap.get_by_right(&5), None);
}

#[test]
fn fresh_inserts_are_recoverable() {
    let mut m = BiMap::<u32, u32>::new();
    assert_eq!(m.insert(1, 10), Overwritten::Neither);
    assert_eq!(m.insert(2, 20), Overwritten::Neither);
    assert_eq!(m.insert(3, 30), Overwritten::Neither);
    assert_eq!(m.len(), 3);
    assert_eq!(m.get_by_left(&1), Some(&10));
    assert_eq!(m.get_by_left(&2), Some(&20));
    assert_eq!(m.get_by_left(&3), Some(&30));
    assert_eq!(m.get_by_right(&10), Some(&1));
    assert_eq!(m.get_by_right(&20), Some(&2));
    assert_eq!(m.get_by_right(&30), Some(&3));
}

#[test]
fn left_collision_reports_left() {
    let mut m = BiMap::<char, u8>::new();
    m.insert('a', 1);
    assert_eq!(m.insert('a', 2), Overwritten::Left('a', 1));
    assert_eq!(m.get_by_left(&'a'), Some(&2));
    assert_eq!(m.get_by_right(&2), Some(&'a'));
    assert_eq!(m.get_by_right(&1), None);
    assert_eq!(m.len(), 1);
}

#[test]
fn right_collision_reports_right() {
    let mut m = BiMap::<char, u8>::new();
    m.insert('a', 1);
    assert_eq!(m.insert('b', 1), Overwritten::Right('a', 1));
    assert_eq!(m.get_by_left(&'b'), Some(&1));
    assert_eq!(m.get_by_right(&1), Some(&'b'));
    assert_eq!(m.get_by_left(&'a'), None);
    assert_eq!(m.len(), 1);
}

#[test]
fn reinsert_identical_reports_pair() {
    let mut m = BiMap::<char, u8>::new();
    m.insert('a', 1);
    m.insert('b', 2);
    assert_eq!(m.insert('a', 1), Overwritten::Pair('a', 1));
    assert_eq!(m.len(), 2);
    assert_eq!(m.get_by_left(&'a'), Some(&1));
    assert_eq!(m.get_by_right(&1), Some(&'a'));
}

#[test]
fn double_collision_reports_both() {
    let mut m = BiMap::<char, u8>::new();
    m.insert('a', 1);
    m.insert('b', 2);
    assert_eq!(m.insert('a', 2), Overwritten::Both(('a', 1), ('b', 2)));
    assert_eq!(m.len(), 1);
    assert_eq!(m.get_by_left(&'a'), Some(&2));
    assert_eq!(m.get_by_right(&2), Some(&'a'));
    assert_eq!(m.get_by_left(&'b'), None);
    assert_eq!(m.get_by_right(&1), None);
}

#[test]
fn remove_clears_both_sides() {
    let mut m = BiMap::<char, u8>::new();
    m.insert('a', 1);
    m.insert('b', 2);
    assert_eq!(m.remove_by_left(&'a'), Some(('a', 1)));
    assert_eq!(m.get_by_right(&1), None);
    assert_eq!(m.get_by_left(&'a'), None);
    assert_eq!(m.remove_by_right(&2), Some(('b', 2)));
    assert_eq!(m.get_by_left(&'b'), None);
    assert_eq!(m.get_by_right(&2), None);
    assert_eq!(m.len(), 0);
    assert_eq!(m.remove_by_left(&'a'), None);
    assert_eq!(m.remove_by_right(&2), None);
}

#[test]
fn try_insert_collision_leaves_container_unchanged() {
    let mut m = BiMap::<char, u8>::new();
    assert_eq!(m.try_insert('a', 1), Ok(()));
    assert_eq!(m.try_insert('a', 2), Err(('a', 2)));
    assert_eq!(m.try_insert('b', 1), Err(('b', 1)));
    assert_eq!(m.len(), 1);
    assert_eq!(m.get_by_left(&'a'), Some(&1));
    assert_eq!(m.get_by_right(&1), Some(&'a'));
    assert_eq!(m.get_by_left(&'b'), None);
    assert_eq!(m.get_by_right(&2), None);
    assert_eq!(m.try_insert('b', 2), Ok(()));
    assert_eq!(m.len(), 2);
}

#[test]
fn contains_checks_each_side_independently() {
    let mut m = BiMap::<char, u8>::new();
    m.insert('a', 1);
    m.insert('b', 2);
    assert!(m.contains_left(&'a'));
    assert!(!m.contains_left(&'x'));
    assert!(m.contains_right(&2));
    assert!(!m.contains_right(&9));
    // both sides exist, even though 'a' is paired with 1, not 2
    assert!(m.contains_pair(&'a', &2));
    assert!(m.contains_pair(&'a', &1));
    assert!(!m.contains_pair(&'a', &9));
    assert!(!m.contains_pair(&'x', &1));
}

#[test]
fn example_walkthrough() {
    let mut m = BiMap::<char, u8>::new();
    m.insert('a', 1);
    m.insert('b', 2);
    m.insert('c', 3);
    assert_eq!(m.len(), 3);
    assert_eq!(m.get_by_left(&'b'), Some(&2));
    assert_eq!(m.get_by_right(&5), None);
    assert_eq!(m.remove_by_left(&'a'), Some(('a', 1)));
    assert_eq!(m.get_by_right(&1), None);
}

#[test]
fn ordered_backing_store() {
    let mut m = BiBTreeMap::<u64, u64>::new();
    assert_eq!(m.insert(1, 10), Overwritten::Neither);
    assert_eq!(m.insert(2, 20), Overwritten::Neither);
    assert_eq!(m.insert(1, 20), Overwritten::Both((1, 10), (2, 20)));
    assert_eq!(m.len(), 1);
    assert_eq!(m.get_by_left(&1), Some(&20));
    assert_eq!(m.get_by_right(&20), Some(&1));
    assert_eq!(m.remove_by_right(&20), Some((1, 20)));
    assert_eq!(m.len(), 0);
}

#[test]
fn mixed_backing_stores() {
    let mut m = BiMap::<u64, char, Ordered, Unordered>::new();
    assert_eq!(m.try_insert(7, 'x'), Ok(()));
    assert_eq!(m.insert(8, 'x'), Overwritten::Right(7, 'x'));
    assert_eq!(m.get_by_left(&8), Some(&'x'));
    assert_eq!(m.get_by_right(&'x'), Some(&8));
    assert_eq!(m.get_by_left(&7), None);
}

#[test]
fn unordered_store_constructors() {
    let mut s = UnorderedMap::<u16, u16>::with_capacity(8);
    assert_eq!(s.len(), 0);
    s.insert(4, 40);
    assert!(s.contains_key(&4));
    assert_eq!(s.get(&4), Some(&40));
    assert_eq!(s.remove_entry(&4), Some((4, 40)));
    assert_eq!(s.len(), 0);

    let mut t =
        UnorderedMap::<u16, u16, RandomState>::with_capacity_and_hasher(8, RandomState::new());
    assert_eq!(t.len(), 0);
    t.insert(5, 50);
    t.insert(6, 60);
    assert_eq!(t.get(&5), Some(&50));
    assert_eq!(t.remove_entry(&6), Some((6, 60)));
    assert_eq!(t.len(), 1);
    assert!(!t.contains_key(&6));
}

#[test]
fn hashed_backing_store() {
    let mut m = BiHashMap::<u64, u64>::new();
    assert_eq!(m.insert(1, 10), Overwritten::Neither);
    assert_eq!(m.insert(2, 10), Overwritten::Right(1, 10));
    assert_eq!(m.len(), 1);
    assert_eq!(m.get_by_left(&2), Some(&10));
    assert_eq!(m.get_by_left(&1), None);
    assert_eq!(m.remove_by_left(&2), Some((2, 10)));
    assert_eq!(m.len(), 0);
}

#[test]
fn empty_container() {
    let mut m = BiMap::<char, u8>::new();
    assert_eq!(m.len(), 0);
    assert_eq!(m.get_by_left(&'a'), None);
    assert_eq!(m.get_by_right(&1), None);
    assert!(!m.contains_left(&'a'));
    assert!(!m.contains_right(&1));
    assert!(!m.contains_pair(&'a', &1));
    assert_eq!(m.remove_by_left(&'a'), None);
    assert_eq!(m.remove_by_right(&1), None);
}
