use pyinrs::{Deque, Dict, List, OrderedSet};
use pyinrs::detail;

#[test]
fn list_push_pop_and_len() {
    let mut l: List<i32> = List::new();
    assert!(l.is_empty());
    l.push(1);
    l.push(2);
    l.push(3);
    assert_eq!(l.len(), 3);
    assert_eq!(l.pop(), Some(3));
    assert_eq!(l.pop(), Some(2));
    assert_eq!(l.pop(), Some(1));
    assert_eq!(l.pop(), None);
}

#[test]
fn list_negative_indexing() {
    let mut l: List<i32> = List::new();
    for v in [10, 20, 30] {
        l.push(v);
    }
    l.insert(-1, 25);
    assert_eq!(l.iter(), [10, 20, 25, 30].as_slice());
    assert_eq!(l.remove(-2), 25);
    assert_eq!(l.remove(0), 10);
    assert_eq!(l.iter(), [20, 30].as_slice());
}

#[test]
fn list_find_contains_count() {
    let mut l: List<i32> = List::new();
    for v in [1, 2, 2, 3, 2] {
        l.push(v);
    }
    assert_eq!(l.find(&2), Some(&2));
    assert_eq!(l.find(&9), None);
    assert!(l.contains(&3));
    assert!(!l.contains(&4));
    assert_eq!(l.count(&2), 3);
    assert_eq!(l.count(&9), 0);
}

#[test]
fn list_uniquify_keeps_first_occurrences() {
    let mut l: List<i32> = List::new();
    for v in [3, 1, 3, 2, 1, 2] {
        l.push(v);
    }
    assert_eq!(l.uniquify().iter(), [3, 1, 2].as_slice());
}

#[test]
fn list_reverse_and_clear() {
    let mut l: List<i32> = List::new();
    for v in [1, 2, 3, 4] {
        l.push(v);
    }
    l.reverse();
    assert_eq!(l.iter(), [4, 3, 2, 1].as_slice());
    l.clear();
    assert!(l.is_empty());
}

#[test]
fn deque_pushes_and_pops_both_ends() {
    let mut d: Deque<i32> = Deque::new();
    d.push_back(2);
    d.push_front(1);
    d.push_back(3);
    assert_eq!(d.iter(), [1, 2, 3].as_slice());
    assert_eq!(d.front(), Some(&1));
    assert_eq!(d.back(), Some(&3));
    assert_eq!(d.pop_front(), Some(1));
    assert_eq!(d.pop_back(), Some(3));
    assert_eq!(d.len(), 1);
}

#[test]
fn deque_mutable_ends() {
    let mut d: Deque<i32> = Deque::with_capacity(4);
    d.push_back(1);
    d.push_back(2);
    if let Some(f) = d.front_mut() {
        *f = 10;
    }
    if let Some(b) = d.back_mut() {
        *b = 20;
    }
    assert_eq!(d.iter(), [10, 20].as_slice());
}

#[test]
fn deque_rotations() {
    let mut d: Deque<i32> = Deque::new();
    for v in [1, 2, 3, 4, 5] {
        d.push_back(v);
    }
    d.rotate_left(2);
    assert_eq!(d.iter(), [3, 4, 5, 1, 2].as_slice());
    d.rotate_right(2);
    assert_eq!(d.iter(), [1, 2, 3, 4, 5].as_slice());
    d.rotate_right(7);
    assert_eq!(d.iter(), [4, 5, 1, 2, 3].as_slice());
}

#[test]
fn dict_add_get_remove() {
    let mut d: Dict<i64, &str> = Dict::new();
    assert!(d.add(2, "two"));
    assert!(d.add(1, "one"));
    assert!(!d.add(2, "deux"));
    assert_eq!(d.len(), 2);
    assert!(d.contains(&1));
    assert_eq!(d.get(&2, &"none"), &"deux");
    assert_eq!(d.get(&9, &"none"), &"none");
    assert_eq!(d.find(&1), Some((&1, &"one")));
    assert_eq!(d.find(&9), None);
    assert!(d.remove(&1));
    assert!(!d.remove(&1));
}

#[test]
fn dict_is_sorted_by_key() {
    let mut d: Dict<i64, i64> = Dict::new();
    for (k, v) in [(3, 30), (1, 10), (2, 20)] {
        d.add(k, v);
    }
    let keys: Vec<i64> = d.keys().into_iter().copied().collect();
    assert_eq!(keys, vec![1, 2, 3]);
    let values: Vec<i64> = d.values().into_iter().copied().collect();
    assert_eq!(values, vec![10, 20, 30]);
    let pairs: Vec<(i64, i64)> = d.iter().into_iter().map(|(k, v)| (*k, *v)).collect();
    assert_eq!(pairs, vec![(1, 10), (2, 20), (3, 30)]);
    assert_eq!(d.pop(), Some((1, 10)));
    assert_eq!(d.pop(), Some((2, 20)));
    d.clear();
    assert!(d.is_empty());
    assert_eq!(d.pop(), None);
}

#[test]
fn set_membership_and_order() {
    let mut s: OrderedSet<i64> = OrderedSet::new();
    assert!(s.add(5));
    assert!(s.add(1));
    assert!(s.add(3));
    assert!(!s.add(3));
    assert_eq!(s.len(), 3);
    assert!(s.contains(&3));
    assert!(!s.contains(&2));
    assert_eq!(s.find(&5), Some(&5));
    assert_eq!(s.find(&2), None);
    assert_eq!(s.min(), Some(&1));
    assert_eq!(s.max(), Some(&5));
    let elems: Vec<i64> = s.iter().into_iter().copied().collect();
    assert_eq!(elems, vec![1, 3, 5]);
    assert_eq!(s.pop(), Some(1));
    assert!(s.remove(&3));
    assert!(!s.remove(&3));
    assert_eq!(s.pop(), Some(5));
    assert_eq!(s.pop(), None);
    assert!(s.is_empty());
}

#[test]
fn set_disjointness() {
    let mut a: OrderedSet<i64> = OrderedSet::new();
    let mut b: OrderedSet<i64> = OrderedSet::new();
    a.add(1);
    a.add(2);
    b.add(3);
    assert!(a.is_disjoint(&b));
    b.add(2);
    assert!(!a.is_disjoint(&b));
    a.clear();
    assert!(a.is_disjoint(&b));
}

#[test]
fn helper_index_and_gcd() {
    assert_eq!(detail::calc_index(2, 5), 2);
    assert_eq!(detail::calc_index(-1, 5), 4);
    assert_eq!(detail::calc_index(-5, 5), 0);
    assert_eq!(detail::gcd(48, 18), 6);
    assert_eq!(detail::gcd(7, 0), 7);
    assert_eq!(detail::gcd(0, 0), 0);
}
