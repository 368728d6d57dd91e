use key_set::key_set::IteratorWrapper;
use key_set::key_set::KeyHashSet;
use key_set::key_set::debug_key;

fn rem3(v: &u64) -> u64 {
    *v % 3
}

fn ident(v: &u64) -> u64 {
    *v
}

fn collect_sorted(mut it: IteratorWrapper<u64>) -> Vec<u64> {
    let mut out: Vec<u64> = Vec::new();
    while let Some(v) = it.next() {
        out.push(v);
    }
    out.sort();
    out
}

#[test]
fn insert_then_contains_and_get() {
    let mut s = KeyHashSet::new(rem3);
    s.insert(4);
    assert!(s.contains(&4));
    assert!(s.contains(&7)); // same key 1
    assert!(!s.contains(&5));
    assert_eq!(s.get(&4), Some(&4));
    assert_eq!(s.get(&7), Some(&4)); // looked up by key, not by value
    assert_eq!(s.get(&5), None);
}

#[test]
fn overwrite_same_key_keeps_one() {
    let mut s = KeyHashSet::new(rem3);
    s.insert(1);
    s.insert(4); // key 1 again: overwrites
    assert_eq!(s.len(), 1);
    assert_eq!(s.get(&1), Some(&4)); // the second-inserted value
}

#[test]
fn remove_then_absent_and_noop() {
    let mut s = KeyHashSet::new(rem3);
    s.insert(4);
    assert!(s.remove(&4));
    assert!(!s.contains(&4));
    assert_eq!(s.len(), 0);
    assert!(!s.remove(&4)); // absent key: false and a no-op
    assert_eq!(s.len(), 0);
}

#[test]
fn take_returns_stored_value() {
    let mut s = KeyHashSet::new(rem3);
    s.insert(1);
    s.insert(4); // overwrites at key 1
    assert_eq!(s.take(&7), Some(4)); // key 1: the stored value, not 7
    assert_eq!(s.len(), 0);
    assert_eq!(s.take(&7), None);
}

#[test]
fn repeated_insert_is_idempotent() {
    let mut s = KeyHashSet::new(rem3);
    s.insert(5);
    assert_eq!(s.len(), 1);
    s.insert(5);
    s.insert(5);
    assert_eq!(s.len(), 1);
}

#[test]
fn empty_set_basics() {
    let mut s = KeyHashSet::new(rem3);
    assert_eq!(s.len(), 0);
    assert!(s.is_empty());
    assert!(!s.contains(&0));
    assert_eq!(s.get(&0), None);
    assert_eq!(s.take(&0), None);
    assert!(!s.remove(&0));
    s.insert(0);
    assert!(!s.is_empty());
}

#[test]
fn subset_superset_equality_laws() {
    let mut a = KeyHashSet::new(ident);
    a.insert(1);
    a.insert(2);
    let mut b = KeyHashSet::new(ident);
    b.insert(2);
    b.insert(3);
    let mut c = KeyHashSet::new(ident);
    c.insert(2);
    c.insert(1);

    assert!(!a.is_subset(&b));
    assert!(!a.is_superset(&b));
    assert!(a.is_subset(&c) && c.is_subset(&a));
    assert!(a.eq(&c));
    assert_eq!(a.is_subset(&b) && b.is_subset(&a), a.eq(&b));
    assert_eq!(a.is_subset(&c) && c.is_subset(&a), a.eq(&c));

    let empty = KeyHashSet::new(ident);
    assert!(empty.is_subset(&a));
    assert!(a.is_superset(&empty));
    assert!(empty.is_disjoint(&a));
}

#[test]
fn disjoint_iff_intersection_empty() {
    let mut a = KeyHashSet::new(ident);
    a.insert(1);
    a.insert(2);
    let mut b = KeyHashSet::new(ident);
    b.insert(2);
    b.insert(3);
    let mut d = KeyHashSet::new(ident);
    d.insert(4);

    assert_eq!(a.is_disjoint(&b), a.intersection(&b).is_empty());
    assert_eq!(a.is_disjoint(&d), a.intersection(&d).is_empty());
    assert!(a.is_disjoint(&d));
    assert!(!a.is_disjoint(&b));
}

#[test]
fn remainder_key_scenario() {
    let mut s = KeyHashSet::new(rem3);
    s.insert(1);
    s.insert(4);
    s.insert(7); // all key 1
    assert_eq!(s.len(), 1);
    assert_eq!(s.get(&1), Some(&7));
    s.insert(2);
    s.insert(5); // both key 2
    assert_eq!(s.len(), 2);
    assert_eq!(s.get(&2), Some(&5));
}

#[test]
fn set_algebra_scenario() {
    let mut a = KeyHashSet::new(ident);
    a.insert(1);
    a.insert(2);
    let mut b = KeyHashSet::new(ident);
    b.insert(2);
    b.insert(3);

    let inter = a.intersection(&b);
    assert_eq!(inter.len(), 1);
    assert!(inter.contains(&2));

    let uni = a.union(&b);
    assert_eq!(uni.len(), 3);
    assert!(uni.contains(&1) && uni.contains(&2) && uni.contains(&3));

    let diff = a.difference(&b);
    assert_eq!(diff.len(), 1);
    assert!(diff.contains(&1));
    assert!(!diff.contains(&2));

    let sym = a.symmetric_difference(&b);
    assert_eq!(sym.len(), 2);
    assert!(sym.contains(&1) && sym.contains(&3));
    assert!(!sym.contains(&2));
}

#[test]
fn algebra_value_conventions_at_shared_keys() {
    let mut a = KeyHashSet::new(rem3);
    a.insert(1); // key 1, value 1
    let mut b = KeyHashSet::new(rem3);
    b.insert(4); // key 1, value 4

    let uni = a.union(&b);
    assert_eq!(uni.len(), 1);
    assert_eq!(uni.get(&1), Some(&4)); // union keeps the other set's value

    let inter = a.intersection(&b);
    assert_eq!(inter.len(), 1);
    assert_eq!(inter.get(&1), Some(&1)); // intersection keeps self's value
}

#[test]
fn algebra_leaves_inputs_unchanged() {
    let mut a = KeyHashSet::new(ident);
    a.insert(1);
    let mut b = KeyHashSet::new(ident);
    b.insert(2);
    let _ = a.union(&b);
    let _ = a.intersection(&b);
    let _ = a.difference(&b);
    let _ = a.symmetric_difference(&b);
    assert_eq!(a.len(), 1);
    assert!(a.contains(&1) && !a.contains(&2));
    assert_eq!(b.len(), 1);
    assert!(b.contains(&2) && !b.contains(&1));
}

#[test]
fn drain_yields_each_value_once_and_empties() {
    let mut s = KeyHashSet::new(ident);
    s.insert(1);
    s.insert(2);
    s.insert(3);
    let got = collect_sorted(s.drain());
    assert_eq!(got, vec![1, 2, 3]);
    assert_eq!(s.len(), 0);
    let mut second = s.drain();
    assert_eq!(second.next(), None);
}

#[test]
fn iter_is_restartable_and_nondestructive() {
    let mut s = KeyHashSet::new(ident);
    s.insert(1);
    s.insert(2);
    let mut seen: Vec<u64> = Vec::new();
    let mut it = s.iter();
    while let Some(v) = it.next() {
        seen.push(*v);
    }
    seen.sort();
    assert_eq!(seen, vec![1, 2]);
    assert_eq!(s.len(), 2);
    let mut again: Vec<u64> = Vec::new();
    let mut it2 = s.iter();
    while let Some(v) = it2.next() {
        again.push(*v);
    }
    again.sort();
    assert_eq!(again, vec![1, 2]);
}

#[test]
fn into_iter_consumes_the_set() {
    let mut s = KeyHashSet::new(rem3);
    s.insert(1);
    s.insert(4); // overwrites key 1
    s.insert(2);
    let got = collect_sorted(s.into_iter());
    assert_eq!(got, vec![2, 4]);
}

#[test]
fn iterator_wrapper_yields_exactly_its_items() {
    let mut w = IteratorWrapper::new(vec![3, 1, 2]);
    assert_eq!(w.next(), Some(3));
    assert_eq!(w.next(), Some(1));
    assert_eq!(w.next(), Some(2));
    assert_eq!(w.next(), None);
    let mut empty = IteratorWrapper::<u64>::new(Vec::new());
    assert_eq!(empty.next(), None);
}

#[test]
fn iterator_wrapper_keeps_order() {
    let mut w = IteratorWrapper::new(vec![1, 2]);
    assert_eq!(w.next(), Some(1)); // first in, first out: nothing reordered
    assert_eq!(w.next(), Some(2));
    assert_eq!(w.next(), None);
}

#[test]
fn debug_key_renders_values() {
    assert_eq!(debug_key(&5u64), "5");
    assert_eq!(debug_key(&(1u64, 2u64)), "(1, 2)");
}

#[test]
fn debug_string_lists_stored_values() {
    let mut s = KeyHashSet::new(rem3);
    s.insert(4);
    assert_eq!(s.debug_string(), "KeyHashSet { 4 }");
    let empty: KeyHashSet<u64, u64, fn(&u64) -> u64> = KeyHashSet::new(rem3);
    assert_eq!(empty.debug_string(), "KeyHashSet { }");
}
