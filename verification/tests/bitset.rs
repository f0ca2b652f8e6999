use rulebound::BitSet;

#[test]
fn empty_bitset() {
    let bs = BitSet::<2>::empty();
    assert!(bs.is_empty());
    assert_eq!(bs.count(), 0);
}

#[test]
fn insert_and_contains() {
    let mut bs = BitSet::<2>::empty();
    bs.insert(0);
    bs.insert(42);
    bs.insert(127);
    assert!(bs.contains(0));
    assert!(bs.contains(42));
    assert!(bs.contains(127));
    assert!(!bs.contains(1));
    assert_eq!(bs.count(), 3);
}

#[test]
fn full_bitset() {
    let bs = BitSet::<1>::full(10);
    assert_eq!(bs.count(), 10);
    for i in 0..10 {
        assert!(bs.contains(i));
    }
    assert!(!bs.contains(10));
}

#[test]
fn singleton() {
    let mut bs = BitSet::<1>::empty();
    bs.insert(5);
    assert!(bs.is_singleton());
    assert_eq!(bs.singleton_value(), Some(5));
}

#[test]
fn iter() {
    let mut bs = BitSet::<1>::empty();
    bs.insert(3);
    bs.insert(7);
    bs.insert(11);
    let vals: Vec<usize> = bs.to_vec();
    assert_eq!(vals, vec![3, 7, 11]);
}

#[test]
fn remove() {
    let mut bs = BitSet::<1>::full(5);
    assert!(bs.remove(2));
    assert!(!bs.contains(2));
    assert!(!bs.remove(2));
    assert_eq!(bs.count(), 4);
}

#[test]
fn set_operations() {
    let mut a = BitSet::<1>::full(10);
    let mut b = BitSet::<1>::empty();
    for i in (0..10).step_by(2) {
        b.insert(i);
    }
    a.intersect_with(&b);
    assert_eq!(a.count(), 5); // 0, 2, 4, 6, 8
}

#[test]
fn iterator_walks_values_in_order() {
    let mut bs = BitSet::<2>::empty();
    bs.insert(127);
    bs.insert(64);
    bs.insert(63);
    bs.insert(0);
    let mut it = bs.iter();
    assert_eq!(it.next(), Some(0));
    assert_eq!(it.next(), Some(63));
    assert_eq!(it.next(), Some(64));
    assert_eq!(it.next(), Some(127));
    assert_eq!(it.next(), None);
    assert_eq!(it.next(), None);
}

#[test]
fn values_beyond_capacity_are_ignored() {
    let mut bs = BitSet::<1>::empty();
    bs.insert(64);
    bs.insert(1000);
    assert!(bs.is_empty());
    assert!(!bs.contains(64));
    assert!(!bs.remove(64));
    assert_eq!(BitSet::<1>::full(1000).count(), 64);
    assert_eq!(BitSet::<2>::capacity(), 128);
}

#[test]
fn min_and_singleton_values() {
    let mut bs = BitSet::<2>::empty();
    assert_eq!(bs.min_value(), None);
    assert_eq!(bs.singleton_value(), None);
    bs.insert(100);
    assert_eq!(bs.singleton_value(), Some(100));
    bs.insert(70);
    assert_eq!(bs.min_value(), Some(70));
    assert_eq!(bs.singleton_value(), None);
    assert!(!bs.is_singleton());
}

#[test]
fn union_and_subtract() {
    let mut a = BitSet::<1>::empty();
    a.insert(1);
    a.insert(2);
    let mut b = BitSet::<1>::empty();
    b.insert(2);
    b.insert(3);
    let mut u = a.clone();
    u.union_with(&b);
    assert_eq!(u.to_vec(), vec![1, 2, 3]);
    let mut d = a.clone();
    d.subtract(&b);
    assert_eq!(d.to_vec(), vec![1]);
    assert!(a == a.clone());
}

#[test]
fn a_full_walk_yields_count_values_in_increasing_order() {
    let mut bs = BitSet::<2>::empty();
    for v in [100, 3, 64, 0, 63] {
        bs.insert(v);
    }
    let walked = bs.to_vec();
    assert_eq!(walked, vec![0, 3, 63, 64, 100]);
    assert_eq!(walked.len(), bs.count());
}
