use libtheia::vector_clock::VectorClock;
use libtheia::version::Version;

const A: u64 = 'A' as u64;
const B: u64 = 'B' as u64;

#[test]
fn test_reset_remove() {
    let mut a = VectorClock::from_versions(vec![Version::new(1, 4), Version::new(2, 3), Version::new(5, 9)]);
    let b = VectorClock::from_versions(vec![Version::new(1, 5), Version::new(2, 3), Version::new(5, 8)]);
    let expected = VectorClock::from_versions(vec![Version::new(5, 9)]);

    a.reset_remove(&b);
    assert_eq!(a, expected);
}

#[test]
fn test_merge() {
    let mut a = VectorClock::from_versions(vec![Version::new(1, 1), Version::new(4, 4)]);
    let b = VectorClock::from_versions(vec![Version::new(3, 3), Version::new(4, 3)]);

    a.merge(b);

    let expected = VectorClock::from_versions(vec![Version::new(1, 1), Version::new(3, 3), Version::new(4, 4)]);

    assert_eq!(a, expected);
}

#[test]
fn test_merge_less_left() {
    let (mut a, mut b) = (VectorClock::new(), VectorClock::new());
    a.apply(Version::new(5, 5));
    b.apply(Version::new(6, 6));
    b.apply(Version::new(7, 7));

    a.merge(b);
    assert_eq!(a.get(&5), 5);
    assert_eq!(a.get(&6), 6);
    assert_eq!(a.get(&7), 7);
}

#[test]
fn test_merge_less_right() {
    let (mut a, mut b) = (VectorClock::new(), VectorClock::new());
    a.apply(Version::new(6, 6));
    a.apply(Version::new(7, 7));
    b.apply(Version::new(5, 5));

    a.merge(b);
    assert_eq!(a.get(&5), 5);
    assert_eq!(a.get(&6), 6);
    assert_eq!(a.get(&7), 7);
}

#[test]
fn test_merge_same_id() {
    let (mut a, mut b) = (VectorClock::new(), VectorClock::new());
    a.apply(Version::new(1, 1));
    a.apply(Version::new(2, 1));
    b.apply(Version::new(1, 1));
    b.apply(Version::new(3, 1));

    a.merge(b);
    assert_eq!(a.get(&1), 1);
    assert_eq!(a.get(&2), 1);
    assert_eq!(a.get(&3), 1);
}

#[test]
#[allow(clippy::neg_cmp_op_on_partial_ord)]
fn test_vector_clock_ordering() {
    assert_eq!(VectorClock::new(), VectorClock::new());

    let (mut a, mut b) = (VectorClock::new(), VectorClock::new());
    a.apply(Version::new(A, 1));
    a.apply(Version::new(A, 2));
    a.apply(Version::new(A, 0));
    b.apply(Version::new(A, 1));

    assert!(a > b);
    assert!(b < a);
    assert_ne!(a, b);

    b.apply(Version::new(A, 3));
    assert!(b > a);
    assert!(a < b);
    assert_ne!(a, b);

    a.apply(Version::new(B, 1));
    assert_ne!(a, b);
    assert!(!(a > b));
    assert!(!(b > a));

    a.apply(Version::new(A, 3));
    assert!(a > b);
    assert!(b < a);
    assert_ne!(a, b);

    b.apply(Version::new(B, 2));
    assert!(b > a);
    assert!(a < b);
    assert_ne!(a, b);

    a.apply(Version::new(B, 2));
    assert!(!(b > a));
    assert!(!(a > b));
    assert_eq!(a, b);
}

#[test]
fn apply_keeps_the_larger_counter() {
    let mut v = VectorClock::new();
    v.apply(Version::new(A, 2));
    v.apply(Version::new(A, 0));
    assert_eq!(v.get(&A), 2);
    v.apply(Version::new(A, 2));
    assert_eq!(v.get(&A), 2);
    assert_eq!(v.get(&B), 0);
}

#[test]
fn increment_does_not_change_the_clock() {
    let mut a = VectorClock::new();
    let op = a.increment(A);
    assert_eq!(a, VectorClock::new());
    assert_eq!(op.counter, 1);
    a.apply(op);
    assert_eq!(a.get(&A), 1);
    assert_eq!(a.version(A), Version::new(A, 1));
}

#[test]
fn concurrent_clocks() {
    let (mut a, mut b) = (VectorClock::new(), VectorClock::new());
    a.apply(a.increment(A));
    b.apply(b.increment(B));
    assert!(a.concurrent(&b));
    assert_eq!(a.compare(&b), None);
    assert!(!a.concurrent(&a.clone()));
}

#[test]
fn validate_operation_reports_a_gap() {
    let mut a = VectorClock::new();
    a.apply(Version::new(A, 2));
    assert!(a.validate_operation(&Version::new(A, 3)).is_ok());
    assert!(a.validate_operation(&Version::new(A, 1)).is_ok());
    let err = a.validate_operation(&Version::new(A, 6)).unwrap_err();
    assert_eq!(err.actor, A);
    assert_eq!(err.counter_range, 3..6);
}

#[test]
fn intersection_keeps_equal_slots() {
    let l = VectorClock::from_versions(vec![Version::new(1, 2), Version::new(2, 3), Version::new(3, 1)]);
    let r = VectorClock::from_versions(vec![Version::new(1, 2), Version::new(2, 4), Version::new(4, 1)]);
    let i = VectorClock::intersection(&l, &r);
    assert_eq!(i, VectorClock::from_versions(vec![Version::new(1, 2)]));
}

#[test]
fn greatest_lower_bound_is_pointwise_min() {
    let mut c = VectorClock::new();
    c.apply(Version::new(23, 6));
    c.apply(Version::new(89, 14));
    let c2 = c.clone();
    c.greatest_lower_bound(&c2);
    assert_eq!(c, c2);
    c.apply(Version::new(43, 1));
    assert_eq!(c.get(&43), 1);
    c.greatest_lower_bound(&c2);
    assert_eq!(c.get(&43), 0);
    let mut d = VectorClock::from_versions(vec![Version::new(1, 5), Version::new(2, 1)]);
    d.greatest_lower_bound(&VectorClock::from_versions(vec![Version::new(1, 3), Version::new(3, 7)]));
    assert_eq!(d, VectorClock::from_versions(vec![Version::new(1, 3)]));
}

#[test]
fn clone_without_erases_covered_slots() {
    let c = VectorClock::from_versions(vec![Version::new(1, 4), Version::new(2, 3)]);
    let base = VectorClock::from_versions(vec![Version::new(1, 4), Version::new(2, 2)]);
    assert_eq!(c.clone_without(&base), VectorClock::from_versions(vec![Version::new(2, 3)]));
    assert_eq!(c.get(&1), 4);
}

#[test]
fn iterator_yields_versions_in_actor_order() {
    let c = VectorClock::from_versions(vec![Version::new(9, 1), Version::new(2, 5), Version::new(4, 2)]);
    assert_eq!(c.iterator(), vec![Version::new(2, 5), Version::new(4, 2), Version::new(9, 1)]);
    assert!(VectorClock::new().is_empty());
    assert!(!c.is_empty());
}

#[test]
fn merge_laws_on_values() {
    let a = VectorClock::from_versions(vec![Version::new(1, 3), Version::new(2, 1)]);
    let b = VectorClock::from_versions(vec![Version::new(2, 4), Version::new(3, 2)]);
    let c = VectorClock::from_versions(vec![Version::new(1, 1), Version::new(4, 4)]);

    let mut ab = a.clone();
    ab.merge(b.clone());
    let mut ba = b.clone();
    ba.merge(a.clone());
    assert_eq!(ab, ba);

    let mut ab_c = ab.clone();
    ab_c.merge(c.clone());
    let mut bc = b.clone();
    bc.merge(c.clone());
    let mut a_bc = a.clone();
    a_bc.merge(bc);
    assert_eq!(ab_c, a_bc);

    let mut aa = a.clone();
    aa.merge(a.clone());
    assert_eq!(aa, a);
    assert!(ab >= a);
    assert!(ab >= b);
}

#[test]
fn reset_remove_shrinks_and_is_idempotent() {
    let c = VectorClock::from_versions(vec![Version::new(1, 3), Version::new(2, 5), Version::new(3, 1)]);
    let base = VectorClock::from_versions(vec![Version::new(1, 3)]);
    let larger = VectorClock::from_versions(vec![Version::new(1, 4), Version::new(2, 5)]);
    let mut once = c.clone();
    once.reset_remove(&base);
    assert_eq!(once, VectorClock::from_versions(vec![Version::new(2, 5), Version::new(3, 1)]));
    let mut twice = once.clone();
    twice.reset_remove(&base);
    assert_eq!(twice, once);
    let mut more = c.clone();
    more.reset_remove(&larger);
    assert_eq!(more, VectorClock::from_versions(vec![Version::new(3, 1)]));
}
