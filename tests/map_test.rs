use libtheia::map::{CausalMap, CvRDTValidation, CmRDTValidation, Operation as MapOperation};
use libtheia::multi_value::{MultiValue, Operation as MultiValueOperation};
use libtheia::vector_clock::VectorClock;
use libtheia::version::Version;

type Inner = CausalMap<MultiValue<u8>>;

#[test]
fn map_test_test_new() {
    let m: CausalMap<MultiValue<u8>> = CausalMap::new();
    assert_eq!(m.len().value, 0);
    assert!(m.is_empty().value);
}

#[test]
fn map_test_test_is_empty() {
    let mut m: CausalMap<CausalMap<MultiValue<&str>>> = CausalMap::new();
    let is_empty_read = m.is_empty();
    assert!(is_empty_read.value);

    let op = m.update('a' as u64, is_empty_read.derive_add('A' as u64), |map, x| {
        map.update('b' as u64, x, |mv, x| mv.write("b", x))
    });
    m.apply(op);

    assert!(!m.is_empty().value);
}

#[test]
fn test_update() {
    let mut m: CausalMap<Inner> = CausalMap::new();

    let a = m.get(&1).derive_add(1);
    let o = m.update(1, a, |map, x| map.update(2, x, |mv, x| mv.write(2, x)));

    assert_eq!(
        o,
        MapOperation::Update {
            version: Version::new(1, 1),
            key: 1,
            operation: MapOperation::Update {
                version: Version::new(1, 1),
                key: 2,
                operation: MultiValueOperation::Put {
                    clock: VectorClock::from_versions(vec![Version::new(1, 1)]),
                    value: 2
                }
            }
        }
    );

    assert_eq!(m, CausalMap::new());

    m.apply(o);

    assert_eq!(
        m.get(&1).value.and_then(|m2| m2.get(&2).value).map(|r| r.read().value),
        Some(vec![2])
    );

    let op = m.update(1, m.get(&1).derive_add(1), |map, x| {
        map.update(2, x, |mv, x| {
            assert_eq!(mv.read().value, vec![2]);
            mv.write(3, x)
        })
    });
    m.apply(op);

    assert_eq!(
        m.get(&1).value.and_then(|m2| m2.get(&2).value).map(|r| r.read().value),
        Some(vec![3])
    );
}

#[test]
fn test_remove() {
    let mut m: CausalMap<Inner> = CausalMap::new();

    let a = m.len().derive_add(1);
    let mut im: Inner = CausalMap::new();
    let op = im.update(1, a, |mv, x| mv.write(0, x));
    im.apply(op);

    let add_a = m.len().derive_add(1);
    let op = m.update(2, add_a, |map, x| map.update(1, x, |mv, x| mv.write(0, x)));
    m.apply(op);

    assert_eq!(m.get(&2).value, Some(im));
    assert_eq!(m.len().value, 1);

    let op = m.remove(2, m.get(&2).derive_remove());
    m.apply(op);

    assert_eq!(m.get(&2).value, None);
    assert_eq!(m.len().value, 0);
}

#[test]
fn test_reset_remove_semantics() {
    let mut m1: CausalMap<Inner> = CausalMap::new();

    let op = m1.update(1, m1.get(&1).derive_add(1), |map, x| map.update(2, x, |mv, x| mv.write(2, x)));
    m1.apply(op);

    let mut m2 = m1.clone();

    let op = m1.remove(1, m1.get(&1).derive_remove());
    m1.apply(op);

    let op = m2.update(1, m2.get(&1).derive_add(3), |map, x| map.update(3, x, |mv, x| mv.write(4, x)));
    m2.apply(op);

    let m1_c = m1.clone();

    m1.merge(m2.clone());
    m2.merge(m1_c);
    assert_eq!(m1, m2);

    let inner_map = m1.get(&1).value.unwrap();
    assert_eq!(inner_map.get(&3).value.map(|r| r.read().value), Some(vec![4]));
    assert_eq!(inner_map.get(&2).value, None);
    assert_eq!(inner_map.len().value, 1);
}

#[test]
fn map_iterator_lists_entries_in_key_order() {
    let actor = 7;
    let mut map: CausalMap<MultiValue<&str>> = CausalMap::new();

    let add_a = map.read().derive_add(actor);
    let op = map.update(100, add_a, |v, a| v.write("foo", a));
    map.apply(op);

    let add_b = map.read().derive_add(actor);
    let op = map.update(50, add_b, |v, a| v.write("bar", a));
    map.apply(op);

    let add_c = map.read().derive_add(actor);
    let op = map.update(200, add_c, |v, a| v.write("baz", a));
    map.apply(op);

    let items: Vec<_> = map.iterator().into_iter().map(|item| (item.value.0, item.value.1.read().value[0])).collect();
    assert_eq!(items, vec![(50, "bar"), (100, "foo"), (200, "baz")]);
    let keys: Vec<u64> = map.keys().into_iter().map(|r| r.value).collect();
    assert_eq!(keys, vec![50, 100, 200]);
    assert_eq!(map.values().len(), 3);
}

#[test]
fn map_remove_before_update_is_parked() {
    let mut origin: CausalMap<MultiValue<u8>> = CausalMap::new();
    let up = origin.update(5, origin.read().derive_add(1), |v, a| v.write(9, a));
    origin.apply(up.clone());
    let rm = origin.remove(5, origin.get(&5).derive_remove());

    let mut late: CausalMap<MultiValue<u8>> = CausalMap::new();
    late.apply(rm);
    assert!(late.is_empty().value);
    late.apply(up);
    assert!(late.is_empty().value);
    assert_eq!(late.read().add_clock.get(&1), 1);
}

#[test]
fn map_reset_remove_drops_covered_keys() {
    let mut m: CausalMap<MultiValue<u8>> = CausalMap::new();
    let op = m.update(1, m.read().derive_add(1), |v, a| v.write(1, a));
    m.apply(op);
    let op = m.update(2, m.read().derive_add(2), |v, a| v.write(2, a));
    m.apply(op);
    let base = VectorClock::from_versions(vec![Version::new(1, 1)]);
    m.reset_remove(&base);
    assert_eq!(m.len().value, 1);
    assert!(m.get(&1).value.is_none());
    assert_eq!(m.get(&2).value.map(|r| r.read().value), Some(vec![2]));
}

#[test]
fn map_validate_operation_reports_gaps() {
    let m: CausalMap<MultiValue<u8>> = CausalMap::new();
    let ahead = MapOperation::Update {
        version: Version::new(1, 3),
        key: 4,
        operation: MultiValueOperation::Put { clock: VectorClock::from_versions(vec![Version::new(1, 3)]), value: 0 },
    };
    match m.validate_operation(&ahead) {
        Err(CmRDTValidation::SourceOrder(range)) => {
            assert_eq!(range.actor, 1);
            assert_eq!(range.counter_range, 1..3);
        },
        _ => panic!("expected a source order error"),
    }
    let next = m.update(4, m.read().derive_add(1), |v, a| v.write(0, a));
    assert!(m.validate_operation(&next).is_ok());
}

#[test]
fn map_validate_merge_detects_double_spent_versions() {
    let mut a: CausalMap<MultiValue<u8>> = CausalMap::new();
    let mut b: CausalMap<MultiValue<u8>> = CausalMap::new();
    let op = a.update(1, a.read().derive_add(9), |v, x| v.write(1, x));
    a.apply(op);
    let op = b.update(2, b.read().derive_add(9), |v, x| v.write(2, x));
    b.apply(op);
    match a.validate_merge(&b) {
        Err(CvRDTValidation::DoubleSpentVersion { version, our_key, their_key }) => {
            assert_eq!(version, Version::new(9, 1));
            assert_eq!(our_key, 1);
            assert_eq!(their_key, 2);
        },
        _ => panic!("expected a double spent version"),
    }
    assert!(a.validate_merge(&a.clone()).is_ok());
}

#[test]
fn map_merge_is_idempotent_and_commutative_on_values() {
    let mut a: CausalMap<MultiValue<u8>> = CausalMap::new();
    let op = a.update(1, a.read().derive_add(1), |v, x| v.write(1, x));
    a.apply(op);
    let mut b: CausalMap<MultiValue<u8>> = CausalMap::new();
    let op = b.update(2, b.read().derive_add(2), |v, x| v.write(2, x));
    b.apply(op);

    let mut aa = a.clone();
    aa.merge(a.clone());
    assert_eq!(aa, a);

    let mut ab = a.clone();
    ab.merge(b.clone());
    let mut ba = b.clone();
    ba.merge(a.clone());
    assert_eq!(ab, ba);
    assert_eq!(ab.len().value, 2);
}
