use libtheia::multi_value::MultiValue;
use libtheia::vector_clock::VectorClock;
use libtheia::version::Version;

#[test]
fn multi_value_concurrent_writes() {
    let mut r1 = MultiValue::new();
    let mut r2 = r1.clone();
    let r1_read_ctx = r1.read();
    let r2_read_ctx = r2.read();

    let op = r1.write("foo", r1_read_ctx.derive_add(123));
    r1.apply(op);

    let op = r2.write("bar", r2_read_ctx.derive_add(111));
    r2.apply(op.clone());

    r1.apply(op);

    assert_eq!(r1.read().value, vec!["foo", "bar"]);
}

#[test]
fn multi_value_replicas_equal_after_cross_apply() {
    let mut r1 = MultiValue::new();
    let mut r2 = r1.clone();
    let fop = r1.write("foo", r1.read().derive_add(123));
    let bop = r2.write("bar", r2.read().derive_add(111));
    r1.apply(fop.clone());
    r2.apply(bop.clone());
    r1.apply(bop);
    r2.apply(fop);
    assert_eq!(r1.read().value, vec!["foo", "bar"]);
    assert_eq!(r2.read().value, vec!["bar", "foo"]);
    assert!(r1 == r2);
    assert_eq!(r2.read().add_clock, VectorClock::from_versions(vec![Version::new(111, 1), Version::new(123, 1)]));
}

#[test]
fn multi_value_later_write_replaces() {
    let mut r = MultiValue::new();
    let op = r.write(1u8, r.read().derive_add(1));
    r.apply(op);
    let op = r.write(2u8, r.read().derive_add(1));
    r.apply(op.clone());
    assert_eq!(r.read().value, vec![2]);
    r.apply(op);
    assert_eq!(r.read().value, vec![2]);
    let ctx = r.read_all();
    assert_eq!(ctx.add_clock, VectorClock::from_versions(vec![Version::new(1, 2)]));
}

#[test]
fn multi_value_empty_clock_is_discarded() {
    let mut r: MultiValue<u8> = MultiValue::new();
    r.apply(libtheia::multi_value::Operation::Put { clock: VectorClock::new(), value: 5 });
    assert!(r.read().value.is_empty());
}

#[test]
fn multi_value_merge_and_reset() {
    let mut a = MultiValue::new();
    let op = a.write(1u8, a.read().derive_add(1));
    a.apply(op);
    let mut b = MultiValue::new();
    let op = b.write(2u8, b.read().derive_add(2));
    b.apply(op);

    let mut ab = a.clone();
    ab.merge(b.clone());
    let mut vals = ab.read().value;
    vals.sort();
    assert_eq!(vals, vec![1, 2]);

    let mut again = ab.clone();
    again.merge(ab.clone());
    assert_eq!(again, ab);

    ab.reset_remove(&VectorClock::from_versions(vec![Version::new(1, 1)]));
    assert_eq!(ab.read().value, vec![2]);
}

#[test]
fn read_derives_tokens() {
    let mut r = MultiValue::new();
    let op = r.write(3u8, r.read().derive_add(4));
    r.apply(op);
    let read = r.read();
    let (value, ctx) = read.split();
    assert_eq!(value, vec![3]);
    let add = ctx.derive_add(4);
    assert_eq!(add.version, Version::new(4, 2));
    assert_eq!(add.clock.get(&4), 2);
    let rm = r.read().derive_remove();
    assert_eq!(rm.clock, VectorClock::from_versions(vec![Version::new(4, 1)]));
}
