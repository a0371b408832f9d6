use libtheia::identifier::Identifier;
use libtheia::rational::{rational_between, Rational};
use libtheia::version::OrderedVersion;

fn tie(n: u64) -> OrderedVersion {
    OrderedVersion::new(0, n)
}

fn node(r: i64, t: u64) -> (Rational, OrderedVersion) {
    (Rational::from_integer(r), tie(t))
}

#[test]
fn test_adding_zero_node_makes_identifier_smaller() {
    let id_a = Identifier::new(vec![node(0, 0), node(0, 0)]);
    let id_b = Identifier::new(vec![node(0, 0)]);
    assert!(id_a < id_b);
}

#[test]
fn test_id_is_dense_qc1() {
    let id_a = Identifier::new(vec![node(0, 0), node(0, 0)]);
    let id_b = Identifier::new(vec![node(0, 0)]);
    println!("id_a: {:?}", id_a);
    println!("id_b: {:?}", id_b);
    println!("id_a < id_b: {:?}", id_a < id_b);
    println!("id_b < id_a: {:?}", id_b < id_a);
    assert!(id_a < id_b);

    let id_mid = Identifier::between(Some(&id_a), Some(&id_b), tie(0));
    println!("minmax: {:?}, {:?}", id_a, id_b);
    assert!(id_a < id_mid, "{:?} < {:?}", id_a, id_mid);
    assert!(id_mid < id_b, "{:?} < {:?}", id_mid, id_b);
}

#[test]
fn test_id_is_dense_qc2() {
    let id_a = Identifier::new(vec![node(0, 1), node(-1, 0)]);
    let id_b = Identifier::new(vec![node(0, 0), node(0, 0)]);
    let marker = tie(0);

    let (id_min, id_max) = if id_a < id_b { (id_a, id_b) } else { (id_b, id_a) };

    let id_mid = Identifier::between(Some(&id_min), Some(&id_max), marker);

    if id_min == id_max {
        assert_eq!(id_min, id_mid);
        assert_eq!(id_max, id_mid);
    } else {
        assert!(id_min < id_mid, "{:?} < {:?}", id_min, id_mid);
        assert!(id_mid < id_max, "{:?} < {:?}", id_mid, id_max);
    }
}

#[test]
fn test_id_is_dense_qc3() {
    let (id_a, id_b, marker) = (
        Identifier::new(vec![node(0, 1)]),
        Identifier::new(vec![node(0, 0)]),
        tie(0),
    );
    let (id_min, id_max) = if id_a < id_b { (id_a, id_b) } else { (id_b, id_a) };

    let id_mid = Identifier::between(Some(&id_min), Some(&id_max), marker);

    if id_min == id_max {
        assert_eq!(id_min, id_mid);
        assert_eq!(id_max, id_mid);
    } else {
        assert!(id_min < id_mid, "{:?} < {:?}", id_min, id_mid);
        assert!(id_mid < id_max, "{:?} < {:?}", id_mid, id_max);
    }
}

#[test]
fn between_swaps_reversed_bounds() {
    let low = Identifier::new(vec![node(1, 0)]);
    let high = Identifier::new(vec![node(3, 0)]);
    let mid = Identifier::between(Some(&high), Some(&low), tie(7));
    assert!(low < mid && mid < high);
    assert_eq!(mid.value(), tie(7));
}

#[test]
fn between_equal_bounds_gives_the_bound() {
    let a = Identifier::new(vec![node(2, 3)]);
    let b = Identifier::new(vec![node(2, 3)]);
    let mid = Identifier::between(Some(&a), Some(&b), tie(9));
    assert_eq!(mid, a);
    assert_eq!(mid.value(), tie(3));
}

#[test]
fn between_one_sided_and_unbounded() {
    let a = Identifier::new(vec![node(5, 0), node(1, 1)]);
    let above = Identifier::between(Some(&a), None, tie(2));
    assert!(a < above);
    let below = Identifier::between(None, Some(&a), tie(2));
    assert!(below < a);
    let zero = Identifier::between(None, None, tie(4));
    assert_eq!(zero, Identifier::new(vec![node(0, 4)]));
    assert_eq!(zero.into_value(), tie(4));
}

#[test]
fn between_uses_the_tiebreaker_when_it_fits() {
    let low = Identifier::new(vec![node(0, 1)]);
    let high = Identifier::new(vec![node(0, 5)]);
    let mid = Identifier::between(Some(&low), Some(&high), tie(3));
    assert_eq!(mid, Identifier::new(vec![node(0, 3)]));
}

#[test]
fn identifier_order_is_total_on_values() {
    let ids = vec![
        Identifier::new(vec![node(0, 0)]),
        Identifier::new(vec![node(0, 0), node(0, 0)]),
        Identifier::new(vec![node(-1, 4)]),
        Identifier::new(vec![node(1, 0), node(2, 2)]),
    ];
    for x in &ids {
        assert_eq!(x.compare(x), std::cmp::Ordering::Equal);
        for y in &ids {
            assert_eq!(x.compare(y), y.compare(x).reverse());
            for z in &ids {
                if x < y && y < z {
                    assert!(x < z);
                }
            }
        }
    }
}

#[test]
fn rational_between_values() {
    let one = Rational::from_integer(1);
    let two = Rational::from_integer(2);
    let mean = rational_between(Some(&one), Some(&two));
    assert_eq!(mean, Rational { negative: false, numer: vec![3], denom: vec![2] });
    let up = rational_between(Some(&two), None);
    assert_eq!(up, Rational { negative: false, numer: vec![3], denom: vec![1] });
    let down = rational_between(None, Some(&one));
    assert_eq!(down.numer, Vec::<u32>::new());
    assert!(!down.negative);
    let below = rational_between(None, Some(&down));
    assert_eq!(below, Rational { negative: true, numer: vec![1], denom: vec![1] });
    let zero = rational_between(None, None);
    assert_eq!(zero, Rational::from_integer(0));
    let at = |r: &Rational| Identifier::new(vec![(r.clone(), tie(0))]);
    assert!(at(&one) < at(&mean));
    assert!(at(&mean) < at(&two));
    assert!(at(&up) > at(&two));
    assert!(at(&below) < at(&down));
}
