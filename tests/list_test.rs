use libtheia::list::List;
use rand::distributions::Alphanumeric;
use rand::Rng;

type SiteId = u64;

#[test]
fn list_test_test_new() {
    let lst: List<char> = List::new();
    let _site: SiteId = 0;
    assert_eq!(lst.len(), 0);
    assert!(lst.is_empty());
}

#[test]
fn list_test_test_is_empty() {
    let mut list = List::new();
    assert!(list.is_empty());

    let o = list.insert_index(0, 0, 0);
    list.apply(o);
    assert!(!list.is_empty());
}

#[test]
fn test_append() {
    let mut list = List::new();
    assert!(list.is_empty());

    let op = list.append('a', 0);
    list.apply(op);
    let op = list.append('b', 0);
    list.apply(op);
    let op = list.append('c', 0);
    list.apply(op);

    assert_eq!(String::from_iter(list.read_into()), "abc");
}

#[test]
fn test_out_of_order_inserts() {
    let mut list1 = List::new();
    let mut list2 = List::new();
    let o1 = list1.insert_index(0, 'a', 0);
    list1.apply(o1.clone());

    let o2 = list1.insert_index(1, 'c', 0);
    list1.apply(o2.clone());

    let o3 = list1.insert_index(1, 'b', 0);
    list1.apply(o3.clone());

    let mut operations = vec![o1, o2, o3];
    let mut iterations = 0;
    while let Some(op) = operations.pop() {
        assert!(iterations < (3 * (3 + 1)) / 2);
        iterations += 1;
        if list2.validate_operation(&op).is_ok() {
            list2.apply(op)
        } else {
            operations.insert(0, op);
        }
    }

    let list1_elems = String::from_iter(list1.read_into());
    assert_eq!(list1_elems, "abc");
    assert_eq!(list1_elems, String::from_iter(list2.read_into()));
}

#[test]
fn test_concurrent_inserts() {
    let mut list1 = List::new();
    let mut list2 = List::new();
    let mut list3 = List::new();

    let o1 = list1.insert_index(0, 'a', 'A' as u64);
    let o2 = list2.insert_index(0, 'b', 'B' as u64);

    list1.apply(o1.clone());
    list1.apply(o2.clone());
    list2.apply(o1.clone());
    list2.apply(o2.clone());
    list3.apply(o1);
    list3.apply(o2);

    assert_eq!(list1.read().into_iter().collect::<String>(), "ab");
    assert_eq!(list2.read().into_iter().collect::<String>(), "ab");
    assert_eq!(list3.read().into_iter().collect::<String>(), "ab");
    list3.apply(list3.insert_index(1, 'c', 'C' as u64));
    assert_eq!(list3.read().into_iter().collect::<String>(), "acb");
}

#[test]
fn test_append_and_inserts() {
    let mut list = List::new();
    let o1 = list.append('a', 0);
    list.apply(o1);

    let o2 = list.insert_index(0, 'b', 0);
    list.apply(o2);

    let o3 = list.append('c', 0);
    list.apply(o3);

    let o4 = list.insert_index(1, 'd', 0);
    list.apply(o4);

    assert_eq!(String::from_iter(list.read_into()), "bdac");
}

#[test]
fn test_delete_of_index() {
    let mut list = List::new();
    let o1 = list.insert_index(0, 'a', 0);
    list.apply(o1);
    let o2 = list.insert_index(1, 'b', 0);
    list.apply(o2);
    assert_eq!(String::from_iter(list.read()), "ab");

    let op = list.delete_index(0, 0);
    list.apply(op.unwrap());
    assert_eq!(String::from_iter(list.read_into()), "b");
}

#[test]
fn test_position() {
    let mut list = List::new();
    let op = list.append('a', 0);
    list.apply(op);
    let op = list.append('b', 0);
    list.apply(op);

    assert_eq!(list.pos(0), Some(&'a'));
    assert_eq!(list.pos(1), Some(&'b'));
}

#[test]
fn test_identifier_position() {
    let mut list = List::new();
    let o1 = list.append('a', 0);
    list.apply(o1.clone());
    let o2 = list.append('b', 0);
    list.apply(o2.clone());
    let o3 = list.append('c', 0);

    assert_eq!(list.pos_entry(o1.id()), Some(0));
    assert_eq!(list.pos_entry(o2.id()), Some(1));
    assert_eq!(list.pos_entry(o3.id()), None);
}

#[test]
fn test_reapply_list() {
    let mut random = rand::thread_rng();

    let s1 = random.clone().sample_iter(Alphanumeric).map(char::from);

    let mut list1 = List::new();
    let mut list2 = List::new();

    for c in s1.take(5000) {
        let index = random.gen_range(0..list1.len() + 1);
        let insert = list1.insert_index(index, c, 0);
        list1.apply(insert.clone());

        list2.apply(insert.clone());
        list2.apply(insert.clone());

        let delete = list2.delete_index(index, 1).unwrap();
        list2.apply(delete.clone());
        list2.apply(delete.clone());
        list1.apply(delete.clone());
        list1.apply(delete);

        list1.apply(insert.clone());
    }

    assert!(list1.is_empty(), "list1 was not empty: {}", String::from_iter(list1.read()));
    assert!(list2.is_empty(), "list2 was not empty: {}", String::from_iter(list2.read()));

    assert_eq!(String::from_iter(list2.read_into()), String::from_iter(list1.read_into()));
}

#[test]
fn test_insert_followed_by_deletes() {
    let mut random = rand::thread_rng();

    let s1 = random.clone().sample_iter(Alphanumeric).map(char::from);

    let mut list1 = List::new();
    let mut list2 = List::new();

    for c in s1.take(5000) {
        let index = random.gen_range(0..list1.len() + 1);
        let insert = list1.insert_index(index, c, 0);
        list1.apply(insert.clone());
        list2.apply(insert);

        let delete = list2.delete_index(index, 1).unwrap();
        list2.apply(delete.clone());
        list1.apply(delete);
    }

    assert!(list1.is_empty(), "list1 was not empty: {}", String::from_iter(list1.read()));
    assert!(list2.is_empty(), "list2 was not empty: {}", String::from_iter(list2.read()));
}

#[test]
fn test_mutual_insert() {
    let mut list1 = List::new();
    let mut list2 = List::new();
    let plan = vec![(4, 42, false), (22, 5, true), (1, 44, false), (23, 88, false), (99, 3, true)];

    for (e, i, s) in plan {
        let ((source, source_actor), replica) = if s {
            ((&mut list1, 0), &mut list2)
        } else {
            ((&mut list2, 1), &mut list1)
        };
        let i = i % (source.len() + 1);
        println!("{:?} inserting {} @ {}", source_actor, e, i);
        let op = source.insert_index(i, e, source_actor);
        source.apply(op.clone());
        replica.apply(op);
    }

    assert_eq!(list1.read_into(), list2.read_into());
}

#[test]
fn test_deep_inserts() {
    let mut list = List::new();
    let mut vec = Vec::new();
    let n = 1000;
    for v in 0..n {
        let i = list.len() / 2;
        println!("inserting {}/{}", i, list.len());
        vec.insert(i, v);
        let op = list.insert_index(i, v, 0);
        list.apply(op);
    }
    assert_eq!(list.len(), n);
    assert_eq!(list.read_into(), vec);
}

#[test]
fn list_convergence_three_replicas() {
    let mut r1 = List::new();
    let mut r2 = List::new();
    let mut r3 = List::new();
    let a = 'A' as u64;
    let o1 = r1.insert_index(0, 'a', a);
    r1.apply(o1.clone());
    let o2 = r1.insert_index(1, 'c', a);
    r1.apply(o2.clone());
    let o3 = r1.insert_index(1, 'b', a);
    r1.apply(o3.clone());
    for op in [o1, o2, o3] {
        r2.apply(op.clone());
        r3.apply(op);
    }
    assert_eq!(r1.read().into_iter().collect::<String>(), "abc");
    assert_eq!(r2.read().into_iter().collect::<String>(), "abc");
    assert_eq!(r3.read().into_iter().collect::<String>(), "abc");
}

#[test]
fn list_concurrent_deletes_commute() {
    let mut l1 = List::new();
    let mut l2 = List::new();
    let a1 = l1.append('x', 1);
    l1.apply(a1.clone());
    l2.apply(a1);
    let a2 = l1.append('y', 1);
    l1.apply(a2.clone());
    l2.apply(a2);
    let d1 = l1.delete_index(0, 2).unwrap();
    let d2 = l2.delete_index(1, 3).unwrap();
    l1.apply(d1.clone());
    l1.apply(d2.clone());
    l2.apply(d2);
    l2.apply(d1);
    assert!(l1.is_empty());
    assert!(l2.is_empty());
}

#[test]
fn list_apply_is_idempotent_and_reports_gaps() {
    let mut l = List::new();
    let o1 = l.append('a', 1);
    let mut ahead = List::new();
    ahead.apply(o1.clone());
    let o2 = ahead.append('b', 1);
    assert!(l.validate_operation(&o2).is_err());
    assert!(l.validate_operation(&o1).is_ok());
    l.apply(o1.clone());
    l.apply(o1);
    assert_eq!(l.read(), vec!['a']);
    assert_eq!(l.first(), Some(&'a'));
    assert_eq!(l.last(), Some(&'a'));
    assert_eq!(l.counter(1), 1);
}

#[test]
fn list_entry_accessors() {
    let mut l = List::new();
    assert!(l.first_entry().is_none());
    let o1 = l.append('x', 1);
    l.apply(o1.clone());
    let o2 = l.append('y', 1);
    l.apply(o2.clone());
    assert_eq!(l.iter(), vec![&'x', &'y']);
    let entries = l.iter_entries();
    assert_eq!(entries.len(), 2);
    assert!(entries[0].0 == o1.id());
    assert_eq!(*entries[1].1, 'y');
    assert_eq!(l.first_entry().map(|e| *e.1), Some('x'));
    assert_eq!(l.last_entry().map(|e| *e.1), Some('y'));
    assert!(l.last_entry().unwrap().0 == o2.id());
}
