use intmap::{IntMap, IntoIter, Iter, IterMut};

#[test]
fn traversal_yields_every_entry_once() {
    let mut map: IntMap<u64> = IntMap::new();
    let n = 100u64;
    for k in 0..n {
        assert!(map.insert(k * 3, k + 1000));
    }
    let mut seen = vec![false; n as usize];
    let mut it = map.iter();
    let mut yielded = 0;
    while let Some((k, v)) = it.next() {
        assert_eq!(*k % 3, 0);
        let i = (*k / 3) as usize;
        assert_eq!(*v, *k / 3 + 1000);
        assert!(!seen[i]);
        seen[i] = true;
        yielded += 1;
    }
    assert_eq!(yielded, n);
    assert!(it.next().is_none());
}

#[test]
fn traversal_goes_bucket_by_bucket() {
    let mut map: IntMap<&str> = IntMap::with_capacity(16);
    map.insert(16, "b");
    map.insert(1, "c");
    map.insert(0, "a");
    // bucket 0 holds 16 then 0; bucket 5 holds 1
    let mut it = map.iter();
    assert_eq!(it.next(), Some((&16, &"b")));
    assert_eq!(it.next(), Some((&0, &"a")));
    assert_eq!(it.next(), Some((&1, &"c")));
    assert_eq!(it.next(), None);
    assert_eq!(it.next(), None);
}

#[test]
fn keys_and_values_follow_the_entries() {
    let mut map: IntMap<&str> = IntMap::with_capacity(16);
    map.insert(16, "b");
    map.insert(1, "c");
    map.insert(0, "a");
    let mut keys = map.keys();
    assert_eq!(keys.next(), Some(&16));
    assert_eq!(keys.next(), Some(&0));
    assert_eq!(keys.next(), Some(&1));
    assert_eq!(keys.next(), None);
    let mut values = map.values();
    assert_eq!(values.next(), Some(&"b"));
    assert_eq!(values.next(), Some(&"a"));
    assert_eq!(values.next(), Some(&"c"));
    assert_eq!(values.next(), None);
}

#[test]
fn traversal_of_an_empty_map_yields_nothing() {
    let map: IntMap<u8> = IntMap::new();
    assert!(map.iter().next().is_none());
    assert!(map.into_iter().next().is_none());
    let none: Vec<Vec<(u64, u8)>> = Vec::new();
    assert!(Iter::new(&none).next().is_none());
    assert!(IntoIter::new(none).next().is_none());
}

#[test]
fn consuming_traversal_hands_out_every_entry_in_order() {
    let mut map: IntMap<String> = IntMap::with_capacity(16);
    map.insert(16, String::from("b"));
    map.insert(1, String::from("c"));
    map.insert(0, String::from("a"));
    let mut it = map.into_iter();
    assert_eq!(it.next(), Some((16, String::from("b"))));
    assert_eq!(it.next(), Some((0, String::from("a"))));
    assert_eq!(it.next(), Some((1, String::from("c"))));
    assert_eq!(it.next(), None);
}

#[test]
fn traversal_of_plain_buckets() {
    let buckets = vec![vec![], vec![(1u8, 'x'), (2, 'y')], vec![], vec![(3, 'z')], vec![]];
    let mut it = Iter::new(&buckets);
    assert_eq!(it.next(), Some((&1, &'x')));
    assert_eq!(it.next(), Some((&2, &'y')));
    assert_eq!(it.next(), Some((&3, &'z')));
    assert_eq!(it.next(), None);
    let mut owned = IntoIter::new(buckets);
    assert_eq!(owned.next(), Some((1, 'x')));
    assert_eq!(owned.next(), Some((2, 'y')));
    assert_eq!(owned.next(), Some((3, 'z')));
    assert_eq!(owned.next(), None);
}

#[test]
fn traversal_after_growth_is_complete() {
    let mut map: IntMap<u64> = IntMap::new();
    for k in 0..1000u64 {
        map.insert(k, k);
    }
    let mut sum = 0u64;
    let mut count = 0usize;
    let mut it = map.iter();
    while let Some((k, v)) = it.next() {
        assert_eq!(k, v);
        sum += *k;
        count += 1;
    }
    assert_eq!(count, map.len());
    assert_eq!(sum, 999 * 1000 / 2);
}

#[test]
fn mutable_traversal_changes_values_in_place() {
    let mut map: IntMap<u64> = IntMap::new();
    for k in 0..100u64 {
        map.insert(k, k);
    }
    let cap = map.capacity();
    let mut yielded = 0;
    {
        let mut it = map.iter_mut();
        while let Some((k, v)) = it.next() {
            assert_eq!(*k, *v);
            *v += 1000;
            yielded += 1;
        }
        assert!(it.next().is_none());
    }
    assert_eq!(yielded, 100);
    assert_eq!(map.len(), 100);
    assert_eq!(map.capacity(), cap);
    assert!(map.assert_count());
    for k in 0..100u64 {
        assert_eq!(map.get(k), Some(&(k + 1000)));
    }
}

#[test]
fn mutable_traversal_of_plain_buckets() {
    let mut buckets = vec![vec![], vec![(1u8, 10), (2, 20)], vec![(3, 30)]];
    {
        let mut it = IterMut::new(&mut buckets);
        match it.next() {
            Some((k, v)) => {
                assert_eq!((*k, *v), (1, 10));
            }
            None => panic!("an entry is left"),
        }
        match it.next() {
            Some((k, v)) => {
                assert_eq!(*k, 2);
                *v = 21;
            }
            None => panic!("an entry is left"),
        }
        match it.next() {
            Some((k, v)) => {
                assert_eq!((*k, *v), (3, 30));
                *v = 31;
            }
            None => panic!("an entry is left"),
        }
        assert!(it.next().is_none());
    }
    assert_eq!(buckets, vec![vec![], vec![(1, 10), (2, 21)], vec![(3, 31)]]);
}
