use intmap::bucket::position;
use intmap::hash::hash_u64;
use intmap::IntMap;

#[test]
fn hash_is_the_wrapped_product() {
    assert_eq!(hash_u64(0), 0);
    assert_eq!(hash_u64(1), 11400714819323198549);
    assert_eq!(hash_u64(2), 4354685564936845482);
    assert_eq!(hash_u64(u64::MAX), 7046029254386353067);
}

#[test]
fn insert_then_get_round_trip() {
    let mut map: IntMap<u64> = IntMap::new();
    assert!(map.insert(21, 42));
    assert_eq!(map.get(21), Some(&42));
    assert!(map.contains_key(21));
    assert!(map.insert(u64::MAX, 7));
    assert_eq!(map.get(u64::MAX), Some(&7));
    assert!(map.insert(0, 1));
    assert_eq!(map.get(0), Some(&1));
    assert_eq!(map.get(22), None);
}

#[test]
fn second_insert_is_rejected_and_keeps_first_value() {
    let mut map: IntMap<&str> = IntMap::new();
    assert!(map.insert(21, "first"));
    assert!(!map.insert(21, "second"));
    assert_eq!(map.get(21), Some(&"first"));
    assert_eq!(map.len(), 1);
}

#[test]
fn remove_makes_key_absent() {
    let mut map: IntMap<u64> = IntMap::new();
    map.insert(21, 42);
    assert_eq!(map.remove(21), Some(42));
    assert!(!map.contains_key(21));
    assert_eq!(map.get(21), None);
    assert_eq!(map.remove(21), None);
    assert_eq!(map.len(), 0);
}

#[test]
fn remove_of_absent_key_changes_nothing() {
    let mut map: IntMap<u64> = IntMap::new();
    map.insert(1, 10);
    assert_eq!(map.remove(5), None);
    assert_eq!(map.len(), 1);
    assert_eq!(map.get(1), Some(&10));
}

#[test]
fn remove_keeps_the_other_entries_of_the_bucket() {
    let mut map: IntMap<u64> = IntMap::with_capacity(16);
    map.insert(0, 100);
    map.insert(16, 116);
    map.insert(32, 132);
    assert_eq!(map.remove(0), Some(100));
    assert_eq!(map.get(16), Some(&116));
    assert_eq!(map.get(32), Some(&132));
    assert_eq!(map.len(), 2);
    assert!(map.assert_count());
}

#[test]
fn get_mut_changes_only_the_value() {
    let mut map: IntMap<u64> = IntMap::new();
    map.insert(21, 42);
    map.insert(22, 1);
    {
        let val = map.get_mut(21).unwrap();
        *val += 1;
    }
    assert_eq!(map.get(21), Some(&43));
    assert_eq!(map.get(22), Some(&1));
    assert!(map.get_mut(5).is_none());
    assert_eq!(map.len(), 2);
}

#[test]
fn count_stays_consistent() {
    let mut map: IntMap<u64> = IntMap::new();
    for k in 0..200u64 {
        assert!(map.insert(k * 7, k));
        assert!(map.assert_count());
    }
    assert_eq!(map.len(), 200);
    for k in 0..100u64 {
        assert_eq!(map.remove(k * 14), Some(k * 2));
        assert!(map.assert_count());
    }
    assert_eq!(map.len(), 100);
    assert!(!map.insert(7, 0));
    assert_eq!(map.len(), 100);
    map.clear();
    assert!(map.assert_count());
    assert_eq!(map.len(), 0);
}

#[test]
fn growth_keeps_every_entry() {
    let mut map: IntMap<u64> = IntMap::new();
    for k in 0..5000u64 {
        assert!(map.insert(k.wrapping_mul(2654435761), k + 1));
    }
    assert_eq!(map.len(), 5000);
    assert!(map.capacity() > 4);
    for k in 0..5000u64 {
        assert_eq!(map.get(k.wrapping_mul(2654435761)), Some(&(k + 1)));
    }
    assert!(map.assert_count());
}

#[test]
fn capacity_is_a_power_of_two_of_at_least_four() {
    for want in 0..70usize {
        let map: IntMap<u8> = IntMap::with_capacity(want);
        let cap = map.capacity();
        assert!(cap >= 4);
        assert!(cap >= want);
        assert!(cap.is_power_of_two());
        assert!(cap == 4 || cap / 2 < want);
    }
    let mut map: IntMap<u64> = IntMap::new();
    for k in 0..300u64 {
        map.insert(k, k);
        assert!(map.capacity().is_power_of_two());
        assert!(map.capacity() >= 4);
    }
}

#[test]
fn with_capacity_rounds_up() {
    assert_eq!(IntMap::<u8>::new().capacity(), 4);
    assert_eq!(IntMap::<u8>::with_capacity(0).capacity(), 4);
    assert_eq!(IntMap::<u8>::with_capacity(4).capacity(), 4);
    assert_eq!(IntMap::<u8>::with_capacity(5).capacity(), 8);
    assert_eq!(IntMap::<u8>::with_capacity(20).capacity(), 32);
    assert_eq!(IntMap::<u8>::with_capacity(1024).capacity(), 1024);
}

#[test]
fn load_is_looked_at_when_bit_two_of_the_count_is_set() {
    let mut map: IntMap<u64> = IntMap::with_capacity(4);
    map.insert(1, 1);
    map.insert(2, 2);
    map.insert(3, 3);
    // three of four buckets' worth: over 70 percent, but the count's bit is not set
    assert_eq!(map.capacity(), 4);
    map.insert(4, 4);
    assert_eq!(map.capacity(), 8);
    map.insert(5, 5);
    assert_eq!(map.capacity(), 8);
    map.insert(6, 6);
    assert_eq!(map.capacity(), 16);
}

#[test]
fn six_inserts_into_four_buckets() {
    let mut map: IntMap<u64> = IntMap::with_capacity(4);
    assert_eq!(map.capacity(), 4);
    for k in 1..=6u64 {
        assert!(map.insert(k, k * 10));
    }
    let cap = map.capacity();
    assert!(cap.is_power_of_two());
    assert!(cap >= 8);
    // the sixth insert loads eight buckets to 75 percent, which doubles them once more
    assert_eq!(cap, 16);
    for k in 1..=6u64 {
        assert_eq!(map.get(k), Some(&(k * 10)));
    }
    assert_eq!(map.len(), 6);
}

#[test]
fn clear_resets() {
    let mut map: IntMap<u64> = IntMap::new();
    for k in 0..50u64 {
        map.insert(k, k);
    }
    let cap = map.capacity();
    map.clear();
    assert_eq!(map.len(), 0);
    assert!(map.is_empty());
    for k in 0..50u64 {
        assert_eq!(map.get(k), None);
    }
    assert_eq!(map.capacity(), cap);
    assert!(map.insert(3, 4));
    assert_eq!(map.get(3), Some(&4));
}

#[test]
fn is_empty_follows_the_count() {
    let mut map: IntMap<u64> = IntMap::new();
    assert!(map.is_empty());
    map.insert(21, 42);
    assert!(!map.is_empty());
    map.remove(21);
    assert!(map.is_empty());
}

#[test]
fn load_counts_occupied_buckets() {
    let mut map: IntMap<u64> = IntMap::with_capacity(16);
    assert_eq!(map.load(), 0);
    map.insert(0, 0);
    map.insert(16, 0);
    assert_eq!(map.load(), 1);
    map.insert(1, 0);
    assert_eq!(map.load(), 2);
    assert_eq!(map.len(), 3);
}

#[test]
fn collisions_counts_chains_by_length() {
    let mut map: IntMap<u64> = IntMap::with_capacity(16);
    map.insert(0, 0);
    map.insert(16, 0);
    map.insert(1, 0);
    map.insert(17, 0);
    map.insert(2, 0);
    assert_eq!(map.capacity(), 16);
    let hist = map.collisions();
    assert_eq!(hist.len(), 1);
    assert_eq!(hist.get(2), Some(&2));
    assert_eq!(hist.get(1), None);

    map.insert(32, 0);
    let hist = map.collisions();
    assert_eq!(hist.len(), 2);
    assert_eq!(hist.get(2), Some(&1));
    assert_eq!(hist.get(3), Some(&1));

    let empty: IntMap<u8> = IntMap::new();
    assert_eq!(empty.collisions().len(), 0);
}

#[test]
fn position_finds_the_entry_of_a_key() {
    let bucket = vec![(7u64, 'a'), (3, 'b'), (9, 'c')];
    assert_eq!(position(&bucket, 7), Some(0));
    assert_eq!(position(&bucket, 9), Some(2));
    assert_eq!(position(&bucket, 4), None);
    let empty: Vec<(u64, char)> = Vec::new();
    assert_eq!(position(&empty, 0), None);
}

#[test]
fn removed_entry_is_replaced_by_the_last_of_its_bucket() {
    let mut map: IntMap<char> = IntMap::with_capacity(16);
    map.insert(0, 'a');
    map.insert(16, 'b');
    map.insert(32, 'c');
    assert_eq!(map.remove(0), Some('a'));
    let mut it = map.iter();
    assert_eq!(it.next(), Some((&32, &'c')));
    assert_eq!(it.next(), Some((&16, &'b')));
    assert_eq!(it.next(), None);
}
