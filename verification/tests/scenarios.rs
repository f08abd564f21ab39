use my_hashmap::{HashIt, MapError, MyHashMap, Pair, INITIAL_CAPACITY};
use std::collections::HashMap;

fn key(text: &str) -> String {
    text.to_string()
}

#[test]
fn insert_twice_updates_the_value() {
    let mut table: MyHashMap<String, u64> = MyHashMap::with_capacity(4).unwrap();
    assert_eq!(table.insert(key("a"), 1), None);
    assert_eq!(table.insert(key("a"), 2), Some(1));
    assert_eq!(table.get(&key("a")), Some(&2));
    assert_eq!(table.len(), 1);
    assert_eq!(table.capacity(), 4);
}

#[test]
fn fifth_key_doubles_four_slots() {
    let mut table: MyHashMap<String, u64> = MyHashMap::with_capacity(4).unwrap();
    let names = ["a", "b", "c", "d", "e"];
    for (value, name) in names.iter().enumerate() {
        assert_eq!(table.insert(key(name), value as u64), None);
        let expected = if value < 4 { 4 } else { 8 };
        assert_eq!(table.capacity(), expected);
    }
    assert!(table.capacity() >= 8);
    assert_eq!(table.len(), 5);
    for (value, name) in names.iter().enumerate() {
        assert_eq!(table.get(&key(name)), Some(&(value as u64)));
    }
}

#[test]
fn removing_a_missing_key_is_an_error() {
    let mut table: MyHashMap<String, u64> = MyHashMap::new();
    assert_eq!(table.remove(key("missing")), Err(MapError::KeyNotFound));
    assert_eq!(table.capacity(), INITIAL_CAPACITY);
    assert_eq!(table.capacity(), 15);
    assert_eq!(table.len(), 0);
    for index in 0..table.capacity() {
        assert_eq!(table.entry_at(index), None);
    }
}

#[test]
fn removing_a_missing_key_leaves_the_entries() {
    let mut table: MyHashMap<String, u64> = MyHashMap::new();
    table.insert(key("here"), 7);
    let before: Vec<Option<(String, u64)>> = (0..table.capacity())
        .map(|index| table.entry_at(index).map(|(k, v)| (k.clone(), *v)))
        .collect();
    assert_eq!(table.remove(key("missing")), Err(MapError::KeyNotFound));
    let after: Vec<Option<(String, u64)>> = (0..table.capacity())
        .map(|index| table.entry_at(index).map(|(k, v)| (k.clone(), *v)))
        .collect();
    assert_eq!(before, after);
    assert_eq!(table.get(&key("here")), Some(&7));
}

#[test]
fn colliding_keys_are_both_found() {
    let first: usize = 2;
    let second: usize = 3;
    assert_eq!(first.hash() % 8, second.hash() % 8);
    let home = first.hash() % 8;
    let mut table: MyHashMap<usize, u64> = MyHashMap::with_capacity(8).unwrap();
    assert_eq!(table.insert(first, 10), None);
    assert_eq!(table.insert(second, 20), None);
    assert_eq!(table.get(&first), Some(&10));
    assert_eq!(table.get(&second), Some(&20));
    assert_eq!(table.entry_at(home), Some((&first, &10)));
    assert_eq!(table.entry_at(home + 1), Some((&second, &20)));
    assert_eq!(table.capacity(), 8);
}

#[test]
fn integer_hashes_reduce_into_every_capacity() {
    let zero: usize = 0;
    let one: usize = 1;
    assert_eq!(zero.hash(), 0);
    assert_eq!(one.hash(), 0);
    for capacity in 1..100usize {
        assert!(zero.hash() % capacity < capacity);
        assert!(one.hash() % capacity < capacity);
        assert!(usize::MAX.hash() % capacity < capacity);
    }
}

#[test]
fn integer_hash_takes_the_high_half_of_the_product() {
    assert_eq!(2usize.hash(), 1);
    assert_eq!(3usize.hash(), 1);
    assert_eq!(4usize.hash(), 2);
    assert_eq!(10usize.hash(), 6);
    assert_eq!(1000usize.hash(), 618);
    assert_eq!((1usize << 32).hash(), 2654435769);
    assert_eq!(usize::MAX.hash(), 4294967295);
    assert_eq!(7usize.hash(), 7usize.hash());
}

#[test]
fn string_hash_is_djb2() {
    assert_eq!(key("").hash(), 5381);
    assert_eq!(key("a").hash(), 177670);
    assert_eq!(key("ab").hash(), 5863208);
    assert_eq!(key("hello").hash(), 210714636441);
    assert_eq!(key("\u{e9}").hash(), (5381 * 33 + 0xc3) * 33 + 0xa9);
}

#[test]
fn string_hash_wraps_round() {
    let long = "z".repeat(40);
    let mut expected: usize = 5381;
    for byte in long.bytes() {
        expected = expected.wrapping_mul(33).wrapping_add(byte as usize);
    }
    assert_eq!(long.hash(), expected);
    assert!(long.hash() != key("z").hash());
}

#[test]
fn no_slots_is_refused() {
    let made: Result<MyHashMap<String, u64>, MapError> = MyHashMap::with_capacity(0);
    assert!(matches!(made, Err(MapError::InvalidConfiguration)));
}

#[test]
fn new_table_is_empty_with_fifteen_slots() {
    let table: MyHashMap<usize, usize> = MyHashMap::new();
    assert_eq!(table.capacity(), 15);
    assert_eq!(table.len(), 0);
    assert_eq!(table.get(&0), None);
    assert_eq!(table.get(&99), None);
}

#[test]
fn round_trip() {
    let mut table: MyHashMap<String, u64> = MyHashMap::new();
    for n in 0..200u64 {
        let name = format!("key{}", n);
        table.insert(name.clone(), n * n);
        assert_eq!(table.get(&name), Some(&(n * n)));
    }
    let mut numbers: MyHashMap<usize, String> = MyHashMap::with_capacity(1).unwrap();
    for n in 0..50usize {
        numbers.insert(n * 7, format!("v{}", n));
        assert_eq!(numbers.get(&(n * 7)), Some(&format!("v{}", n)));
    }
}

#[test]
fn update_keeps_the_count() {
    let mut table: MyHashMap<usize, u64> = MyHashMap::with_capacity(3).unwrap();
    table.insert(5, 1);
    table.insert(6, 1);
    table.insert(7, 1);
    assert_eq!(table.len(), 3);
    assert_eq!(table.insert(6, 2), Some(1));
    assert_eq!(table.insert(6, 3), Some(2));
    assert_eq!(table.get(&6), Some(&3));
    assert_eq!(table.len(), 3);
    assert_eq!(table.capacity(), 3);
}

#[test]
fn removal_hands_back_the_pair() {
    let mut table: MyHashMap<String, u64> = MyHashMap::new();
    table.insert(key("k"), 42);
    assert_eq!(
        table.remove(key("k")),
        Ok(Pair { key: key("k"), value: 42, is_occupied: true })
    );
    assert_eq!(table.get(&key("k")), None);
    assert_eq!(table.len(), 0);
    assert_eq!(table.remove(key("k")), Err(MapError::KeyNotFound));
}

#[test]
fn removal_keeps_probed_forward_keys_reachable() {
    let keys: [usize; 4] = [2, 3, 10, 11];
    let mut table: MyHashMap<usize, u64> = MyHashMap::with_capacity(8).unwrap();
    assert_eq!(2usize.hash() % 8, 1);
    assert_eq!(3usize.hash() % 8, 1);
    assert_eq!(10usize.hash() % 8, 6);
    for k in keys {
        table.insert(k, k as u64 * 100);
    }
    assert_eq!(table.entry_at(1), Some((&2, &200)));
    assert_eq!(table.entry_at(2), Some((&3, &300)));
    assert_eq!(table.remove(2), Ok(Pair { key: 2, value: 200, is_occupied: true }));
    assert_eq!(table.get(&3), Some(&300));
    assert_eq!(table.entry_at(1), Some((&3, &300)));
    assert_eq!(table.entry_at(2), None);
    assert_eq!(table.get(&10), Some(&1000));
    assert_eq!(table.get(&11), Some(&1100));
    assert_eq!(table.get(&2), None);
    assert_eq!(table.len(), 3);
}

#[test]
fn removal_leaves_entries_at_home_in_place() {
    let mut table: MyHashMap<usize, u64> = MyHashMap::with_capacity(8).unwrap();
    assert_eq!(2usize.hash() % 8, 1);
    assert_eq!(4usize.hash() % 8, 2);
    assert_eq!(5usize.hash() % 8, 3);
    table.insert(2, 1);
    table.insert(4, 2);
    table.insert(5, 3);
    assert_eq!(table.remove(2).map(|pair| pair.value), Ok(1));
    assert_eq!(table.entry_at(1), None);
    assert_eq!(table.entry_at(2), Some((&4, &2)));
    assert_eq!(table.entry_at(3), Some((&5, &3)));
}

#[test]
fn removal_closes_a_gap_round_the_end_of_the_ring() {
    let mut table: MyHashMap<usize, u64> = MyHashMap::with_capacity(4).unwrap();
    let home = |k: usize| k.hash() % 4;
    let at_three: Vec<usize> = (0..200usize).filter(|k| home(*k) == 3).take(3).collect();
    assert_eq!(at_three.len(), 3);
    for (n, k) in at_three.iter().enumerate() {
        table.insert(*k, n as u64);
    }
    assert_eq!(table.entry_at(3), Some((&at_three[0], &0)));
    assert_eq!(table.entry_at(0), Some((&at_three[1], &1)));
    assert_eq!(table.entry_at(1), Some((&at_three[2], &2)));
    assert!(table.remove(at_three[0]).is_ok());
    assert_eq!(table.entry_at(3), Some((&at_three[1], &1)));
    assert_eq!(table.entry_at(0), Some((&at_three[2], &2)));
    assert_eq!(table.entry_at(1), None);
    assert_eq!(table.get(&at_three[1]), Some(&1));
    assert_eq!(table.get(&at_three[2]), Some(&2));
}

#[test]
fn removal_from_a_full_table() {
    let mut table: MyHashMap<usize, u64> = MyHashMap::with_capacity(4).unwrap();
    for k in [2usize, 3, 4, 5] {
        table.insert(k, k as u64);
    }
    assert_eq!(table.len(), 4);
    assert_eq!(table.capacity(), 4);
    for gone in [3usize, 2, 5, 4] {
        assert_eq!(table.remove(gone).map(|pair| pair.key), Ok(gone));
        assert_eq!(table.get(&gone), None);
        for k in [2usize, 3, 4, 5] {
            let held = table.get(&k).is_some();
            let expected = (0..table.capacity())
                .any(|index| table.entry_at(index).map(|(key, _)| *key) == Some(k));
            assert_eq!(held, expected);
        }
    }
    assert_eq!(table.len(), 0);
    assert_eq!(table.capacity(), 4);
}

#[test]
fn one_slot_table() {
    let mut table: MyHashMap<String, u64> = MyHashMap::with_capacity(1).unwrap();
    assert_eq!(table.insert(key("only"), 1), None);
    assert_eq!(table.capacity(), 1);
    assert_eq!(table.remove(key("other")), Err(MapError::KeyNotFound));
    assert_eq!(table.get(&key("other")), None);
    assert_eq!(table.remove(key("only")).map(|pair| pair.value), Ok(1));
    assert_eq!(table.len(), 0);
    assert_eq!(table.insert(key("x"), 2), None);
    assert_eq!(table.insert(key("y"), 3), None);
    assert_eq!(table.capacity(), 2);
    assert_eq!(table.get(&key("x")), Some(&2));
    assert_eq!(table.get(&key("y")), Some(&3));
}

#[test]
fn growth_preserves_entries() {
    let mut table: MyHashMap<String, u64> = MyHashMap::with_capacity(2).unwrap();
    let mut reference: HashMap<String, u64> = HashMap::new();
    for n in 0..500u64 {
        table.insert(format!("{}", n), n);
        reference.insert(format!("{}", n), n);
        if n % 3 == 0 {
            table.insert(format!("{}", n / 2), n + 1000);
            reference.insert(format!("{}", n / 2), n + 1000);
        }
        if n % 50 == 49 {
            for (name, value) in reference.iter() {
                assert_eq!(table.get(name), Some(value));
            }
        }
    }
    assert_eq!(table.get(&key("0")), Some(&1000));
    assert_eq!(table.get(&key("3")), Some(&1006));
    assert_eq!(table.get(&key("499")), Some(&499));
    assert_eq!(table.len(), 500);
    assert_eq!(table.capacity(), 512);
}

#[test]
fn capacity_only_doubles() {
    let mut table: MyHashMap<usize, usize> = MyHashMap::with_capacity(3).unwrap();
    let mut seen = vec![3usize];
    for k in 0..100usize {
        let full = table.len() == table.capacity();
        let new = table.get(&k).is_none();
        let before = table.capacity();
        table.insert(k, k);
        let after = table.capacity();
        if full && new {
            assert_eq!(after, 2 * before);
            seen.push(after);
        } else {
            assert_eq!(after, before);
        }
        let _ = table.get(&k);
        assert_eq!(table.capacity(), after);
        if k % 5 == 4 {
            assert!(table.remove(k - 2).is_ok());
            assert_eq!(table.capacity(), after);
        }
    }
    assert_eq!(seen, vec![3, 6, 12, 24, 48, 96]);
}

#[test]
fn increase_capacity_doubles_and_keeps_entries() {
    let mut table: MyHashMap<String, u64> = MyHashMap::with_capacity(4).unwrap();
    table.insert(key("a"), 1);
    table.insert(key("b"), 2);
    table.increase_capacity();
    assert_eq!(table.capacity(), 8);
    assert_eq!(table.len(), 2);
    assert_eq!(table.get(&key("a")), Some(&1));
    assert_eq!(table.get(&key("b")), Some(&2));
    table.increase_capacity();
    assert_eq!(table.capacity(), 16);
    assert_eq!(table.get(&key("a")), Some(&1));
}

#[test]
fn no_key_sits_in_two_slots() {
    let mut table: MyHashMap<usize, usize> = MyHashMap::with_capacity(4).unwrap();
    for round in 0..300usize {
        let k = (round * 37) % 23;
        if round % 3 == 2 {
            let _ = table.remove(k);
        } else {
            table.insert(k, round);
        }
        let mut held: Vec<usize> = (0..table.capacity())
            .filter_map(|index| table.entry_at(index).map(|(key, _)| *key))
            .collect();
        assert_eq!(held.len(), table.len());
        held.sort();
        held.dedup();
        assert_eq!(held.len(), table.len());
        for k in held {
            assert!(table.get(&k).is_some());
        }
    }
}

#[test]
fn extend_changes_nothing_that_shows() {
    let mut table: MyHashMap<String, u64> = MyHashMap::with_capacity(4).unwrap();
    table.insert(key("a"), 1);
    table.insert(key("b"), 2);
    let before: Vec<Option<(String, u64)>> = (0..table.capacity())
        .map(|index| table.entry_at(index).map(|(k, v)| (k.clone(), *v)))
        .collect();
    table.extend(100);
    table.extend(0);
    table.extend(usize::MAX);
    let after: Vec<Option<(String, u64)>> = (0..table.capacity())
        .map(|index| table.entry_at(index).map(|(k, v)| (k.clone(), *v)))
        .collect();
    assert_eq!(before, after);
    assert_eq!(table.capacity(), 4);
    assert_eq!(table.len(), 2);
    assert_eq!(table.get(&key("a")), Some(&1));
}

#[test]
fn entry_at_outside_the_ring_is_nothing() {
    let mut table: MyHashMap<usize, u64> = MyHashMap::with_capacity(2).unwrap();
    table.insert(2, 9);
    assert_eq!(table.entry_at(2), None);
    assert_eq!(table.entry_at(usize::MAX), None);
    assert_eq!(table.entry_at(1), Some((&2, &9)));
    assert_eq!(table.entry_at(0), None);
}

#[test]
fn pair_copies_and_compares() {
    let pair = Pair { key: key("k"), value: 3u64, is_occupied: true };
    let copy = pair.clone();
    assert_eq!(pair, copy);
    assert_ne!(pair, Pair { key: key("k"), value: 4u64, is_occupied: true });
    let free: Pair<String, u64> = Pair::default();
    assert_eq!(free, Pair { key: String::new(), value: 0, is_occupied: false });
    let small = Pair { key: 1usize, value: 2usize, is_occupied: true };
    let same = small;
    assert_eq!(small, same);
}

#[test]
fn empty_string_and_zero_are_keys_like_any_other() {
    let mut names: MyHashMap<String, u64> = MyHashMap::with_capacity(2).unwrap();
    assert_eq!(names.get(&String::new()), None);
    assert_eq!(names.insert(String::new(), 5), None);
    assert_eq!(names.get(&String::new()), Some(&5));
    assert_eq!(names.len(), 1);
    let mut numbers: MyHashMap<usize, u64> = MyHashMap::with_capacity(2).unwrap();
    assert_eq!(numbers.get(&0), None);
    assert_eq!(numbers.remove(0), Err(MapError::KeyNotFound));
    assert_eq!(numbers.insert(0, 5), None);
    assert_eq!(numbers.insert(0, 6), Some(5));
    assert_eq!(numbers.remove(0).map(|pair| pair.value), Ok(6));
    assert_eq!(numbers.get(&0), None);
}
