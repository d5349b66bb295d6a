use hashmap::{HashMap, MapKey};

fn key(i: u32) -> char {
    char::from_u32(0x4e00 + i).unwrap()
}

#[test]
fn empty_table_finds_nothing() {
    let mut map = HashMap::<char, i32>::new();
    assert!(map.is_empty());
    assert_eq!(map.size(), 0);
    assert_eq!(map.get(&'x'), None);
    assert!(!map.contains_key(&'x'));
    assert_eq!(map.remove(&'x'), None);
    assert_eq!(map.size(), 0);
    assert_eq!(map.capacity(), 0);
}

#[test]
fn put_then_get_returns_value() {
    let mut map = HashMap::<char, i32>::new();
    map.put('k', -7);
    assert_eq!(map.get(&'k'), Some(&-7));
    assert!(map.contains_key(&'k'));
    assert_eq!(map.get(&'j'), None);
}

#[test]
fn update_replaces_value_and_keeps_size() {
    let mut map = HashMap::<char, i32>::new();
    map.put('k', 1);
    map.put('k', 2);
    assert_eq!(map.get(&'k'), Some(&2));
    assert_eq!(map.size(), 1);
    map.put('m', 3);
    map.put('k', 4);
    assert_eq!(map.size(), 2);
    assert_eq!(map.get(&'k'), Some(&4));
    assert_eq!(map.get(&'m'), Some(&3));
}

#[test]
fn remove_round_trip() {
    let mut map = HashMap::<char, i32>::new();
    map.put('k', 5);
    map.put('q', 6);
    assert_eq!(map.remove(&'k'), Some(5));
    assert_eq!(map.get(&'k'), None);
    assert!(!map.contains_key(&'k'));
    assert_eq!(map.size(), 1);
    assert_eq!(map.get(&'q'), Some(&6));
}

#[test]
fn remove_absent_keeps_size() {
    let mut map = HashMap::<char, i32>::new();
    map.put('a', 1);
    map.put('b', 2);
    assert_eq!(map.remove(&'z'), None);
    assert_eq!(map.size(), 2);
    assert_eq!(map.remove(&'a'), Some(1));
    assert_eq!(map.remove(&'a'), None);
    assert_eq!(map.size(), 1);
}

#[test]
fn scenario_put_get_remove() {
    let mut map = HashMap::<char, i32>::new();
    map.put('h', 10);
    assert_eq!(map.get(&'h'), Some(&10));
    assert_eq!(map.remove(&'h'), Some(10));
    assert_eq!(map.remove(&'h'), None);
    assert_eq!(map.get(&'h'), None);
}

#[test]
fn first_put_allocates_initial_buckets() {
    let mut map = HashMap::<char, i32>::new();
    map.put('a', 1);
    assert_eq!(map.capacity(), 1024);
}

#[test]
fn buckets_double_at_half_load() {
    let mut map = HashMap::<char, u32>::new();
    for i in 0..512 {
        map.put(key(i), i);
    }
    assert_eq!(map.capacity(), 1024);
    map.put(key(512), 512);
    assert_eq!(map.capacity(), 2048);
    assert_eq!(map.size(), 513);
}

#[test]
fn growth_keeps_every_entry() {
    let mut map = HashMap::<char, u32>::new();
    let n: u32 = 5000;
    for i in 0..n {
        map.put(key(i), i * 3);
    }
    assert_eq!(map.size(), n as usize);
    assert_eq!(map.capacity(), 16384);
    for i in 0..n {
        assert_eq!(map.get(&key(i)), Some(&(i * 3)));
    }
    assert_eq!(map.get(&key(n)), None);
}

#[test]
fn removals_keep_the_rest() {
    let mut map = HashMap::<char, u32>::new();
    for i in 0..3000 {
        map.put(key(i), i);
    }
    for i in (0..3000).step_by(2) {
        assert_eq!(map.remove(&key(i)), Some(i));
    }
    assert_eq!(map.size(), 1500);
    for i in 0..3000 {
        if i % 2 == 0 {
            assert_eq!(map.get(&key(i)), None);
        } else {
            assert_eq!(map.get(&key(i)), Some(&i));
        }
    }
    let capacity = map.capacity();
    assert_eq!(capacity, 8192);
}

#[test]
fn iteration_visits_each_pair_once() {
    let mut map = HashMap::<char, i32>::new();
    map.put('a', 1);
    map.put('b', 2);
    map.put('c', 3);
    let mut seen = Vec::new();
    let mut it = map.iter();
    while let Some((&k, &v)) = it.next() {
        seen.push((k, v));
    }
    assert_eq!(it.next(), None);
    seen.sort();
    assert_eq!(seen, vec![('a', 1), ('b', 2), ('c', 3)]);
}

#[test]
fn iteration_of_empty_table_ends_at_once() {
    let map = HashMap::<char, i32>::new();
    let mut it = map.iter();
    assert_eq!(it.next(), None);
}

#[test]
fn iteration_after_growth_counts_all() {
    let mut map = HashMap::<char, u32>::new();
    for i in 0..2000 {
        map.put(key(i), i);
    }
    map.put(key(7), 70);
    let mut count = 0usize;
    let mut sum: u64 = 0;
    let mut it = map.iter();
    while let Some((_, &v)) = it.next() {
        count += 1;
        sum += v as u64;
    }
    assert_eq!(count, 2000);
    assert_eq!(sum, (0..2000u64).sum::<u64>() - 7 + 70);
}

#[test]
fn string_keys() {
    let mut map = HashMap::<String, i32>::new();
    map.put(String::from("alpha"), 1);
    map.put(String::from("beta"), 2);
    map.put(String::from("alpha"), 3);
    assert_eq!(map.size(), 2);
    assert_eq!(map.get(&String::from("alpha")), Some(&3));
    assert_eq!(map.get(&String::from("gamma")), None);
    assert_eq!(map.remove(&String::from("beta")), Some(2));
    assert!(!map.contains_key(&String::from("beta")));
}

#[test]
fn str_keys_compare_by_content() {
    let owned = String::from("tes") + "t";
    let mut map = HashMap::<&str, i32>::new();
    map.put("test", 1);
    map.put("tes", 2);
    map.put("", 3);
    assert_eq!(map.get(&owned.as_str()), Some(&1));
    assert_eq!(map.get(&"tes"), Some(&2));
    assert_eq!(map.get(&""), Some(&3));
    assert_eq!(map.get(&"tesT"), None);
    map.put(owned.as_str(), 4);
    assert_eq!(map.size(), 3);
    assert_eq!(map.get(&"test"), Some(&4));
}

#[test]
fn key_hash_is_deterministic() {
    assert_eq!('a'.key_hash(), 'a'.key_hash());
    assert_eq!("abc".key_hash(), String::from("abc").key_hash());
    assert_ne!("abc".key_hash(), "abd".key_hash());
    assert!('a'.key_eq(&'a'));
    assert!(!'a'.key_eq(&'b'));
    assert!("ab".key_eq(&"ab"));
    assert!(!"ab".key_eq(&"abc"));
}
