use hashmap::HashMap;

#[test]
fn test_new() {
    let hashmap = HashMap::<char, i32>::new();
    assert_eq!(hashmap.capacity(), 0);
}

#[test]
fn test_add() {
    let mut map = HashMap::new();
    assert_eq!(map.size(), 0);
    assert!(map.is_empty());
    map.put("test", 42);
    assert_eq!(map.size(), 1);
    assert!(!map.is_empty());
    assert_eq!(map.get(&"test"), Some(&42));
    assert_eq!(map.remove(&"ag"), None);
    assert_eq!(map.size(), 1);
    assert_eq!(map.get(&"h"), None);
    map.remove(&"test");
    assert!(map.is_empty());
}

#[test]
fn test_remove() {
    let mut hashmap = HashMap::<char, i32>::new();
    assert_eq!(hashmap.remove(&'h'), None);
    hashmap.put('h', 10);
    assert_eq!(hashmap.get(&'h'), Some(&10));
    assert_eq!(hashmap.remove(&'h'), Some(10));
    assert_eq!(hashmap.remove(&'h'), None);
}

#[test]
fn test_iter() {
    let mut hashmap = HashMap::<char, i32>::new();
    hashmap.put('a', 1);
    hashmap.put('b', 2);
    hashmap.put('c', 3);

    let mut it = hashmap.iter();
    while let Some((&x, &y)) = it.next() {
        match x {
            'a' => assert_eq!(y, 1),
            'b' => assert_eq!(y, 2),
            'c' => assert_eq!(y, 3),
            _ => unreachable!(),
        }
    }
}

#[test]
fn test_contains() {
    let mut hashmap = HashMap::<char, i32>::new();
    hashmap.put('a', 1);
    hashmap.put('b', 2);
    hashmap.put('c', 3);

    assert!(hashmap.contains_key(&'a'));
    assert!(hashmap.contains_key(&'b'));
    assert!(hashmap.contains_key(&'c'));
}
