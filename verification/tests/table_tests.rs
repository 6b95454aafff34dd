use rusty_map::table::HashMap;

#[test]
fn construction_basics() {
    let map = HashMap::<u64, u64>::new();
    assert_eq!(map.capacity(), 64);
    assert_eq!(map.len(), 0);
    assert!(map.is_empty());

    let map = HashMap::<u64, u64>::empty();
    assert_eq!(map.capacity(), 0);
    assert_eq!(map.len(), 0);
    assert!(map.is_empty());

    let map = HashMap::<u64, u64>::with_capacity(13);
    assert_eq!(map.capacity(), 13);
    assert_eq!(map.len(), 0);
    assert!(map.is_empty());

    let map = HashMap::<u64, u64>::default();
    assert_eq!(map.capacity(), 64);
    assert!(map.is_empty());
}

#[test]
fn round_trip() {
    let mut map = HashMap::<u32, u32>::new();
    map.insert(17, 1717);
    assert_eq!(map.get(&17), Some(&1717));

    let mut words = HashMap::<String, u64>::new();
    words.insert("hello".to_string(), 42);
    assert_eq!(words.get(&"hello".to_string()), Some(&42));
    assert!(!words.is_empty());
}

#[test]
fn overwrite_updates_in_place() {
    let mut map = HashMap::<u8, &str>::with_capacity(8);
    map.insert(3, "first");
    assert_eq!(map.len(), 1);
    map.insert(3, "second");
    assert_eq!(map.len(), 1);
    assert_eq!(map.get(&3), Some(&"second"));
}

#[test]
fn load_factor_bound() {
    let mut map = HashMap::<u64, u64>::new();
    for i in 0..100 {
        map.insert(i, i * 10);
    }
    assert_eq!(map.len(), 100);
    assert!(map.capacity() >= 200);
}

#[test]
fn resize_preserves_contents() {
    let mut map = HashMap::<u64, u64>::with_capacity(4);
    for i in 0..50 {
        map.insert(i, i + 1000);
    }
    assert_eq!(map.len(), 50);
    for i in 0..50 {
        assert_eq!(map.get(&i), Some(&(i + 1000)));
    }
}

#[test]
fn absent_key_reports_none() {
    let map = HashMap::<u64, u64>::with_capacity(16);
    assert_eq!(map.get(&7), None);

    let mut map = HashMap::<u64, u64>::with_capacity(16);
    map.insert(1, 1);
    assert_eq!(map.get(&2), None);
    assert_eq!(map.get_index(&2), None);
}

#[test]
fn get_index_finds_occupied_slot() {
    let mut map = HashMap::<u64, u64>::with_capacity(8);
    map.insert(5, 55);
    let index = map.get_index(&5);
    assert!(index.is_some());
    assert!(index.unwrap() < map.capacity());
}

#[test]
fn get_mut_writes_through() {
    let mut map = HashMap::<u8, u64>::with_capacity(8);
    map.insert(9, 1);
    if let Some(v) = map.get_mut(&9) {
        *v = 2;
    } else {
        panic!("key should be present");
    }
    assert_eq!(map.get(&9), Some(&2));
    assert_eq!(map.len(), 1);
    assert_eq!(map.get_mut(&10), None);
}

#[test]
fn iteration_yields_every_binding_once() {
    let mut map = HashMap::<u64, u64>::new();
    for i in 0..25 {
        map.insert(i, i * i);
    }
    let mut seen: Vec<(u64, u64)> = Vec::new();
    let mut it = map.iter();
    while let Some((k, v)) = it.next() {
        seen.push((*k, *v));
    }
    assert_eq!(seen.len(), 25);
    for (k, v) in &seen {
        assert_eq!(map.get(k), Some(v));
    }
    let mut keys: Vec<u64> = seen.iter().map(|p| p.0).collect();
    keys.sort();
    keys.dedup();
    assert_eq!(keys.len(), 25);
}

#[test]
fn weekday_scenario() {
    let mut days = HashMap::<u8, &str>::with_capacity(7);
    days.insert(1, "Monday");
    days.insert(2, "Tuesday");
    days.insert(3, "Wednesday");
    days.insert(4, "Thursday");
    days.insert(5, "Friday");
    days.insert(6, "Saturday");
    days.insert(7, "Sunday");
    assert_eq!(days.len(), 7);
    assert_eq!(days.get(&1), Some(&"Monday"));

    let mut seen: Vec<(u8, &str)> = Vec::new();
    let mut it = days.iter();
    while let Some((k, v)) = it.next() {
        seen.push((*k, *v));
    }
    assert_eq!(seen.len(), 7);
    let expected = [
        (1u8, "Monday"),
        (2, "Tuesday"),
        (3, "Wednesday"),
        (4, "Thursday"),
        (5, "Friday"),
        (6, "Saturday"),
        (7, "Sunday"),
    ];
    for pair in &expected {
        assert!(seen.contains(pair));
    }
}

#[test]
fn string_keys_compare_by_contents() {
    let mut map = HashMap::<String, u8>::with_capacity(8);
    let key_a = String::from("shared");
    let key_b = String::from("shared");
    map.insert(key_a, 1);
    map.insert(key_b, 2);
    assert_eq!(map.len(), 1);
    assert_eq!(map.get(&String::from("shared")), Some(&2));
}

#[test]
fn char_and_bool_keys() {
    let mut map = HashMap::<char, u8>::with_capacity(8);
    map.insert('x', 1);
    map.insert('y', 2);
    assert_eq!(map.get(&'x'), Some(&1));
    assert_eq!(map.get(&'y'), Some(&2));
    assert_eq!(map.get(&'z'), None);

    let mut flags = HashMap::<bool, &str>::with_capacity(4);
    flags.insert(true, "yes");
    flags.insert(false, "no");
    assert_eq!(flags.get(&true), Some(&"yes"));
    assert_eq!(flags.get(&false), Some(&"no"));
}

#[test]
fn negative_integer_keys() {
    let mut map = HashMap::<i64, u64>::with_capacity(8);
    map.insert(-5, 5);
    map.insert(5, 50);
    map.insert(i64::MIN, 99);
    assert_eq!(map.get(&-5), Some(&5));
    assert_eq!(map.get(&5), Some(&50));
    assert_eq!(map.get(&i64::MIN), Some(&99));
    assert_eq!(map.len(), 3);
}
