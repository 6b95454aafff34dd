use rusty_map::table::HashMap;

#[test]
fn performance() {
    let n: u64 = 1_000_000;

    let start_insert = std::time::Instant::now();
    let mut map = HashMap::<u64, u64>::new();
    for i in 0..n {
        map.insert(i, i);
    }
    println!("RustyMap Insert elapsed: {:?}", start_insert.elapsed());

    let start_get = std::time::Instant::now();
    for i in 0..n {
        assert_eq!(map.get(&i), Some(&i));
    }
    println!("RustyMap Get elapsed: {:?}", start_get.elapsed());

    let start_insert = std::time::Instant::now();
    let mut std_map = std::collections::HashMap::<u64, u64>::new();
    for i in 0..n {
        std_map.insert(i, i);
    }
    println!("std Insert elapsed: {:?}", start_insert.elapsed());
    let start_get = std::time::Instant::now();
    for i in 0..n {
        assert_eq!(std_map.get(&i), Some(&i));
    }
    println!("std Get elapsed: {:?}", start_get.elapsed());
}
