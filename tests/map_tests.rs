use namethingy::map::{FrequencyMap, MapRandom, MapRandomError};

#[test]
fn test_incr() {
    let mut map: FrequencyMap<String> = FrequencyMap::new();
    let a = String::from("a");

    // it should add if key does not exist
    assert!(!map.contains_key(&a));
    map.incr(a.clone());
    assert_eq!(map.get(&a), Some(1));

    // it should increment if key exists
    map.incr(a.clone());
    assert_eq!(map.get(&a), Some(2));

    // and keep on incrementing...
    for _ in 0..10 {
        map.incr(a.clone());
    }
    assert_eq!(map.get(&a), Some(12));

    // it should not have recollection of previous value
    map.remove(&a);
    map.incr(a.clone());
    assert_eq!(map.get(&a), Some(1));
}

#[test]
fn test_count() {
    let mut map: FrequencyMap<u64> = FrequencyMap::new();

    // empty map's count is 0
    assert_eq!(map.count(), 0);

    // insert first 10 natural numbers as values
    // set keys to something different to differentiate
    // that its summing values not keys
    for (k, v) in (101u64..=110).zip(1usize..=10) {
        map.insert(k, v);
    }
    assert_eq!(map.count(), 55)
}

#[test]
fn test_choose_weighted() {
    // Err on empty map
    let map: FrequencyMap<String> = FrequencyMap::new();
    assert_eq!(map.choose_weighted().err(), Some(MapRandomError::EmptyMap));

    // Otherwise return a value.
    let mut map: FrequencyMap<String> = FrequencyMap::new();
    map.insert(String::from("one"), 1);
    map.insert(String::from("two"), 2);
    assert!(map.choose_weighted().is_ok());
}

#[test]
fn counts_follow_increments() {
    let mut map: FrequencyMap<char> = FrequencyMap::new();
    for c in "abracadabra".chars() {
        map.incr(c);
    }
    assert_eq!(map.count(), 11);
    assert_eq!(map.get(&'a'), Some(5));
    assert_eq!(map.get(&'b'), Some(2));
    assert_eq!(map.get(&'r'), Some(2));
    assert_eq!(map.get(&'c'), Some(1));
    assert_eq!(map.get(&'d'), Some(1));
    assert_eq!(map.get(&'z'), None);
    assert_eq!(map.len(), 5);
}

#[test]
fn single_key_is_always_drawn() {
    let mut map: FrequencyMap<u64> = FrequencyMap::new();
    map.insert(7, 3);
    for _ in 0..100 {
        assert_eq!(map.choose_weighted(), Ok(&7));
    }
}

#[test]
fn draw_walks_running_sum() {
    let mut map: FrequencyMap<u64> = FrequencyMap::new();
    map.insert(1, 1);
    map.insert(2, 2);
    assert_eq!(map.choose_by_draw(0), Err(MapRandomError::Unknown));
    assert_eq!(map.choose_by_draw(1), Ok(&1));
    assert_eq!(map.choose_by_draw(2), Ok(&2));
    assert_eq!(map.choose_by_draw(3), Ok(&2));
    assert_eq!(map.choose_by_draw(4), Err(MapRandomError::Unknown));
    let empty: FrequencyMap<u64> = FrequencyMap::new();
    assert_eq!(empty.choose_by_draw(1), Err(MapRandomError::EmptyMap));
}

#[test]
fn insert_replaces_and_remove_forgets() {
    let mut map: FrequencyMap<u64> = FrequencyMap::new();
    assert_eq!(map.insert(4, 2), None);
    assert_eq!(map.insert(4, 5), Some(2));
    assert_eq!(map.count(), 5);
    assert_eq!(map.remove(&4), Some(5));
    assert_eq!(map.remove(&4), None);
    assert_eq!(map.count(), 0);
    assert_eq!(map.len(), 0);
}

#[test]
fn weighted_draws_match_counts() {
    let mut map: FrequencyMap<String> = FrequencyMap::new();
    map.insert(String::from("A"), 1);
    map.insert(String::from("B"), 2);
    let draws = 10000;
    let mut a = 0;
    for _ in 0..draws {
        if map.choose_weighted().unwrap() == "A" {
            a += 1;
        }
    }
    let share = a as f64 / draws as f64;
    assert!((share - 1.0 / 3.0).abs() < 0.03, "share of A was {}", share);
}
