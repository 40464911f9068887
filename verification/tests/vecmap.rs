use collections::{Clear, Len, MapGet, MapInsert, MapMut, Retain, VecMap};

fn create_map() -> VecMap<usize> {
    let mut map = VecMap::new();
    for i in 0..10 {
        map.insert(i * 2, i);
    }
    map
}

#[test]
fn vecmap_test_clear_len() {
    let mut map = create_map();
    assert_eq!(Len::len(&map), 10);
    Clear::clear(&mut map);
    assert!(Len::is_empty(&map));
}

#[test]
fn vecmap_test_map_get() {
    let map = create_map();
    assert!(MapGet::contains_key(&map, &2));
    assert_eq!(MapGet::get(&map, &4), Some(&2));
    assert_eq!(MapGet::get(&map, &1), None);
}

#[test]
fn vecmap_test_map_mut() {
    let mut map = create_map();

    let new_value = 1234;
    *map.get_mut(2).unwrap() = new_value;
    assert_eq!(*map.get(2).unwrap(), new_value);

    let new_value = 123;
    *MapMut::get_mut(&mut map, &2).unwrap() = new_value;
    assert_eq!(MapGet::get(&map, &2), Some(&new_value));

    assert_eq!(MapMut::remove(&mut map, &2), Some(new_value));
    assert_eq!(MapGet::get(&map, &2), None);
}

#[test]
fn vecmap_test_map_insert() {
    let mut map = create_map();

    let new_value = 123;
    assert_eq!(MapInsert::insert(&mut map, 2, new_value), Some(1));
    assert_eq!(MapGet::get(&map, &2), Some(&new_value));

    assert_eq!(MapInsert::insert(&mut map, 111, new_value), None);
    assert_eq!(MapGet::get(&map, &111), Some(&new_value));
}

#[test]
fn vecmap_test_retain() {
    let mut map = create_map();
    Retain::retain(&mut map, |_, val| {
        if *val == 1 {
            *val = 3;
            true
        } else {
            false
        }
    });
    assert_eq!(map.len(), 1);
    assert_eq!(map.get(2), Some(&3));
}

#[test]
fn vecmap_test_iter() {
    let map = create_map();
    let mut i = 0;
    for (idx, value) in map.iter() {
        assert_eq!(i * 2, idx);
        assert_eq!(i, *value);
        i += 1;
    }
    assert_eq!(i, 10);
}

#[test]
fn vecmap_test_into_iter() {
    let map = create_map();
    let mut i = 0;
    for (idx, value) in map.into_iter() {
        assert_eq!(i * 2, idx);
        assert_eq!(i, value);
        i += 1;
    }
    assert_eq!(i, 10);
}

#[test]
fn vecmap_len_counts_the_values() {
    let mut map = VecMap::<i32>::new();
    assert_eq!(map.len(), 0);
    assert_eq!(map.capacity(), 0);
    map.reserve(10);
    assert!(map.capacity() >= 10);
    assert!(map.insert(1, 123).is_none());
    assert_eq!(map.insert(1, 456), Some(123));
    assert_eq!(map.len(), 1);
    assert!(map.insert(0, 123).is_none());
    assert_eq!(map.get(1), Some(&456));
    assert_eq!(map.get(3), None);
    assert_eq!(map.len(), 2);
    assert_eq!(map.remove(1), Some(456));
    assert_eq!(map.remove(1), None);
    assert_eq!(map.remove(7), None);
    assert_eq!(map.len(), 1);
    map.retain(|key, value| {
        *value += key as i32;
        false
    });
    assert_eq!(map.len(), 0);
    assert!(map.iter().is_empty());
}

#[test]
fn vecmap_test_from_iter() {
    let map = create_map();

    let entries: Vec<(usize, usize)> = map.iter().into_iter().map(|(k, v)| (k, *v)).collect();
    let map2 = VecMap::from_iter(entries);
    assert!(map == map2);

    let map2 = VecMap::from_iter(map.clone().into_iter());
    assert!(map == map2);
}

#[test]
fn vecmap_cells_round_trip() {
    let mut map = VecMap::new();
    map.insert(1, "a");
    map.insert(3, "c");
    assert_eq!(map.as_cells(), &vec![None, Some("a"), None, Some("c")]);

    let set = VecMap::from_cells(vec![None, Some("a"), Some("b"), None, None]);
    assert_eq!(set.len(), 2);
    assert_eq!(set.get(1), Some(&"a"));
    assert_eq!(set.get(2), Some(&"b"));
    assert!(set != map);
    let mut same = VecMap::from_cells(vec![None, Some("a"), None, Some("x")]);
    assert!(same != map);
    *same.get_mut(3).unwrap() = "c";
    assert!(same == map);
    assert!(same.clone() == map);
    same.extend(vec![(3, "d"), (0, "z")]);
    assert_eq!(same.len(), 3);
    assert_eq!(same.get(3), Some(&"d"));
}

#[test]
fn vecmap_test_iter_mut() {
    let mut map = create_map();
    let mut i = 0;
    for (idx, value) in map.iter_mut() {
        *value += 1;
        assert_eq!(i * 2, idx);
        assert_eq!(i + 1, *value);
        i += 1;
    }
    assert_eq!(i, 10);
    assert_eq!(map.get(4), Some(&3));
    assert_eq!(map.get(5), None);
    assert_eq!(map.len(), 10);
    assert_eq!(*map.index(18), 10);
    *map.index_mut(18) = 0;
    assert_eq!(map.get(18), Some(&0));
}
