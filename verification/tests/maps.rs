use std::collections::{BTreeMap, HashMap};

use collections::{
    Clear, Dequeue, GenIndex, GenIndexMap, GenIndexVecMap, IndexU64, Len, MapGet, MapInsert,
    MapMut, MapRemove, Merge, Pop, Push, Retain, VecMap,
};

fn key(text: &str) -> String {
    String::from(text)
}

fn create_hash_map() -> HashMap<String, u32> {
    let mut map = HashMap::new();
    for i in 0..10 {
        map.insert(format!("{i}"), i);
    }
    map
}

fn create_btree_map() -> BTreeMap<String, u32> {
    let mut map = BTreeMap::new();
    for i in 0..10 {
        map.insert(format!("{i}"), i);
    }
    map
}

#[test]
fn hashmap_test_clear_len() {
    let mut map = create_hash_map();
    assert_eq!(Len::len(&map), 10);
    Clear::clear(&mut map);
    assert!(Len::is_empty(&map));
}

#[test]
fn hashmap_test_map_get() {
    let map = create_hash_map();
    assert!(MapGet::contains_key(&map, &key("0")));
    assert_eq!(MapGet::get(&map, &key("1")), Some(&1));
    assert_eq!(MapGet::get(&map, &key("11")), None);
}

#[test]
fn hashmap_test_map_mut() {
    let mut map = create_hash_map();

    let new_value = 123;
    *MapMut::get_mut(&mut map, &key("1")).unwrap() = new_value;
    assert_eq!(map["1"], new_value);

    assert_eq!(MapMut::remove(&mut map, &key("1")), Some(new_value));
    assert_eq!(MapGet::get(&map, &key("1")), None);
}

#[test]
fn hashmap_test_map_remove() {
    let mut map = create_hash_map();
    assert_eq!(MapRemove::remove(&mut map, &key("1")), Some(("1".into(), 1)));
    assert_eq!(MapGet::get(&map, &key("1")), None);
}

#[test]
fn hashmap_test_map_insert() {
    let mut map = create_hash_map();

    let new_value = 123;
    assert_eq!(MapInsert::insert(&mut map, "1".into(), new_value), Some(1));
    assert_eq!(map["1"], new_value);

    assert_eq!(MapInsert::insert(&mut map, "999".into(), new_value), None);
    assert_eq!(map["999"], new_value);
}

#[test]
fn hashmap_test_retain() {
    let mut map = create_hash_map();

    Retain::retain(&mut map, |_, val| {
        if *val == 1 {
            *val = 3;
            true
        } else {
            false
        }
    });
    assert_eq!(map.len(), 1);
    assert_eq!(map["1"], 3);
}

#[test]
fn hashmap_test_merge() {
    let mut map = HashMap::new();
    map.insert("1", 1);
    let mut map2 = HashMap::new();
    map2.insert("2", 2);

    let map = Merge::merge(map, map2);
    assert_eq!(map.len(), 2);
    assert_eq!(map.get("1"), Some(&1));
    assert_eq!(map.get("2"), Some(&2));
}

#[test]
fn hashmap_merge_prefers_the_right_map() {
    let mut left = HashMap::new();
    left.insert(1u8, "left");
    left.insert(2u8, "left");
    let mut right = HashMap::new();
    right.insert(2u8, "right");
    right.insert(3u8, "right");
    let merged = Merge::merge(left, right);
    assert_eq!(merged.len(), 3);
    assert_eq!(merged[&1], "left");
    assert_eq!(merged[&2], "right");
    assert_eq!(merged[&3], "right");
    let mut merged = merged;
    assert!(MapMut::get_mut(&mut merged, &9).is_none());
    assert_eq!(MapRemove::remove(&mut merged, &9), None);
    assert_eq!(MapRemove::remove(&mut merged, &2), Some((2, "right")));
    assert_eq!(merged.len(), 2);
}

#[test]
fn btreemap_test_clear_len() {
    let mut map = create_btree_map();
    assert_eq!(Len::len(&map), 10);
    Clear::clear(&mut map);
    assert!(Len::is_empty(&map));
}

#[test]
fn btreemap_test_push() {
    let mut map = BTreeMap::new();
    map.insert(1, 1);
    assert_eq!(Push::push(&mut map, 2), 2);
    assert_eq!(map.last_key_value(), Some((&2, &2)));
}

#[test]
fn btreemap_test_pop() {
    let mut map = create_btree_map();
    assert_eq!(Pop::pop(&mut map), Some(0));
    assert_eq!(MapGet::get(&map, &key("0")), None);
}

#[test]
fn btreemap_test_dequeue() {
    let mut map = create_btree_map();
    assert_eq!(Dequeue::dequeue(&mut map), Some(9));
    assert_eq!(MapGet::get(&map, &key("9")), None);
}

#[test]
fn btreemap_test_map_get() {
    let map = create_btree_map();
    assert!(MapGet::contains_key(&map, &key("0")));
    assert_eq!(MapGet::get(&map, &key("1")), Some(&1));
    assert_eq!(MapGet::get(&map, &key("11")), None);
}

#[test]
fn btreemap_test_map_mut() {
    let mut map = create_btree_map();

    let new_value = 123;
    *MapMut::get_mut(&mut map, &key("1")).unwrap() = new_value;
    assert_eq!(map["1"], new_value);
}

#[test]
fn btreemap_test_map_remove() {
    let mut map = create_btree_map();
    assert_eq!(MapRemove::remove(&mut map, &key("1")), Some(("1".into(), 1)));
    assert_eq!(MapGet::get(&map, &key("1")), None);
}

#[test]
fn btreemap_test_map_insert() {
    let mut map = create_btree_map();

    let new_value = 123;
    assert_eq!(MapInsert::insert(&mut map, "1".into(), new_value), Some(1));
    assert_eq!(map["1"], new_value);

    assert_eq!(MapInsert::insert(&mut map, "999".into(), new_value), None);
    assert_eq!(map["999"], new_value);
}

#[test]
fn btreemap_test_retain() {
    let mut map = create_btree_map();

    Retain::retain(&mut map, |_, val| {
        if *val == 1 {
            *val = 3;
            true
        } else {
            false
        }
    });
    assert_eq!(map.len(), 1);
    assert_eq!(map["1"], 3);
}

#[test]
fn btreemap_test_merge() {
    let mut map = BTreeMap::new();
    map.insert("1", 1);
    let mut map2 = BTreeMap::new();
    map2.insert("2", 2);

    let map = Merge::merge(map, map2);
    assert_eq!(map.len(), 2);
    assert_eq!(map.get("1"), Some(&1));
    assert_eq!(map.get("2"), Some(&2));
}

#[test]
fn btreemap_ends_and_merge_order() {
    let mut left: BTreeMap<u8, &str> = BTreeMap::new();
    assert_eq!(Pop::pop(&mut left), None);
    assert_eq!(Dequeue::dequeue(&mut left), None);
    left.insert(5, "left");
    left.insert(1, "left");
    let mut right = BTreeMap::new();
    right.insert(5, "right");
    right.insert(9, "right");
    let mut merged = Merge::merge(left, right);
    assert_eq!(merged.len(), 3);
    assert_eq!(merged[&5], "right");
    assert!(MapMut::get_mut(&mut merged, &7).is_none());
    assert_eq!(MapRemove::remove(&mut merged, &7), None);
    assert_eq!(MapMut::remove(&mut merged, &7), None);
    assert_eq!(Pop::pop(&mut merged), Some("left"));
    assert_eq!(Dequeue::dequeue(&mut merged), Some("right"));
    assert_eq!(merged.len(), 1);
    assert_eq!(MapRemove::remove(&mut merged, &5), Some((5, "right")));
}

fn create_map() -> GenIndexVecMap<u32, IndexU64> {
    let mut map = GenIndexMap::new();
    for i in 0..10 {
        map.insert(IndexU64::from_index(i), i);
    }
    map
}

#[test]
fn genindexmap_test_clear_len() {
    let mut map = create_map();
    assert_eq!(Len::len(&map), 10);
    Clear::clear(&mut map);
    assert!(Len::is_empty(&map));
}

#[test]
fn genindexmap_test_map_get() {
    let map = create_map();
    let listed = map.iter();
    let (&first, &value) = listed[0];
    assert!(MapGet::contains_key(&map, &first));
    assert_eq!(MapGet::get(&map, &first), Some(&value));
    assert_eq!(MapGet::get(&map, &IndexU64::from_index(123)), None);
}

#[test]
fn genindexmap_test_map_mut() {
    let mut map = create_map();
    let first = *map.iter()[0].0;

    let new_value = 1234;
    *map.get_mut(&first).unwrap() = new_value;
    assert_eq!(*map.get(&first).unwrap(), new_value);

    let new_value = 123;
    *MapMut::get_mut(&mut map, &first).unwrap() = new_value;
    assert_eq!(MapGet::get(&map, &first), Some(&new_value));

    assert_eq!(MapMut::remove(&mut map, &first), Some(new_value));
    assert_eq!(MapGet::get(&map, &first), None);
}

#[test]
fn genindexmap_test_map_insert() {
    let mut map = create_map();
    let (first, value) = {
        let listed = map.iter();
        (*listed[0].0, *listed[0].1)
    };

    let new_value = 123;
    assert_eq!(MapInsert::insert(&mut map, first, new_value), Some(value));
    assert_eq!(MapGet::get(&map, &first), Some(&new_value));

    let unknown_idx = IndexU64::from_index(123);
    assert_eq!(MapInsert::insert(&mut map, unknown_idx, new_value), None);
    assert_eq!(MapGet::get(&map, &unknown_idx), Some(&new_value));
}

#[test]
fn genindexmap_test_retain() {
    let mut map = create_map();
    let idx1 = *map.iter()[1].0;

    map.retain(|_, val| {
        if *val == 1 {
            *val = 3;
            true
        } else {
            false
        }
    });
    assert_eq!(map.len(), 1);
    assert_eq!(map.get(&idx1), Some(&3));
}

#[test]
fn genindexmap_test_iter() {
    let map = create_map();
    let mut i = 0;
    for (idx, value) in map.iter() {
        assert_eq!(idx.index(), *value);
        assert_eq!(i, *value);
        i += 1;
    }
    assert_eq!(i, 10);
}

#[test]
fn genindexmap_test_into_iter() {
    let map = create_map();
    let mut i = 0;
    for (idx, value) in map.into_iter() {
        assert_eq!(idx.index(), value);
        assert_eq!(i, value);
        i += 1;
    }
    assert_eq!(i, 10);
}

#[test]
fn genindexmap_generations_guard_the_entries() {
    let mut map = GenIndexMap::<i32, IndexU64, VecMap<(IndexU64, i32)>>::new();
    assert_eq!(map.len(), 0);
    assert!(map.insert((1, 1).into(), 123).is_none());
    assert_eq!(map.insert((1, 2).into(), 456), Some(123));
    assert!(map.insert((2, 1).into(), 123).is_none());
    assert_eq!(map.get(&(1, 2).into()), Some(&456));
    assert_eq!(map.get(&(1, 1).into()), None);
    assert!(map.get_mut(&(1, 1).into()).is_none());
    assert_eq!(map.remove(&(1, 1).into()), None);
    assert_eq!(map.len(), 2);
    *map.get_mut(&(1, 2).into()).unwrap() += 1;
    assert_eq!(map.remove(&(1, 2).into()), Some(457));
    assert_eq!(map.remove(&(1, 2).into()), None);
    assert_eq!(map.len(), 1);

    let mut on_tree = collections::GenIndexBTreeMap::<u8, IndexU64>::new();
    assert_eq!(on_tree.insert((2, 1).into(), 2), None);
    assert_eq!(on_tree.insert((2, 2).into(), 3), Some(2));
    assert_eq!(on_tree.remove(&(2, 1).into()), None);
    assert_eq!(on_tree.remove(&(2, 2).into()), Some(3));
    assert_eq!(on_tree.len(), 0);

    let mut on_hash = collections::GenIndexHashMap::<&str, IndexU64>::new();
    assert_eq!(on_hash.insert((7, 3).into(), "seven"), None);
    assert_eq!(on_hash.get(&(7, 3).into()), Some(&"seven"));
    assert_eq!(on_hash.get(&(7, 4).into()), None);
    on_hash.retain(|handle, _| handle.index() != 7);
    assert_eq!(on_hash.len(), 0);
}

#[test]
fn genindexmap_test_iter_mut() {
    let mut map = create_map();
    let mut i = 0;
    for (idx, value) in map.iter_mut() {
        *value += 1;
        assert_eq!(i, idx.index());
        assert_eq!(i + 1, *value);
        i += 1;
    }
    assert_eq!(i, 10);
    assert_eq!(map.get(&IndexU64::from_index(3)), Some(&4));
    assert_eq!(map.as_map().len(), 10);
    let rebuilt = GenIndexMap::<u32, IndexU64, VecMap<(IndexU64, u32)>>::from_map(VecMap::from_cells(
        vec![None, Some((IndexU64::from_index(1), 5))],
    ));
    assert_eq!(rebuilt.get(&IndexU64::from_index(1)), Some(&5));
    assert_eq!(rebuilt.len(), 1);
}

#[test]
fn genindexmap_test_from_iter() {
    let map = create_map();

    let entries: Vec<(IndexU64, u32)> = map.iter().into_iter().map(|(h, v)| (*h, *v)).collect();
    let map2 = GenIndexVecMap::from_iter(entries);
    assert!(map == map2);

    let map2 = GenIndexVecMap::from_iter(map.clone().into_iter());
    assert!(map == map2);

    let mut other = GenIndexVecMap::<u32, IndexU64>::default();
    other.extend(vec![((0, 1).into(), 0), ((0, 2).into(), 9)]);
    assert_eq!(other.len(), 1);
    assert_eq!(other.get(&(0, 2).into()), Some(&9));
    assert!(map != other);
}
