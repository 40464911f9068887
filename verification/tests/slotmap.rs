use std::collections::hash_map::DefaultHasher;
use std::hash::{Hash, Hasher};

use collections::formatting::write_map;
use collections::{
    Clear, GenIndex, IndexPair, IndexU64, Len, MapGet, MapInsert, MapMut, PagedSlotMap, Push,
    RebuildError, Retain,
};

fn create_map() -> PagedSlotMap<u32, IndexPair, 64> {
    let mut map = PagedSlotMap::new();
    for i in 0..10 {
        let index: IndexPair = Push::push(&mut map, i);
        assert_eq!(index.index() as u32, i);
    }
    map
}

#[test]
fn test_default() {
    let map = PagedSlotMap::<u32, IndexPair, 64>::default();
    assert_eq!(map.len(), 0);
    assert_eq!(map.capacity(), 0);
}

#[test]
fn slotmap_test_clear_len() {
    let mut map = create_map();
    assert_eq!(Len::len(&map), 10);
    Clear::clear(&mut map);
    assert!(Len::is_empty(&map));
}

#[test]
fn slotmap_test_map_get() {
    let map = create_map();
    let listed = map.iter();
    let (&first, &value) = listed[0];
    assert!(MapGet::contains_key(&map, &first));
    assert_eq!(MapGet::get(&map, &first), Some(&value));
    assert_eq!(MapGet::get(&map, &IndexPair::from_index(123)), None);
}

#[test]
fn slotmap_test_map_mut() {
    let mut map = create_map();
    let first = *map.iter()[0].0;

    let new_value = 1234;
    *map.get_mut(&first).unwrap() = new_value;
    assert_eq!(*map.get(&first).unwrap(), new_value);

    let new_value = 123;
    *MapMut::get_mut(&mut map, &first).unwrap() = new_value;
    assert_eq!(MapGet::get(&map, &first), Some(&new_value));

    assert_eq!(MapMut::remove(&mut map, &first), Some(new_value));
    assert_eq!(MapGet::get(&map, &first), None);
}

#[test]
fn slotmap_test_map_insert() {
    let mut map = create_map();
    let (first, value) = {
        let listed = map.iter();
        (*listed[0].0, *listed[0].1)
    };

    let new_value = 123;
    assert_eq!(MapInsert::insert(&mut map, first, new_value), Some(value));
    assert_eq!(MapGet::get(&map, &first), Some(&new_value));

    let unknown_idx = IndexPair::from_index(123);
    assert_eq!(MapInsert::insert(&mut map, unknown_idx, new_value), None);
    assert_eq!(MapGet::get(&map, &unknown_idx), None);
}

#[test]
fn slotmap_test_retain() {
    let mut map = create_map();
    let idx1 = *map.iter()[1].0;

    Retain::retain(&mut map, |_, val| {
        if *val == 1 {
            *val = 3;
            true
        } else {
            false
        }
    });
    assert_eq!(map.len(), 1);
    assert_eq!(map.get(&idx1), Some(&3));
}

#[test]
fn slotmap_test_iter() {
    let map = create_map();
    let mut i = 0;
    for (idx, value) in map.iter() {
        assert_eq!(idx.index() as u32, *value);
        assert_eq!(i, *value);
        i += 1;
    }
    assert_eq!(i, 10);
}

#[test]
fn test_iter_rev() {
    let map = create_map();
    let mut i = 10;
    for (idx, value) in map.iter().into_iter().rev() {
        i -= 1;
        assert_eq!(idx.index() as u32, *value);
        assert_eq!(i, *value);
    }
    assert_eq!(i, 0);
}

#[test]
fn slotmap_test_into_iter() {
    let map = create_map();
    let mut i = 0;
    for (idx, value) in map.into_iter() {
        assert_eq!(idx.index() as u32, value);
        assert_eq!(i, value);
        i += 1;
    }
    assert_eq!(i, 10);
}

#[test]
fn test_into_iter_rev() {
    let map = create_map();
    let mut i = 10;
    for (idx, value) in map.into_iter().into_iter().rev() {
        i -= 1;
        assert_eq!(idx.index() as u32, value);
        assert_eq!(i, value);
    }
    assert_eq!(i, 0);
}

#[test]
fn slotmap_get_after_remove() {
    let mut map = PagedSlotMap::<i32, IndexPair, 64>::new();
    let idx = map.push(123);
    assert_eq!(map.get(&idx), Some(&123));
    assert_eq!(map.remove(&idx), Some(123));
    assert!(map.get(&idx).is_none());
    assert_eq!(map.remove(&idx), None);
    assert!(map.get_mut(&idx).is_none());
}

#[test]
fn slotmap_capacity_holds_the_slots() {
    let mut map = PagedSlotMap::<u8, IndexPair, 4>::new();
    assert_eq!(map.capacity(), 0);
    for i in 0..9 {
        map.push(i);
    }
    assert!(map.capacity() >= 9);
    map.reserve(100);
    assert!(map.capacity() >= 100);
    assert_eq!(map.len(), 9);
}

#[test]
fn slotmap_generation_advances_on_reuse() {
    let mut map = PagedSlotMap::<&str, IndexU64, 1>::new();
    let first = map.push("a");
    assert_eq!((first.index(), first.generation()), (0, 1));
    assert_eq!(map.remove(&first), Some("a"));
    let second = map.push("b");
    assert_eq!(second.index(), first.index());
    assert_eq!(second.generation(), 2);
    assert!(second.generation() > first.generation());
    assert_eq!(map.get(&first), None);
    assert_eq!(map.get(&second), Some(&"b"));
}

#[test]
fn slotmap_free_slots_are_reused_first_in_first_out() {
    let mut map = PagedSlotMap::<u32, IndexPair, 2>::new();
    let handles: Vec<IndexPair> = (0..6).map(|i| map.push(i)).collect();
    assert_eq!(map.remove(&handles[4]), Some(4));
    assert_eq!(map.remove(&handles[1]), Some(1));
    assert_eq!(map.remove(&handles[3]), Some(3));
    assert_eq!(map.len(), 3);
    let capacity_slots = map.iter().len() + 3;
    let a = map.push(10);
    let b = map.push(11);
    let c = map.push(12);
    assert_eq!((a.index(), b.index(), c.index()), (4, 1, 3));
    assert_eq!((a.generation(), b.generation(), c.generation()), (2, 2, 2));
    assert_eq!(map.len(), 6);
    assert_eq!(map.iter().len(), capacity_slots);
    let d = map.push(13);
    assert_eq!((d.index(), d.generation()), (6, 1));
}

#[test]
fn slotmap_scenario_page_size_two() {
    let mut map = PagedSlotMap::<u32, IndexPair, 2>::new();
    let handles: Vec<IndexPair> = (0..5).map(|i| map.push(i)).collect();
    for (i, handle) in handles.iter().enumerate() {
        assert_eq!(handle.index(), i);
        assert_eq!(handle.generation(), 1);
    }
    assert_eq!(map.remove(&handles[1]), Some(1));
    assert_eq!(map.get(&handles[1]), None);
    assert_eq!(map.len(), 4);
    let renewed = map.push(7);
    assert_eq!(renewed.index(), 1);
    assert_eq!(renewed.generation(), 2);
    let listed: Vec<(usize, usize, u32)> =
        map.iter().into_iter().map(|(h, v)| (h.index(), h.generation(), *v)).collect();
    assert_eq!(listed, vec![(0, 1, 0), (1, 2, 7), (2, 1, 2), (3, 1, 3), (4, 1, 4)]);
}

#[test]
fn slotmap_generation_wraps_to_one() {
    let mut map = PagedSlotMap::<u8, IndexPair<u8, u8>, 8>::from_parts(
        vec![IndexPair::from_raw_parts(0, 255)],
        vec![Some(9)],
    )
    .unwrap();
    let old = IndexPair::<u8, u8>::from_raw_parts(0, 255);
    assert_eq!(map.remove(&old), Some(9));
    let renewed = map.push(1);
    assert_eq!((renewed.index(), renewed.generation()), (0, 1));
    assert_eq!(map.get(&old), None);
}

#[test]
fn slotmap_retain_frees_highest_position_first() {
    let mut map = create_map();
    let handles: Vec<IndexPair> = map.iter().into_iter().map(|(h, _)| *h).collect();
    map.remove(&handles[5]);
    map.retain(|_, value| *value % 2 == 1);
    assert_eq!(map.len(), 4);
    let survivors: Vec<u32> = map.iter().into_iter().map(|(_, v)| *v).collect();
    assert_eq!(survivors, vec![1, 3, 7, 9]);
    let reused: Vec<usize> = (0..7).map(|i| map.push(100 + i).index()).collect();
    assert_eq!(reused, vec![5, 8, 6, 4, 2, 0, 10]);
    for handle in handles.iter().filter(|h| h.index() % 2 == 0 || h.index() == 5) {
        assert_eq!(map.get(handle), None);
    }
    map.retain(|_, _| true);
    assert_eq!(map.len(), 11);
    map.retain(|_, _| false);
    assert_eq!(map.len(), 0);
    assert_eq!(map.push(1).index(), 10);
}

#[test]
fn slotmap_parts_round_trip() {
    let mut map = PagedSlotMap::<&str, IndexPair, 2>::new();
    let idx1 = map.push("a");
    map.push("b");
    map.push("c");
    map.remove(&idx1);
    map.push("d");
    let (handles, values) = map.to_parts();
    let handles: Vec<(usize, usize)> = handles.into_iter().map(|h| h.into()).collect();
    assert_eq!(handles, vec![(0, 2), (1, 1), (2, 1)]);
    assert_eq!(values, vec![Some(&"d"), Some(&"b"), Some(&"c")]);
}

#[test]
fn slotmap_from_parts_threads_the_free_list() {
    let handles: Vec<IndexPair> = vec![(0, 2).into(), (1, 3).into(), (5, 3).into(), (3, 4).into()];
    let values = vec![Some("d"), Some("b"), None, Some("c")];
    let mut map = PagedSlotMap::<&str, IndexPair, 2>::from_parts(handles, values).unwrap();
    assert_eq!(map.len(), 3);
    assert_eq!(map.get(&IndexPair::from_raw_parts(1, 3)), Some(&"b"));
    assert_eq!(map.get(&IndexPair::from_raw_parts(3, 4)), Some(&"c"));
    assert_eq!(map.get(&IndexPair::from_raw_parts(0, 2)), Some(&"d"));
    assert_eq!(map.get(&IndexPair::from_raw_parts(2, 3)), None);
    let reused = map.push("e");
    assert_eq!((reused.index(), reused.generation()), (2, 4));
    let added = map.push("f");
    assert_eq!((added.index(), added.generation()), (4, 1));

    let handles: Vec<IndexPair> = vec![(9, 1).into(), (0, 1).into(), (2, 5).into(), (0, 7).into()];
    let values: Vec<Option<u8>> = vec![None, None, Some(1), None];
    let mut map = PagedSlotMap::<u8, IndexPair, 3>::from_parts(handles, values).unwrap();
    assert_eq!(map.len(), 1);
    let order: Vec<(usize, usize)> = (0..3).map(|_| map.push(0).into()).collect();
    assert_eq!(order, vec![(3, 8), (1, 2), (0, 2)]);
}

#[test]
fn slotmap_from_parts_rejects_wrong_input() {
    let short = PagedSlotMap::<u8, IndexPair, 2>::from_parts(vec![(0, 1).into()], vec![]);
    assert_eq!(short.err(), Some(RebuildError::LengthMismatch));

    let misplaced = PagedSlotMap::<u8, IndexPair, 2>::from_parts(
        vec![(0, 1).into(), (0, 1).into()],
        vec![Some(1), Some(2)],
    );
    assert_eq!(misplaced.err(), Some(RebuildError::ValueInFreeSlot));

    let handles: Vec<IndexPair<u8, u8>> = (0..257).map(|_| (1, 1).into()).collect();
    let values: Vec<Option<u8>> = (0..257).map(|_| None).collect();
    let crowded = PagedSlotMap::<u8, IndexPair<u8, u8>, 2>::from_parts(handles, values);
    assert_eq!(crowded.err(), Some(RebuildError::InvalidIndex));

    let empty = PagedSlotMap::<u8, IndexPair, 2>::from_parts(vec![], vec![]).unwrap();
    assert_eq!(empty.len(), 0);
}

#[test]
fn slotmap_clear_forgets_the_free_list() {
    let mut map = create_map();
    let handles: Vec<IndexPair> = map.iter().into_iter().map(|(h, _)| *h).collect();
    map.remove(&handles[3]);
    map.clear();
    assert_eq!(map.len(), 0);
    let first = map.push(5);
    assert_eq!((first.index(), first.generation()), (0, 1));
    assert_eq!(map.get(&handles[3]), None);
}

#[test]
fn test_clone_eq() {
    let map = create_map();
    let map2 = map.clone();
    assert!(map == map2);
}

#[test]
fn slotmap_test_from_iter() {
    let map = create_map();

    let values: Vec<u32> = map.iter().into_iter().map(|(_, v)| *v).collect();
    let map2 = PagedSlotMap::from_iter(values);
    assert!(map == map2);

    let values: Vec<u32> = map.clone().into_iter().into_iter().map(|(_, v)| v).collect();
    let map2 = PagedSlotMap::from_iter(values);
    assert!(map == map2);
}

#[test]
fn slotmap_eq_tells_maps_apart() {
    let map = create_map();
    let mut other = map.clone();
    let handles: Vec<IndexPair> = map.iter().into_iter().map(|(h, _)| *h).collect();
    *other.get_mut(&handles[3]).unwrap() = 99;
    assert!(map != other);
    *other.get_mut(&handles[3]).unwrap() = 3;
    assert!(map == other);
    other.remove(&handles[9]);
    assert!(map != other);
    let renewed = other.push(9);
    assert!(renewed != handles[9]);
    assert!(map != other);
    let mut longer = map.clone();
    longer.push(10);
    assert!(map != longer);
    assert!(PagedSlotMap::<u32, IndexPair, 64>::new() == PagedSlotMap::default());
}

#[test]
fn slotmap_extend_reuses_free_slots_first() {
    let mut map = PagedSlotMap::<u32, IndexPair, 3>::new();
    map.extend(vec![0, 1, 2, 3]);
    let handles: Vec<IndexPair> = map.iter().into_iter().map(|(h, _)| *h).collect();
    map.remove(&handles[2]);
    map.remove(&handles[0]);
    map.extend(vec![10, 11, 12]);
    let listed: Vec<(usize, usize, u32)> =
        map.iter().into_iter().map(|(h, v)| (h.index(), h.generation(), *v)).collect();
    assert_eq!(listed, vec![(0, 2, 11), (1, 1, 1), (2, 2, 10), (3, 1, 3), (4, 1, 12)]);
    map.extend(Vec::new());
    assert_eq!(map.len(), 5);
}

#[test]
fn slotmap_index_is_strict_access() {
    let mut map = create_map();
    let first = *map.iter()[0].0;
    let new_value = 1234;
    *map.index_mut(first) = new_value;
    assert_eq!(*map.index(first), new_value);
    assert_eq!(map.get(&first), Some(&new_value));
    assert_eq!(map.len(), 10);
}

#[test]
fn slotmap_test_iter_mut() {
    let mut map = create_map();
    let mut i = 0;
    for (idx, value) in map.iter_mut() {
        *value += 1;
        assert_eq!(i, idx.index() as u32);
        assert_eq!(i + 1, *value);
        i += 1;
    }
    assert_eq!(i, 10);
}

#[test]
fn test_iter_mut_rev() {
    let mut map = create_map();
    let mut i = 10;
    for (idx, value) in map.iter_mut().into_iter().rev() {
        i -= 1;
        *value += 1;
        assert_eq!(i, idx.index() as u32);
        assert_eq!(i + 1, *value);
    }
    assert_eq!(i, 0);
}

#[test]
fn slotmap_iter_mut_skips_free_slots_across_pages() {
    let mut map = PagedSlotMap::<u32, IndexPair, 3>::new();
    let handles: Vec<IndexPair> = (0..8).map(|i| map.push(i)).collect();
    map.remove(&handles[0]);
    map.remove(&handles[4]);
    map.remove(&handles[7]);
    let mut seen = Vec::new();
    for (handle, value) in map.iter_mut() {
        seen.push((handle.index(), *value));
        *value *= 10;
    }
    assert_eq!(seen, vec![(1, 1), (2, 2), (3, 3), (5, 5), (6, 6)]);
    let listed: Vec<(usize, u32)> = map.iter().into_iter().map(|(h, v)| (h.index(), *v)).collect();
    assert_eq!(listed, vec![(1, 10), (2, 20), (3, 30), (5, 50), (6, 60)]);
    assert_eq!(map.len(), 5);
    assert_eq!(map.push(9).index(), 0);
    let mut empty = PagedSlotMap::<u32, IndexPair, 3>::new();
    assert!(empty.iter_mut().is_empty());
}

fn hash_of<X: Hash>(value: &X) -> u64 {
    let mut s = DefaultHasher::new();
    value.hash(&mut s);
    s.finish()
}

#[test]
fn slotmap_test_hash() {
    let map = create_map();
    let map2 = map.clone();
    let mut s = DefaultHasher::new();
    map.hash(&mut s);
    let hash1 = s.finish();
    let mut s = DefaultHasher::new();
    map2.hash(&mut s);
    let hash2 = s.finish();
    assert_eq!(hash1, hash2);
}

#[test]
fn slotmap_hash_follows_the_contents() {
    let map = create_map();
    let mut other = map.clone();
    let first = *other.iter()[0].0;
    *other.get_mut(&first).unwrap() = 77;
    assert_ne!(hash_of(&map), hash_of(&other));
    *other.get_mut(&first).unwrap() = 0;
    assert_eq!(hash_of(&map), hash_of(&other));
    other.remove(&first);
    assert_ne!(hash_of(&map), hash_of(&other));
    assert_ne!(
        hash_of(&PagedSlotMap::<u32, IndexPair, 64>::new()),
        hash_of(&PagedSlotMap::<u32, IndexPair, 64>::from_iter(vec![0]))
    );
}

#[test]
fn test_debug() {
    let mut map = PagedSlotMap::<i32, IndexPair, 64>::new();
    let idx1 = map.push(0);
    let idx2 = map.push(1);
    assert_eq!(map.debug_string(), format!("{{{idx1:?}: 0, {idx2:?}: 1}}"));
    assert_eq!(PagedSlotMap::<i32, IndexPair, 64>::new().debug_string(), "{}");
    map.remove(&idx1);
    assert_eq!(map.debug_string(), "{IndexPair(1, 1): 1}");
}

#[test]
fn slotmap_pushes_take_older_free_slots_first() {
    let mut map = PagedSlotMap::<u32, IndexU64, 2>::new();
    let handles: Vec<IndexU64> = (0..5).map(|value| map.push(value)).collect();
    assert_eq!(map.remove(&handles[4]), Some(4));
    assert_eq!(map.remove(&handles[1]), Some(1));
    assert_eq!(map.remove(&handles[3]), Some(3));
    let first = map.push(10);
    let second = map.push(11);
    assert_eq!((first.index(), first.generation()), (4, 2));
    assert_eq!((second.index(), second.generation()), (1, 2));
    assert_eq!(map.len(), 4);
    let third = map.push(12);
    assert_eq!((third.index(), third.generation()), (3, 2));
    let fourth = map.push(13);
    assert_eq!((fourth.index(), fourth.generation()), (5, 1));
}

#[test]
fn write_map_lists_entries_between_braces() {
    assert_eq!(write_map(&Vec::new()), "{}");
    let one = vec![(String::from("a"), String::from("1"))];
    assert_eq!(write_map(&one), "{a: 1}");
    let three = vec![
        (String::from("a"), String::from("1")),
        (String::from(""), String::from("x, y")),
        (String::from("c"), String::from("")),
    ];
    assert_eq!(write_map(&three), "{a: 1, : x, y, c: }");
}
