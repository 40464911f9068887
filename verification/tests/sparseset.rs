use std::cmp::Ordering;
use std::collections::hash_map::DefaultHasher;
use std::hash::{Hash, Hasher};

use collections::{
    Clear, EntriesError, GenIndex, IndexPair, IndexU64, Len, MapGet, MapInsert, MapMut, Retain,
    SparseSet,
};

fn create_map() -> SparseSet<u32, IndexU64> {
    let mut map = SparseSet::new();
    for i in 0..10 {
        map.insert(IndexU64::from_index(i), i);
    }
    map
}

fn cell(set: &SparseSet<&'static str, IndexU64>, raw: u32) -> Option<usize> {
    set.get_sparse_dense_indices(&IndexU64::from_index(raw)).unwrap().1
}

#[test]
fn sparseset_test_clear_len() {
    let mut map = create_map();
    assert_eq!(Len::len(&map), 10);
    Clear::clear(&mut map);
    assert!(Len::is_empty(&map));
}

#[test]
fn sparseset_test_map_get() {
    let map = create_map();
    let listed = map.iter();
    let (&first, &value) = listed[0];
    assert!(MapGet::contains_key(&map, &first));
    assert_eq!(MapGet::get(&map, &first), Some(&value));
    assert_eq!(MapGet::get(&map, &IndexU64::from_index(123)), None);
}

#[test]
fn sparseset_test_map_mut() {
    let mut map = create_map();
    let first = *map.iter()[0].0;

    let new_value = 1234;
    *map.get_mut(&first).unwrap() = new_value;
    assert_eq!(*map.get(&first).unwrap(), new_value);

    let new_value = 123;
    *MapMut::get_mut(&mut map, &first).unwrap() = new_value;
    assert_eq!(MapGet::get(&map, &first), Some(&new_value));

    assert_eq!(MapMut::remove(&mut map, &first), Some(new_value));
    assert_eq!(MapGet::get(&map, &first), None);
}

#[test]
fn sparseset_test_map_insert() {
    let mut map = create_map();
    let (first, value) = {
        let listed = map.iter();
        (*listed[0].0, *listed[0].1)
    };

    let new_value = 123;
    assert_eq!(MapInsert::insert(&mut map, first, new_value), Some(value));
    assert_eq!(MapGet::get(&map, &first), Some(&new_value));

    let unknown_idx = IndexU64::from_index(123);
    assert_eq!(MapInsert::insert(&mut map, unknown_idx, new_value), None);
    assert_eq!(MapGet::get(&map, &unknown_idx), Some(&new_value));
}

#[test]
fn sparseset_test_retain() {
    let mut map = create_map();
    let idx1 = *map.iter()[1].0;

    Retain::retain(&mut map, |_, val| {
        if *val == 1 {
            *val = 3;
            true
        } else {
            false
        }
    });
    assert_eq!(map.len(), 1);
    assert_eq!(map.get(&idx1), Some(&3));
}

#[test]
fn sparseset_test_iter() {
    let map = create_map();
    let mut i = 0;
    for (idx, value) in map.iter() {
        assert_eq!(idx.index(), *value);
        assert_eq!(i, *value);
        i += 1;
    }
    assert_eq!(i, 10);
}

#[test]
fn sparseset_test_into_iter() {
    let map = create_map();
    let mut i = 0;
    for (idx, value) in map.into_iter() {
        assert_eq!(idx.index(), value);
        assert_eq!(i, value);
        i += 1;
    }
    assert_eq!(i, 10);
}

#[test]
fn sparseset_insert_get_remove() {
    let mut set = SparseSet::<i32, IndexU64>::new();
    let idx: IndexU64 = (1, 1).into();
    assert!(set.insert(idx, 123).is_none());
    assert_eq!(set.insert(idx, 456), Some(123));
    assert_eq!(set.get(&idx), Some(&456));
    assert!(set.get(&(2, 1).into()).is_none());
    *set.get_mut(&idx).unwrap() += 1;
    assert_eq!(set.get(&idx), Some(&457));
    set.insert((3, 1).into(), 9);
    assert_eq!(set.remove(&(2, 1).into()), None);
    assert_eq!(set.remove(&idx), Some(457));
    assert_eq!(set.remove(&idx), None);
    assert_eq!(set.len(), 1);
}

#[test]
fn sparseset_insert_keeps_the_handle_of_the_entry() {
    let mut set = SparseSet::<i32, IndexU64>::new();
    let old: IndexU64 = (4, 1).into();
    let new: IndexU64 = (4, 2).into();
    assert_eq!(set.insert(old, 1), None);
    assert_eq!(set.insert(new, 2), Some(1));
    assert_eq!(set.len(), 1);
    assert_eq!(set.get(&old), Some(&2));
    assert_eq!(set.get(&new), None);
    assert_eq!(set.remove(&new), None);
    assert_eq!(set.remove(&old), Some(2));
}

#[test]
fn sparseset_scenario_swap_remove() {
    let mut set = SparseSet::<&'static str, IndexU64>::new();
    set.insert(IndexU64::from_index(5), "five");
    set.insert(IndexU64::from_index(0), "zero");
    set.insert(IndexU64::from_index(4), "four");
    let dense: Vec<u32> = set.iter().into_iter().map(|(h, _)| h.index()).collect();
    assert_eq!(dense, vec![5, 0, 4]);
    assert_eq!(cell(&set, 0), Some(1));
    assert_eq!(cell(&set, 4), Some(2));
    assert_eq!(cell(&set, 5), Some(0));
    assert_eq!(cell(&set, 3), Some(usize::MAX));
    assert_eq!(cell(&set, 6), None);

    assert_eq!(set.remove(&IndexU64::from_index(0)), Some("zero"));
    let dense: Vec<u32> = set.iter().into_iter().map(|(h, _)| h.index()).collect();
    assert_eq!(dense, vec![5, 4]);
    assert_eq!(cell(&set, 4), Some(1));
    assert_eq!(cell(&set, 0), Some(usize::MAX));
    assert_eq!(cell(&set, 5), Some(0));
    assert_eq!(set.len(), 2);
}

#[test]
fn sparseset_remove_last_entry() {
    let mut set = SparseSet::<&'static str, IndexU64>::new();
    set.insert(IndexU64::from_index(2), "two");
    set.insert(IndexU64::from_index(1), "one");
    assert_eq!(set.remove(&IndexU64::from_index(1)), Some("one"));
    assert_eq!(cell(&set, 1), Some(usize::MAX));
    assert_eq!(cell(&set, 2), Some(0));
    assert_eq!(set.remove(&IndexU64::from_index(2)), Some("two"));
    assert_eq!(set.len(), 0);
    assert_eq!(cell(&set, 2), Some(usize::MAX));
}

#[test]
fn sparseset_every_used_cell_points_at_its_entry() {
    let mut set = SparseSet::<u32, IndexU64>::new();
    let raws = [7u32, 3, 9, 0, 3, 12, 7, 1];
    for (step, raw) in raws.iter().enumerate() {
        if step % 3 == 2 {
            set.remove(&IndexU64::from_index(raws[step - 1]));
        }
        set.insert(IndexU64::from_index(*raw), *raw * 10);
        let listed: Vec<(u32, u32)> = set.iter().into_iter().map(|(h, v)| (h.index(), *v)).collect();
        for raw in 0..14u32 {
            let found = set.get_sparse_dense_indices(&IndexU64::from_index(raw)).unwrap().1;
            match found {
                Some(pos) if pos != usize::MAX => assert_eq!(listed[pos], (raw, raw * 10)),
                _ => assert!(listed.iter().all(|(r, _)| *r != raw)),
            }
        }
    }
}

#[test]
fn sparseset_index_that_does_not_fit() {
    if usize::BITS < 64 {
        return;
    }
    let mut set = SparseSet::<u8, IndexPair<u64, u8>>::new();
    assert_eq!(set.insert((3, 1).into(), 1), None);
    assert_eq!(set.get(&(3, 1).into()), Some(&1));
    assert_eq!(set.get(&(u64::MAX - 1, 1).into()), None);
}

#[test]
fn sparseset_sort_is_stable_and_repairs_the_sparse_array() {
    let mut set = SparseSet::<i32, IndexU64>::new();
    let (idx1, idx2, idx3): (IndexU64, IndexU64, IndexU64) =
        ((0, 1).into(), (5, 1).into(), (1, 1).into());
    set.insert(idx1, 2);
    set.insert(idx2, 3);
    set.insert(idx3, 1);
    set.sort_by(|(_, v1), (_, v2)| v1.cmp(v2));
    assert_eq!(set.get(&idx1), Some(&2));
    assert_eq!(set.get(&idx2), Some(&3));
    assert_eq!(set.get(&idx3), Some(&1));
    let values: Vec<i32> = set.iter().into_iter().map(|(_, v)| *v).collect();
    assert_eq!(values, vec![1, 2, 3]);

    let mut set = SparseSet::<(u8, char), IndexU64>::new();
    let keyed = [(2, 'a'), (1, 'b'), (2, 'c'), (0, 'd'), (1, 'e'), (2, 'f'), (0, 'g')];
    for (raw, value) in keyed.iter().enumerate() {
        set.insert(IndexU64::from_index(20 - raw as u32), *value);
    }
    set.sort_by(|(_, a), (_, b)| a.0.cmp(&b.0));
    let sorted: Vec<(u8, char)> = set.iter().into_iter().map(|(_, v)| *v).collect();
    assert_eq!(
        sorted,
        vec![(0, 'd'), (0, 'g'), (1, 'b'), (1, 'e'), (2, 'a'), (2, 'c'), (2, 'f')]
    );
    for (pos, (handle, value)) in set.iter().into_iter().enumerate() {
        assert_eq!(set.get_sparse_dense_indices(handle).unwrap().1, Some(pos));
        assert_eq!(set.get(handle), Some(value));
    }
    set.sort_by(|_, _| Ordering::Equal);
    let unchanged: Vec<(u8, char)> = set.iter().into_iter().map(|(_, v)| *v).collect();
    assert_eq!(unchanged, sorted);
    set.sort_by(|(a, _), (b, _)| a.index().cmp(&b.index()));
    let by_index: Vec<u32> = set.iter().into_iter().map(|(h, _)| h.index()).collect();
    assert_eq!(by_index, vec![14, 15, 16, 17, 18, 19, 20]);
}

#[test]
fn sparseset_retain_shows_the_moved_entry_next() {
    let mut set = SparseSet::<u32, IndexU64>::new();
    for raw in [4u32, 8, 2, 6, 1] {
        set.insert(IndexU64::from_index(raw), raw);
    }
    let mut seen = Vec::new();
    set.retain(|handle, value| {
        seen.push(handle.index());
        *value += 100;
        *value % 4 != 0
    });
    assert_eq!(seen, vec![4, 1, 8, 6, 2]);
    let left: Vec<(u32, u32)> = set.iter().into_iter().map(|(h, v)| (h.index(), *v)).collect();
    assert_eq!(left, vec![(1, 101), (6, 106), (2, 102)]);
    assert_eq!(set.get(&IndexU64::from_index(4)), None);
    assert_eq!(set.get(&IndexU64::from_index(6)), Some(&106));
}

#[test]
fn sparseset_capacity_and_reserve() {
    let mut set = SparseSet::<(), IndexU64>::new();
    assert_eq!(set.capacity(), 0);
    set.reserve(10);
    assert!(set.capacity() >= 10);
    assert_eq!(set.len(), 0);
}

#[test]
fn test_eq() {
    let map = create_map();
    let map2 = map.clone();
    assert!(map == map2);
}

#[test]
fn sparseset_test_from_iter() {
    let map = create_map();

    let entries: Vec<(IndexU64, u32)> = map.iter().into_iter().map(|(h, v)| (*h, *v)).collect();
    let map2 = SparseSet::from_iter(entries);
    assert!(map == map2);

    let map2 = SparseSet::from_iter(map.clone().into_iter());
    assert!(map == map2);
}

#[test]
fn sparseset_eq_compares_the_dense_arrays() {
    let mut left = SparseSet::<u8, IndexU64>::new();
    let mut right = SparseSet::<u8, IndexU64>::new();
    left.extend(vec![((1, 1).into(), 1), ((2, 1).into(), 2)]);
    right.extend(vec![((2, 1).into(), 2), ((1, 1).into(), 1)]);
    assert!(left != right);
    right.sort_by(|(a, _), (b, _)| a.index().cmp(&b.index()));
    assert!(left == right);
    right.insert((1, 1).into(), 9);
    assert!(left != right);
    right.extend(vec![((1, 5).into(), 1)]);
    assert!(left == right);
    right.remove(&(2, 1).into());
    assert!(left != right);
}

#[test]
fn sparseset_from_entries_checks_the_raw_indices() {
    let entries: Vec<(IndexU64, &str)> = vec![((1, 1).into(), "a"), ((3, 1).into(), "c")];
    let set = SparseSet::from_entries(entries).unwrap();
    assert_eq!(set.len(), 2);
    assert_eq!(set.get(&(1, 1).into()), Some(&"a"));
    assert_eq!(set.get(&(3, 1).into()), Some(&"c"));
    assert_eq!(set.get(&(2, 1).into()), None);

    let twice: Vec<(IndexU64, &str)> =
        vec![((1, 1).into(), "a"), ((3, 1).into(), "c"), ((1, 2).into(), "b")];
    assert_eq!(SparseSet::from_entries(twice).err(), Some(EntriesError::DuplicateIndex));

    if usize::BITS == 64 {
        let wide: Vec<(IndexPair<u64, u8>, u8)> = vec![((u64::MAX, 1).into(), 0)];
        assert_eq!(SparseSet::from_entries(wide).err(), Some(EntriesError::InvalidIndex));
    }
    let none: Vec<(IndexU64, u8)> = Vec::new();
    assert_eq!(SparseSet::from_entries(none).unwrap().len(), 0);
}

#[test]
fn sparseset_test_iter_mut() {
    let mut map = create_map();
    let mut i = 0;
    for (idx, value) in map.iter_mut() {
        *value += 1;
        assert_eq!(i, idx.index());
        assert_eq!(i + 1, *value);
        i += 1;
    }
    assert_eq!(i, 10);
    assert_eq!(map.get(&IndexU64::from_index(4)), Some(&5));
    assert_eq!(*map.index(IndexU64::from_index(9)), 10);
    *map.index_mut(IndexU64::from_index(9)) = 0;
    assert_eq!(map.get(&IndexU64::from_index(9)), Some(&0));
    assert_eq!(map.len(), 10);
}

#[test]
fn sparseset_test_hash() {
    let map = create_map();
    let vec: Vec<(IndexU64, u32)> = map.clone().into_iter().into_iter().collect();
    let mut s = DefaultHasher::new();
    map.hash(&mut s);
    let hash1 = s.finish();
    let mut s = DefaultHasher::new();
    vec.hash(&mut s);
    let hash2 = s.finish();
    assert_eq!(hash1, hash2);
    let mut other = map.clone();
    other.remove(&IndexU64::from_index(3));
    let mut s = DefaultHasher::new();
    other.hash(&mut s);
    assert_ne!(hash1, s.finish());
}
