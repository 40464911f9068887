use std::collections::VecDeque;

use collections::{
    Clear, Dequeue, Key, Len, MapGet, MapInsert, MapMut, MapRemove, Merge, Pop, Push, Retain, Rev,
};

#[test]
fn vec_test_clear_len() {
    let mut vec = vec![0, 1, 2];
    assert_eq!(Len::len(&vec), 3);
    Clear::clear(&mut vec);
    assert!(Len::is_empty(&vec));
}

#[test]
fn vec_test_map_get() {
    let vec = vec![0, 1, 2];
    assert!(MapGet::contains_key(&vec, &0));
    assert_eq!(MapGet::get(&vec, &1), Some(&1));
    assert_eq!(MapGet::get(&vec, &3), None);
}

#[test]
fn vec_test_push() {
    let mut vec = vec![0, 1, 2];
    assert_eq!(Push::push(&mut vec, 3), 3);
    assert_eq!(vec, vec![0, 1, 2, 3]);
}

#[test]
fn vec_test_pop() {
    let mut vec = vec![0, 1, 2];
    assert_eq!(Pop::pop(&mut vec), Some(2));
    assert_eq!(vec, vec![0, 1]);
}

#[test]
fn vec_test_dequeue() {
    let mut vec = vec![0, 1, 2];
    assert_eq!(Dequeue::dequeue(&mut vec), Some(0));
    assert_eq!(vec, vec![1, 2]);
}

#[test]
fn vec_test_concat() {
    let vec = vec![0, 1, 2];
    let vec2 = vec![3, 4];
    assert_eq!(Merge::merge(vec, vec2), vec![0, 1, 2, 3, 4]);
}

#[test]
fn vec_test_rev() {
    let vec = vec![0, 1, 2];
    assert_eq!(Rev::rev(vec), vec![2, 1, 0]);
}

#[test]
fn vec_test_map_mut() {
    let mut vec = vec![0, 1, 2];

    let new_value = 123;
    *MapMut::get_mut(&mut vec, &1).unwrap() = new_value;
    assert_eq!(vec, vec![0, new_value, 2]);

    assert_eq!(MapMut::remove(&mut vec, &1), Some(new_value));
    assert_eq!(vec, vec![0, 2]);
}

#[test]
fn vec_test_map_remove() {
    let mut vec = vec![0, 1, 2];
    assert_eq!(MapRemove::remove(&mut vec, &1), Some((1, 1)));
    assert_eq!(vec, vec![0, 2]);
}

#[test]
fn vec_test_map_insert() {
    let mut vec = vec![0, 1, 2];

    let new_value = 123;
    assert_eq!(MapInsert::insert(&mut vec, 1, new_value), Some(1));
    assert_eq!(vec, vec![0, new_value, 2]);

    assert_eq!(MapInsert::insert(&mut vec, 999, new_value), None);
    assert_eq!(vec, vec![0, new_value, 2]);
}

#[test]
fn vec_test_retain() {
    let mut vec = vec![0, 1, 2];

    Retain::retain(&mut vec, |_, val| {
        if *val == 1 {
            *val = 3;
            true
        } else {
            false
        }
    });
    assert_eq!(vec, vec![3]);
}

#[test]
fn vec_retain_keeps_order_and_passes_positions() {
    let mut vec = vec![10, 11, 12, 13, 14, 15];
    let mut seen = Vec::new();
    Retain::retain(&mut vec, |position, value| {
        seen.push((*position, *value));
        *position % 2 == 1
    });
    assert_eq!(seen, vec![(0, 10), (1, 11), (2, 12), (3, 13), (4, 14), (5, 15)]);
    assert_eq!(vec, vec![11, 13, 15]);
    let mut empty: Vec<u8> = Vec::new();
    assert_eq!(Pop::pop(&mut empty), None);
    assert_eq!(Dequeue::dequeue(&mut empty), None);
    assert_eq!(MapRemove::remove(&mut empty, &0), None);
    assert_eq!(Rev::rev(empty), Vec::<u8>::new());
    assert_eq!(Key::<String>::key(&String::from("k")), "k");
}

#[test]
fn vecdeque_test_clear_len() {
    let mut vec: VecDeque<i32> = vec![0, 1, 2].into();
    assert_eq!(Len::len(&vec), 3);
    Clear::clear(&mut vec);
    assert!(Len::is_empty(&vec));
}

#[test]
fn vecdeque_test_map_get() {
    let vec: VecDeque<i32> = vec![0, 1, 2].into();
    assert!(MapGet::contains_key(&vec, &0));
    assert_eq!(MapGet::get(&vec, &1), Some(&1));
    assert_eq!(MapGet::get(&vec, &3), None);
}

#[test]
fn vecdeque_test_push() {
    let mut vec: VecDeque<i32> = vec![0, 1, 2].into();
    assert_eq!(Push::push(&mut vec, 3), 3);
    assert_eq!(vec, vec![0, 1, 2, 3]);
}

#[test]
fn vecdeque_test_pop() {
    let mut vec: VecDeque<i32> = vec![0, 1, 2].into();
    assert_eq!(Pop::pop(&mut vec), Some(2));
    assert_eq!(vec, vec![0, 1]);
}

#[test]
fn vecdeque_test_dequeue() {
    let mut vec: VecDeque<i32> = vec![0, 1, 2].into();
    assert_eq!(Dequeue::dequeue(&mut vec), Some(0));
    assert_eq!(vec, vec![1, 2]);
}

#[test]
fn vecdeque_test_concat() {
    let vec: VecDeque<i32> = vec![0, 1, 2].into();
    let vec2 = vec![3, 4].into();
    assert_eq!(Merge::merge(vec, vec2), vec![0, 1, 2, 3, 4]);
}

#[test]
fn vecdeque_test_rev() {
    let vec: VecDeque<i32> = vec![0, 1, 2].into();
    assert_eq!(Rev::rev(vec), vec![2, 1, 0]);
}

#[test]
fn vecdeque_test_map_mut() {
    let mut vec: VecDeque<i32> = vec![0, 1, 2].into();

    let new_value = 123;
    *MapMut::get_mut(&mut vec, &1).unwrap() = new_value;
    assert_eq!(vec, vec![0, new_value, 2]);
}

#[test]
fn vecdeque_test_map_remove() {
    let mut vec: VecDeque<i32> = vec![0, 1, 2].into();
    assert_eq!(MapRemove::remove(&mut vec, &1), Some((1, 1)));
    assert_eq!(vec, vec![0, 2]);
}

#[test]
fn vecdeque_test_map_insert() {
    let mut vec: VecDeque<i32> = vec![0, 1, 2].into();

    let new_value = 123;
    assert_eq!(MapInsert::insert(&mut vec, 1, new_value), Some(1));
    assert_eq!(vec, vec![0, new_value, 2]);

    assert_eq!(MapInsert::insert(&mut vec, 999, new_value), None);
    assert_eq!(vec, vec![0, new_value, 2]);
}

#[test]
fn vecdeque_test_retain() {
    let mut vec: VecDeque<i32> = vec![0, 1, 2].into();

    Retain::retain(&mut vec, |_, val| {
        if *val == 1 {
            *val = 3;
            true
        } else {
            false
        }
    });
    assert_eq!(vec, vec![3]);
}

#[test]
fn vecdeque_get_mut_reaches_the_named_position() {
    let mut deque: VecDeque<i32> = vec![5, 6, 7, 8].into();
    deque.rotate_left(1);
    *MapMut::get_mut(&mut deque, &3).unwrap() += 10;
    assert_eq!(deque, vec![6, 7, 8, 15]);
    assert!(MapMut::get_mut(&mut deque, &4).is_none());
    assert_eq!(MapMut::remove(&mut deque, &0), Some(6));
    Retain::retain(&mut deque, |position, value| *position != 1 && *value != 0);
    assert_eq!(deque, vec![7, 15]);
}

#[test]
fn vecdeque_retain_keeps_order_and_passes_positions() {
    let mut deque: VecDeque<i32> = vec![10, 11, 12, 13, 14].into();
    deque.rotate_left(2);
    let mut seen = Vec::new();
    Retain::retain(&mut deque, |position, value| {
        seen.push((*position, *value));
        *value += 100;
        *position != 1 && *position != 4
    });
    assert_eq!(seen, vec![(0, 12), (1, 13), (2, 14), (3, 10), (4, 11)]);
    assert_eq!(deque, vec![112, 114, 110]);
}
