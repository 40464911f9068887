use collections::{Cons, Get, Here, Holds, Merge, Rev, There, Turns};

#[test]
fn cons_len_and_is_empty() {
    assert!(Cons::is_empty(&()));
    assert_eq!(Cons::len(&()), 0);
    let list = (1, (2, (3, (4, (5, ())))));
    assert_eq!(Cons::len(&list), 5);
    assert!(!Cons::is_empty(&list));
}

#[test]
fn cons_get_by_type() {
    let mut list = (1f32, (1i32, (1u32, ())));
    let v: i32 = *Cons::get::<i32, There<Here>>(&list);
    assert_eq!(v, 1i32);
    *Cons::get_mut::<i32, _>(&mut list) = 10;
    assert_eq!(list, (1f32, (10i32, (1u32, ()))));
    *Get::<u32, There<There<Here>>>::get_mut(&mut list) = 7;
    assert_eq!(*Get::<u32, _>::get(&list), 7);
    assert_eq!(*Get::<f32, Here>::get(&list), 1f32);
}

#[test]
fn cons_merge_and_rev() {
    let (c1, (c2, (c3, (c4, (c5, ()))))) = Merge::merge((1, (2, ())), (3, (4, (5, ()))));
    assert_eq!([c1, c2, c3, c4, c5], [1, 2, 3, 4, 5]);
    let (c1, (c2, (c3, (c4, (c5, ()))))) = Cons::rev((1, (2, (3, (4, (5, ()))))));
    assert_eq!([c1, c2, c3, c4, c5], [5, 4, 3, 2, 1]);
    assert_eq!(Rev::rev((1u8, ("two", ()))), ("two", (1u8, ())));
    assert_eq!(Merge::merge((), (1, ())), (1, ()));
    assert_eq!(Rev::rev(()), ());
}

#[test]
fn cons_asks_as_get_and_rev_answer() {
    let mut list = (1u8, ("two", (3u32, ())));
    assert_eq!(*Cons::get::<&str, There<Here>>(&list), *Get::<&str, There<Here>>::get(&list));
    assert_eq!(*Holds::<u32, There<There<Here>>>::at(&list), 3);
    *Holds::<u8, Here>::at_mut(&mut list) = 9;
    assert_eq!(list, (9u8, ("two", (3u32, ()))));
    assert_eq!(Turns::turn(list), (3u32, ("two", (9u8, ()))));
    assert_eq!(Cons::rev((1u8, ())), (1u8, ()));
}
