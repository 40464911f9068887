use collections::{GenIndex, Index, IndexF64, IndexPair, IndexU64, NewTypeIndex};

#[derive(Debug)]
struct TestType;

#[test]
fn index_test_create() {
    let index: Index<u32, u16> = Index::from_raw_parts(0, 0);
    assert_eq!(index, Index::default());

    let index: Index<u32, u16> = (2, 3).into();
    assert_eq!((index.index(), index.generation()), index.into());
}

#[test]
fn index_test_cmp() {
    assert!(<Index>::from_raw_parts(1, 1) < Index::from_raw_parts(2, 1));
    assert!(<Index>::from_raw_parts(1, 3) < Index::from_raw_parts(2, 1));

    assert_eq!(<Index>::from_raw_parts(1, 3), Index::from_raw_parts(1, 3));
    assert_ne!(<Index>::from_raw_parts(1, 3), Index::from_raw_parts(1, 2));

    assert!(!(<Index>::from_raw_parts(1, 3) < Index::from_raw_parts(1, 4)));
    assert!(!(<Index>::from_raw_parts(1, 4) < Index::from_raw_parts(1, 3)));
}

#[test]
fn pair_test_create() {
    let index: IndexPair<u32, u16> = IndexPair::from_raw_parts(0, 0);
    assert_eq!(index, IndexPair::default());

    let index: IndexPair<u32, u16> = (2, 3).into();
    assert_eq!((index.index(), index.generation()), index.into());
}

#[test]
fn pair_test_cmp() {
    assert!(<IndexPair>::from_raw_parts(1, 1) < IndexPair::from_raw_parts(2, 1));
    assert!(<IndexPair>::from_raw_parts(1, 3) < IndexPair::from_raw_parts(2, 1));

    assert_eq!(<IndexPair>::from_raw_parts(1, 3), IndexPair::from_raw_parts(1, 3));
    assert_ne!(<IndexPair>::from_raw_parts(1, 3), IndexPair::from_raw_parts(1, 2));

    assert!(!(<IndexPair>::from_raw_parts(1, 3) < IndexPair::from_raw_parts(1, 4)));
    assert!(!(<IndexPair>::from_raw_parts(1, 4) < IndexPair::from_raw_parts(1, 3)));
}

#[test]
fn indexu64_test_create() {
    let index: IndexU64 = IndexU64::from_raw_parts(0, 0);
    assert_eq!(index, IndexU64::default());

    let index: IndexU64 = (2, 3).into();
    assert_eq!((index.index(), index.generation()), index.into());

    assert_eq!((3 << 32) | 2, Into::<u64>::into(index));
    assert_eq!(Into::<IndexU64>::into((3 << 32) | 2), index);
}

#[test]
fn indexu64_test_cmp() {
    assert!(IndexU64::from_raw_parts(1, 1) < IndexU64::from_raw_parts(2, 1));
    assert!(IndexU64::from_raw_parts(1, 3) < IndexU64::from_raw_parts(2, 1));

    assert_eq!(IndexU64::from_raw_parts(1, 3), IndexU64::from_raw_parts(1, 3));
    assert_ne!(IndexU64::from_raw_parts(1, 3), IndexU64::from_raw_parts(1, 2));

    assert!(!(IndexU64::from_raw_parts(1, 3) < IndexU64::from_raw_parts(1, 4)));
    assert!(!(IndexU64::from_raw_parts(1, 4) < IndexU64::from_raw_parts(1, 3)));
}

#[test]
fn indexf64_test_create() {
    let index: IndexF64 = IndexF64::from_raw_parts(0, 0);
    assert_eq!(index, IndexF64::default());

    let index: IndexF64 = (2, 3).into();
    assert_eq!((index.index(), index.generation()), index.into());

    assert_eq!(((3u64 << 32) | 2) as f64, index.to_integer() as f64);
    assert_eq!(IndexF64::from_integer((((3u64 << 32) | 2) as f64 + 0.5) as u64), index);
}

#[test]
fn indexf64_test_cmp() {
    assert!(IndexF64::from_raw_parts(1, 1) < IndexF64::from_raw_parts(2, 1));
    assert!(IndexF64::from_raw_parts(1, 3) < IndexF64::from_raw_parts(2, 1));

    assert_eq!(IndexF64::from_raw_parts(1, 3), IndexF64::from_raw_parts(1, 3));
    assert_ne!(IndexF64::from_raw_parts(1, 3), IndexF64::from_raw_parts(1, 2));

    assert!(!(IndexF64::from_raw_parts(1, 3) < IndexF64::from_raw_parts(1, 4)));
    assert!(!(IndexF64::from_raw_parts(1, 4) < IndexF64::from_raw_parts(1, 3)));
}

#[test]
fn newtype_test_create() {
    let index: NewTypeIndex<TestType> = NewTypeIndex::from_raw_parts(0, 0);
    assert_eq!(index, NewTypeIndex::default());

    let index: NewTypeIndex<TestType> = (2, 3).into();
    assert_eq!((index.index(), index.generation()), index.into());
}

#[test]
fn newtype_test_cmp() {
    assert!(NewTypeIndex::<TestType>::from_raw_parts(1, 1) < NewTypeIndex::from_raw_parts(2, 1));
    assert!(NewTypeIndex::<TestType>::from_raw_parts(1, 3) < NewTypeIndex::from_raw_parts(2, 1));

    assert_eq!(
        NewTypeIndex::<TestType>::from_raw_parts(1, 3),
        NewTypeIndex::from_raw_parts(1, 3)
    );
    assert_ne!(
        NewTypeIndex::<TestType>::from_raw_parts(1, 3),
        NewTypeIndex::from_raw_parts(1, 2)
    );

    assert!(!(NewTypeIndex::<TestType>::from_raw_parts(1, 3) < NewTypeIndex::from_raw_parts(1, 4)));
    assert!(!(NewTypeIndex::<TestType>::from_raw_parts(1, 4) < NewTypeIndex::from_raw_parts(1, 3)));
}

#[test]
fn genindex_round_trip_of_the_encodings() {
    for (index, generation) in [(0u32, 0u32), (1, 1), (u32::MAX, u32::MAX), (7, u32::MAX), (u32::MAX, 0)] {
        let packed = IndexU64::from_raw_parts(index, generation);
        assert_eq!((packed.index(), packed.generation()), (index, generation));
    }
    for (index, generation) in [(0u32, 0u32), (1, 1), (u32::MAX, (1 << 21) - 1), (9, 1 << 20)] {
        let safe = IndexF64::from_raw_parts(index, generation);
        assert_eq!((safe.index(), safe.generation()), (index, generation));
        assert!(safe.to_integer() < (1u64 << 53));
    }
    let pair = IndexPair::<u8, u64>::from_raw_parts(255, u64::MAX);
    assert_eq!((pair.index(), pair.generation()), (255, u64::MAX));
    let plain = Index::<u16, usize>::from_raw_parts(65535, 12);
    assert_eq!((plain.index(), plain.generation()), (65535, 12));
    let branded = NewTypeIndex::<TestType, IndexU64>::from_raw_parts(3, 4);
    assert_eq!((branded.index(), branded.generation()), (3, 4));
}

#[test]
fn genindex_float_safe_generation_is_cut_to_21_bits() {
    assert_eq!(IndexF64::max_generation(), (1 << 21) - 1);
    let cut = IndexF64::from_raw_parts(5, (1 << 21) + 3);
    assert_eq!((cut.index(), cut.generation()), (5, 3));
    let dropped = IndexF64::from_integer(u64::MAX);
    assert_eq!(dropped.to_integer(), (1 << 53) - 1);
    assert_eq!((dropped.index(), dropped.generation()), (u32::MAX, (1 << 21) - 1));
}

#[test]
fn genindex_from_index_null_and_next_generation() {
    assert_eq!(IndexU64::from_index(10), IndexU64::from_raw_parts(10, 1));
    assert_eq!(IndexU64::null(), IndexU64::default());
    assert!(IndexU64::null().is_null());
    assert!(!IndexU64::from_index(0).is_null());
    assert!(!IndexU64::from_raw_parts(1, 0).is_null());
    assert_eq!(
        IndexU64::from_raw_parts(10, 11).next_generation(),
        IndexU64::from_raw_parts(10, 12)
    );
    assert_eq!(
        IndexU64::from_raw_parts(10, u32::MAX).next_generation(),
        IndexU64::from_raw_parts(10, 1)
    );
    assert_eq!(
        IndexF64::from_raw_parts(3, (1 << 21) - 1).next_generation(),
        IndexF64::from_raw_parts(3, 1)
    );
    assert_eq!(
        IndexPair::<u8, u8>::from_raw_parts(3, 0).next_generation(),
        IndexPair::from_raw_parts(3, 1)
    );
    assert!(IndexPair::<u8, u8>::from_raw_parts(3, 4).same(&IndexPair::from_raw_parts(3, 4)));
    assert!(!IndexPair::<u8, u8>::from_raw_parts(3, 4).same(&IndexPair::from_raw_parts(3, 5)));
}

#[test]
fn genindex_parts_of_every_width() {
    fn check<I: collections::UnsignedInt + PartialEq + std::fmt::Debug>(max: I, two: usize) {
        let handle = Index::<I, I>::from_index(I::from_usize(two).unwrap());
        assert_eq!(handle.generation(), I::one());
        assert_eq!(handle.index().to_usize(), Some(two));
        assert_eq!(Index::<I, I>::default().index(), I::zero());
        assert_eq!(Index::<I, I>::default().generation(), I::zero());
        assert_eq!(Index::<I, I>::max_generation(), max);
        assert_eq!(I::one().succ().to_usize(), Some(2));
        assert!(I::zero().below(I::one()));
        assert!(!I::one().below(I::one()));
        assert!(I::max_value().same(max));
    }
    check::<u8>(u8::MAX, 2);
    check::<u16>(u16::MAX, 2);
    check::<u32>(u32::MAX, 2);
    check::<u64>(u64::MAX, 2);
    check::<usize>(usize::MAX, 2);
    assert_eq!(<u8 as collections::UnsignedInt>::from_usize(256), None);
    assert_eq!(<u16 as collections::UnsignedInt>::from_usize(65536), None);
    assert_eq!(<u8 as collections::UnsignedInt>::from_usize(255), Some(255));
    if usize::BITS == 64 {
        assert_eq!(<u32 as collections::UnsignedInt>::from_usize(1 << 32), None);
        assert_eq!(collections::UnsignedInt::to_usize(u64::MAX), Some(usize::MAX));
    }
}
