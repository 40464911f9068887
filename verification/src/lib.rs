//! Containers keyed by generational indices: handles that stay valid while the
//! slot they name is reused, and the slot map and sparse set built on them.

pub mod btreemap;
mod capacity;
pub mod collection;
pub mod cons;
pub mod deque;
mod each_mut;
pub mod formatting;
pub mod genindex;
pub mod genindexmap;
pub mod hashmap;
mod hashing;
pub mod index;
pub mod indexf64;
pub mod indexu64;
pub mod map;
pub mod newtype;
pub mod pair;
pub mod slotmap;
pub mod sparseset;
pub mod stable_sort;
pub mod unsigned;
pub mod vec;
pub mod vecdeque;
pub mod vecmap;

pub use collection::{Clear, Len, Merge, Retain, Rev, Valid};
pub use cons::{Cons, Get, Here, Holds, There, Turns};
pub use deque::{Dequeue, Key, Pop, Push};
pub use genindex::GenIndex;
pub use genindexmap::{GenIndexBTreeMap, GenIndexHashMap, GenIndexMap, GenIndexVecMap};
pub use index::Index;
pub use indexf64::IndexF64;
pub use indexu64::IndexU64;
pub use map::{KeyedMap, MapGet, MapInsert, MapMut, MapRemove};
pub use newtype::NewTypeIndex;
pub use pair::IndexPair;
pub use slotmap::{PagedSlotMap, RebuildError};
pub use sparseset::{EntriesError, SparseSet};
pub use unsigned::UnsignedInt;
pub use vecmap::VecMap;
